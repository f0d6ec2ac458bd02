//! Assertion sets: a node keeps its assertions in ascending digest order,
//! so the set of assertion digests alone decides the node's digest.
use vstd::prelude::*;
use crate::digest::{lex_lt, lemma_lex_lt_transitive, lemma_lex_lt_irreflexive, DIGEST_LEN};
use crate::tree::{Tree, digest_of, sorted_by_digest};
use crate::envelope::{subject_of, assertions_of};
use crate::obscure::lemma_concat_pointwise;

verus! {

/// `s` with `a` inserted in digest order; unchanged when an assertion with
/// the same digest is already there.
pub open spec fn insert_by_digest(s: Seq<Tree>, a: Tree) -> Seq<Tree>
    decreases s.len(),
{
    if s.len() == 0 {
        seq![a]
    } else if digest_of(s[0]) == digest_of(a) {
        s
    } else if lex_lt(digest_of(a), digest_of(s[0])) {
        seq![a] + s
    } else {
        seq![s[0]] + insert_by_digest(s.subrange(1, s.len() as int), a)
    }
}

/// `t` with assertion `a` added to its assertion set.
pub open spec fn with_assertion(t: Tree, a: Tree) -> Tree {
    Tree::Node(Box::new(subject_of(t)), insert_by_digest(assertions_of(t), a))
}

/// Every digest in `s` is 32 bytes long.
pub open spec fn digests_sized(s: Seq<Tree>) -> bool {
    forall|i: int| 0 <= i < s.len() ==> (#[trigger] digest_of(s[i])).len() == DIGEST_LEN
}

/// Inserting at the position that the digest order gives is
/// `insert_by_digest`.
pub proof fn lemma_insert_position(s: Seq<Tree>, a: Tree, p: int)
    requires
        0 <= p <= s.len(),
        digests_sized(s),
        digest_of(a).len() == DIGEST_LEN,
        forall|i: int| 0 <= i < p ==> lex_lt(#[trigger] digest_of(s[i]), digest_of(a)),
        p < s.len() ==> lex_lt(digest_of(a), digest_of(s[p])) || digest_of(s[p]) == digest_of(a),
    ensures
        p < s.len() && digest_of(s[p]) == digest_of(a) ==> insert_by_digest(s, a) == s,
        !(p < s.len() && digest_of(s[p]) == digest_of(a)) ==> insert_by_digest(s, a) == s.insert(
            p,
            a,
        ),
    decreases s.len(),
{
    if s.len() == 0 {
        assert(s.insert(p, a) =~= seq![a]);
    } else if p == 0 {
        if digest_of(s[0]) != digest_of(a) {
            assert(s.insert(0, a) =~= seq![a] + s);
        }
    } else {
        let rest = s.subrange(1, s.len() as int);
        assert(lex_lt(digest_of(s[0]), digest_of(a)));
        lemma_lex_lt_irreflexive(digest_of(s[0]), digest_of(a));
        assert forall|i: int| 0 <= i < p - 1 implies lex_lt(#[trigger] digest_of(rest[i]), digest_of(a)) by {
            assert(rest[i] == s[i + 1]);
        }
        assert forall|i: int| 0 <= i < rest.len() implies (#[trigger] digest_of(rest[i])).len() == DIGEST_LEN by {
            assert(rest[i] == s[i + 1]);
        }
        if p < s.len() {
            assert(rest[p - 1] == s[p]);
        }
        lemma_insert_position(rest, a, p - 1);
        if p < s.len() && digest_of(s[p]) == digest_of(a) {
            assert(seq![s[0]] + rest =~= s);
        } else {
            assert(seq![s[0]] + rest.insert(p - 1, a) =~= s.insert(p, a));
        }
    }
}

/// The digests of a sequence of trees.
pub open spec fn digest_seq(s: Seq<Tree>) -> Seq<Seq<u8>> {
    Seq::new(s.len(), |i: int| digest_of(s[i]))
}

/// Digests in strictly ascending order.
pub open spec fn strictly_ascending(d: Seq<Seq<u8>>) -> bool {
    forall|i: int, j: int| 0 <= i < j < d.len() ==> lex_lt(#[trigger] d[i], #[trigger] d[j])
}

/// Inserting keeps the order, keeps the sizes, and adds exactly the new
/// digest to the set of digests.
proof fn lemma_insert_facts(s: Seq<Tree>, a: Tree)
    requires
        sorted_by_digest(s),
        digests_sized(s),
        digest_of(a).len() == DIGEST_LEN,
    ensures
        sorted_by_digest(insert_by_digest(s, a)),
        digests_sized(insert_by_digest(s, a)),
        forall|d: Seq<u8>|
            #[trigger] digest_seq(insert_by_digest(s, a)).contains(d) <==> digest_seq(s).contains(d)
                || d == digest_of(a),
    decreases s.len(),
{
    let r = insert_by_digest(s, a);
    if s.len() == 0 {
        assert forall|d: Seq<u8>| #[trigger] digest_seq(r).contains(d) <==> digest_seq(s).contains(d)
            || d == digest_of(a) by {
            if d == digest_of(a) {
                assert(digest_seq(r)[0] == d);
            }
        }
    } else if digest_of(s[0]) == digest_of(a) {
        assert forall|d: Seq<u8>| #[trigger] digest_seq(r).contains(d) <==> digest_seq(s).contains(d)
            || d == digest_of(a) by {
            if d == digest_of(a) {
                assert(digest_seq(s)[0] == d);
            }
        }
    } else if lex_lt(digest_of(a), digest_of(s[0])) {
        assert forall|i: int, j: int| 0 <= i < j < r.len() implies lex_lt(
            #[trigger] digest_of(r[i]),
            #[trigger] digest_of(r[j]),
        ) by {
            if i == 0 {
                assert(r[j] == s[j - 1]);
                if j - 1 > 0 {
                    assert(lex_lt(digest_of(s[0]), digest_of(s[j - 1])));
                    lemma_lex_lt_transitive(digest_of(a), digest_of(s[0]), digest_of(s[j - 1]));
                }
            } else {
                assert(r[i] == s[i - 1] && r[j] == s[j - 1]);
            }
        }
        assert forall|i: int| 0 <= i < r.len() implies (#[trigger] digest_of(r[i])).len() == DIGEST_LEN by {
            if i > 0 {
                assert(r[i] == s[i - 1]);
            }
        }
        assert forall|d: Seq<u8>| #[trigger] digest_seq(r).contains(d) <==> digest_seq(s).contains(d)
            || d == digest_of(a) by {
            if digest_seq(r).contains(d) {
                let k = choose|k: int| 0 <= k < digest_seq(r).len() && digest_seq(r)[k] == d;
                if k > 0 {
                    assert(digest_seq(s)[k - 1] == d);
                }
            }
            if digest_seq(s).contains(d) {
                let k = choose|k: int| 0 <= k < digest_seq(s).len() && digest_seq(s)[k] == d;
                assert(digest_seq(r)[k + 1] == d);
            }
            if d == digest_of(a) {
                assert(digest_seq(r)[0] == d);
            }
        }
    } else {
        let rest = s.subrange(1, s.len() as int);
        assert(sorted_by_digest(rest)) by {
            assert forall|i: int, j: int| 0 <= i < j < rest.len() implies lex_lt(
                #[trigger] digest_of(rest[i]),
                #[trigger] digest_of(rest[j]),
            ) by {
                assert(rest[i] == s[i + 1] && rest[j] == s[j + 1]);
            }
        }
        assert forall|i: int| 0 <= i < rest.len() implies (#[trigger] digest_of(rest[i])).len() == DIGEST_LEN by {
            assert(rest[i] == s[i + 1]);
        }
        lemma_insert_facts(rest, a);
        let ri = insert_by_digest(rest, a);
        assert(r == seq![s[0]] + ri);
        assert(lex_lt(digest_of(s[0]), digest_of(a))) by {
            assert(digest_of(s[0]).len() == DIGEST_LEN);
            lemma_lex_total(digest_of(s[0]), digest_of(a));
        }
        assert forall|i: int, j: int| 0 <= i < j < r.len() implies lex_lt(
            #[trigger] digest_of(r[i]),
            #[trigger] digest_of(r[j]),
        ) by {
            if i == 0 {
                assert(r[j] == ri[j - 1]);
                assert(digest_seq(ri).contains(digest_of(ri[j - 1]))) by {
                    assert(digest_seq(ri)[j - 1] == digest_of(ri[j - 1]));
                }
                if digest_of(ri[j - 1]) != digest_of(a) {
                    let k = choose|k: int| 0 <= k < digest_seq(rest).len() && digest_seq(rest)[k] == digest_of(ri[j - 1]);
                    assert(rest[k] == s[k + 1]);
                }
            } else {
                assert(r[i] == ri[i - 1] && r[j] == ri[j - 1]);
            }
        }
        assert forall|i: int| 0 <= i < r.len() implies (#[trigger] digest_of(r[i])).len() == DIGEST_LEN by {
            if i > 0 {
                assert(r[i] == ri[i - 1]);
            }
        }
        assert forall|d: Seq<u8>| #[trigger] digest_seq(r).contains(d) <==> digest_seq(s).contains(d)
            || d == digest_of(a) by {
            if digest_seq(r).contains(d) {
                let k = choose|k: int| 0 <= k < digest_seq(r).len() && digest_seq(r)[k] == d;
                if k == 0 {
                    assert(r[0] == s[0]);
                    assert(digest_seq(s)[0] == d);
                    assert(digest_seq(s).contains(d));
                } else {
                    assert(r[k] == ri[k - 1]);
                    assert(digest_seq(ri)[k - 1] == d);
                    assert(digest_seq(ri).contains(d));
                    if digest_seq(rest).contains(d) {
                        let m = choose|m: int| 0 <= m < digest_seq(rest).len() && digest_seq(rest)[m] == d;
                        assert(rest[m] == s[m + 1]);
                        assert(digest_seq(s)[m + 1] == d);
                        assert(digest_seq(s).contains(d));
                    }
                }
            }
            if digest_seq(s).contains(d) {
                let k = choose|k: int| 0 <= k < digest_seq(s).len() && digest_seq(s)[k] == d;
                if k == 0 {
                    assert(r[0] == s[0]);
                    assert(digest_seq(r)[0] == d);
                    assert(digest_seq(r).contains(d));
                } else {
                    assert(rest[k - 1] == s[k]);
                    assert(digest_seq(rest)[k - 1] == d);
                    assert(digest_seq(ri).contains(d));
                    let m = choose|m: int| 0 <= m < digest_seq(ri).len() && digest_seq(ri)[m] == d;
                    assert(r[m + 1] == ri[m]);
                    assert(digest_seq(r)[m + 1] == d);
                    assert(digest_seq(r).contains(d));
                }
            }
            if d == digest_of(a) {
                assert(digest_seq(ri).contains(d));
                let m = choose|m: int| 0 <= m < digest_seq(ri).len() && digest_seq(ri)[m] == d;
                assert(r[m + 1] == ri[m]);
                assert(digest_seq(r)[m + 1] == d);
                assert(digest_seq(r).contains(d));
            }
        }
    }
}

/// Two byte strings of the same length are equal or ordered one way.
proof fn lemma_lex_total(a: Seq<u8>, b: Seq<u8>)
    requires
        a.len() == b.len(),
    ensures
        a == b || lex_lt(a, b) || lex_lt(b, a),
{
    if a != b {
        assert(!(a =~= b));
        let k = choose|k: int| 0 <= k < a.len() && a[k] != b[k];
        let m = first_difference(a, b, k);
        if a[m] < b[m] {
            assert(lex_lt(a, b));
        } else {
            assert(lex_lt(b, a));
        }
    }
}

/// The first index where two byte strings differ, given one where they do.
proof fn first_difference(a: Seq<u8>, b: Seq<u8>, k: int) -> (m: int)
    requires
        a.len() == b.len(),
        0 <= k < a.len(),
        a[k] != b[k],
    ensures
        0 <= m <= k,
        a[m] != b[m],
        forall|j: int| 0 <= j < m ==> a[j] == b[j],
    decreases k,
{
    if exists|j: int| 0 <= j < k && a[j] != b[j] {
        let j = choose|j: int| 0 <= j < k && a[j] != b[j];
        first_difference(a, b, j)
    } else {
        k
    }
}

/// Two strictly ascending digest sequences holding the same digests are
/// equal.
proof fn lemma_ascending_unique(x: Seq<Seq<u8>>, y: Seq<Seq<u8>>)
    requires
        strictly_ascending(x),
        strictly_ascending(y),
        forall|d: Seq<u8>| #[trigger] x.contains(d) <==> y.contains(d),
        forall|i: int| 0 <= i < x.len() ==> (#[trigger] x[i]).len() == DIGEST_LEN,
        forall|i: int| 0 <= i < y.len() ==> (#[trigger] y[i]).len() == DIGEST_LEN,
    ensures
        x == y,
    decreases x.len(),
{
    if x.len() == 0 {
        if y.len() > 0 {
            assert(y.contains(y[0]));
            assert(x.contains(y[0]));
        }
        assert(x =~= y);
    } else {
        assert(x.contains(x[0]));
        let k = choose|k: int| 0 <= k < y.len() && y[k] == x[0];
        assert(y.contains(y[0]));
        assert(x.contains(y[0]));
        let m = choose|m: int| 0 <= m < x.len() && x[m] == y[0];
        if k > 0 {
            assert(lex_lt(y[0], y[k]));
            if m > 0 {
                assert(lex_lt(x[0], x[m]));
                lemma_lex_lt_transitive(x[0], y[0], x[0]);
                lemma_lex_lt_irreflexive(x[0], x[0]);
            } else {
                lemma_lex_lt_irreflexive(y[0], y[0]);
            }
        }
        assert(y[0] == x[0]);
        let xr = x.subrange(1, x.len() as int);
        let yr = y.subrange(1, y.len() as int);
        assert forall|d: Seq<u8>| #[trigger] xr.contains(d) <==> yr.contains(d) by {
            if xr.contains(d) {
                let i = choose|i: int| 0 <= i < xr.len() && xr[i] == d;
                assert(x[i + 1] == d);
                assert(x.contains(d));
                assert(y.contains(d));
                let j = choose|j: int| 0 <= j < y.len() && y[j] == d;
                if j == 0 {
                    assert(lex_lt(x[0], x[i + 1]));
                    assert(x[i + 1] == x[0]);
                    lemma_lex_lt_irreflexive(x[0], x[0]);
                }
                assert(yr[j - 1] == d);
            }
            if yr.contains(d) {
                let i = choose|i: int| 0 <= i < yr.len() && yr[i] == d;
                assert(y[i + 1] == d);
                assert(y.contains(d));
                assert(x.contains(d));
                let j = choose|j: int| 0 <= j < x.len() && x[j] == d;
                if j == 0 {
                    assert(lex_lt(y[0], y[i + 1]));
                    assert(y[i + 1] == y[0]);
                    lemma_lex_lt_irreflexive(y[0], y[0]);
                }
                assert(xr[j - 1] == d);
            }
        }
        assert forall|i: int, j: int| 0 <= i < j < xr.len() implies lex_lt(#[trigger] xr[i], #[trigger] xr[j]) by {
            assert(xr[i] == x[i + 1] && xr[j] == x[j + 1]);
        }
        assert forall|i: int, j: int| 0 <= i < j < yr.len() implies lex_lt(#[trigger] yr[i], #[trigger] yr[j]) by {
            assert(yr[i] == y[i + 1] && yr[j] == y[j + 1]);
        }
        lemma_ascending_unique(xr, yr);
        assert(x.len() == y.len());
        assert forall|i: int| 0 <= i < x.len() implies x[i] == y[i] by {
            if i > 0 {
                assert(x[i] == xr[i - 1]);
                assert(y[i] == yr[i - 1]);
            }
        }
        assert(x =~= y);
    }
}

/// Order independence: adding two assertions in either order gives nodes
/// with the same digest.
pub proof fn law_assertion_order(t: Tree, a: Tree, b: Tree)
    requires
        sorted_by_digest(assertions_of(t)),
        digests_sized(assertions_of(t)),
        digest_of(a).len() == DIGEST_LEN,
        digest_of(b).len() == DIGEST_LEN,
    ensures
        digest_of(with_assertion(with_assertion(t, a), b)) == digest_of(
            with_assertion(with_assertion(t, b), a),
        ),
{
    let s = assertions_of(t);
    lemma_insert_facts(s, a);
    lemma_insert_facts(s, b);
    let sa = insert_by_digest(s, a);
    let sb = insert_by_digest(s, b);
    lemma_insert_facts(sa, b);
    lemma_insert_facts(sb, a);
    let x = insert_by_digest(sa, b);
    let y = insert_by_digest(sb, a);
    assert(assertions_of(with_assertion(t, a)) == sa);
    assert(assertions_of(with_assertion(t, b)) == sb);
    assert(subject_of(with_assertion(t, a)) == subject_of(t));
    assert(subject_of(with_assertion(t, b)) == subject_of(t));
    assert forall|d: Seq<u8>| #[trigger] digest_seq(x).contains(d) <==> digest_seq(y).contains(d) by {
        assert(digest_seq(x).contains(d) == (digest_seq(sa).contains(d) || d == digest_of(b)));
        assert(digest_seq(y).contains(d) == (digest_seq(sb).contains(d) || d == digest_of(a)));
        assert(digest_seq(sa).contains(d) == (digest_seq(s).contains(d) || d == digest_of(a)));
        assert(digest_seq(sb).contains(d) == (digest_seq(s).contains(d) || d == digest_of(b)));
    }
    assert forall|i: int, j: int| 0 <= i < j < digest_seq(x).len() implies lex_lt(
        #[trigger] digest_seq(x)[i],
        #[trigger] digest_seq(x)[j],
    ) by {
        assert(lex_lt(digest_of(x[i]), digest_of(x[j])));
    }
    assert forall|i: int, j: int| 0 <= i < j < digest_seq(y).len() implies lex_lt(
        #[trigger] digest_seq(y)[i],
        #[trigger] digest_seq(y)[j],
    ) by {
        assert(lex_lt(digest_of(y[i]), digest_of(y[j])));
    }
    assert forall|i: int| 0 <= i < digest_seq(x).len() implies (#[trigger] digest_seq(x)[i]).len() == DIGEST_LEN by {
        assert(digest_of(x[i]).len() == DIGEST_LEN);
    }
    assert forall|i: int| 0 <= i < digest_seq(y).len() implies (#[trigger] digest_seq(y)[i]).len() == DIGEST_LEN by {
        assert(digest_of(y[i]).len() == DIGEST_LEN);
    }
    lemma_ascending_unique(digest_seq(x), digest_seq(y));
    assert forall|i: int| 0 <= i < x.len() implies digest_of(#[trigger] x[i]) == digest_of(y[i]) by {
        assert(digest_seq(x)[i] == digest_seq(y)[i]);
    }
    lemma_concat_pointwise(x, y);
}

} // verus!
