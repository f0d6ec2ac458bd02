//! The obscuring engine: elision of subtrees chosen by digest, in either
//! direction, without changing the digest of any node.
use vstd::prelude::*;
use crate::digest::bytes_equal;
use crate::tree::{Tree, digest_of, digests_concat, sorted_by_digest};
use crate::envelope::{Envelope, Body, views};

verus! {

/// The set of digests listed in `ts`.
pub open spec fn target_set(ts: Seq<Vec<u8>>) -> Set<Seq<u8>> {
    Set::new(|d: Seq<u8>| exists|i: int| 0 <= i < ts.len() && (#[trigger] ts[i])@ == d)
}

/// Whether `d` is one of the digests listed in `ts`.
pub fn is_target(ts: &Vec<Vec<u8>>, d: &Vec<u8>) -> (r: bool)
    ensures
        r == target_set(ts@).contains(d@),
{
    let mut i: usize = 0;
    while i < ts.len()
        invariant
            0 <= i <= ts@.len(),
            forall|j: int| 0 <= j < i ==> (#[trigger] ts@[j])@ != d@,
        decreases ts@.len() - i,
    {
        if bytes_equal(&ts[i], d) {
            assert(ts@[i as int]@ == d@);
            return true;
        }
        i = i + 1;
    }
    false
}

/// The tree with every subtree whose digest is in `ts` replaced by an
/// elided placeholder.
pub open spec fn elide_removing(t: Tree, ts: Set<Seq<u8>>) -> Tree
    decreases t,
{
    if ts.contains(digest_of(t)) {
        Tree::Elided(digest_of(t))
    } else {
        match t {
            Tree::Wrapped(c) => Tree::Wrapped(Box::new(elide_removing(*c, ts))),
            Tree::Assertion(p, o) => Tree::Assertion(
                Box::new(elide_removing(*p, ts)),
                Box::new(elide_removing(*o, ts)),
            ),
            Tree::Node(s, a) => Tree::Node(
                Box::new(elide_removing(*s, ts)),
                Seq::new(
                    a.len(),
                    |i: int|
                        if 0 <= i < a.len() {
                            elide_removing(a[i], ts)
                        } else {
                            Tree::Known(0)
                        },
                ),
            ),
            _ => t,
        }
    }
}

/// Some node of `t`, `t` itself included, has its digest in `ts`.
pub open spec fn reaches(t: Tree, ts: Set<Seq<u8>>) -> bool
    decreases t,
{
    ||| ts.contains(digest_of(t))
    ||| match t {
        Tree::Wrapped(c) => reaches(*c, ts),
        Tree::Assertion(p, o) => reaches(*p, ts) || reaches(*o, ts),
        Tree::Node(s, a) => reaches(*s, ts) || exists|i: int| 0 <= i < a.len() && reaches(#[trigger] a[i], ts),
        _ => false,
    }
}

/// The tree with every subtree that neither has its digest in `ts` nor
/// leads to one that has replaced by an elided placeholder.
pub open spec fn elide_revealing(t: Tree, ts: Set<Seq<u8>>) -> Tree
    decreases t,
{
    if !reaches(t, ts) {
        Tree::Elided(digest_of(t))
    } else {
        match t {
            Tree::Wrapped(c) => Tree::Wrapped(Box::new(elide_revealing(*c, ts))),
            Tree::Assertion(p, o) => Tree::Assertion(
                Box::new(elide_revealing(*p, ts)),
                Box::new(elide_revealing(*o, ts)),
            ),
            Tree::Node(s, a) => Tree::Node(
                Box::new(elide_revealing(*s, ts)),
                Seq::new(
                    a.len(),
                    |i: int|
                        if 0 <= i < a.len() {
                            elide_revealing(a[i], ts)
                        } else {
                            Tree::Known(0)
                        },
                ),
            ),
            _ => t,
        }
    }
}

/// Sequences whose trees have the same digests, index by index, have the
/// same concatenated digests.
pub proof fn lemma_concat_pointwise(s1: Seq<Tree>, s2: Seq<Tree>)
    requires
        s1.len() == s2.len(),
        forall|i: int| 0 <= i < s1.len() ==> digest_of(#[trigger] s1[i]) == digest_of(s2[i]),
    ensures
        digests_concat(s1) == digests_concat(s2),
        sorted_by_digest(s1) ==> sorted_by_digest(s2),
    decreases s1.len(),
{
    if s1.len() > 0 {
        let n = s1.len() - 1;
        lemma_concat_pointwise(s1.subrange(0, n), s2.subrange(0, n));
        assert(digest_of(s1[n]) == digest_of(s2[n]));
    }
    if sorted_by_digest(s1) {
        assert forall|i: int, j: int| 0 <= i < j < s2.len() implies crate::digest::lex_lt(
            #[trigger] digest_of(s2[i]),
            #[trigger] digest_of(s2[j]),
        ) by {
            assert(digest_of(s1[i]) == digest_of(s2[i]));
            assert(digest_of(s1[j]) == digest_of(s2[j]));
        }
    }
}

/// Elision in the removing direction keeps the digest of the tree.
pub proof fn lemma_elide_removing_digest(t: Tree, ts: Set<Seq<u8>>)
    ensures
        digest_of(elide_removing(t, ts)) == digest_of(t),
    decreases t,
{
    if !ts.contains(digest_of(t)) {
        match t {
            Tree::Wrapped(c) => lemma_elide_removing_digest(*c, ts),
            Tree::Assertion(p, o) => {
                lemma_elide_removing_digest(*p, ts);
                lemma_elide_removing_digest(*o, ts);
            },
            Tree::Node(s, a) => {
                lemma_elide_removing_digest(*s, ts);
                let r = elide_removing(t, ts);
                assert forall|i: int| 0 <= i < a.len() implies digest_of(#[trigger] a[i]) == digest_of(
                    r->Node_1[i],
                ) by {
                    lemma_elide_removing_digest(a[i], ts);
                }
                lemma_concat_pointwise(a, r->Node_1);
            },
            _ => {},
        }
    }
}

/// Elision in the revealing direction keeps the digest of the tree.
pub proof fn lemma_elide_revealing_digest(t: Tree, ts: Set<Seq<u8>>)
    ensures
        digest_of(elide_revealing(t, ts)) == digest_of(t),
    decreases t,
{
    if reaches(t, ts) {
        match t {
            Tree::Wrapped(c) => lemma_elide_revealing_digest(*c, ts),
            Tree::Assertion(p, o) => {
                lemma_elide_revealing_digest(*p, ts);
                lemma_elide_revealing_digest(*o, ts);
            },
            Tree::Node(s, a) => {
                lemma_elide_revealing_digest(*s, ts);
                let r = elide_revealing(t, ts);
                assert forall|i: int| 0 <= i < a.len() implies digest_of(#[trigger] a[i]) == digest_of(
                    r->Node_1[i],
                ) by {
                    lemma_elide_revealing_digest(a[i], ts);
                }
                lemma_concat_pointwise(a, r->Node_1);
            },
            _ => {},
        }
    }
}

/// Digest stability: eliding any set of targets leaves the digest of the
/// whole envelope unchanged, in either direction.
pub proof fn law_elision_keeps_digest(t: Tree, ts: Set<Seq<u8>>)
    ensures
        digest_of(elide_removing(t, ts)) == digest_of(t),
        digest_of(elide_revealing(t, ts)) == digest_of(t),
{
    lemma_elide_removing_digest(t, ts);
    lemma_elide_revealing_digest(t, ts);
}

/// Idempotence: eliding the same targets a second time changes nothing.
pub proof fn law_elision_idempotent(t: Tree, ts: Set<Seq<u8>>)
    ensures
        elide_removing(elide_removing(t, ts), ts) == elide_removing(t, ts),
    decreases t,
{
    let r = elide_removing(t, ts);
    lemma_elide_removing_digest(t, ts);
    if !ts.contains(digest_of(t)) {
        match t {
            Tree::Wrapped(c) => {
                law_elision_idempotent(*c, ts);
            },
            Tree::Assertion(p, o) => {
                law_elision_idempotent(*p, ts);
                law_elision_idempotent(*o, ts);
            },
            Tree::Node(s, a) => {
                law_elision_idempotent(*s, ts);
                let rr = elide_removing(r, ts);
                assert forall|i: int| 0 <= i < a.len() implies #[trigger] rr->Node_1[i]
                    == r->Node_1[i] by {
                    law_elision_idempotent(a[i], ts);
                }
                assert(rr->Node_1 =~= r->Node_1);
            },
            _ => {},
        }
    }
}

/// `e` with every subtree whose digest is listed in `ts` elided.
pub fn elide_removing_set(e: Envelope, ts: &Vec<Vec<u8>>) -> (r: Envelope)
    requires
        e.inv(),
    ensures
        r.inv(),
        r@ == elide_removing(e@, target_set(ts@)),
    decreases e,
{
    let ghost t = e@;
    let ghost set = target_set(ts@);
    proof {
        lemma_elide_removing_digest(t, set);
    }
    if is_target(ts, &e.digest) {
        return Envelope { digest: e.digest, body: Body::Elided };
    }
    let ghost e0 = e;
    let Envelope { digest, body } = e;
    match body {
        Body::Wrapped(c) => {
            let c2 = elide_removing_set(*c, ts);
            Envelope { digest, body: Body::Wrapped(Box::new(c2)) }
        },
        Body::Assertion(p, o) => {
            let pred_out = elide_removing_set(*p, ts);
            let obj_out = elide_removing_set(*o, ts);
            Envelope { digest, body: Body::Assertion(Box::new(pred_out), Box::new(obj_out)) }
        },
        Body::Node(s, mut a) => {
            let s2 = elide_removing_set(*s, ts);
            let ghost a0 = a@;
            let n = a.len();
            let mut a2: Vec<Envelope> = Vec::new();
            while a.len() > 0
                invariant
                    set == target_set(ts@),
                    e0 == e,
                    e0.body is Node,
                    e0.body->Node_1@ == a0,
                    a0.len() == n,
                    a@ == a0.subrange(n - a@.len(), n as int),
                    a2@.len() == n - a@.len(),
                    forall|j: int| 0 <= j < a0.len() ==> (#[trigger] a0[j]).inv(),
                    forall|j: int|
                        0 <= j < a2@.len() ==> (#[trigger] a2@[j]).inv() && a2@[j]@
                            == elide_removing(a0[j]@, set),
                decreases a@.len(),
            {
                let ghost k = n - a@.len();
                let x = a.remove(0);
                assert(x == a0[k]);
                proof {
                    assert(decreases_to!(e0 => e0.body));
                    assert(decreases_to!(e0.body => e0.body->Node_1));
                    assert(decreases_to!(e0.body->Node_1 => e0.body->Node_1@));
                    assert(decreases_to!(a0 => a0[k]));
                    assert(decreases_to!(e => x));
                }
                let y = elide_removing_set(x, ts);
                a2.push(y);
                assert(a@ =~= a0.subrange(n - a@.len(), n as int));
            }
            proof {
                let v = views(a2@);
                assert(v =~= elide_removing(t, set)->Node_1);
                assert forall|j: int| 0 <= j < a0.len() implies digest_of(#[trigger] views(a0)[j]) == digest_of(v[j]) by {
                    lemma_elide_removing_digest(a0[j]@, set);
                }
                assert(views(a0) =~= t->Node_1);
                lemma_concat_pointwise(views(a0), v);
            }
            let r = Envelope { digest, body: Body::Node(Box::new(s2), a2) };
            assert(r@->Node_1 =~= elide_removing(t, set)->Node_1);
            assert(r@->Node_0 == elide_removing(t, set)->Node_0);
            assert(r@ =~= elide_removing(t, set));
            r
        },
        _ => Envelope { digest, body },
    }
}

/// `e` with every subtree elided that neither has its digest listed in `ts`
/// nor leads to one that has; the second result tells whether `e` reaches a
/// target.
fn reveal_rec(e: Envelope, ts: &Vec<Vec<u8>>) -> (r: (Envelope, bool))
    requires
        e.inv(),
    ensures
        r.0.inv(),
        r.0@ == elide_revealing(e@, target_set(ts@)),
        r.1 == reaches(e@, target_set(ts@)),
    decreases e,
{
    let ghost t = e@;
    let ghost set = target_set(ts@);
    proof {
        lemma_elide_revealing_digest(t, set);
    }
    let hit = is_target(ts, &e.digest);
    let ghost e0 = e;
    let Envelope { digest, body } = e;
    let (rebuilt, any) = match body {
        Body::Wrapped(c) => {
            let (c2, h) = reveal_rec(*c, ts);
            (Envelope { digest: crate::envelope::copy_bytes(&digest), body: Body::Wrapped(Box::new(c2)) }, h)
        },
        Body::Assertion(p, o) => {
            let (pred_out, hp) = reveal_rec(*p, ts);
            let (obj_out, ho) = reveal_rec(*o, ts);
            (Envelope { digest: crate::envelope::copy_bytes(&digest), body: Body::Assertion(Box::new(pred_out), Box::new(obj_out)) }, hp || ho)
        },
        Body::Node(s, mut a) => {
            let (s2, hs) = reveal_rec(*s, ts);
            let ghost a0 = a@;
            let n = a.len();
            let mut a2: Vec<Envelope> = Vec::new();
            let mut ha = false;
            while a.len() > 0
                invariant
                    set == target_set(ts@),
                    e0 == e,
                    e0.body is Node,
                    e0.body->Node_1@ == a0,
                    a0.len() == n,
                    a@ == a0.subrange(n - a@.len(), n as int),
                    a2@.len() == n - a@.len(),
                    forall|j: int| 0 <= j < a0.len() ==> (#[trigger] a0[j]).inv(),
                    forall|j: int|
                        0 <= j < a2@.len() ==> (#[trigger] a2@[j]).inv() && a2@[j]@
                            == elide_revealing(a0[j]@, set),
                    ha == exists|j: int| 0 <= j < a2@.len() && reaches(#[trigger] a0[j]@, set),
                decreases a@.len(),
            {
                let ghost k = n - a@.len();
                let x = a.remove(0);
                assert(x == a0[k]);
                proof {
                    assert(decreases_to!(e0 => e0.body));
                    assert(decreases_to!(e0.body => e0.body->Node_1));
                    assert(decreases_to!(e0.body->Node_1 => e0.body->Node_1@));
                    assert(decreases_to!(a0 => a0[k]));
                    assert(decreases_to!(e => x));
                }
                let (y, h) = reveal_rec(x, ts);
                a2.push(y);
                ha = ha || h;
                assert(a@ =~= a0.subrange(n - a@.len(), n as int));
            }
            proof {
                let v = views(a2@);
                assert(views(a0) =~= t->Node_1);
                assert forall|j: int| 0 <= j < a0.len() implies digest_of(#[trigger] views(a0)[j]) == digest_of(v[j]) by {
                    lemma_elide_revealing_digest(a0[j]@, set);
                }
                lemma_concat_pointwise(views(a0), v);
                if ha {
                    let j = choose|j: int| 0 <= j < a2@.len() && reaches(#[trigger] a0[j]@, set);
                    assert(t->Node_1[j] == a0[j]@);
                }
                if reaches(t, set) && !hit && !hs {
                    let j = choose|j: int| 0 <= j < t->Node_1.len() && reaches(#[trigger] t->Node_1[j], set);
                    assert(t->Node_1[j] == a0[j]@);
                }
            }
            let r = Envelope { digest: crate::envelope::copy_bytes(&digest), body: Body::Node(Box::new(s2), a2) };
            proof {
                if reaches(t, set) {
                    assert(r@->Node_1 =~= elide_revealing(t, set)->Node_1);
                    assert(r@->Node_0 == elide_revealing(t, set)->Node_0);
                    assert(r@ =~= elide_revealing(t, set));
                }
            }
            (r, hs || ha)
        },
        Body::Leaf(b) => (Envelope { digest: crate::envelope::copy_bytes(&digest), body: Body::Leaf(b) }, false),
        Body::Known(k) => (Envelope { digest: crate::envelope::copy_bytes(&digest), body: Body::Known(k) }, false),
        Body::Elided => (Envelope { digest: crate::envelope::copy_bytes(&digest), body: Body::Elided }, false),
        Body::Encrypted(c, n, g) => (Envelope { digest: crate::envelope::copy_bytes(&digest), body: Body::Encrypted(c, n, g) }, false),
        Body::Compressed(c) => (Envelope { digest: crate::envelope::copy_bytes(&digest), body: Body::Compressed(c) }, false),
    };
    if hit || any {
        (rebuilt, true)
    } else {
        (Envelope { digest, body: Body::Elided }, false)
    }
}

/// `e` with every subtree elided that neither has its digest listed in `ts`
/// nor leads to one that has.
pub fn elide_revealing_set(e: Envelope, ts: &Vec<Vec<u8>>) -> (r: Envelope)
    requires
        e.inv(),
    ensures
        r.inv(),
        r@ == elide_revealing(e@, target_set(ts@)),
{
    reveal_rec(e, ts).0
}

} // verus!
