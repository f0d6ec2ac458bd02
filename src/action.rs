//! The general obscuring operation: a target set, an action (elide,
//! encrypt, compress) and a direction (removing, revealing).
use vstd::prelude::*;
use crate::tree::{Tree, digest_of};
use crate::envelope::{Envelope, Body, views};
use crate::crypt::{aead_open, inflated, compress_result};
use crate::codec::encode;
use crate::obscure::{
    target_set, is_target, reaches, elide_removing, elide_revealing, elide_removing_set,
    elide_revealing_set, lemma_concat_pointwise, lemma_elide_removing_digest,
    lemma_elide_revealing_digest,
};

verus! {

/// What becomes of an obscured subtree.
#[derive(Clone, Copy, Debug)]
pub enum Action {
    /// Only its digest is kept.
    Elide,
    /// It is encrypted under the content key.
    Encrypt([u8; 32]),
    /// It is compressed.
    Compress,
}

/// Which subtrees are obscured.
#[derive(Clone, Copy, Debug, PartialEq, Eq, Structural)]
pub enum Direction {
    /// Every subtree that is a target.
    Removing,
    /// Every subtree that neither is a target nor leads to one.
    Revealing,
}

/// `t` with every obscured node shown as elided: what a reader without keys
/// can tell of the tree.
pub open spec fn erase(t: Tree) -> Tree
    decreases t,
{
    if t.is_obscured() {
        Tree::Elided(digest_of(t))
    } else {
        match t {
            Tree::Wrapped(c) => Tree::Wrapped(Box::new(erase(*c))),
            Tree::Assertion(p, o) => Tree::Assertion(Box::new(erase(*p)), Box::new(erase(*o))),
            Tree::Node(s, a) => Tree::Node(
                Box::new(erase(*s)),
                Seq::new(
                    a.len(),
                    |i: int|
                        if 0 <= i < a.len() {
                            erase(a[i])
                        } else {
                            Tree::Known(0)
                        },
                ),
            ),
            _ => t,
        }
    }
}

/// The elision that the direction calls for.
pub open spec fn elide_toward(t: Tree, ts: Set<Seq<u8>>, direction: Direction) -> Tree {
    match direction {
        Direction::Removing => elide_removing(t, ts),
        Direction::Revealing => elide_revealing(t, ts),
    }
}

/// `r` is the placeholder that `action` makes of `p`: only its digest, its
/// encoding sealed under the key with its digest as additional data, or its
/// compressed encoding.
pub open spec fn made_from(r: Tree, p: Tree, action: Action) -> bool {
    match action {
        Action::Elide => r == Tree::Elided(digest_of(p)),
        Action::Encrypt(k) => r matches Tree::Encrypted(d, c, n, g) && d == digest_of(p) && aead_open(
            k@,
            n,
            d,
            c,
            g,
        ) == Some(encode(p)),
        Action::Compress => r == compress_result(p) && inflated(r->Compressed_1) == Some(encode(p)),
    }
}

/// `r` is what obscuring `t` gives: the subtrees that `direction` selects
/// by `ts` are placeholders that `action` made; in the removing direction a
/// selected subtree is made into a placeholder after its own children.
pub open spec fn obscured(t: Tree, r: Tree, ts: Set<Seq<u8>>, action: Action, direction: Direction) -> bool
    decreases t, 1int,
{
    match direction {
        Direction::Removing => if ts.contains(digest_of(t)) {
            exists|p: Tree| kept_with_children(t, p, ts, action, direction) && #[trigger] made_from(r, p, action)
        } else {
            kept_with_children(t, r, ts, action, direction)
        },
        Direction::Revealing => if !reaches(t, ts) {
            made_from(r, t, action)
        } else {
            kept_with_children(t, r, ts, action, direction)
        },
    }
}

/// `p` is `t` with each child obscured and the node itself kept.
pub open spec fn kept_with_children(t: Tree, p: Tree, ts: Set<Seq<u8>>, action: Action, direction: Direction) -> bool
    decreases t, 0int,
{
    match t {
        Tree::Wrapped(c) => p matches Tree::Wrapped(c2) && obscured(*c, *c2, ts, action, direction),
        Tree::Assertion(x, y) => p matches Tree::Assertion(x2, y2) && obscured(
            *x,
            *x2,
            ts,
            action,
            direction,
        ) && obscured(*y, *y2, ts, action, direction),
        Tree::Node(x, xs) => p matches Tree::Node(x2, ys) && obscured(*x, *x2, ts, action, direction)
            && ys.len() == xs.len() && forall|i: int|
            0 <= i < xs.len() ==> #[trigger] obscured(xs[i], ys[i], ts, action, direction),
        _ => p == t,
    }
}

/// The placeholder that `action` makes of `e`.
fn placeholder(e: Envelope, action: &Action) -> (r: Envelope)
    requires
        e.inv(),
    ensures
        r.inv(),
        r@.is_obscured(),
        digest_of(r@) == digest_of(e@),
        *action is Elide ==> r@ == Tree::Elided(digest_of(e@)),
        made_from(r@, e@, *action),
{
    match action {
        Action::Elide => {
            let d = e.digest();
            Envelope { digest: d, body: Body::Elided }
        },
        Action::Encrypt(key) => e.encrypt(key),
        Action::Compress => e.compress(),
    }
}

/// Removing direction, children first: every subtree whose digest is
/// listed in `ts` becomes a placeholder after its own children have been
/// processed.
fn obscure_removing(e: Envelope, ts: &Vec<Vec<u8>>, action: &Action) -> (r: Envelope)
    requires
        e.inv(),
    ensures
        r.inv(),
        digest_of(r@) == digest_of(e@),
        erase(r@) == erase(elide_removing(e@, target_set(ts@))),
        obscured(e@, r@, target_set(ts@), *action, Direction::Removing),
    decreases e,
{
    let ghost t = e@;
    let ghost set = target_set(ts@);
    proof {
        lemma_elide_removing_digest(t, set);
    }
    let hit = is_target(ts, &e.digest);
    let ghost e0 = e;
    let Envelope { digest, body } = e;
    let rebuilt = match body {
        Body::Wrapped(c) => {
            let c2 = obscure_removing(*c, ts, action);
            let r = Envelope { digest, body: Body::Wrapped(Box::new(c2)) };
            assert(digest_of(r@) == digest_of(t));
            r
        },
        Body::Assertion(p, o) => {
            let pred_out = obscure_removing(*p, ts, action);
            let obj_out = obscure_removing(*o, ts, action);
            let r = Envelope { digest, body: Body::Assertion(Box::new(pred_out), Box::new(obj_out)) };
            assert(digest_of(r@) == digest_of(t));
            r
        },
        Body::Node(s, mut a) => {
            let s2 = obscure_removing(*s, ts, action);
            let ghost a0 = a@;
            let n = a.len();
            let mut a2: Vec<Envelope> = Vec::new();
            while a.len() > 0
                invariant
                    set == target_set(ts@),
                    e0 == e,
                    e0.body is Node,
                    e0.body->Node_1@ == a0,
                    a0.len() == n,
                    a@ == a0.subrange(n - a@.len(), n as int),
                    a2@.len() == n - a@.len(),
                    forall|j: int| 0 <= j < a0.len() ==> (#[trigger] a0[j]).inv(),
                    forall|j: int|
                        0 <= j < a2@.len() ==> (#[trigger] a2@[j]).inv() && digest_of(a2@[j]@)
                            == digest_of(a0[j]@) && erase(a2@[j]@) == erase(
                            elide_removing(a0[j]@, set),
                        ) && obscured(a0[j]@, a2@[j]@, set, *action, Direction::Removing),
                decreases a@.len(),
            {
                let ghost k = n - a@.len();
                let x = a.remove(0);
                assert(x == a0[k]);
                proof {
                    assert(decreases_to!(e0 => e0.body));
                    assert(decreases_to!(e0.body => e0.body->Node_1));
                    assert(decreases_to!(e0.body->Node_1 => e0.body->Node_1@));
                    assert(decreases_to!(a0 => a0[k]));
                    assert(decreases_to!(e => x));
                }
                let y = obscure_removing(x, ts, action);
                a2.push(y);
                assert(a@ =~= a0.subrange(n - a@.len(), n as int));
            }
            proof {
                let v = views(a2@);
                assert(views(a0) =~= t->Node_1);
                assert forall|j: int| 0 <= j < a0.len() implies digest_of(#[trigger] views(a0)[j])
                    == digest_of(v[j]) by {}
                lemma_concat_pointwise(views(a0), v);
            }
            let r = Envelope { digest, body: Body::Node(Box::new(s2), a2) };
            assert(r@->Node_1 =~= views(a2@));
            assert(digest_of(r@) == digest_of(t));
            proof {
                if !set.contains(digest_of(t)) {
                    let et = elide_removing(t, set);
                    assert(erase(r@)->Node_1 =~= erase(et)->Node_1);
                }
                assert forall|i: int| 0 <= i < t->Node_1.len() implies #[trigger] obscured(
                    t->Node_1[i],
                    r@->Node_1[i],
                    set,
                    *action,
                    Direction::Removing,
                ) by {
                    assert(t->Node_1[i] == a0[i]@);
                    assert(r@->Node_1[i] == a2@[i]@);
                }
                assert(kept_with_children(t, r@, set, *action, Direction::Removing));
            }
            r
        },
        _ => Envelope { digest, body },
    };
    assert(kept_with_children(t, rebuilt@, set, *action, Direction::Removing));
    if hit {
        let ghost inner = rebuilt@;
        let r = placeholder(rebuilt, action);
        assert(made_from(r@, inner, *action));
        r
    } else {
        rebuilt
    }
}

/// Revealing direction: every subtree that neither is a target nor leads to
/// one becomes a placeholder as a whole.
fn obscure_revealing(e: Envelope, ts: &Vec<Vec<u8>>, action: &Action) -> (r: (Envelope, bool))
    requires
        e.inv(),
    ensures
        r.0.inv(),
        r.1 == reaches(e@, target_set(ts@)),
        digest_of(r.0@) == digest_of(e@),
        erase(r.0@) == erase(elide_revealing(e@, target_set(ts@))),
        obscured(e@, r.0@, target_set(ts@), *action, Direction::Revealing),
    decreases e,
{
    let ghost t = e@;
    let ghost set = target_set(ts@);
    proof {
        lemma_elide_revealing_digest(t, set);
    }
    if !reaches_exec(&e, ts) {
        let r = placeholder(e, action);
        return (r, false);
    }
    let ghost e0 = e;
    let Envelope { digest, body } = e;
    let r = match body {
        Body::Wrapped(c) => {
            let (c2, _) = obscure_revealing(*c, ts, action);
            let r = Envelope { digest, body: Body::Wrapped(Box::new(c2)) };
            assert(digest_of(r@) == digest_of(t));
            r
        },
        Body::Assertion(p, o) => {
            let (pred_out, _) = obscure_revealing(*p, ts, action);
            let (obj_out, _) = obscure_revealing(*o, ts, action);
            let r = Envelope { digest, body: Body::Assertion(Box::new(pred_out), Box::new(obj_out)) };
            assert(digest_of(r@) == digest_of(t));
            r
        },
        Body::Node(s, mut a) => {
            let (s2, _) = obscure_revealing(*s, ts, action);
            let ghost a0 = a@;
            let n = a.len();
            let mut a2: Vec<Envelope> = Vec::new();
            while a.len() > 0
                invariant
                    set == target_set(ts@),
                    e0 == e,
                    e0.body is Node,
                    e0.body->Node_1@ == a0,
                    a0.len() == n,
                    a@ == a0.subrange(n - a@.len(), n as int),
                    a2@.len() == n - a@.len(),
                    forall|j: int| 0 <= j < a0.len() ==> (#[trigger] a0[j]).inv(),
                    forall|j: int|
                        0 <= j < a2@.len() ==> (#[trigger] a2@[j]).inv() && digest_of(a2@[j]@)
                            == digest_of(a0[j]@) && erase(a2@[j]@) == erase(
                            elide_revealing(a0[j]@, set),
                        ) && obscured(a0[j]@, a2@[j]@, set, *action, Direction::Revealing),
                decreases a@.len(),
            {
                let ghost k = n - a@.len();
                let x = a.remove(0);
                assert(x == a0[k]);
                proof {
                    assert(decreases_to!(e0 => e0.body));
                    assert(decreases_to!(e0.body => e0.body->Node_1));
                    assert(decreases_to!(e0.body->Node_1 => e0.body->Node_1@));
                    assert(decreases_to!(a0 => a0[k]));
                    assert(decreases_to!(e => x));
                }
                let (y, _) = obscure_revealing(x, ts, action);
                a2.push(y);
                assert(a@ =~= a0.subrange(n - a@.len(), n as int));
            }
            proof {
                let v = views(a2@);
                assert(views(a0) =~= t->Node_1);
                assert forall|j: int| 0 <= j < a0.len() implies digest_of(#[trigger] views(a0)[j])
                    == digest_of(v[j]) by {}
                lemma_concat_pointwise(views(a0), v);
            }
            let r = Envelope { digest, body: Body::Node(Box::new(s2), a2) };
            assert(r@->Node_1 =~= views(a2@));
            assert(digest_of(r@) == digest_of(t));
            proof {
                let et = elide_revealing(t, set);
                assert(erase(r@)->Node_1 =~= erase(et)->Node_1);
                assert forall|i: int| 0 <= i < t->Node_1.len() implies #[trigger] obscured(
                    t->Node_1[i],
                    r@->Node_1[i],
                    set,
                    *action,
                    Direction::Revealing,
                ) by {
                    assert(t->Node_1[i] == a0[i]@);
                    assert(r@->Node_1[i] == a2@[i]@);
                }
                assert(kept_with_children(t, r@, set, *action, Direction::Revealing));
            }
            r
        },
        _ => Envelope { digest, body },
    };
    assert(kept_with_children(t, r@, set, *action, Direction::Revealing));
    (r, true)
}

/// Whether some node of `e` has its digest listed in `ts`.
fn reaches_exec(e: &Envelope, ts: &Vec<Vec<u8>>) -> (r: bool)
    requires
        e.inv(),
    ensures
        r == reaches(e@, target_set(ts@)),
    decreases e,
{
    if is_target(ts, &e.digest) {
        return true;
    }
    match &e.body {
        Body::Wrapped(c) => reaches_exec(c, ts),
        Body::Assertion(p, o) => reaches_exec(p, ts) || reaches_exec(o, ts),
        Body::Node(s, a) => {
            if reaches_exec(s, ts) {
                return true;
            }
            let mut i: usize = 0;
            while i < a.len()
                invariant
                    e.body is Node,
                    e.body->Node_1 == *a,
                    e.inv(),
                    0 <= i <= a@.len(),
                    forall|j: int| 0 <= j < i ==> !reaches(#[trigger] a@[j]@, target_set(ts@)),
                decreases a@.len() - i,
            {
                proof {
                    assert(decreases_to!(*e => e.body));
                    assert(decreases_to!(e.body => e.body->Node_1));
                    assert(decreases_to!(*a => a@));
                    assert(decreases_to!(a@ => a@[i as int]));
                    assert(a@[i as int].inv());
                }
                if reaches_exec(&a[i], ts) {
                    assert(e@->Node_1[i as int] == a@[i as int]@);
                    return true;
                }
                i = i + 1;
            }
            proof {
                assert forall|j: int| 0 <= j < e@->Node_1.len() implies !reaches(
                    #[trigger] e@->Node_1[j],
                    target_set(ts@),
                ) by {
                    assert(e@->Node_1[j] == a@[j]@);
                }
            }
            false
        },
        _ => false,
    }
}

/// Obscures `e`: the subtrees that `direction` selects by the targets `ts`
/// become placeholders of the kind `action` names. The digest of the whole,
/// and of every node that stays, is unchanged; shown with every placeholder
/// as elided, the result is the elision that the direction calls for, and
/// with `Elide` it is that elision exactly.
pub fn obscure(e: Envelope, ts: &Vec<Vec<u8>>, action: &Action, direction: Direction) -> (r: Envelope)
    requires
        e.inv(),
    ensures
        r.inv(),
        digest_of(r@) == digest_of(e@),
        erase(r@) == erase(elide_toward(e@, target_set(ts@), direction)),
        *action is Elide ==> r@ == elide_toward(e@, target_set(ts@), direction),
        !(*action is Elide) ==> obscured(e@, r@, target_set(ts@), *action, direction),
{
    match action {
        Action::Elide => {
            proof {
                lemma_elide_removing_digest(e@, target_set(ts@));
                lemma_elide_revealing_digest(e@, target_set(ts@));
            }
            match direction {
                Direction::Removing => elide_removing_set(e, ts),
                Direction::Revealing => elide_revealing_set(e, ts),
            }
        },
        _ => match direction {
            Direction::Removing => obscure_removing(e, ts, action),
            Direction::Revealing => obscure_revealing(e, ts, action).0,
        },
    }
}

} // verus!
