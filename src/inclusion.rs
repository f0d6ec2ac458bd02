//! Inclusion proofs: a partial view of an envelope that keeps only the paths
//! to chosen targets, checked against a known root digest.
use vstd::prelude::*;
use crate::digest::bytes_equal;
use crate::tree::{Tree, digest_of};
use crate::envelope::{Envelope, Body};
use crate::error::Error;
use crate::obscure::{
    target_set, reaches, elide_revealing, elide_revealing_set, lemma_elide_revealing_digest,
};

verus! {

/// Some node of `t` with digest `d` stands disclosed, not obscured.
pub open spec fn discloses(t: Tree, d: Seq<u8>) -> bool
    decreases t,
{
    ||| (!t.is_obscured() && digest_of(t) == d)
    ||| match t {
        Tree::Wrapped(c) => discloses(*c, d),
        Tree::Assertion(p, o) => discloses(*p, d) || discloses(*o, d),
        Tree::Node(s, a) => discloses(*s, d) || exists|i: int|
            0 <= i < a.len() && discloses(#[trigger] a[i], d),
        _ => false,
    }
}

/// What a verifier accepts: the proof's root digest is `root`, and the
/// proof discloses every target.
pub open spec fn proof_accepted(root: Seq<u8>, proof: Tree, ts: Set<Seq<u8>>) -> bool {
    digest_of(proof) == root && forall|d: Seq<u8>| ts.contains(d) ==> discloses(proof, d)
}

/// A tree that discloses a target reaches it.
proof fn lemma_discloses_reaches(t: Tree, d: Seq<u8>, ts: Set<Seq<u8>>)
    requires
        discloses(t, d),
        ts.contains(d),
    ensures
        reaches(t, ts),
    decreases t,
{
    if !(!t.is_obscured() && digest_of(t) == d) {
        match t {
            Tree::Wrapped(c) => lemma_discloses_reaches(*c, d, ts),
            Tree::Assertion(p, o) => {
                if discloses(*p, d) {
                    lemma_discloses_reaches(*p, d, ts);
                } else {
                    lemma_discloses_reaches(*o, d, ts);
                }
            },
            Tree::Node(s, a) => {
                if discloses(*s, d) {
                    lemma_discloses_reaches(*s, d, ts);
                } else {
                    let i = choose|i: int| 0 <= i < a.len() && discloses(#[trigger] a[i], d);
                    lemma_discloses_reaches(a[i], d, ts);
                }
            },
            _ => {},
        }
    }
}

/// Revealing a set of targets keeps every target of the set that the tree
/// disclosed disclosed.
proof fn lemma_reveal_discloses(t: Tree, d: Seq<u8>, ts: Set<Seq<u8>>)
    requires
        discloses(t, d),
        ts.contains(d),
    ensures
        discloses(elide_revealing(t, ts), d),
    decreases t,
{
    lemma_discloses_reaches(t, d, ts);
    lemma_elide_revealing_digest(t, ts);
    let r = elide_revealing(t, ts);
    if !(!t.is_obscured() && digest_of(t) == d) {
        match t {
            Tree::Wrapped(c) => lemma_reveal_discloses(*c, d, ts),
            Tree::Assertion(p, o) => {
                if discloses(*p, d) {
                    lemma_reveal_discloses(*p, d, ts);
                } else {
                    lemma_reveal_discloses(*o, d, ts);
                }
            },
            Tree::Node(s, a) => {
                if discloses(*s, d) {
                    lemma_reveal_discloses(*s, d, ts);
                } else {
                    let i = choose|i: int| 0 <= i < a.len() && discloses(#[trigger] a[i], d);
                    lemma_reveal_discloses(a[i], d, ts);
                    assert(r->Node_1[i] == elide_revealing(a[i], ts));
                }
            },
            _ => {},
        }
    }
}

/// Proof soundness, the complete half: a proof made from an envelope for
/// targets that it discloses is accepted against the envelope's digest.
pub proof fn law_proof_accepted(t: Tree, ts: Set<Seq<u8>>)
    requires
        forall|d: Seq<u8>| ts.contains(d) ==> discloses(t, d),
    ensures
        proof_accepted(digest_of(t), elide_revealing(t, ts), ts),
{
    lemma_elide_revealing_digest(t, ts);
    assert forall|d: Seq<u8>| ts.contains(d) implies discloses(elide_revealing(t, ts), d) by {
        lemma_reveal_discloses(t, d, ts);
    }
}

/// Whether `e` has a disclosed node with digest `d`.
pub fn discloses_digest(e: &Envelope, d: &Vec<u8>) -> (r: bool)
    requires
        e.inv(),
    ensures
        r == discloses(e@, d@),
    decreases e,
{
    let obscured = match &e.body {
        Body::Elided => true,
        Body::Encrypted(_, _, _) => true,
        Body::Compressed(_) => true,
        _ => false,
    };
    if !obscured && bytes_equal(&e.digest, d) {
        return true;
    }
    match &e.body {
        Body::Wrapped(c) => discloses_digest(c, d),
        Body::Assertion(p, o) => discloses_digest(p, d) || discloses_digest(o, d),
        Body::Node(s, a) => {
            if discloses_digest(s, d) {
                return true;
            }
            let mut i: usize = 0;
            while i < a.len()
                invariant
                    e.body is Node,
                    e.body->Node_1 == *a,
                    e.inv(),
                    0 <= i <= a@.len(),
                    forall|j: int| 0 <= j < i ==> !discloses(#[trigger] a@[j]@, d@),
                decreases a@.len() - i,
            {
                proof {
                    assert(decreases_to!(*e => e.body));
                    assert(decreases_to!(e.body => e.body->Node_1));
                    assert(decreases_to!(*a => a@));
                    assert(decreases_to!(a@ => a@[i as int]));
                    assert(a@[i as int].inv());
                }
                if discloses_digest(&a[i], d) {
                    assert(e@->Node_1[i as int] == a@[i as int]@);
                    return true;
                }
                i = i + 1;
            }
            proof {
                assert forall|j: int| 0 <= j < e@->Node_1.len() implies !discloses(
                    #[trigger] e@->Node_1[j],
                    d@,
                ) by {
                    assert(e@->Node_1[j] == a@[j]@);
                }
            }
            false
        },
        _ => false,
    }
}

/// Whether `e` discloses every digest listed in `ts`.
fn discloses_all(e: &Envelope, ts: &Vec<Vec<u8>>) -> (r: bool)
    requires
        e.inv(),
    ensures
        r == forall|d: Seq<u8>| target_set(ts@).contains(d) ==> discloses(e@, d),
{
    let mut i: usize = 0;
    while i < ts.len()
        invariant
            e.inv(),
            0 <= i <= ts@.len(),
            forall|j: int| 0 <= j < i ==> discloses(e@, (#[trigger] ts@[j])@),
        decreases ts@.len() - i,
    {
        if !discloses_digest(e, &ts[i]) {
            assert(target_set(ts@).contains(ts@[i as int]@));
            return false;
        }
        i = i + 1;
    }
    true
}

/// A proof for the targets listed in `ts`: `e` with every subtree elided
/// that neither is a target nor leads to one. Fails with `TargetNotFound`
/// exactly when `e` does not disclose some target.
pub fn make_proof(e: Envelope, ts: &Vec<Vec<u8>>) -> (r: Result<Envelope, Error>)
    requires
        e.inv(),
    ensures
        (forall|d: Seq<u8>| target_set(ts@).contains(d) ==> discloses(e@, d)) <==> r is Ok,
        r is Err ==> r == Err::<Envelope, Error>(Error::TargetNotFound),
        r matches Ok(p) ==> p.inv() && p@ == elide_revealing(e@, target_set(ts@)),
{
    if !discloses_all(&e, ts) {
        return Err(Error::TargetNotFound);
    }
    Ok(elide_revealing_set(e, ts))
}

/// Checks a proof: its digest equals `root` and it discloses every digest
/// listed in `ts`.
pub fn verify_proof(root: &Vec<u8>, proof: &Envelope, ts: &Vec<Vec<u8>>) -> (r: bool)
    requires
        proof.inv(),
    ensures
        r == proof_accepted(root@, proof@, target_set(ts@)),
{
    bytes_equal(&proof.digest, root) && discloses_all(proof, ts)
}

} // verus!
