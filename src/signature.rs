//! Signatures: `signed` assertions over the digest of the subject, made and
//! checked with Ed25519.
use vstd::prelude::*;
use crate::tree::{Tree, digest_of};
use crate::envelope::{
    Envelope, Body, subject_of, assertions_of, bytes_content, copy_bytes, LEAF_BYTES,
};
use crate::error::Error;

verus! {

/// The registry value of the `signed` predicate.
pub const SIGNED: u64 = 3;

/// Length in bytes of an Ed25519 signature.
pub const SIGNATURE_LEN: usize = 64;

/// The Ed25519 signature of `message` under `private_key`.
pub uninterp spec fn ed25519_signature(private_key: Seq<u8>, message: Seq<u8>) -> Seq<u8>;

/// The Ed25519 public key of `private_key`.
pub uninterp spec fn ed25519_public(private_key: Seq<u8>) -> Seq<u8>;

/// Ed25519 verification accepts `signature` of `message` under `public_key`.
pub uninterp spec fn ed25519_valid(public_key: Seq<u8>, message: Seq<u8>, signature: Seq<u8>) -> bool;

/// Relies on `bc_components::Ed25519PrivateKey::sign`: a deterministic
/// 64-byte Ed25519 signature, which verifies under the key's public key.
#[verifier::external_body]
fn ed25519_sign(private_key: &[u8; 32], message: &Vec<u8>) -> (r: Vec<u8>)
    ensures
        r@ == ed25519_signature(private_key@, message@),
        r@.len() == SIGNATURE_LEN,
        ed25519_valid(ed25519_public(private_key@), message@, r@),
{
    bc_components::Ed25519PrivateKey::from_data(*private_key).sign(message).to_vec()
}

/// The 32 bytes decompress to a point of the Ed25519 curve.
pub uninterp spec fn ed25519_point(public_key: Seq<u8>) -> bool;

/// Relies on `ed25519_dalek::VerifyingKey::from_bytes`, which fails exactly
/// when the bytes do not decompress to a curve point.
#[verifier::external_body]
fn ed25519_key_is_point(public_key: &[u8; 32]) -> (r: bool)
    ensures
        r == ed25519_point(public_key@),
{
    ed25519_dalek::VerifyingKey::from_bytes(public_key).is_ok()
}

/// Relies on `bc_components::Ed25519PrivateKey::public_key`: the Ed25519
/// public key of a private key, the compressed form of a curve point.
#[verifier::external_body]
fn ed25519_public_key(private_key: &[u8; 32]) -> (r: [u8; 32])
    ensures
        r@ == ed25519_public(private_key@),
        ed25519_point(r@),
{
    *bc_components::Ed25519PrivateKey::from_data(*private_key).public_key().data()
}

/// The Ed25519 public key of `private_key`.
pub fn public_key_of(private_key: &[u8; 32]) -> (r: [u8; 32])
    ensures
        r@ == ed25519_public(private_key@),
        ed25519_point(r@),
{
    ed25519_public_key(private_key)
}

/// Relies on `bc_components::Ed25519PublicKey::verify`: Ed25519
/// verification of a 64-byte signature under a key that is a curve point
/// (for any other key the call panics).
#[verifier::external_body]
fn ed25519_verify(public_key: &[u8; 32], message: &Vec<u8>, signature: &Vec<u8>) -> (r: bool)
    requires
        signature@.len() == SIGNATURE_LEN,
        ed25519_point(public_key@),
    ensures
        r == ed25519_valid(public_key@, message@, signature@),
{
    match <[u8; 64]>::try_from(signature.as_slice()) {
        Ok(s) => bc_components::Ed25519PublicKey::from_data(*public_key).verify(&s, message),
        Err(_) => false,
    }
}

/// The `signed` assertion holding `signature`.
pub open spec fn signature_assertion(signature: Seq<u8>) -> Tree {
    Tree::Assertion(Box::new(Tree::Known(SIGNED)), Box::new(Tree::Leaf(bytes_content(signature))))
}

/// `a` is a `signed` assertion whose signature verifies over `message`
/// under `public_key`.
pub open spec fn signs(a: Tree, public_key: Seq<u8>, message: Seq<u8>) -> bool {
    exists|sig: Seq<u8>|
        a == signature_assertion(sig) && sig.len() == SIGNATURE_LEN && #[trigger] ed25519_valid(
            public_key,
            message,
            sig,
        )
}

/// Some `signed` assertion of `t` verifies over the digest of `t`'s subject
/// under `public_key`.
pub open spec fn signed_by(t: Tree, public_key: Seq<u8>) -> bool {
    exists|i: int|
        0 <= i < assertions_of(t).len() && signs(
            #[trigger] assertions_of(t)[i],
            public_key,
            digest_of(subject_of(t)),
        )
}

/// The signature that `a` holds, when it has the shape of a `signed`
/// assertion.
fn signature_of(a: &Envelope) -> (r: Option<Vec<u8>>)
    requires
        a.inv(),
    ensures
        r matches Some(sig) ==> a@ == signature_assertion(sig@) && sig@.len() == SIGNATURE_LEN,
        r is None ==> forall|sig: Seq<u8>| sig.len() == SIGNATURE_LEN ==> a@ != signature_assertion(sig),
{
    if let Body::Assertion(p, o) = &a.body {
        if let Body::Known(k) = &p.body {
            if let Body::Leaf(c) = &o.body {
                if *k == SIGNED && c.len() == SIGNATURE_LEN + 1 && c[0] == LEAF_BYTES {
                    let mut sig: Vec<u8> = Vec::new();
                    let mut i: usize = 1;
                    while i < c.len()
                        invariant
                            1 <= i <= c@.len(),
                            sig@ == c@.subrange(1, i as int),
                        decreases c@.len() - i,
                    {
                        sig.push(c[i]);
                        i = i + 1;
                        assert(sig@ =~= c@.subrange(1, i as int));
                    }
                    assert(c@ =~= bytes_content(sig@));
                    assert(p@ == Tree::Known(SIGNED));
                    assert(o@ == Tree::Leaf(bytes_content(sig@)));
                    assert(a@ == Tree::Assertion(Box::new(p@), Box::new(o@)));
                    return Some(sig);
                }
            }
        }
    }
    proof {
        assert forall|sig: Seq<u8>| sig.len() == SIGNATURE_LEN implies a@ != signature_assertion(sig) by {
            if a@ == signature_assertion(sig) {
                assert(bytes_content(sig)[0] == LEAF_BYTES);
                assert(bytes_content(sig).len() == SIGNATURE_LEN + 1);
                assert(a.body is Assertion);
                let p = a.body->Assertion_0;
                let o = a.body->Assertion_1;
                assert(p@ == Tree::Known(SIGNED));
                assert(p.body is Known);
                assert(o@ == Tree::Leaf(bytes_content(sig)));
                assert(o.body is Leaf);
                assert(o.body->Leaf_0@ == bytes_content(sig));
                assert(o.body->Leaf_0@.len() == o.body->Leaf_0.len());
            }
        }
    }
    None
}

impl Envelope {
    /// The digest of this envelope's subject.
    pub fn subject_digest(&self) -> (r: Vec<u8>)
        requires
            self.inv(),
        ensures
            r@ == digest_of(subject_of(self@)),
    {
        match &self.body {
            Body::Node(s, _) => {
                assert(s.inv());
                copy_bytes(&s.digest)
            },
            _ => copy_bytes(&self.digest),
        }
    }

    /// This envelope with a `signed` assertion added: the Ed25519 signature,
    /// under `private_key`, of the digest of its subject. The subject and
    /// every assertion already there stay, so every signature that verified
    /// before still does.
    pub fn sign(self, private_key: &[u8; 32]) -> (r: Envelope)
        requires
            self.inv(),
        ensures
            r.inv(),
            subject_of(r@) == subject_of(self@),
            forall|x: Tree| #[trigger] assertions_of(self@).contains(x) ==> assertions_of(r@).contains(x),
            forall|k: Seq<u8>| signed_by(self@, k) ==> #[trigger] signed_by(r@, k),
            r@ == crate::assertion_set::with_assertion(
                self@,
                signature_assertion(ed25519_signature(private_key@, digest_of(subject_of(self@)))),
            ),
            ({
                let sa = signature_assertion(ed25519_signature(private_key@, digest_of(subject_of(self@))));
                (forall|i: int|
                    0 <= i < assertions_of(self@).len() && digest_of(#[trigger] assertions_of(self@)[i])
                        == digest_of(sa) ==> assertions_of(self@)[i] == sa) ==> signed_by(
                    r@,
                    ed25519_public(private_key@),
                )
            }),
    {
        let d = self.subject_digest();
        let sig = ed25519_sign(private_key, &d);
        let ghost old_view = self@;
        let ghost sa = signature_assertion(sig@);
        let r = self.add_assertion_pair(Envelope::known_value(SIGNED), Envelope::from_bytes(&sig));
        proof {
            assert forall|k: Seq<u8>| signed_by(old_view, k) implies #[trigger] signed_by(r@, k) by {
                let i = choose|i: int|
                    0 <= i < assertions_of(old_view).len() && signs(
                        #[trigger] assertions_of(old_view)[i],
                        k,
                        digest_of(subject_of(old_view)),
                    );
                assert(assertions_of(old_view).contains(assertions_of(old_view)[i]));
                assert(r@->Node_1.contains(assertions_of(old_view)[i]));
                let j = choose|j: int| 0 <= j < r@->Node_1.len() && r@->Node_1[j] == assertions_of(old_view)[i];
                assert(assertions_of(r@)[j] == r@->Node_1[j]);
            }
            if forall|i: int|
                0 <= i < assertions_of(old_view).len() && digest_of(#[trigger] assertions_of(old_view)[i])
                    == digest_of(sa) ==> assertions_of(old_view)[i] == sa {
                assert(r@->Node_1.contains(sa));
                let j = choose|j: int| 0 <= j < r@->Node_1.len() && r@->Node_1[j] == sa;
                assert(assertions_of(r@)[j] == sa);
                assert(signs(sa, ed25519_public(private_key@), digest_of(subject_of(old_view))));
            }
        }
        r
    }

    /// Whether `public_key` is a curve point and some `signed` assertion of
    /// this envelope verifies under it over the digest of its subject.
    pub fn has_signature_from(&self, public_key: &[u8; 32]) -> (r: bool)
        requires
            self.inv(),
        ensures
            r == (ed25519_point(public_key@) && signed_by(self@, public_key@)),
    {
        if !ed25519_key_is_point(public_key) {
            return false;
        }
        let d = self.subject_digest();
        let a = self.assertions();
        let mut i: usize = 0;
        while i < a.len()
            invariant
                forall|j: int| 0 <= j < a@.len() ==> (#[trigger] a@[j]).inv(),
                crate::envelope::views(a@) == assertions_of(self@),
                d@ == digest_of(subject_of(self@)),
                0 <= i <= a@.len(),
                ed25519_point(public_key@),
                forall|j: int| 0 <= j < i ==> !signs(#[trigger] assertions_of(self@)[j], public_key@, d@),
            decreases a@.len() - i,
        {
            assert(a@[i as int].inv());
            assert(assertions_of(self@)[i as int] == a@[i as int]@);
            match signature_of(&a[i]) {
                Some(sig) => {
                    if ed25519_verify(public_key, &d, &sig) {
                        assert(signs(a@[i as int]@, public_key@, d@));
                        return true;
                    }
                    proof {
                        if signs(a@[i as int]@, public_key@, d@) {
                            let s2 = choose|s2: Seq<u8>|
                                a@[i as int]@ == signature_assertion(s2) && s2.len() == SIGNATURE_LEN
                                    && #[trigger] ed25519_valid(public_key@, d@, s2);
                            assert(bytes_content(s2) == bytes_content(sig@));
                            assert(s2 =~= bytes_content(s2).subrange(1, 65));
                            assert(sig@ =~= bytes_content(sig@).subrange(1, 65));
                        }
                    }
                },
                None => {},
            }
            i = i + 1;
        }
        false
    }

    /// Succeeds exactly when `public_key` is a curve point and some `signed`
    /// assertion of this envelope verifies under it; fails with
    /// `VerificationFailed` otherwise.
    pub fn verify_signature_from(&self, public_key: &[u8; 32]) -> (r: Result<(), Error>)
        requires
            self.inv(),
        ensures
            r is Ok <==> ed25519_point(public_key@) && signed_by(self@, public_key@),
            r is Err ==> r == Err::<(), Error>(Error::VerificationFailed),
    {
        if self.has_signature_from(public_key) {
            Ok(())
        } else {
            Err(Error::VerificationFailed)
        }
    }
}

} // verus!
