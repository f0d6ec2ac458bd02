//! Salt: a random assertion added to decorrelate the digests of otherwise
//! identical content.
use vstd::prelude::*;
use crate::tree::Tree;
use crate::envelope::{Envelope, subject_of, assertions_of, bytes_content};

verus! {

/// The registry value of the `salt` predicate.
pub const SALT: u64 = 15;

/// Salt length in bytes when none is given: 128 bits of entropy.
pub const DEFAULT_SALT_LEN: usize = 16;

/// Relies on `bc_rand::random_data`: `n` bytes from a cryptographically
/// secure generator.
#[verifier::external_body]
fn random_bytes(n: usize) -> (r: Vec<u8>)
    ensures
        r@.len() == n,
{
    bc_rand::random_data(n)
}

/// The salt assertion holding `salt`.
pub open spec fn salt_assertion(salt: Seq<u8>) -> Tree {
    Tree::Assertion(Box::new(Tree::Known(SALT)), Box::new(Tree::Leaf(bytes_content(salt))))
}

/// `t` is a salt assertion.
pub open spec fn is_salt_assertion(t: Tree) -> bool {
    exists|salt: Seq<u8>| t == salt_assertion(salt)
}

impl Envelope {
    /// This envelope with a salt assertion of `len` random bytes added; its
    /// subject and other assertions stay as they are.
    pub fn add_salt_with_len(self, len: usize) -> (r: Envelope)
        requires
            self.inv(),
        ensures
            r.inv(),
            r@ is Node,
            subject_of(r@) == subject_of(self@),
            forall|x: Tree|
                !is_salt_assertion(x) ==> (#[trigger] assertions_of(r@).contains(x)
                    <==> assertions_of(self@).contains(x)),
            exists|salt: Seq<u8>, i: int|
                salt.len() == len && 0 <= i < assertions_of(r@).len() && #[trigger] crate::tree::digest_of(
                    assertions_of(r@)[i],
                ) == #[trigger] crate::tree::digest_of(salt_assertion(salt)),
            exists|salt: Seq<u8>|
                salt.len() == len && r@ == crate::assertion_set::with_assertion(
                    self@,
                    #[trigger] salt_assertion(salt),
                ),
    {
        let ghost old_view = self@;
        let salt = random_bytes(len);
        let ghost sa = salt_assertion(salt@);
        let r = self.add_assertion_pair(Envelope::known_value(SALT), Envelope::from_bytes(&salt));
        proof {
            assert(is_salt_assertion(sa));
            let i = choose|i: int|
                0 <= i < r@->Node_1.len() && crate::tree::digest_of(#[trigger] r@->Node_1[i])
                    == crate::tree::digest_of(sa);
            assert(assertions_of(r@)[i] == r@->Node_1[i]);
            assert(salt@.len() == len && crate::tree::digest_of(assertions_of(r@)[i])
                == crate::tree::digest_of(salt_assertion(salt@)));
            assert(r@ == crate::assertion_set::with_assertion(old_view, salt_assertion(salt@)));
        }
        r
    }

    /// This envelope with a salt assertion of the default length added.
    pub fn add_salt(self) -> (r: Envelope)
        requires
            self.inv(),
        ensures
            r.inv(),
            r@ is Node,
            subject_of(r@) == subject_of(self@),
            forall|x: Tree|
                !is_salt_assertion(x) ==> (#[trigger] assertions_of(r@).contains(x)
                    <==> assertions_of(self@).contains(x)),
            exists|salt: Seq<u8>, i: int|
                salt.len() == DEFAULT_SALT_LEN && 0 <= i < assertions_of(r@).len()
                    && #[trigger] crate::tree::digest_of(assertions_of(r@)[i])
                    == #[trigger] crate::tree::digest_of(salt_assertion(salt)),
            exists|salt: Seq<u8>|
                salt.len() == DEFAULT_SALT_LEN && r@ == crate::assertion_set::with_assertion(
                    self@,
                    #[trigger] salt_assertion(salt),
                ),
    {
        self.add_salt_with_len(DEFAULT_SALT_LEN)
    }
}

} // verus!
