//! Digests: SHA-256 images of node content, and their byte-wise order.
use vstd::prelude::*;

verus! {

/// Length in bytes of every digest.
pub const DIGEST_LEN: usize = 32;

/// The SHA-256 hash of `image`.
pub uninterp spec fn sha256_of(image: Seq<u8>) -> Seq<u8>;

/// Relies on `bc_components::Digest::from_image`: hashes the image with
/// SHA-256, whose output is always 32 bytes.
#[verifier::external_body]
pub fn sha256(image: &Vec<u8>) -> (r: Vec<u8>)
    ensures
        r@ == sha256_of(image@),
        r@.len() == DIGEST_LEN,
{
    bc_components::Digest::from_image(image).data().to_vec()
}

/// `a` comes strictly before `b` in byte-wise (lexicographic) order; both
/// have the same length.
pub open spec fn lex_lt(a: Seq<u8>, b: Seq<u8>) -> bool {
    exists|k: int|
        #![trigger a[k], b[k]]
        0 <= k < a.len() && k < b.len() && a[k] < b[k] && (forall|j: int|
            0 <= j < k ==> a[j] == b[j])
}

/// Byte-wise order is transitive.
pub proof fn lemma_lex_lt_transitive(a: Seq<u8>, b: Seq<u8>, c: Seq<u8>)
    requires
        lex_lt(a, b),
        lex_lt(b, c),
        a.len() == b.len(),
        b.len() == c.len(),
    ensures
        lex_lt(a, c),
{
    let k1 = choose|k: int|
        #![trigger a[k], b[k]]
        0 <= k < a.len() && k < b.len() && a[k] < b[k] && (forall|j: int|
            0 <= j < k ==> a[j] == b[j]);
    let k2 = choose|k: int|
        #![trigger b[k], c[k]]
        0 <= k < b.len() && k < c.len() && b[k] < c[k] && (forall|j: int|
            0 <= j < k ==> b[j] == c[j]);
    let k = if k1 < k2 { k1 } else { k2 };
    assert(a[k] < c[k]);
    assert(forall|j: int| 0 <= j < k ==> a[j] == c[j]);
}

/// Byte-wise order is irreflexive.
pub proof fn lemma_lex_lt_irreflexive(a: Seq<u8>, b: Seq<u8>)
    requires
        lex_lt(a, b),
    ensures
        a != b,
        !lex_lt(b, a),
{
    let k1 = choose|k: int|
        #![trigger a[k], b[k]]
        0 <= k < a.len() && k < b.len() && a[k] < b[k] && (forall|j: int|
            0 <= j < k ==> a[j] == b[j]);
    if lex_lt(b, a) {
        let k2 = choose|k: int|
            #![trigger b[k], a[k]]
            0 <= k < b.len() && k < a.len() && b[k] < a[k] && (forall|j: int|
                0 <= j < k ==> b[j] == a[j]);
        if k1 < k2 {
            assert(b[k1] == a[k1]);
        } else if k2 < k1 {
            assert(a[k2] == b[k2]);
        }
    }
}

/// Compares two byte strings of equal length: negative when `a` comes first,
/// zero when they are equal, positive when `b` comes first.
pub fn compare_bytes(a: &Vec<u8>, b: &Vec<u8>) -> (r: i8)
    requires
        a@.len() == b@.len(),
    ensures
        r < 0 <==> lex_lt(a@, b@),
        r == 0 <==> a@ == b@,
        r > 0 <==> lex_lt(b@, a@),
{
    let mut i: usize = 0;
    while i < a.len()
        invariant
            a@.len() == b@.len(),
            0 <= i <= a@.len(),
            forall|j: int| 0 <= j < i ==> a@[j] == b@[j],
        decreases a@.len() - i,
    {
        if a[i] < b[i] {
            assert(lex_lt(a@, b@) && a@[i as int] < b@[i as int]);
            proof {
                lemma_lex_lt_irreflexive(a@, b@);
            }
            return -1;
        } else if a[i] > b[i] {
            assert(lex_lt(b@, a@) && b@[i as int] < a@[i as int]);
            proof {
                lemma_lex_lt_irreflexive(b@, a@);
            }
            return 1;
        }
        i = i + 1;
    }
    assert(a@ =~= b@);
    proof {
        if lex_lt(a@, b@) {
            lemma_lex_lt_irreflexive(a@, b@);
        }
    }
    0
}

/// Whether two byte strings are equal.
pub fn bytes_equal(a: &Vec<u8>, b: &Vec<u8>) -> (r: bool)
    ensures
        r == (a@ == b@),
{
    if a.len() != b.len() {
        return false;
    }
    let mut i: usize = 0;
    while i < a.len()
        invariant
            a@.len() == b@.len(),
            0 <= i <= a@.len(),
            forall|j: int| 0 <= j < i ==> a@[j] == b@[j],
        decreases a@.len() - i,
    {
        if a[i] != b[i] {
            return false;
        }
        i = i + 1;
    }
    assert(a@ =~= b@);
    true
}

} // verus!
