//! The mathematical model of an envelope, and its digest law.
//!
//! Every digest is SHA-256 over a kind tag followed by the node's content:
//!
//! - leaf: tag 0, then the leaf's canonical content;
//! - registry value: tag 1, then the value as 8 big-endian bytes;
//! - wrapped envelope: tag 2, then the inner envelope's digest;
//! - assertion: tag 3, then the predicate's digest and the object's digest;
//! - node: tag 4, then the subject's digest and the digests of the
//!   assertions in ascending byte order, duplicates collapsed.
//!
//! An elided, encrypted or compressed placeholder carries the digest of the
//! subtree it replaces, so obscuring a subtree never changes a digest.
use vstd::prelude::*;
use crate::digest::{sha256_of, lex_lt};

verus! {

/// The value of an envelope: a tree of nodes, some of which may stand
/// obscured for the subtree they replace.
pub enum Tree {
    /// An opaque scalar payload, held as its canonical encoding.
    Leaf(Seq<u8>),
    /// A compact registry-indexed semantic tag.
    Known(u64),
    /// A whole envelope used as an atomic subject.
    Wrapped(Box<Tree>),
    /// A (predicate, object) pair.
    Assertion(Box<Tree>, Box<Tree>),
    /// A subject with its assertions, kept in ascending digest order.
    Node(Box<Tree>, Seq<Tree>),
    /// Only the digest of the original subtree survives.
    Elided(Seq<u8>),
    /// Digest, ciphertext, nonce and authentication tag of an encrypted
    /// subtree.
    Encrypted(Seq<u8>, Seq<u8>, Seq<u8>, Seq<u8>),
    /// Digest and compressed encoding of a subtree.
    Compressed(Seq<u8>, Seq<u8>),
}

/// Domain-separation tags hashed in front of each kind of node.
pub const TAG_LEAF: u8 = 0;
pub const TAG_KNOWN: u8 = 1;
pub const TAG_WRAPPED: u8 = 2;
pub const TAG_ASSERTION: u8 = 3;
pub const TAG_NODE: u8 = 4;

/// Big-endian bytes of a 64-bit value.
pub open spec fn u64_be(n: u64) -> Seq<u8> {
    Seq::new(8, |i: int| ((n >> ((56 - 8 * i) as u64)) & 0xffu64) as u8)
}

impl Tree {
    /// The node stands obscured in place of some subtree.
    pub open spec fn is_obscured(self) -> bool {
        self is Elided || self is Encrypted || self is Compressed
    }
}

/// The digest of a tree: a node is hashed over the digests of its children,
/// and an obscured node carries the digest of the subtree it replaces.
pub open spec fn digest_of(t: Tree) -> Seq<u8>
    decreases t,
{
    match t {
        Tree::Leaf(b) => sha256_of(seq![TAG_LEAF] + b),
        Tree::Known(n) => sha256_of(seq![TAG_KNOWN] + u64_be(n)),
        Tree::Wrapped(c) => sha256_of(seq![TAG_WRAPPED] + digest_of(*c)),
        Tree::Assertion(p, o) => sha256_of(seq![TAG_ASSERTION] + digest_of(*p) + digest_of(*o)),
        Tree::Node(s, a) => sha256_of(seq![TAG_NODE] + digest_of(*s) + digests_concat(a)),
        Tree::Elided(d) => d,
        Tree::Encrypted(d, _, _, _) => d,
        Tree::Compressed(d, _) => d,
    }
}

/// The digests of a sequence of trees, concatenated in order.
pub open spec fn digests_concat(s: Seq<Tree>) -> Seq<u8>
    decreases s,
{
    if s.len() == 0 {
        seq![]
    } else {
        digests_concat(s.subrange(0, s.len() - 1)) + digest_of(s[s.len() - 1])
    }
}

/// The assertions stand in strictly ascending digest order, so that the
/// set of their digests alone decides the node's digest.
pub open spec fn sorted_by_digest(a: Seq<Tree>) -> bool {
    forall|i: int, j: int|
        0 <= i < j < a.len() ==> lex_lt(#[trigger] digest_of(a[i]), #[trigger] digest_of(a[j]))
}

} // verus!
