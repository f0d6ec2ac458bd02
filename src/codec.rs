//! A canonical binary encoding of envelopes, used as the plaintext of
//! encrypted and compressed placeholders.
//!
//! Each node is written in preorder as a kind byte followed by its fields;
//! lengths and counts are 8-byte big-endian integers.
use vstd::prelude::*;
use crate::digest::{compare_bytes, DIGEST_LEN};
use crate::tree::{Tree, digest_of, sorted_by_digest, u64_be};
use crate::envelope::{
    Envelope, Body, views, append_bytes, u64_bytes, NONCE_LEN, AUTH_TAG_LEN,
};

verus! {

pub const KIND_LEAF: u8 = 0;
pub const KIND_KNOWN: u8 = 1;
pub const KIND_WRAPPED: u8 = 2;
pub const KIND_ASSERTION: u8 = 3;
pub const KIND_NODE: u8 = 4;
pub const KIND_ELIDED: u8 = 5;
pub const KIND_ENCRYPTED: u8 = 6;
pub const KIND_COMPRESSED: u8 = 7;

/// The encoding of a tree.
pub open spec fn encode(t: Tree) -> Seq<u8>
    decreases t,
{
    match t {
        Tree::Leaf(b) => seq![KIND_LEAF] + u64_be(b.len() as u64) + b,
        Tree::Known(n) => seq![KIND_KNOWN] + u64_be(n),
        Tree::Wrapped(c) => seq![KIND_WRAPPED] + encode(*c),
        Tree::Assertion(p, o) => seq![KIND_ASSERTION] + encode(*p) + encode(*o),
        Tree::Node(s, a) => seq![KIND_NODE] + encode(*s) + u64_be(a.len() as u64) + encode_all(a),
        Tree::Elided(d) => seq![KIND_ELIDED] + d,
        Tree::Encrypted(d, c, n, g) => seq![KIND_ENCRYPTED] + d + n + g + u64_be(c.len() as u64)
            + c,
        Tree::Compressed(d, c) => seq![KIND_COMPRESSED] + d + u64_be(c.len() as u64) + c,
    }
}

/// The encodings of a sequence of trees, concatenated in order.
pub open spec fn encode_all(a: Seq<Tree>) -> Seq<u8>
    decreases a,
{
    if a.len() == 0 {
        seq![]
    } else {
        encode(a[0]) + encode_all(a.subrange(1, a.len() as int))
    }
}

/// The trees that the encoding represents exactly: fixed-size fields have
/// their sizes, lengths fit in 64 bits, and nodes have at least one
/// assertion, in strictly ascending digest order.
pub open spec fn encodable(t: Tree) -> bool
    decreases t,
{
    match t {
        Tree::Leaf(b) => b.len() <= u64::MAX,
        Tree::Known(_) => true,
        Tree::Wrapped(c) => encodable(*c),
        Tree::Assertion(p, o) => encodable(*p) && encodable(*o),
        Tree::Node(s, a) => {
            &&& encodable(*s)
            &&& 1 <= a.len() <= u64::MAX
            &&& sorted_by_digest(a)
            &&& forall|i: int| 0 <= i < a.len() ==> encodable(#[trigger] a[i])
        },
        Tree::Elided(d) => d.len() == DIGEST_LEN,
        Tree::Encrypted(d, c, n, g) => d.len() == DIGEST_LEN && n.len() == NONCE_LEN && g.len()
            == AUTH_TAG_LEN && c.len() <= u64::MAX,
        Tree::Compressed(d, c) => d.len() == DIGEST_LEN && c.len() <= u64::MAX,
    }
}

/// The encoding of `t` stands in `b` from `pos` on.
pub open spec fn encoded_at(b: Seq<u8>, pos: int, t: Tree) -> bool {
    &&& encodable(t)
    &&& 0 <= pos
    &&& pos + encode(t).len() <= b.len()
    &&& b.subrange(pos, pos + encode(t).len()) == encode(t)
}

/// The encodings of the trees of `ts` stand in `b` from `pos` on.
pub open spec fn all_encoded_at(b: Seq<u8>, pos: int, ts: Seq<Tree>) -> bool {
    &&& forall|i: int| 0 <= i < ts.len() ==> encodable(#[trigger] ts[i])
    &&& 0 <= pos
    &&& pos + encode_all(ts).len() <= b.len()
    &&& b.subrange(pos, pos + encode_all(ts).len()) == encode_all(ts)
}

/// A concatenation found in `b` at `pos` splits into its two parts.
proof fn lemma_split(b: Seq<u8>, pos: int, x: Seq<u8>, y: Seq<u8>)
    requires
        0 <= pos,
        pos + x.len() + y.len() <= b.len(),
        b.subrange(pos, pos + x.len() + y.len()) == x + y,
    ensures
        b.subrange(pos, pos + x.len()) == x,
        b.subrange(pos + x.len(), pos + x.len() + y.len()) == y,
{
    assert(b.subrange(pos, pos + x.len()) =~= (x + y).subrange(0, x.len() as int));
    assert(b.subrange(pos + x.len(), pos + x.len() + y.len()) =~= (x + y).subrange(
        x.len() as int,
        (x.len() + y.len()) as int,
    ));
    assert((x + y).subrange(0, x.len() as int) =~= x);
    assert((x + y).subrange(x.len() as int, (x.len() + y.len()) as int) =~= y);
}

/// Appending one tree to a sequence appends its encoding.
proof fn lemma_encode_all_push(a: Seq<Tree>, t: Tree)
    ensures
        encode_all(a.push(t)) == encode_all(a) + encode(t),
    decreases a.len(),
{
    let at = a.push(t);
    assert(encode_all(at) == encode(at[0]) + encode_all(at.subrange(1, at.len() as int)));
    if a.len() == 0 {
        assert(at.subrange(1, 1) =~= Seq::<Tree>::empty());
        assert(encode_all(Seq::<Tree>::empty()) == Seq::<u8>::empty());
        assert(encode_all(a) == Seq::<u8>::empty());
        assert(encode(t) + Seq::<u8>::empty() =~= encode(t));
        assert(Seq::<u8>::empty() + encode(t) =~= encode(t));
    } else {
        let rest = a.subrange(1, a.len() as int);
        lemma_encode_all_push(rest, t);
        assert(a.push(t).subrange(1, (a.len() + 1) as int) =~= rest.push(t));
        assert(a.push(t)[0] == a[0]);
        assert(encode(a[0]) + (encode_all(rest) + encode(t)) =~= encode(a[0]) + encode_all(rest)
            + encode(t));
    }
}

/// The big-endian encoding of a 64-bit value determines it.
proof fn lemma_u64_be_injective(x: u64, y: u64)
    requires
        u64_be(x) == u64_be(y),
    ensures
        x == y,
{
    assert(u64_be(x)[0] == ((x >> 56u64) & 0xff) as u8 && u64_be(y)[0] == ((y >> 56u64) & 0xff) as u8);
    assert(u64_be(x)[1] == ((x >> 48u64) & 0xff) as u8 && u64_be(y)[1] == ((y >> 48u64) & 0xff) as u8);
    assert(u64_be(x)[2] == ((x >> 40u64) & 0xff) as u8 && u64_be(y)[2] == ((y >> 40u64) & 0xff) as u8);
    assert(u64_be(x)[3] == ((x >> 32u64) & 0xff) as u8 && u64_be(y)[3] == ((y >> 32u64) & 0xff) as u8);
    assert(u64_be(x)[4] == ((x >> 24u64) & 0xff) as u8 && u64_be(y)[4] == ((y >> 24u64) & 0xff) as u8);
    assert(u64_be(x)[5] == ((x >> 16u64) & 0xff) as u8 && u64_be(y)[5] == ((y >> 16u64) & 0xff) as u8);
    assert(u64_be(x)[6] == ((x >> 8u64) & 0xff) as u8 && u64_be(y)[6] == ((y >> 8u64) & 0xff) as u8);
    assert(u64_be(x)[7] == ((x >> 0u64) & 0xff) as u8 && u64_be(y)[7] == ((y >> 0u64) & 0xff) as u8);
    assert(x == y) by (bit_vector)
        requires
            ((x >> 56u64) & 0xff) as u8 == ((y >> 56u64) & 0xff) as u8,
            ((x >> 48u64) & 0xff) as u8 == ((y >> 48u64) & 0xff) as u8,
            ((x >> 40u64) & 0xff) as u8 == ((y >> 40u64) & 0xff) as u8,
            ((x >> 32u64) & 0xff) as u8 == ((y >> 32u64) & 0xff) as u8,
            ((x >> 24u64) & 0xff) as u8 == ((y >> 24u64) & 0xff) as u8,
            ((x >> 16u64) & 0xff) as u8 == ((y >> 16u64) & 0xff) as u8,
            ((x >> 8u64) & 0xff) as u8 == ((y >> 8u64) & 0xff) as u8,
            ((x >> 0u64) & 0xff) as u8 == ((y >> 0u64) & 0xff) as u8,
    ;
}

/// Reads the 64-bit big-endian value at `pos`.
fn read_u64(b: &Vec<u8>, pos: usize) -> (r: u64)
    requires
        pos + 8 <= b@.len(),
    ensures
        u64_be(r) == b@.subrange(pos as int, pos + 8),
{
    assert(b@.len() == b.len());
    let x0 = b[pos] as u64;
    let x1 = b[pos + 1] as u64;
    let x2 = b[pos + 2] as u64;
    let x3 = b[pos + 3] as u64;
    let x4 = b[pos + 4] as u64;
    let x5 = b[pos + 5] as u64;
    let x6 = b[pos + 6] as u64;
    let x7 = b[pos + 7] as u64;
    let r: u64 = (x0 << 56u64) | (x1 << 48u64) | (x2 << 40u64) | (x3 << 32u64) | (x4 << 24u64) | (
    x5 << 16u64) | (x6 << 8u64) | x7;
    assert(((r >> 56u64) & 0xff) == x0 && ((r >> 48u64) & 0xff) == x1 && ((r >> 40u64) & 0xff)
        == x2 && ((r >> 32u64) & 0xff) == x3 && ((r >> 24u64) & 0xff) == x4 && ((r >> 16u64)
        & 0xff) == x5 && ((r >> 8u64) & 0xff) == x6 && ((r >> 0u64) & 0xff) == x7) by (bit_vector)
        requires
            x0 < 256 && x1 < 256 && x2 < 256 && x3 < 256 && x4 < 256 && x5 < 256 && x6 < 256 && x7
                < 256,
            r == (x0 << 56u64) | (x1 << 48u64) | (x2 << 40u64) | (x3 << 32u64) | (x4 << 24u64) | (
            x5 << 16u64) | (x6 << 8u64) | x7,
    ;
    assert(u64_be(r) =~= b@.subrange(pos as int, pos + 8));
    r
}

/// The `n` bytes at `pos`.
fn read_bytes(b: &Vec<u8>, pos: usize, n: usize) -> (r: Vec<u8>)
    requires
        pos + n <= b@.len(),
    ensures
        r@ == b@.subrange(pos as int, pos + n),
{
    assert(b@.len() == b.len());
    let mut r: Vec<u8> = Vec::new();
    let mut i: usize = 0;
    while i < n
        invariant
            pos + n <= b@.len(),
            b@.len() <= usize::MAX,
            0 <= i <= n,
            r@ == b@.subrange(pos as int, pos + i),
        decreases n - i,
    {
        r.push(b[pos + i]);
        i = i + 1;
        assert(r@ =~= b@.subrange(pos as int, pos + i));
    }
    r
}

/// Appends the encoding of `e` to `out`.
fn encode_into(e: &Envelope, out: &mut Vec<u8>)
    requires
        e.inv(),
    ensures
        final(out)@ == old(out)@ + encode(e@),
    decreases e,
{
    let ghost start = out@;
    match &e.body {
        Body::Leaf(b) => {
            out.push(KIND_LEAF);
            append_bytes(out, &u64_bytes(b.len() as u64));
            append_bytes(out, b);
        },
        Body::Known(n) => {
            out.push(KIND_KNOWN);
            append_bytes(out, &u64_bytes(*n));
        },
        Body::Wrapped(c) => {
            out.push(KIND_WRAPPED);
            encode_into(c, out);
        },
        Body::Assertion(p, o) => {
            out.push(KIND_ASSERTION);
            encode_into(p, out);
            encode_into(o, out);
        },
        Body::Node(s, a) => {
            out.push(KIND_NODE);
            encode_into(s, out);
            append_bytes(out, &u64_bytes(a.len() as u64));
            let ghost mid = out@;
            let mut i: usize = 0;
            while i < a.len()
                invariant
                    e.inv(),
                    e.body is Node,
                    e.body->Node_1 == *a,
                    0 <= i <= a@.len(),
                    out@ == mid + encode_all(views(a@).subrange(0, i as int)),
                decreases a@.len() - i,
            {
                proof {
                    assert(decreases_to!(*e => e.body));
                    assert(decreases_to!(e.body => e.body->Node_1));
                    assert(decreases_to!(*a => a@));
                    assert(decreases_to!(a@ => a@[i as int]));
                    assert(a@[i as int].inv());
                }
                encode_into(&a[i], out);
                proof {
                    let v = views(a@);
                    lemma_encode_all_push(v.subrange(0, i as int), v[i as int]);
                    assert(v.subrange(0, i as int).push(v[i as int]) =~= v.subrange(0, i + 1));
                }
                i = i + 1;
            }
            assert(views(a@).subrange(0, a@.len() as int) =~= e@->Node_1);
        },
        Body::Elided => {
            out.push(KIND_ELIDED);
            append_bytes(out, &e.digest);
        },
        Body::Encrypted(c, n, g) => {
            out.push(KIND_ENCRYPTED);
            append_bytes(out, &e.digest);
            append_bytes(out, n);
            append_bytes(out, g);
            append_bytes(out, &u64_bytes(c.len() as u64));
            append_bytes(out, c);
        },
        Body::Compressed(c) => {
            out.push(KIND_COMPRESSED);
            append_bytes(out, &e.digest);
            append_bytes(out, &u64_bytes(c.len() as u64));
            append_bytes(out, c);
        },
    }
    assert(out@ =~= start + encode(e@));
}

/// The encoding of `e`.
pub fn encode_envelope(e: &Envelope) -> (r: Vec<u8>)
    requires
        e.inv(),
    ensures
        r@ == encode(e@),
{
    let mut out: Vec<u8> = Vec::new();
    encode_into(e, &mut out);
    assert(out@ =~= encode(e@));
    out
}

/// The kind byte that the encoding of `t` starts with.
pub open spec fn kind_of(t: Tree) -> u8 {
    match t {
        Tree::Leaf(_) => KIND_LEAF,
        Tree::Known(_) => KIND_KNOWN,
        Tree::Wrapped(_) => KIND_WRAPPED,
        Tree::Assertion(_, _) => KIND_ASSERTION,
        Tree::Node(_, _) => KIND_NODE,
        Tree::Elided(_) => KIND_ELIDED,
        Tree::Encrypted(_, _, _, _) => KIND_ENCRYPTED,
        Tree::Compressed(_, _) => KIND_COMPRESSED,
    }
}

/// An encoding found at `pos` starts there with its kind byte.
proof fn lemma_kind(b: Seq<u8>, pos: int, t: Tree)
    requires
        encoded_at(b, pos, t),
    ensures
        pos < b.len(),
        b[pos] == kind_of(t),
{
    let e = encode(t);
    assert(e.len() >= 1 && e[0] == kind_of(t)) by {
        match t {
            Tree::Leaf(c) => assert(e == seq![KIND_LEAF] + u64_be(c.len() as u64) + c),
            Tree::Known(n) => assert(e == seq![KIND_KNOWN] + u64_be(n)),
            Tree::Wrapped(c) => assert(e == seq![KIND_WRAPPED] + encode(*c)),
            Tree::Assertion(p, o) => assert(e == seq![KIND_ASSERTION] + encode(*p) + encode(*o)),
            Tree::Node(s, a) => assert(e == seq![KIND_NODE] + encode(*s) + u64_be(a.len() as u64)
                + encode_all(a)),
            Tree::Elided(d) => assert(e == seq![KIND_ELIDED] + d),
            Tree::Encrypted(d, c, n, g) => assert(e == seq![KIND_ENCRYPTED] + d + n + g + u64_be(
                c.len() as u64,
            ) + c),
            Tree::Compressed(d, c) => assert(e == seq![KIND_COMPRESSED] + d + u64_be(
                c.len() as u64,
            ) + c),
        }
    }
    assert(b.subrange(pos, pos + e.len())[0] == b[pos]);
}

/// Decodes a leaf whose kind byte stands at `pos`.
fn decode_leaf(b: &Vec<u8>, pos: usize) -> (r: Option<(Envelope, usize)>)
    requires
        pos < b@.len(),
        b@[pos as int] == KIND_LEAF,
    ensures
        r matches Some((e, end)) ==> e.inv() && pos < end <= b@.len(),
        forall|t: Tree|
            encoded_at(b@, pos as int, t) ==> (r matches Some((e, end)) && e@ == t && end == pos
                + encode(t).len()),
{
    assert(b@.len() == b.len());
    if b.len() - pos < 9 {
        proof {
            assert forall|t: Tree| encoded_at(b@, pos as int, t) implies false by {
                lemma_kind(b@, pos as int, t);
                let c = t->Leaf_0;
                assert(encode(t) == seq![KIND_LEAF] + u64_be(c.len() as u64) + c);
            }
        }
        return None;
    }
    let n = read_u64(b, pos + 1);
    if n > (b.len() - pos - 9) as u64 {
        proof {
            assert forall|t: Tree| encoded_at(b@, pos as int, t) implies false by {
                lemma_kind(b@, pos as int, t);
                let c = t->Leaf_0;
                let h = seq![KIND_LEAF] + u64_be(c.len() as u64);
                assert(encode(t) == h + c);
                lemma_split(b@, pos as int, h, c);
                lemma_split(b@, pos as int, seq![KIND_LEAF], u64_be(c.len() as u64));
                lemma_u64_be_injective(n, c.len() as u64);
            }
        }
        return None;
    }
    let c = read_bytes(b, pos + 9, n as usize);
    let e = Envelope::leaf(c);
    proof {
        assert forall|t: Tree| encoded_at(b@, pos as int, t) implies e@ == t && pos + 9 + n == pos
            + encode(t).len() by {
            lemma_kind(b@, pos as int, t);
            let c0 = t->Leaf_0;
            let h = seq![KIND_LEAF] + u64_be(c0.len() as u64);
            assert(encode(t) == h + c0);
            lemma_split(b@, pos as int, h, c0);
            lemma_split(b@, pos as int, seq![KIND_LEAF], u64_be(c0.len() as u64));
            lemma_u64_be_injective(n, c0.len() as u64);
        }
    }
    Some((e, pos + 9 + n as usize))
}

/// Decodes a registry value whose kind byte stands at `pos`.
fn decode_known(b: &Vec<u8>, pos: usize) -> (r: Option<(Envelope, usize)>)
    requires
        pos < b@.len(),
        b@[pos as int] == KIND_KNOWN,
    ensures
        r matches Some((e, end)) ==> e.inv() && pos < end <= b@.len(),
        forall|t: Tree|
            encoded_at(b@, pos as int, t) ==> (r matches Some((e, end)) && e@ == t && end == pos
                + encode(t).len()),
{
    assert(b@.len() == b.len());
    if b.len() - pos < 9 {
        proof {
            assert forall|t: Tree| encoded_at(b@, pos as int, t) implies false by {
                lemma_kind(b@, pos as int, t);
                assert(encode(t) == seq![KIND_KNOWN] + u64_be(t->Known_0));
            }
        }
        return None;
    }
    let n = read_u64(b, pos + 1);
    let e = Envelope::known_value(n);
    proof {
        assert forall|t: Tree| encoded_at(b@, pos as int, t) implies e@ == t && pos + 9 == pos
            + encode(t).len() by {
            lemma_kind(b@, pos as int, t);
            assert(encode(t) == seq![KIND_KNOWN] + u64_be(t->Known_0));
            lemma_split(b@, pos as int, seq![KIND_KNOWN], u64_be(t->Known_0));
            lemma_u64_be_injective(n, t->Known_0);
        }
    }
    Some((e, pos + 9))
}

/// Decodes an elided placeholder whose kind byte stands at `pos`.
fn decode_elided(b: &Vec<u8>, pos: usize) -> (r: Option<(Envelope, usize)>)
    requires
        pos < b@.len(),
        b@[pos as int] == KIND_ELIDED,
    ensures
        r matches Some((e, end)) ==> e.inv() && pos < end <= b@.len(),
        forall|t: Tree|
            encoded_at(b@, pos as int, t) ==> (r matches Some((e, end)) && e@ == t && end == pos
                + encode(t).len()),
{
    assert(b@.len() == b.len());
    if b.len() - pos < 33 {
        proof {
            assert forall|t: Tree| encoded_at(b@, pos as int, t) implies false by {
                lemma_kind(b@, pos as int, t);
                assert(encode(t) == seq![KIND_ELIDED] + t->Elided_0);
            }
        }
        return None;
    }
    let d = read_bytes(b, pos + 1, DIGEST_LEN);
    let e = Envelope { digest: d, body: Body::Elided };
    proof {
        assert forall|t: Tree| encoded_at(b@, pos as int, t) implies e@ == t && pos + 33 == pos
            + encode(t).len() by {
            lemma_kind(b@, pos as int, t);
            assert(encode(t) == seq![KIND_ELIDED] + t->Elided_0);
            lemma_split(b@, pos as int, seq![KIND_ELIDED], t->Elided_0);
        }
    }
    Some((e, pos + 33))
}

/// Decodes an encrypted placeholder whose kind byte stands at `pos`.
fn decode_encrypted(b: &Vec<u8>, pos: usize) -> (r: Option<(Envelope, usize)>)
    requires
        pos < b@.len(),
        b@[pos as int] == KIND_ENCRYPTED,
    ensures
        r matches Some((e, end)) ==> e.inv() && pos < end <= b@.len(),
        forall|t: Tree|
            encoded_at(b@, pos as int, t) ==> (r matches Some((e, end)) && e@ == t && end == pos
                + encode(t).len()),
{
    assert(b@.len() == b.len());
    if b.len() - pos < 69 {
        proof {
            assert forall|t: Tree| encoded_at(b@, pos as int, t) implies false by {
                lemma_kind(b@, pos as int, t);
                let (d, c, n, g) = (t->Encrypted_0, t->Encrypted_1, t->Encrypted_2, t->Encrypted_3);
                assert(encode(t) == seq![KIND_ENCRYPTED] + d + n + g + u64_be(c.len() as u64) + c);
            }
        }
        return None;
    }
    let len = read_u64(b, pos + 61);
    if len > (b.len() - pos - 69) as u64 {
        proof {
            assert forall|t: Tree| encoded_at(b@, pos as int, t) implies false by {
                lemma_kind(b@, pos as int, t);
                let (d, c, n, g) = (t->Encrypted_0, t->Encrypted_1, t->Encrypted_2, t->Encrypted_3);
                let h4 = seq![KIND_ENCRYPTED] + d + n + g;
                let h5 = h4 + u64_be(c.len() as u64);
                assert(encode(t) == h5 + c);
                lemma_split(b@, pos as int, h5, c);
                lemma_split(b@, pos as int, h4, u64_be(c.len() as u64));
                lemma_u64_be_injective(len, c.len() as u64);
            }
        }
        return None;
    }
    let d = read_bytes(b, pos + 1, DIGEST_LEN);
    let n = read_bytes(b, pos + 33, NONCE_LEN);
    let g = read_bytes(b, pos + 45, AUTH_TAG_LEN);
    let c = read_bytes(b, pos + 69, len as usize);
    let e = Envelope { digest: d, body: Body::Encrypted(c, n, g) };
    proof {
        assert forall|t: Tree| encoded_at(b@, pos as int, t) implies e@ == t && pos + 69 + len
            == pos + encode(t).len() by {
            lemma_kind(b@, pos as int, t);
            let (d0, c0, n0, g0) = (t->Encrypted_0, t->Encrypted_1, t->Encrypted_2, t->Encrypted_3);
            let h1 = seq![KIND_ENCRYPTED];
            let h2 = h1 + d0;
            let h3 = h2 + n0;
            let h4 = h3 + g0;
            let h5 = h4 + u64_be(c0.len() as u64);
            assert(encode(t) == h5 + c0);
            lemma_split(b@, pos as int, h5, c0);
            lemma_split(b@, pos as int, h4, u64_be(c0.len() as u64));
            lemma_split(b@, pos as int, h3, g0);
            lemma_split(b@, pos as int, h2, n0);
            lemma_split(b@, pos as int, h1, d0);
            lemma_u64_be_injective(len, c0.len() as u64);
        }
    }
    Some((e, pos + 69 + len as usize))
}

/// Decodes a compressed placeholder whose kind byte stands at `pos`.
fn decode_compressed(b: &Vec<u8>, pos: usize) -> (r: Option<(Envelope, usize)>)
    requires
        pos < b@.len(),
        b@[pos as int] == KIND_COMPRESSED,
    ensures
        r matches Some((e, end)) ==> e.inv() && pos < end <= b@.len(),
        forall|t: Tree|
            encoded_at(b@, pos as int, t) ==> (r matches Some((e, end)) && e@ == t && end == pos
                + encode(t).len()),
{
    assert(b@.len() == b.len());
    if b.len() - pos < 41 {
        proof {
            assert forall|t: Tree| encoded_at(b@, pos as int, t) implies false by {
                lemma_kind(b@, pos as int, t);
                let (d, c) = (t->Compressed_0, t->Compressed_1);
                assert(encode(t) == seq![KIND_COMPRESSED] + d + u64_be(c.len() as u64) + c);
            }
        }
        return None;
    }
    let len = read_u64(b, pos + 33);
    if len > (b.len() - pos - 41) as u64 {
        proof {
            assert forall|t: Tree| encoded_at(b@, pos as int, t) implies false by {
                lemma_kind(b@, pos as int, t);
                let (d, c) = (t->Compressed_0, t->Compressed_1);
                let h2 = seq![KIND_COMPRESSED] + d;
                let h3 = h2 + u64_be(c.len() as u64);
                assert(encode(t) == h3 + c);
                lemma_split(b@, pos as int, h3, c);
                lemma_split(b@, pos as int, h2, u64_be(c.len() as u64));
                lemma_u64_be_injective(len, c.len() as u64);
            }
        }
        return None;
    }
    let d = read_bytes(b, pos + 1, DIGEST_LEN);
    let c = read_bytes(b, pos + 41, len as usize);
    let e = Envelope { digest: d, body: Body::Compressed(c) };
    proof {
        assert forall|t: Tree| encoded_at(b@, pos as int, t) implies e@ == t && pos + 41 + len
            == pos + encode(t).len() by {
            lemma_kind(b@, pos as int, t);
            let (d0, c0) = (t->Compressed_0, t->Compressed_1);
            let h1 = seq![KIND_COMPRESSED];
            let h2 = h1 + d0;
            let h3 = h2 + u64_be(c0.len() as u64);
            assert(encode(t) == h3 + c0);
            lemma_split(b@, pos as int, h3, c0);
            lemma_split(b@, pos as int, h2, u64_be(c0.len() as u64));
            lemma_split(b@, pos as int, h1, d0);
            lemma_u64_be_injective(len, c0.len() as u64);
        }
    }
    Some((e, pos + 41 + len as usize))
}

/// A sequence of encodings splits into the first one and the rest.
proof fn lemma_list_parts(b: Seq<u8>, pos: int, ts: Seq<Tree>)
    requires
        all_encoded_at(b, pos, ts),
        ts.len() > 0,
    ensures
        encoded_at(b, pos, ts[0]),
        all_encoded_at(b, pos + encode(ts[0]).len(), ts.subrange(1, ts.len() as int)),
        encode_all(ts).len() == encode(ts[0]).len() + encode_all(ts.subrange(1, ts.len() as int)).len(),
{
    let rest = ts.subrange(1, ts.len() as int);
    assert(encode_all(ts) == encode(ts[0]) + encode_all(rest));
    lemma_split(b, pos, encode(ts[0]), encode_all(rest));
    assert forall|i: int| 0 <= i < rest.len() implies encodable(#[trigger] rest[i]) by {
        assert(rest[i] == ts[i + 1]);
    }
}

/// Whether the assertions stand in strictly ascending digest order.
fn is_sorted_by_digest(a: &Vec<Envelope>) -> (r: bool)
    requires
        forall|i: int| 0 <= i < a@.len() ==> (#[trigger] a@[i]).inv(),
    ensures
        r == sorted_by_digest(views(a@)),
{
    let ghost v = views(a@);
    let mut i: usize = 0;
    while i < a.len()
        invariant
            v == views(a@),
            forall|k: int| 0 <= k < a@.len() ==> (#[trigger] a@[k]).inv(),
            0 <= i <= a@.len(),
            forall|x: int, y: int|
                0 <= x < i && x < y < v.len() ==> crate::digest::lex_lt(
                    #[trigger] digest_of(v[x]),
                    #[trigger] digest_of(v[y]),
                ),
        decreases a@.len() - i,
    {
        let mut j: usize = i + 1;
        while j < a.len()
            invariant
                v == views(a@),
                forall|k: int| 0 <= k < a@.len() ==> (#[trigger] a@[k]).inv(),
                0 <= i < j <= a@.len(),
                forall|x: int, y: int|
                    0 <= x < i && x < y < v.len() ==> crate::digest::lex_lt(
                        #[trigger] digest_of(v[x]),
                        #[trigger] digest_of(v[y]),
                    ),
                forall|y: int| i < y < j ==> crate::digest::lex_lt(digest_of(v[i as int]), #[trigger] digest_of(v[y])),
            decreases a@.len() - j,
        {
            assert(a@[i as int].inv() && a@[j as int].inv());
            if compare_bytes(&a[i].digest, &a[j].digest) >= 0 {
                assert(!crate::digest::lex_lt(digest_of(v[i as int]), digest_of(v[j as int])));
                return false;
            }
            j = j + 1;
        }
        i = i + 1;
    }
    true
}

/// Decodes the envelope whose encoding starts at `pos`, with the position
/// just past it; finds every encoded envelope that stands there.
fn decode_at(b: &Vec<u8>, pos: usize) -> (r: Option<(Envelope, usize)>)
    ensures
        r matches Some((e, end)) ==> e.inv() && pos < end <= b@.len(),
        forall|t: Tree|
            encoded_at(b@, pos as int, t) ==> (r matches Some((e, end)) && e@ == t && end == pos
                + encode(t).len()),
    decreases b@.len() - pos, 2int,
{
    if pos >= b.len() {
        proof {
            assert forall|t: Tree| encoded_at(b@, pos as int, t) implies false by {
                lemma_kind(b@, pos as int, t);
            }
        }
        return None;
    }
    let k = b[pos];
    if k == KIND_LEAF {
        decode_leaf(b, pos)
    } else if k == KIND_KNOWN {
        decode_known(b, pos)
    } else if k == KIND_WRAPPED {
        decode_wrapped(b, pos)
    } else if k == KIND_ASSERTION {
        decode_assertion(b, pos)
    } else if k == KIND_NODE {
        decode_node(b, pos)
    } else if k == KIND_ELIDED {
        decode_elided(b, pos)
    } else if k == KIND_ENCRYPTED {
        decode_encrypted(b, pos)
    } else if k == KIND_COMPRESSED {
        decode_compressed(b, pos)
    } else {
        proof {
            assert forall|t: Tree| encoded_at(b@, pos as int, t) implies false by {
                lemma_kind(b@, pos as int, t);
            }
        }
        None
    }
}

/// Decodes a wrapped envelope whose kind byte stands at `pos`.
fn decode_wrapped(b: &Vec<u8>, pos: usize) -> (r: Option<(Envelope, usize)>)
    requires
        pos < b@.len(),
        b@[pos as int] == KIND_WRAPPED,
    ensures
        r matches Some((e, end)) ==> e.inv() && pos < end <= b@.len(),
        forall|t: Tree|
            encoded_at(b@, pos as int, t) ==> (r matches Some((e, end)) && e@ == t && end == pos
                + encode(t).len()),
    decreases b@.len() - pos, 1int,
{
    assert(b@.len() == b.len());
    let inner = decode_at(b, pos + 1);
    proof {
        assert forall|t: Tree| encoded_at(b@, pos as int, t) implies encoded_at(
            b@,
            pos + 1,
            *t->Wrapped_0,
        ) by {
            lemma_kind(b@, pos as int, t);
            assert(encode(t) == seq![KIND_WRAPPED] + encode(*t->Wrapped_0));
            lemma_split(b@, pos as int, seq![KIND_WRAPPED], encode(*t->Wrapped_0));
        }
    }
    match inner {
        Some((c, end)) => {
            let e = c.wrap();
            proof {
                assert forall|t: Tree| encoded_at(b@, pos as int, t) implies e@ == t && end == pos
                    + encode(t).len() by {
                    lemma_kind(b@, pos as int, t);
                    assert(encode(t) == seq![KIND_WRAPPED] + encode(*t->Wrapped_0));
                }
            }
            Some((e, end))
        },
        None => None,
    }
}

/// Decodes an assertion whose kind byte stands at `pos`.
fn decode_assertion(b: &Vec<u8>, pos: usize) -> (r: Option<(Envelope, usize)>)
    requires
        pos < b@.len(),
        b@[pos as int] == KIND_ASSERTION,
    ensures
        r matches Some((e, end)) ==> e.inv() && pos < end <= b@.len(),
        forall|t: Tree|
            encoded_at(b@, pos as int, t) ==> (r matches Some((e, end)) && e@ == t && end == pos
                + encode(t).len()),
    decreases b@.len() - pos, 1int,
{
    assert(b@.len() == b.len());
    proof {
        assert forall|t: Tree| encoded_at(b@, pos as int, t) implies encoded_at(
            b@,
            pos + 1,
            *t->Assertion_0,
        ) && encoded_at(b@, pos + 1 + encode(*t->Assertion_0).len(), *t->Assertion_1) by {
            lemma_kind(b@, pos as int, t);
            let h = seq![KIND_ASSERTION] + encode(*t->Assertion_0);
            assert(encode(t) == h + encode(*t->Assertion_1));
            lemma_split(b@, pos as int, h, encode(*t->Assertion_1));
            lemma_split(b@, pos as int, seq![KIND_ASSERTION], encode(*t->Assertion_0));
        }
    }
    match decode_at(b, pos + 1) {
        Some((p, next)) => match decode_at(b, next) {
            Some((o, end)) => {
                let e = Envelope::assertion(p, o);
                proof {
                    assert forall|t: Tree| encoded_at(b@, pos as int, t) implies e@ == t && end
                        == pos + encode(t).len() by {
                        lemma_kind(b@, pos as int, t);
                        assert(encode(t) == seq![KIND_ASSERTION] + encode(*t->Assertion_0) + encode(
                            *t->Assertion_1,
                        ));
                    }
                }
                Some((e, end))
            },
            None => None,
        },
        None => None,
    }
}

/// Decodes a node whose kind byte stands at `pos`.
fn decode_node(b: &Vec<u8>, pos: usize) -> (r: Option<(Envelope, usize)>)
    requires
        pos < b@.len(),
        b@[pos as int] == KIND_NODE,
    ensures
        r matches Some((e, end)) ==> e.inv() && pos < end <= b@.len(),
        forall|t: Tree|
            encoded_at(b@, pos as int, t) ==> (r matches Some((e, end)) && e@ == t && end == pos
                + encode(t).len()),
    decreases b@.len() - pos, 1int,
{
    assert(b@.len() == b.len());
    proof {
        assert forall|t: Tree| encoded_at(b@, pos as int, t) implies ({
            let s0 = *t->Node_0;
            let a0 = t->Node_1;
            let next = pos + 1 + encode(s0).len();
            &&& t is Node
            &&& encoded_at(b@, pos + 1, s0)
            &&& 1 <= a0.len() <= u64::MAX
            &&& sorted_by_digest(a0)
            &&& next + 8 <= b@.len()
            &&& b@.subrange(next, next + 8) == u64_be(a0.len() as u64)
            &&& all_encoded_at(b@, next + 8, a0)
            &&& encode(t).len() == 1 + encode(s0).len() + 8 + encode_all(a0).len()
        }) by {
            lemma_kind(b@, pos as int, t);
            let s0 = *t->Node_0;
            let a0 = t->Node_1;
            let h1 = seq![KIND_NODE];
            let h2 = h1 + encode(s0);
            let h3 = h2 + u64_be(a0.len() as u64);
            assert(encode(t) == h3 + encode_all(a0));
            lemma_split(b@, pos as int, h3, encode_all(a0));
            lemma_split(b@, pos as int, h2, u64_be(a0.len() as u64));
            lemma_split(b@, pos as int, h1, encode(s0));
        }
    }
    let (s, next) = match decode_at(b, pos + 1) {
        Some(x) => x,
        None => {
            proof {
                assert forall|t: Tree| encoded_at(b@, pos as int, t) implies false by {
                    assert(encoded_at(b@, pos + 1, *t->Node_0));
                }
            }
            return None;
        },
    };
    if b.len() - next < 8 {
        proof {
            assert forall|t: Tree| encoded_at(b@, pos as int, t) implies false by {
                assert(encoded_at(b@, pos + 1, *t->Node_0));
            }
        }
        return None;
    }
    let count = read_u64(b, next);
    proof {
        assert forall|t: Tree| encoded_at(b@, pos as int, t) implies count == t->Node_1.len() && all_encoded_at(b@, next + 8, t->Node_1) by {
            assert(encoded_at(b@, pos + 1, *t->Node_0));
            lemma_u64_be_injective(count, t->Node_1.len() as u64);
        }
    }
    let (a, end) = match decode_list(b, next + 8, count) {
        Some(x) => x,
        None => {
            proof {
                assert forall|t: Tree| encoded_at(b@, pos as int, t) implies false by {
                    assert(count == t->Node_1.len() && all_encoded_at(b@, next + 8, t->Node_1));
                }
            }
            return None;
        },
    };
    proof {
        assert forall|t: Tree| encoded_at(b@, pos as int, t) implies views(a@) == t->Node_1 && s@ == *t->Node_0 by {
            assert(encoded_at(b@, pos + 1, *t->Node_0));
            assert(count == t->Node_1.len() && all_encoded_at(b@, next + 8, t->Node_1));
        }
    }
    if a.len() == 0 {
        return None;
    }
    if !is_sorted_by_digest(&a) {
        return None;
    }
    let e = Envelope::new_node(s, a);
    proof {
        assert forall|t: Tree| encoded_at(b@, pos as int, t) implies e@ == t && end == pos
            + encode(t).len() by {
            assert(e@ =~= t);
        }
    }
    Some((e, end))
}

/// Decodes `count` envelopes whose encodings follow each other from `pos`
/// on, with the position just past the last.
fn decode_list(b: &Vec<u8>, pos: usize, count: u64) -> (r: Option<(Vec<Envelope>, usize)>)
    ensures
        r matches Some((a, end)) ==> a@.len() == count && (forall|i: int|
            0 <= i < a@.len() ==> (#[trigger] a@[i]).inv()) && pos <= end <= b@.len(),
        forall|ts: Seq<Tree>|
            ts.len() == count && all_encoded_at(b@, pos as int, ts) ==> (r matches Some((a, end))
                && views(a@) == ts && end == pos + encode_all(ts).len()),
    decreases b@.len() - pos, count + 3,
{
    if count == 0 {
        if pos > b.len() {
            return None;
        }
        let v: Vec<Envelope> = Vec::new();
        proof {
            assert forall|ts: Seq<Tree>| ts.len() == count && all_encoded_at(b@, pos as int, ts) implies views(v@) == ts && pos == pos + encode_all(ts).len() by {
                assert(views(v@) =~= ts);
            }
        }
        return Some((v, pos));
    }
    proof {
        assert forall|ts: Seq<Tree>| ts.len() == count && all_encoded_at(b@, pos as int, ts) implies encoded_at(b@, pos as int, ts[0]) && all_encoded_at(b@, pos + encode(ts[0]).len(), ts.subrange(1, ts.len() as int)) by {
            lemma_list_parts(b@, pos as int, ts);
        }
    }
    let (x, next) = match decode_at(b, pos) {
        Some(y) => y,
        None => {
            return None;
        },
    };
    let (mut rest, end) = match decode_list(b, next, count - 1) {
        Some(y) => y,
        None => {
            return None;
        },
    };
    let ghost rest0 = rest@;
    let ghost x0 = x;
    let mut v: Vec<Envelope> = Vec::new();
    v.push(x);
    v.append(&mut rest);
    assert(v@ == seq![x0] + rest0);
    proof {
        assert forall|ts: Seq<Tree>| ts.len() == count && all_encoded_at(b@, pos as int, ts) implies views(v@) == ts && end == pos + encode_all(ts).len() by {
            lemma_list_parts(b@, pos as int, ts);
            let rest_ts = ts.subrange(1, ts.len() as int);
            assert(encoded_at(b@, pos as int, ts[0]));
            assert(x0@ == ts[0] && next == pos + encode(ts[0]).len());
            assert(all_encoded_at(b@, next as int, rest_ts));
            assert(views(rest0) == rest_ts);
            assert forall|i: int| 0 <= i < ts.len() implies #[trigger] views(v@)[i] == ts[i] by {
                if i > 0 {
                    assert(views(v@)[i] == rest0[i - 1]@);
                    assert(views(rest0)[i - 1] == rest_ts[i - 1]);
                }
            }
            assert(views(v@) =~= ts);
        }
    }
    Some((v, end))
}

/// Decodes an envelope from the whole of `b`; fails with `MalformedInput`
/// exactly when `b` is not the encoding of an encodable tree.
pub fn decode_envelope(b: &Vec<u8>) -> (r: Result<Envelope, crate::error::Error>)
    ensures
        r matches Ok(e) ==> e.inv() && b@ == encode(e@) && encodable(e@),
        (exists|t: Tree| encodable(t) && b@ == encode(t)) <==> r is Ok,
        forall|t: Tree| encodable(t) && b@ == encode(t) ==> (r matches Ok(e) && e@ == t),
        r is Err ==> r == Err::<Envelope, crate::error::Error>(crate::error::Error::MalformedInput),
{
    proof {
        assert forall|t: Tree| encodable(t) && b@ == encode(t) implies encoded_at(b@, 0, t) by {
            assert(b@.subrange(0, encode(t).len() as int) =~= b@);
        }
    }
    match decode_at(b, 0) {
        Some((e, end)) => {
            if end == b.len() && crate::digest::bytes_equal(&encode_envelope(&e), b) {
                proof {
                    lemma_inv_encodable(&e);
                }
                Ok(e)
            } else {
                Err(crate::error::Error::MalformedInput)
            }
        },
        None => Err(crate::error::Error::MalformedInput),
    }
}

/// Every well-formed envelope is encodable.
pub proof fn lemma_inv_encodable(e: &Envelope)
    requires
        e.inv(),
    ensures
        encodable(e@),
    decreases e,
{
    match &e.body {
        Body::Leaf(b) => {
            assert(b.len() == b@.len());
        },
        Body::Wrapped(c) => lemma_inv_encodable(c),
        Body::Assertion(p, o) => {
            lemma_inv_encodable(p);
            lemma_inv_encodable(o);
        },
        Body::Node(s, a) => {
            lemma_inv_encodable(s);
            assert(a.len() == a@.len());
            assert forall|i: int| 0 <= i < e@->Node_1.len() implies encodable(#[trigger] e@->Node_1[i]) by {
                assert(decreases_to!(*e => e.body));
                assert(decreases_to!(e.body => e.body->Node_1));
                assert(decreases_to!(*a => a@));
                assert(decreases_to!(a@ => a@[i]));
                assert(a@[i].inv());
                lemma_inv_encodable(&a@[i]);
            }
        },
        Body::Encrypted(c, _, _) => {
            assert(c.len() == c@.len());
        },
        Body::Compressed(c) => {
            assert(c.len() == c@.len());
        },
        _ => {},
    }
}

/// Equal concatenations with first parts of equal length have equal parts.
proof fn lemma_concat_eq(a: Seq<u8>, x: Seq<u8>, b: Seq<u8>, y: Seq<u8>)
    requires
        a.len() == b.len(),
        a + x == b + y,
    ensures
        a == b,
        x == y,
{
    assert(a =~= (a + x).subrange(0, a.len() as int));
    assert(b =~= (b + y).subrange(0, b.len() as int));
    assert(x =~= (a + x).subrange(a.len() as int, (a + x).len() as int));
    assert(y =~= (b + y).subrange(b.len() as int, (b + y).len() as int));
}

/// The encoding is prefix-free and injective: an encoding followed by
/// anything determines the tree and what follows.
#[verifier::rlimit(40)]
pub proof fn lemma_encode_unique(x: Tree, y: Tree, r1: Seq<u8>, r2: Seq<u8>)
    requires
        encodable(x),
        encodable(y),
        encode(x) + r1 == encode(y) + r2,
    ensures
        x == y,
        r1 == r2,
    decreases x,
{
    let ex = encode(x);
    let ey = encode(y);
    assert((ex + r1).subrange(0, ex.len() as int) =~= ex);
    assert((ey + r2).subrange(0, ey.len() as int) =~= ey);
    lemma_kind(ex + r1, 0, x);
    lemma_kind(ey + r2, 0, y);
    match x {
        Tree::Leaf(c1) => {
            let c2 = y->Leaf_0;
            let h1 = seq![KIND_LEAF] + u64_be(c1.len() as u64);
            let h2 = seq![KIND_LEAF] + u64_be(c2.len() as u64);
            assert(h1 + (c1 + r1) =~= ex + r1);
            assert(h2 + (c2 + r2) =~= ey + r2);
            lemma_concat_eq(h1, c1 + r1, h2, c2 + r2);
            lemma_concat_eq(seq![KIND_LEAF], u64_be(c1.len() as u64), seq![KIND_LEAF], u64_be(c2.len() as u64));
            lemma_u64_be_injective(c1.len() as u64, c2.len() as u64);
            lemma_concat_eq(c1, r1, c2, r2);
        },
        Tree::Known(n1) => {
            let n2 = y->Known_0;
            assert(seq![KIND_KNOWN] + (u64_be(n1) + r1) =~= ex + r1);
            assert(seq![KIND_KNOWN] + (u64_be(n2) + r2) =~= ey + r2);
            lemma_concat_eq(seq![KIND_KNOWN], u64_be(n1) + r1, seq![KIND_KNOWN], u64_be(n2) + r2);
            lemma_concat_eq(u64_be(n1), r1, u64_be(n2), r2);
            lemma_u64_be_injective(n1, n2);
        },
        Tree::Wrapped(c1) => {
            let c2 = *y->Wrapped_0;
            assert(seq![KIND_WRAPPED] + (encode(*c1) + r1) =~= ex + r1);
            assert(seq![KIND_WRAPPED] + (encode(c2) + r2) =~= ey + r2);
            lemma_concat_eq(seq![KIND_WRAPPED], encode(*c1) + r1, seq![KIND_WRAPPED], encode(c2) + r2);
            lemma_encode_unique(*c1, c2, r1, r2);
        },
        Tree::Assertion(pa, oa) => {
            let (pb, ob) = (*y->Assertion_0, *y->Assertion_1);
            assert(seq![KIND_ASSERTION] + (encode(*pa) + (encode(*oa) + r1)) =~= ex + r1);
            assert(seq![KIND_ASSERTION] + (encode(pb) + (encode(ob) + r2)) =~= ey + r2);
            lemma_concat_eq(seq![KIND_ASSERTION], encode(*pa) + (encode(*oa) + r1), seq![KIND_ASSERTION], encode(pb) + (encode(ob) + r2));
            lemma_encode_unique(*pa, pb, encode(*oa) + r1, encode(ob) + r2);
            lemma_encode_unique(*oa, ob, r1, r2);
        },
        Tree::Node(s1, a1) => {
            let (s2, a2) = (*y->Node_0, y->Node_1);
            let t1 = u64_be(a1.len() as u64) + (encode_all(a1) + r1);
            let t2 = u64_be(a2.len() as u64) + (encode_all(a2) + r2);
            assert(seq![KIND_NODE] + (encode(*s1) + t1) =~= ex + r1);
            assert(seq![KIND_NODE] + (encode(s2) + t2) =~= ey + r2);
            lemma_concat_eq(seq![KIND_NODE], encode(*s1) + t1, seq![KIND_NODE], encode(s2) + t2);
            lemma_encode_unique(*s1, s2, t1, t2);
            lemma_concat_eq(u64_be(a1.len() as u64), encode_all(a1) + r1, u64_be(a2.len() as u64), encode_all(a2) + r2);
            lemma_u64_be_injective(a1.len() as u64, a2.len() as u64);
            lemma_encode_all_unique(a1, a2, r1, r2);
            assert(a1 =~= a2);
        },
        Tree::Elided(d1) => {
            let d2 = y->Elided_0;
            assert(seq![KIND_ELIDED] + (d1 + r1) =~= ex + r1);
            assert(seq![KIND_ELIDED] + (d2 + r2) =~= ey + r2);
            lemma_concat_eq(seq![KIND_ELIDED], d1 + r1, seq![KIND_ELIDED], d2 + r2);
            lemma_concat_eq(d1, r1, d2, r2);
        },
        Tree::Encrypted(d1, c1, n1, g1) => {
            let (d2, c2, n2, g2) = (y->Encrypted_0, y->Encrypted_1, y->Encrypted_2, y->Encrypted_3);
            let h1 = seq![KIND_ENCRYPTED] + d1 + n1 + g1 + u64_be(c1.len() as u64);
            let h2 = seq![KIND_ENCRYPTED] + d2 + n2 + g2 + u64_be(c2.len() as u64);
            assert(h1 + (c1 + r1) =~= ex + r1);
            assert(h2 + (c2 + r2) =~= ey + r2);
            lemma_concat_eq(h1, c1 + r1, h2, c2 + r2);
            lemma_concat_eq(seq![KIND_ENCRYPTED] + d1 + n1 + g1, u64_be(c1.len() as u64), seq![KIND_ENCRYPTED] + d2 + n2 + g2, u64_be(c2.len() as u64));
            lemma_concat_eq(seq![KIND_ENCRYPTED] + d1 + n1, g1, seq![KIND_ENCRYPTED] + d2 + n2, g2);
            lemma_concat_eq(seq![KIND_ENCRYPTED] + d1, n1, seq![KIND_ENCRYPTED] + d2, n2);
            lemma_concat_eq(seq![KIND_ENCRYPTED], d1, seq![KIND_ENCRYPTED], d2);
            lemma_u64_be_injective(c1.len() as u64, c2.len() as u64);
            lemma_concat_eq(c1, r1, c2, r2);
        },
        Tree::Compressed(d1, c1) => {
            let (d2, c2) = (y->Compressed_0, y->Compressed_1);
            let h1 = seq![KIND_COMPRESSED] + d1 + u64_be(c1.len() as u64);
            let h2 = seq![KIND_COMPRESSED] + d2 + u64_be(c2.len() as u64);
            assert(h1 + (c1 + r1) =~= ex + r1);
            assert(h2 + (c2 + r2) =~= ey + r2);
            lemma_concat_eq(h1, c1 + r1, h2, c2 + r2);
            lemma_concat_eq(seq![KIND_COMPRESSED] + d1, u64_be(c1.len() as u64), seq![KIND_COMPRESSED] + d2, u64_be(c2.len() as u64));
            lemma_concat_eq(seq![KIND_COMPRESSED], d1, seq![KIND_COMPRESSED], d2);
            lemma_u64_be_injective(c1.len() as u64, c2.len() as u64);
            lemma_concat_eq(c1, r1, c2, r2);
        },
    }
}

/// Equally many encodings followed by anything determine the trees and
/// what follows.
proof fn lemma_encode_all_unique(a1: Seq<Tree>, a2: Seq<Tree>, r1: Seq<u8>, r2: Seq<u8>)
    requires
        a1.len() == a2.len(),
        forall|i: int| 0 <= i < a1.len() ==> encodable(#[trigger] a1[i]),
        forall|i: int| 0 <= i < a2.len() ==> encodable(#[trigger] a2[i]),
        encode_all(a1) + r1 == encode_all(a2) + r2,
    ensures
        a1 == a2,
        r1 == r2,
    decreases a1,
{
    if a1.len() == 0 {
        assert(encode_all(a1) + r1 =~= r1);
        assert(encode_all(a2) + r2 =~= r2);
        assert(a1 =~= a2);
    } else {
        let (b1, b2) = (a1.subrange(1, a1.len() as int), a2.subrange(1, a2.len() as int));
        assert(encode(a1[0]) + (encode_all(b1) + r1) =~= encode_all(a1) + r1);
        assert(encode(a2[0]) + (encode_all(b2) + r2) =~= encode_all(a2) + r2);
        assert(encodable(a1[0]) && encodable(a2[0]));
        lemma_encode_unique(a1[0], a2[0], encode_all(b1) + r1, encode_all(b2) + r2);
        assert forall|i: int| 0 <= i < b1.len() implies encodable(#[trigger] b1[i]) by {
            assert(b1[i] == a1[i + 1]);
        }
        assert forall|i: int| 0 <= i < b2.len() implies encodable(#[trigger] b2[i]) by {
            assert(b2[i] == a2[i + 1]);
        }
        lemma_encode_all_unique(b1, b2, r1, r2);
        assert forall|i: int| 0 <= i < a1.len() implies a1[i] == a2[i] by {
            if i > 0 {
                assert(a1[i] == b1[i - 1] && a2[i] == b2[i - 1]);
            }
        }
        assert(a1 =~= a2);
    }
}

} // verus!
