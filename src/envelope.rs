//! The executable envelope: each node carries its digest, computed once when
//! the node is built.
use vstd::prelude::*;
use crate::digest::{sha256, sha256_of, lex_lt, compare_bytes, DIGEST_LEN};
use vstd::string::StringSliceAdditionalSpecFns;
use crate::tree::{
    Tree, digest_of, digests_concat, sorted_by_digest, u64_be, TAG_LEAF, TAG_KNOWN, TAG_WRAPPED,
    TAG_ASSERTION, TAG_NODE,
};

verus! {

/// Length in bytes of the nonce of an encrypted node.
pub const NONCE_LEN: usize = 12;

/// Length in bytes of the authentication tag of an encrypted node.
pub const AUTH_TAG_LEN: usize = 16;

/// The content of one node.
#[derive(Debug)]
pub enum Body {
    Leaf(Vec<u8>),
    Known(u64),
    Wrapped(Box<Envelope>),
    Assertion(Box<Envelope>, Box<Envelope>),
    Node(Box<Envelope>, Vec<Envelope>),
    Elided,
    /// Ciphertext, nonce and authentication tag.
    Encrypted(Vec<u8>, Vec<u8>, Vec<u8>),
    /// Compressed encoding of the replaced subtree.
    Compressed(Vec<u8>),
}

/// An immutable, digest-addressed tree node.
#[derive(Debug)]
pub struct Envelope {
    pub(crate) digest: Vec<u8>,
    pub(crate) body: Body,
}

impl Envelope {
    /// The tree this envelope stands for.
    pub open(crate) spec fn view(&self) -> Tree
        decreases self,
    {
        match &self.body {
            Body::Leaf(b) => Tree::Leaf(b@),
            Body::Known(n) => Tree::Known(*n),
            Body::Wrapped(c) => Tree::Wrapped(Box::new(c.view())),
            Body::Assertion(p, o) => Tree::Assertion(Box::new(p.view()), Box::new(o.view())),
            Body::Node(s, a) => Tree::Node(
                Box::new(s.view()),
                Seq::new(a@.len(), |i: int| if 0 <= i < a@.len() { a@[i].view() } else { Tree::Known(0) }),
            ),
            Body::Elided => Tree::Elided(self.digest@),
            Body::Encrypted(c, n, t) => Tree::Encrypted(self.digest@, c@, n@, t@),
            Body::Compressed(c) => Tree::Compressed(self.digest@, c@),
        }
    }

    /// Every cached digest is the digest of its node, and the assertions of
    /// every node stand in ascending digest order.
    pub open(crate) spec fn inv(&self) -> bool
        decreases self,
    {
        &&& self.digest@ == digest_of(self.view())
        &&& self.digest@.len() == DIGEST_LEN
        &&& match &self.body {
            Body::Wrapped(c) => c.inv(),
            Body::Assertion(p, o) => p.inv() && o.inv(),
            Body::Node(s, a) => {
                &&& s.inv()
                &&& a@.len() >= 1
                &&& forall|i: int| 0 <= i < a@.len() ==> (#[trigger] a@[i]).inv()
                &&& sorted_by_digest(self.view()->Node_1)
            },
            Body::Encrypted(_, n, t) => n@.len() == NONCE_LEN && t@.len() == AUTH_TAG_LEN,
            _ => true,
        }
    }
}

/// A copy of a byte string.
pub fn copy_bytes(b: &Vec<u8>) -> (r: Vec<u8>)
    ensures
        r@ == b@,
{
    let mut r: Vec<u8> = Vec::new();
    let mut i: usize = 0;
    while i < b.len()
        invariant
            0 <= i <= b@.len(),
            r@ == b@.subrange(0, i as int),
        decreases b@.len() - i,
    {
        r.push(b[i]);
        i = i + 1;
        assert(r@ =~= b@.subrange(0, i as int));
    }
    assert(r@ =~= b@);
    r
}

impl Clone for Envelope {
    fn clone(&self) -> (r: Self)
        ensures
            r@ == self@,
            self.inv() ==> r.inv(),
        decreases self,
    {
        let body = match &self.body {
            Body::Leaf(b) => Body::Leaf(copy_bytes(b)),
            Body::Known(n) => Body::Known(*n),
            Body::Wrapped(c) => Body::Wrapped(Box::new((&**c).clone())),
            Body::Assertion(p, o) => Body::Assertion(
                Box::new((&**p).clone()),
                Box::new((&**o).clone()),
            ),
            Body::Node(s, a) => {
                let s2 = (&**s).clone();
                let mut a2: Vec<Envelope> = Vec::new();
                let mut i: usize = 0;
                while i < a.len()
                    invariant
                        self.body is Node,
                        self.body->Node_1 == *a,
                        0 <= i <= a@.len(),
                        a2@.len() == i,
                        forall|j: int|
                            0 <= j < i ==> (#[trigger] a2@[j])@ == a@[j]@ && (a@[j].inv()
                                ==> a2@[j].inv()),
                    decreases a@.len() - i,
                {
                    proof {
                        assert(decreases_to!(*self => self.body));
                        assert(decreases_to!(self.body => self.body->Node_1));
                        assert(self.body->Node_1 == *a);
                        assert(decreases_to!(*a => a@));
                        assert(decreases_to!(a@ => a@[i as int]));
                        assert(decreases_to!(self => a@[i as int]));
                    }
                    let c = a[i].clone();
                    a2.push(c);
                    i = i + 1;
                }
                Body::Node(Box::new(s2), a2)
            },
            Body::Elided => Body::Elided,
            Body::Encrypted(c, n, t) => Body::Encrypted(copy_bytes(c), copy_bytes(n), copy_bytes(t)),
            Body::Compressed(c) => Body::Compressed(copy_bytes(c)),
        };
        let r = Envelope { digest: copy_bytes(&self.digest), body };
        proof {
            if let Body::Node(s, a) = &self.body {
                if let Body::Node(s2, a2) = &r.body {
                    assert(r@->Node_1 =~= self@->Node_1);
                }
            }
        }
        r
    }
}

/// The trees of a sequence of envelopes.
pub open(crate) spec fn views(a: Seq<Envelope>) -> Seq<Tree> {
    Seq::new(a.len(), |i: int| a[i].view())
}

/// The subject of a tree: the subject of a node, or the tree itself.
pub open spec fn subject_of(t: Tree) -> Tree {
    match t {
        Tree::Node(s, _) => *s,
        _ => t,
    }
}

/// The assertions of a tree: those of a node, or none.
pub open spec fn assertions_of(t: Tree) -> Seq<Tree> {
    match t {
        Tree::Node(_, a) => a,
        _ => Seq::empty(),
    }
}

/// Appends `src` to `dst`.
pub fn append_bytes(dst: &mut Vec<u8>, src: &Vec<u8>)
    ensures
        final(dst)@ == old(dst)@ + src@,
{
    let ghost start = dst@;
    let mut i: usize = 0;
    while i < src.len()
        invariant
            0 <= i <= src@.len(),
            dst@ == start + src@.subrange(0, i as int),
        decreases src@.len() - i,
    {
        dst.push(src[i]);
        i = i + 1;
        assert(dst@ =~= start + src@.subrange(0, i as int));
    }
    assert(src@.subrange(0, src@.len() as int) =~= src@);
}

/// The big-endian bytes of `n`.
pub fn u64_bytes(n: u64) -> (r: Vec<u8>)
    ensures
        r@ == u64_be(n),
{
    let mut r: Vec<u8> = Vec::new();
    let mut i: u64 = 0;
    while i < 8
        invariant
            0 <= i <= 8,
            r@.len() == i,
            forall|j: int| 0 <= j < i ==> r@[j] == u64_be(n)[j],
        decreases 8 - i,
    {
        let sh: u64 = 56 - 8 * i;
        let b: u64 = (n >> sh) & 0xff;
        assert(b <= 0xff) by (bit_vector)
            requires
                b == (n >> sh) & 0xff,
        ;
        r.push(b as u8);
        i = i + 1;
    }
    assert(r@ =~= u64_be(n));
    r
}

/// Hashes a tag byte followed by `body`.
fn tagged_digest(tag: u8, body: &Vec<u8>) -> (r: Vec<u8>)
    ensures
        r@ == sha256_of(seq![tag] + body@),
        r@.len() == DIGEST_LEN,
{
    let mut image: Vec<u8> = Vec::new();
    image.push(tag);
    append_bytes(&mut image, body);
    assert(image@ =~= seq![tag] + body@);
    sha256(&image)
}

/// The digest of a node with the given subject and assertions.
fn node_digest(s: &Envelope, a: &Vec<Envelope>) -> (r: Vec<u8>)
    requires
        s.inv(),
        forall|i: int| 0 <= i < a@.len() ==> (#[trigger] a@[i]).inv(),
    ensures
        r@ == digest_of(Tree::Node(Box::new(s@), views(a@))),
        r@.len() == DIGEST_LEN,
{
    let mut body = copy_bytes(&s.digest);
    let ghost start = body@;
    let mut i: usize = 0;
    while i < a.len()
        invariant
            0 <= i <= a@.len(),
            forall|j: int| 0 <= j < a@.len() ==> (#[trigger] a@[j]).inv(),
            body@ == start + digests_concat(views(a@).subrange(0, i as int)),
        decreases a@.len() - i,
    {
        append_bytes(&mut body, &a[i].digest);
        proof {
            let v = views(a@);
            assert(v.subrange(0, i + 1).subrange(0, i as int) =~= v.subrange(0, i as int));
            assert(body@ =~= start + digests_concat(v.subrange(0, i + 1)));
        }
        i = i + 1;
    }
    assert(views(a@).subrange(0, a@.len() as int) =~= views(a@));
    assert(seq![TAG_NODE] + body@ =~= seq![TAG_NODE] + s.digest@ + digests_concat(views(a@)));
    tagged_digest(TAG_NODE, &body)
}

/// `a` placed at index `p` of a sorted sequence leaves it sorted, when every
/// digest before `p` comes before `a`'s and `a`'s before the one at `p`.
proof fn lemma_insert_sorted(s: Seq<Tree>, a: Tree, p: int)
    requires
        sorted_by_digest(s),
        0 <= p <= s.len(),
        forall|i: int| 0 <= i < s.len() ==> (#[trigger] digest_of(s[i])).len() == DIGEST_LEN,
        digest_of(a).len() == DIGEST_LEN,
        forall|i: int| 0 <= i < p ==> lex_lt(#[trigger] digest_of(s[i]), digest_of(a)),
        p < s.len() ==> lex_lt(digest_of(a), digest_of(s[p])),
    ensures
        sorted_by_digest(s.insert(p, a)),
{
    let t = s.insert(p, a);
    assert forall|i: int, j: int| 0 <= i < j < t.len() implies lex_lt(
        #[trigger] digest_of(t[i]),
        #[trigger] digest_of(t[j]),
    ) by {
        if j < p {
            assert(t[i] == s[i] && t[j] == s[j]);
        } else if j == p {
            assert(t[i] == s[i]);
        } else if i < p {
            assert(t[i] == s[i] && t[j] == s[j - 1]);
            if j - 1 > p {
                assert(lex_lt(digest_of(s[p]), digest_of(s[j - 1])));
                crate::digest::lemma_lex_lt_transitive(
                    digest_of(a),
                    digest_of(s[p]),
                    digest_of(s[j - 1]),
                );
            }
            crate::digest::lemma_lex_lt_transitive(
                digest_of(s[i]),
                digest_of(a),
                digest_of(s[j - 1]),
            );
        } else if i == p {
            assert(t[j] == s[j - 1]);
            if j - 1 > p {
                assert(lex_lt(digest_of(s[p]), digest_of(s[j - 1])));
                crate::digest::lemma_lex_lt_transitive(
                    digest_of(a),
                    digest_of(s[p]),
                    digest_of(s[j - 1]),
                );
            }
        } else {
            assert(t[i] == s[i - 1] && t[j] == s[j - 1]);
        }
    }
}

/// Where a digest `d` goes in sorted assertions: the index of the first
/// assertion whose digest does not come before `d`, and whether its digest
/// equals `d`.
fn insert_position(a: &Vec<Envelope>, d: &Vec<u8>) -> (r: (usize, bool))
    requires
        forall|j: int| 0 <= j < a@.len() ==> (#[trigger] a@[j]).inv(),
        d@.len() == DIGEST_LEN,
    ensures
        0 <= r.0 <= a@.len(),
        forall|j: int| 0 <= j < r.0 ==> lex_lt(#[trigger] digest_of(a@[j]@), d@),
        r.1 ==> r.0 < a@.len() && digest_of(a@[r.0 as int]@) == d@,
        !r.1 && r.0 < a@.len() ==> lex_lt(d@, digest_of(a@[r.0 as int]@)),
{
    let mut p: usize = 0;
    while p < a.len()
        invariant
            0 <= p <= a@.len(),
            d@.len() == DIGEST_LEN,
            forall|j: int| 0 <= j < a@.len() ==> (#[trigger] a@[j]).inv(),
            forall|j: int| 0 <= j < p ==> lex_lt(#[trigger] digest_of(a@[j]@), d@),
        decreases a@.len() - p,
    {
        let c = compare_bytes(&a[p].digest, d);
        if c == 0 {
            return (p, true);
        } else if c > 0 {
            return (p, false);
        }
        p = p + 1;
    }
    (p, false)
}

impl Envelope {
    /// The digest of this envelope.
    pub fn digest(&self) -> (r: Vec<u8>)
        requires
            self.inv(),
        ensures
            r@ == digest_of(self@),
            r@.len() == DIGEST_LEN,
    {
        copy_bytes(&self.digest)
    }

    /// A leaf whose content has the canonical encoding `content`.
    pub fn leaf(content: Vec<u8>) -> (r: Envelope)
        ensures
            r@ == Tree::Leaf(content@),
            r.inv(),
    {
        let digest = tagged_digest(TAG_LEAF, &content);
        Envelope { digest, body: Body::Leaf(content) }
    }

    /// A registry-indexed semantic tag.
    pub fn known_value(n: u64) -> (r: Envelope)
        ensures
            r@ == Tree::Known(n),
            r.inv(),
    {
        let digest = tagged_digest(TAG_KNOWN, &u64_bytes(n));
        Envelope { digest, body: Body::Known(n) }
    }

    /// This envelope wrapped as a single atomic subject.
    pub fn wrap(self) -> (r: Envelope)
        requires
            self.inv(),
        ensures
            r@ == Tree::Wrapped(Box::new(self@)),
            r.inv(),
    {
        let digest = tagged_digest(TAG_WRAPPED, &self.digest);
        Envelope { digest, body: Body::Wrapped(Box::new(self)) }
    }

    /// The assertion `predicate: object`.
    pub fn assertion(predicate: Envelope, object: Envelope) -> (r: Envelope)
        requires
            predicate.inv(),
            object.inv(),
        ensures
            r@ == Tree::Assertion(Box::new(predicate@), Box::new(object@)),
            r.inv(),
    {
        let mut body = copy_bytes(&predicate.digest);
        append_bytes(&mut body, &object.digest);
        assert(seq![TAG_ASSERTION] + body@ =~= seq![TAG_ASSERTION] + predicate.digest@
            + object.digest@);
        let digest = tagged_digest(TAG_ASSERTION, &body);
        Envelope { digest, body: Body::Assertion(Box::new(predicate), Box::new(object)) }
    }

    /// Builds a node from a subject and sorted assertions.
    pub(crate) fn new_node(subject: Envelope, assertions: Vec<Envelope>) -> (r: Envelope)
        requires
            subject.inv(),
            assertions@.len() >= 1,
            forall|i: int| 0 <= i < assertions@.len() ==> (#[trigger] assertions@[i]).inv(),
            sorted_by_digest(views(assertions@)),
        ensures
            r@ == Tree::Node(Box::new(subject@), views(assertions@)),
            r.inv(),
    {
        let digest = node_digest(&subject, &assertions);
        let r = Envelope { digest, body: Body::Node(Box::new(subject), assertions) };
        assert(r@->Node_1 =~= views(assertions@));
        r
    }

    /// This envelope with `assertion` added to its assertion set. Where an
    /// assertion with the same digest is already there, the set is unchanged.
    pub fn add_assertion(self, assertion: Envelope) -> (r: Envelope)
        requires
            self.inv(),
            assertion.inv(),
        ensures
            r.inv(),
            r@ is Node,
            *r@->Node_0 == subject_of(self@),
            (exists|i: int|
                0 <= i < assertions_of(self@).len() && digest_of(
                    #[trigger] assertions_of(self@)[i],
                ) == digest_of(assertion@)) ==> r@->Node_1 == assertions_of(self@),
            (forall|i: int|
                0 <= i < assertions_of(self@).len() ==> digest_of(
                    #[trigger] assertions_of(self@)[i],
                ) != digest_of(assertion@)) ==> exists|p: int|
                0 <= p <= assertions_of(self@).len() && r@->Node_1 == assertions_of(
                    self@,
                ).insert(p, assertion@),
            r@ == crate::assertion_set::with_assertion(self@, assertion@),
    {
        let ghost old_view = self@;
        match self.body {
            Body::Node(s, mut a) => {
                let ghost va = views(a@);
                assert(va =~= old_view->Node_1);
                let (p, dup) = insert_position(&a, &assertion.digest);
                proof {
                    assert forall|j: int| 0 <= j < va.len() implies (#[trigger] digest_of(va[j])).len()
                        == DIGEST_LEN by {
                        assert(a@[j].inv());
                    }
                    crate::assertion_set::lemma_insert_position(va, assertion@, p as int);
                }
                if dup {
                    let r = Envelope::new_node(*s, a);
                    assert(r@->Node_1 =~= old_view->Node_1);
                    assert(digest_of(assertions_of(old_view)[p as int]) == digest_of(assertion@));
                    return r;
                }
                proof {
                    assert forall|j: int| 0 <= j < va.len() implies (#[trigger] digest_of(va[j])).len()
                        == DIGEST_LEN by {
                        assert(a@[j].inv());
                    }
                    assert forall|j: int| 0 <= j < va.len() implies digest_of(#[trigger] va[j]) != digest_of(assertion@) by {
                        if j < p {
                            crate::digest::lemma_lex_lt_irreflexive(digest_of(va[j]), digest_of(assertion@));
                        } else {
                            if j > p {
                                assert(lex_lt(digest_of(va[p as int]), digest_of(va[j])));
                                crate::digest::lemma_lex_lt_transitive(digest_of(assertion@), digest_of(va[p as int]), digest_of(va[j]));
                            }
                            crate::digest::lemma_lex_lt_irreflexive(digest_of(assertion@), digest_of(va[j]));
                        }
                    }
                    lemma_insert_sorted(va, assertion@, p as int);
                }
                let ghost av = assertion@;
                a.insert(p, assertion);
                assert(views(a@) =~= va.insert(p as int, av));
                let r = Envelope::new_node(*s, a);
                assert(r@->Node_1 == assertions_of(old_view).insert(p as int, av));
                assert(0 <= p <= assertions_of(old_view).len());
                assert(exists|q: int|
                    0 <= q <= assertions_of(old_view).len() && r@->Node_1 == assertions_of(
                        old_view,
                    ).insert(q, av));
                r
            },
            _ => {
                let mut a: Vec<Envelope> = Vec::new();
                a.push(assertion);
                assert(views(a@) =~= seq![a@[0]@]);
                let r = Envelope::new_node(self, a);
                assert(r@ == crate::assertion_set::with_assertion(old_view, a@[0]@));
                assert(r@->Node_1 =~= Seq::<Tree>::empty().insert(0, a@[0]@));
                r
            },
        }
    }
}

/// Kind bytes that start the canonical encoding of a leaf's content.
pub const LEAF_TEXT: u8 = 1;
pub const LEAF_BYTES: u8 = 2;
pub const LEAF_UINT: u8 = 3;

/// The canonical content of a text leaf holding UTF-8 bytes `s`.
pub open spec fn text_content(s: Seq<u8>) -> Seq<u8> {
    seq![LEAF_TEXT] + s
}

/// The canonical content of a byte-string leaf.
pub open spec fn bytes_content(b: Seq<u8>) -> Seq<u8> {
    seq![LEAF_BYTES] + b
}

/// The canonical content of an unsigned-integer leaf.
pub open spec fn uint_content(n: u64) -> Seq<u8> {
    seq![LEAF_UINT] + u64_be(n)
}

/// `kind` followed by `body`.
fn prefixed(kind: u8, body: &Vec<u8>) -> (r: Vec<u8>)
    ensures
        r@ == seq![kind] + body@,
{
    let mut r: Vec<u8> = Vec::new();
    r.push(kind);
    append_bytes(&mut r, body);
    assert(r@ =~= seq![kind] + body@);
    r
}

impl Envelope {
    /// A text leaf.
    pub fn from_text(s: &str) -> (r: Envelope)
        ensures
            r@ == Tree::Leaf(text_content(s.spec_bytes())),
            r.inv(),
    {
        let b = vstd::slice::slice_to_vec(s.as_bytes());
        Envelope::leaf(prefixed(LEAF_TEXT, &b))
    }

    /// A byte-string leaf.
    pub fn from_bytes(b: &Vec<u8>) -> (r: Envelope)
        ensures
            r@ == Tree::Leaf(bytes_content(b@)),
            r.inv(),
    {
        Envelope::leaf(prefixed(LEAF_BYTES, b))
    }

    /// An unsigned-integer leaf.
    pub fn from_u64(n: u64) -> (r: Envelope)
        ensures
            r@ == Tree::Leaf(uint_content(n)),
            r.inv(),
    {
        Envelope::leaf(prefixed(LEAF_UINT, &u64_bytes(n)))
    }

    /// This envelope with the assertion `predicate: object` added.
    pub fn add_assertion_pair(self, predicate: Envelope, object: Envelope) -> (r: Envelope)
        requires
            self.inv(),
            predicate.inv(),
            object.inv(),
        ensures
            r.inv(),
            r@ is Node,
            *r@->Node_0 == subject_of(self@),
            forall|x: Tree| assertions_of(self@).contains(x) ==> r@->Node_1.contains(x),
            forall|x: Tree| #[trigger] r@->Node_1.contains(x) ==> assertions_of(self@).contains(x) || x
                == Tree::Assertion(Box::new(predicate@), Box::new(object@)),
            exists|i: int|
                0 <= i < r@->Node_1.len() && digest_of(#[trigger] r@->Node_1[i]) == digest_of(
                    Tree::Assertion(Box::new(predicate@), Box::new(object@)),
                ),
            r@ == crate::assertion_set::with_assertion(
                self@,
                Tree::Assertion(Box::new(predicate@), Box::new(object@)),
            ),
            (forall|i: int|
                0 <= i < assertions_of(self@).len() && digest_of(#[trigger] assertions_of(self@)[i])
                    == digest_of(Tree::Assertion(Box::new(predicate@), Box::new(object@)))
                    ==> assertions_of(self@)[i] == Tree::Assertion(
                    Box::new(predicate@),
                    Box::new(object@),
                )) ==> r@->Node_1.contains(Tree::Assertion(Box::new(predicate@), Box::new(object@))),
    {
        let a = Envelope::assertion(predicate, object);
        let ghost av = a@;
        let ghost old_a = assertions_of(self@);
        let r = self.add_assertion(a);
        proof {
            if exists|i: int| 0 <= i < old_a.len() && digest_of(#[trigger] old_a[i]) == digest_of(av) {
                let i = choose|i: int| 0 <= i < old_a.len() && digest_of(#[trigger] old_a[i]) == digest_of(av);
                assert(r@->Node_1[i] == old_a[i]);
            } else {
                let p = choose|p: int| 0 <= p <= old_a.len() && r@->Node_1 == old_a.insert(p, av);
                assert(r@->Node_1[p] == av);
                assert forall|x: Tree| old_a.contains(x) implies r@->Node_1.contains(x) by {
                    let j = choose|j: int| 0 <= j < old_a.len() && old_a[j] == x;
                    if j < p {
                        assert(r@->Node_1[j] == x);
                    } else {
                        assert(r@->Node_1[j + 1] == x);
                    }
                }
                assert forall|x: Tree| #[trigger] r@->Node_1.contains(x) implies old_a.contains(x) || x == av by {
                    let j = choose|j: int| 0 <= j < r@->Node_1.len() && r@->Node_1[j] == x;
                    if j < p {
                        assert(old_a[j] == x);
                    } else if j > p {
                        assert(old_a[j - 1] == x);
                    }
                }
            }
        }
        r
    }

    /// The subject of this envelope: that of a node, or the envelope itself.
    pub fn subject(&self) -> (r: Envelope)
        requires
            self.inv(),
        ensures
            r.inv(),
            r@ == subject_of(self@),
    {
        match &self.body {
            Body::Node(s, _) => (&**s).clone(),
            _ => self.clone(),
        }
    }

    /// The assertions of this envelope, in ascending digest order.
    pub fn assertions(&self) -> (r: Vec<Envelope>)
        requires
            self.inv(),
        ensures
            forall|i: int| 0 <= i < r@.len() ==> (#[trigger] r@[i]).inv(),
            views(r@) == assertions_of(self@),
    {
        let mut r: Vec<Envelope> = Vec::new();
        match &self.body {
            Body::Node(_, a) => {
                let mut i: usize = 0;
                while i < a.len()
                    invariant
                        self.inv(),
                        self.body is Node,
                        self.body->Node_1 == *a,
                        0 <= i <= a@.len(),
                        r@.len() == i,
                        forall|j: int| 0 <= j < i ==> (#[trigger] r@[j]).inv() && r@[j]@ == a@[j]@,
                    decreases a@.len() - i,
                {
                    assert(a@[i as int].inv());
                    r.push(a[i].clone());
                    i = i + 1;
                }
                assert(views(r@) =~= assertions_of(self@));
            },
            _ => {
                assert(views(r@) =~= assertions_of(self@));
            },
        }
        r
    }
}

impl Envelope {
    /// Whether this envelope is an elided placeholder.
    pub fn is_elided(&self) -> (r: bool)
        ensures
            r == (self@ is Elided),
    {
        match &self.body {
            Body::Elided => true,
            _ => false,
        }
    }

    /// Whether this envelope is an encrypted placeholder.
    pub fn is_encrypted(&self) -> (r: bool)
        ensures
            r == (self@ is Encrypted),
    {
        match &self.body {
            Body::Encrypted(_, _, _) => true,
            _ => false,
        }
    }

    /// Whether this envelope is a compressed placeholder.
    pub fn is_compressed(&self) -> (r: bool)
        ensures
            r == (self@ is Compressed),
    {
        match &self.body {
            Body::Compressed(_) => true,
            _ => false,
        }
    }

    /// Whether this envelope is a wrapped envelope.
    pub fn is_wrapped(&self) -> (r: bool)
        ensures
            r == (self@ is Wrapped),
    {
        match &self.body {
            Body::Wrapped(_) => true,
            _ => false,
        }
    }

    /// Whether this envelope is a subject with assertions.
    pub fn is_node(&self) -> (r: bool)
        ensures
            r == (self@ is Node),
    {
        match &self.body {
            Body::Node(_, _) => true,
            _ => false,
        }
    }

    /// The canonical content of a leaf.
    pub fn leaf_content(&self) -> (r: Option<Vec<u8>>)
        ensures
            r matches Some(c) ==> self@ == Tree::Leaf(c@),
            r is None ==> !(self@ is Leaf),
    {
        match &self.body {
            Body::Leaf(c) => Some(copy_bytes(c)),
            _ => None,
        }
    }

    /// The value of a registry-indexed tag.
    pub fn known_value_of(&self) -> (r: Option<u64>)
        ensures
            r matches Some(n) ==> self@ == Tree::Known(n),
            r is None ==> !(self@ is Known),
    {
        match &self.body {
            Body::Known(n) => Some(*n),
            _ => None,
        }
    }
}

impl Envelope {
    /// The envelope that a wrapped envelope holds.
    pub fn unwrap_envelope(&self) -> (r: Option<Envelope>)
        requires
            self.inv(),
        ensures
            r matches Some(c) ==> c.inv() && self@ == Tree::Wrapped(Box::new(c@)),
            r is None ==> !(self@ is Wrapped),
    {
        match &self.body {
            Body::Wrapped(c) => Some((&**c).clone()),
            _ => None,
        }
    }

    /// The predicate and object of an assertion.
    pub fn assertion_parts(&self) -> (r: Option<(Envelope, Envelope)>)
        requires
            self.inv(),
        ensures
            r matches Some((p, o)) ==> p.inv() && o.inv() && self@ == Tree::Assertion(
                Box::new(p@),
                Box::new(o@),
            ),
            r is None ==> !(self@ is Assertion),
    {
        match &self.body {
            Body::Assertion(p, o) => Some(((&**p).clone(), (&**o).clone())),
            _ => None,
        }
    }
}

} // verus!
