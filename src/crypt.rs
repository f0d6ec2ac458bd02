//! Encrypted and compressed placeholders: a subtree replaced by its
//! encrypted or compressed encoding, under the subtree's own digest.
use vstd::prelude::*;
use crate::digest::bytes_equal;
use crate::tree::{Tree, digest_of};
use crate::envelope::{Envelope, Body, NONCE_LEN, AUTH_TAG_LEN};
use crate::codec::{encode, encodable, encode_envelope, decode_envelope, lemma_encode_unique};
use crate::error::Error;

verus! {

/// Length in bytes of a symmetric content key.
pub const KEY_LEN: usize = 32;

/// What ChaCha20-Poly1305 recovers from `ciphertext` under `key`, `nonce`
/// and additional data `aad` when the tag authenticates it.
pub uninterp spec fn aead_open(
    key: Seq<u8>,
    nonce: Seq<u8>,
    aad: Seq<u8>,
    ciphertext: Seq<u8>,
    tag: Seq<u8>,
) -> Option<Seq<u8>>;

/// Relies on `bc_components::SymmetricKey::encrypt`: ChaCha20-Poly1305 under
/// a fresh random 12-byte nonce, with a 16-byte tag; the message opens with
/// the same key and additional data to the plaintext.
#[verifier::external_body]
fn aead_seal(key: &[u8; 32], plaintext: &Vec<u8>, aad: &Vec<u8>) -> (r: (Vec<u8>, Vec<u8>, Vec<u8>))
    ensures
        r.1@.len() == NONCE_LEN,
        r.2@.len() == AUTH_TAG_LEN,
        aead_open(key@, r.1@, aad@, r.0@, r.2@) == Some(plaintext@),
{
    let m = bc_components::SymmetricKey::from_data(*key).encrypt(
        plaintext,
        Some(aad),
        None::<bc_components::Nonce>,
    );
    (m.ciphertext().to_vec(), m.nonce().data().to_vec(), m.authentication_tag().data().to_vec())
}

/// Relies on `bc_components::SymmetricKey::decrypt`: ChaCha20-Poly1305
/// decryption, which fails when the tag does not authenticate.
#[verifier::external_body]
fn aead_unseal(
    key: &[u8; 32],
    nonce: &Vec<u8>,
    aad: &Vec<u8>,
    ciphertext: &Vec<u8>,
    tag: &Vec<u8>,
) -> (r: Option<Vec<u8>>)
    requires
        nonce@.len() == NONCE_LEN,
        tag@.len() == AUTH_TAG_LEN,
    ensures
        r is Some <==> aead_open(key@, nonce@, aad@, ciphertext@, tag@) is Some,
        r matches Some(p) ==> aead_open(key@, nonce@, aad@, ciphertext@, tag@) == Some(p@),
{
    let nonce = bc_components::Nonce::from_data_ref(nonce).ok()?;
    let auth = bc_components::AuthenticationTag::from_data_ref(tag).ok()?;
    let m = bc_components::EncryptedMessage::new(ciphertext, aad, nonce, auth);
    bc_components::SymmetricKey::from_data(*key).decrypt(&m).ok()
}

/// The tagged CBOR bytes of `bc_components::Compressed` made from `data`.
pub uninterp spec fn deflated(data: Seq<u8>) -> Seq<u8>;

/// What `bc_components::Compressed::decompress` recovers from such bytes.
pub uninterp spec fn inflated(bytes: Seq<u8>) -> Option<Seq<u8>>;

/// Relies on `bc_components::Compressed::from_decompressed_data` (DEFLATE
/// with a CRC-32 checksum, or the data itself where it does not shrink) and
/// its tagged CBOR form; decompression gives the data back.
#[verifier::external_body]
fn deflate(data: &Vec<u8>) -> (r: Vec<u8>)
    ensures
        r@ == deflated(data@),
        inflated(r@) == Some(data@),
{
    bc_ur::prelude::CBOR::from(bc_components::Compressed::from_decompressed_data(data, None)).to_cbor_data()
}

/// Relies on `bc_components::Compressed` read from tagged CBOR and its
/// `decompress`, which fails on corrupt data or a checksum mismatch.
#[verifier::external_body]
fn inflate(bytes: &Vec<u8>) -> (r: Option<Vec<u8>>)
    ensures
        r is Some <==> inflated(bytes@) is Some,
        r matches Some(p) ==> inflated(bytes@) == Some(p@),
{
    let cbor = bc_ur::prelude::CBOR::try_from_data(bytes).ok()?;
    bc_components::Compressed::try_from(cbor).ok()?.decompress().ok()
}

/// The tree that plaintext `p` encodes, when it is to stand in place of a
/// subtree with digest `d`.
pub open spec fn recover(p: Seq<u8>, d: Seq<u8>) -> Result<Tree, Error> {
    if exists|x: Tree| encodable(x) && encode(x) == p {
        let x = choose|x: Tree| encodable(x) && encode(x) == p;
        if digest_of(x) == d {
            Ok(x)
        } else {
            Err(Error::DigestMismatch)
        }
    } else {
        Err(Error::MalformedInput)
    }
}

/// The result of decrypting `t` with `key`: an encrypted placeholder opens
/// to the tree its plaintext encodes, which must carry the placeholder's
/// digest; anything else stays as it is.
pub open spec fn decrypt_result(t: Tree, key: Seq<u8>) -> Result<Tree, Error> {
    match t {
        Tree::Encrypted(d, c, n, g) => match aead_open(key, n, d, c, g) {
            Some(p) => recover(p, d),
            None => Err(Error::DigestMismatch),
        },
        _ => Ok(t),
    }
}

/// The compressed placeholder for `t`.
pub open spec fn compress_result(t: Tree) -> Tree {
    Tree::Compressed(digest_of(t), deflated(encode(t)))
}

/// The result of decompressing `t`: a compressed placeholder gives back the
/// tree its data encodes, which must carry the placeholder's digest;
/// anything else stays as it is.
pub open spec fn decompress_result(t: Tree) -> Result<Tree, Error> {
    match t {
        Tree::Compressed(d, c) => match inflated(c) {
            Some(p) => recover(p, d),
            None => Err(Error::MalformedInput),
        },
        _ => Ok(t),
    }
}

/// Decodes plaintext `p` that is to stand in place of a subtree with
/// digest `d`.
fn recover_exec(p: &Vec<u8>, d: &Vec<u8>) -> (r: Result<Envelope, Error>)
    ensures
        r matches Ok(x) ==> x.inv() && recover(p@, d@) == Ok::<Tree, Error>(x@),
        r matches Err(err) ==> recover(p@, d@) == Err::<Tree, Error>(err),
{
    match decode_envelope(p) {
        Ok(x) => {
            proof {
                let c = choose|y: Tree| encodable(y) && encode(y) == p@;
                lemma_encode_unique(c, x@, Seq::empty(), Seq::empty());
                assert(encode(c) + Seq::<u8>::empty() =~= encode(c));
            }
            if bytes_equal(&x.digest, d) {
                Ok(x)
            } else {
                Err(Error::DigestMismatch)
            }
        },
        Err(e) => Err(e),
    }
}

impl Envelope {
    /// This envelope replaced by an encrypted placeholder: its encoding
    /// sealed under `key`, with its digest as additional data.
    pub fn encrypt(self, key: &[u8; 32]) -> (r: Envelope)
        requires
            self.inv(),
        ensures
            r.inv(),
            r@ is Encrypted,
            r@->Encrypted_0 == digest_of(self@),
            aead_open(key@, r@->Encrypted_2, digest_of(self@), r@->Encrypted_1, r@->Encrypted_3)
                == Some(encode(self@)),
    {
        let plaintext = encode_envelope(&self);
        let d = self.digest();
        let (c, n, g) = aead_seal(key, &plaintext, &d);
        Envelope { digest: d, body: Body::Encrypted(c, n, g) }
    }

    /// This envelope with an encrypted placeholder opened under `key`. Fails
    /// with `DigestMismatch` when the key does not open it or the content's
    /// digest differs from the placeholder's, and with `MalformedInput` when
    /// the plaintext encodes no envelope.
    pub fn decrypt(&self, key: &[u8; 32]) -> (r: Result<Envelope, Error>)
        requires
            self.inv(),
        ensures
            r matches Ok(x) ==> x.inv() && decrypt_result(self@, key@) == Ok::<Tree, Error>(x@),
            r matches Err(err) ==> decrypt_result(self@, key@) == Err::<Tree, Error>(err),
    {
        match &self.body {
            Body::Encrypted(c, n, g) => match aead_unseal(key, n, &self.digest, c, g) {
                Some(p) => recover_exec(&p, &self.digest),
                None => Err(Error::DigestMismatch),
            },
            _ => Ok(self.clone()),
        }
    }

    /// This envelope replaced by a compressed placeholder.
    pub fn compress(self) -> (r: Envelope)
        requires
            self.inv(),
        ensures
            r.inv(),
            r@ == compress_result(self@),
            inflated(r@->Compressed_1) == Some(encode(self@)),
    {
        let data = deflate(&encode_envelope(&self));
        let d = self.digest();
        Envelope { digest: d, body: Body::Compressed(data) }
    }

    /// This envelope with a compressed placeholder expanded. Fails with
    /// `MalformedInput` when the data does not decompress to an encoding,
    /// and with `DigestMismatch` when the content's digest differs from the
    /// placeholder's.
    pub fn decompress(&self) -> (r: Result<Envelope, Error>)
        requires
            self.inv(),
        ensures
            r matches Ok(x) ==> x.inv() && decompress_result(self@) == Ok::<Tree, Error>(x@),
            r matches Err(err) ==> decompress_result(self@) == Err::<Tree, Error>(err),
    {
        match &self.body {
            Body::Compressed(c) => match inflate(c) {
                Some(p) => recover_exec(&p, &self.digest),
                None => Err(Error::MalformedInput),
            },
            _ => Ok(self.clone()),
        }
    }
}

/// A tree's own encoding is recovered as the tree, under its own digest.
proof fn lemma_recover_own(t: Tree)
    requires
        encodable(t),
    ensures
        recover(encode(t), digest_of(t)) == Ok::<Tree, Error>(t),
{
    let c = choose|y: Tree| encodable(y) && encode(y) == encode(t);
    assert(encode(c) + Seq::<u8>::empty() =~= encode(c));
    assert(encode(t) + Seq::<u8>::empty() =~= encode(t));
    lemma_encode_unique(c, t, Seq::empty(), Seq::empty());
}

/// Encryption round trip: the placeholder that encryption gives (a message
/// that opens under the key to the tree's encoding) carries the tree's
/// digest and decrypts under the same key to the tree itself.
pub proof fn law_encrypt_round_trip(
    t: Tree,
    key: Seq<u8>,
    ciphertext: Seq<u8>,
    nonce: Seq<u8>,
    tag: Seq<u8>,
)
    requires
        encodable(t),
        aead_open(key, nonce, digest_of(t), ciphertext, tag) == Some(encode(t)),
    ensures
        digest_of(Tree::Encrypted(digest_of(t), ciphertext, nonce, tag)) == digest_of(t),
        decrypt_result(Tree::Encrypted(digest_of(t), ciphertext, nonce, tag), key) == Ok::<
            Tree,
            Error,
        >(t),
{
    lemma_recover_own(t);
}

/// Compression round trip: the placeholder that compression gives (data
/// that decompresses to the tree's encoding) carries the tree's digest and
/// decompresses to the tree itself, byte for byte.
pub proof fn law_compress_round_trip(t: Tree, data: Seq<u8>)
    requires
        encodable(t),
        inflated(data) == Some(encode(t)),
    ensures
        digest_of(Tree::Compressed(digest_of(t), data)) == digest_of(t),
        decompress_result(Tree::Compressed(digest_of(t), data)) == Ok::<Tree, Error>(t),
{
    lemma_recover_own(t);
}

} // verus!
