//! Threshold sharing: an envelope encrypted under a fresh content key, and
//! that key split into shares carried as `sskrShare` assertions.
use vstd::prelude::*;
use crate::digest::bytes_equal;
use crate::tree::{Tree, digest_of};
use crate::envelope::{Envelope, Body, views, subject_of, assertions_of, bytes_content, LEAF_BYTES};
use crate::assertion_set::with_assertion;
use crate::crypt::{decrypt_result, law_encrypt_round_trip};
use crate::codec::lemma_inv_encodable;
use crate::error::Error;

verus! {

/// The registry value of the `sskrShare` predicate.
pub const SSKR_SHARE: u64 = 6;

/// Most shares that one split can make.
pub const MAX_SHARES: usize = 16;

/// Length in bytes of the metadata that starts every share.
pub const SHARE_METADATA_LEN: usize = 5;

/// The secret that `sskr::sskr_combine` recovers from `shares`.
pub uninterp spec fn sskr_recovered(shares: Seq<Seq<u8>>) -> Option<Seq<u8>>;

/// Relies on `bc_components::SymmetricKey::new`: a fresh random 32-byte key.
#[verifier::external_body]
fn random_key() -> (r: [u8; 32]) {
    *bc_components::SymmetricKey::new().data()
}

/// Relies on `bc_components::sskr_generate` with one group of `count`
/// members, `threshold` of which recover the secret. For these parameters
/// and a 32-byte secret it succeeds, with `count` distinct shares, each five
/// bytes of metadata (recording the member threshold) and 32 bytes of
/// value; any `threshold` or more distinct shares of the group recover the
/// secret.
#[verifier::external_body]
fn sskr_shares(key: &[u8; 32], threshold: usize, count: usize) -> (r: Option<Vec<Vec<u8>>>)
    requires
        1 <= threshold <= count <= MAX_SHARES,
    ensures
        r is Some,
        r matches Some(s) ==> {
            &&& s@.len() == count
            &&& byte_strings(s@).no_duplicates()
            &&& forall|i: int|
                0 <= i < s@.len() ==> (#[trigger] s@[i])@.len() == SHARE_METADATA_LEN + 32
                    && member_threshold(s@[i]@) == threshold
            &&& forall|sub: Seq<Seq<u8>>|
                sub.len() >= threshold && sub.no_duplicates() && (forall|j: int|
                    0 <= j < sub.len() ==> byte_strings(s@).contains(#[trigger] sub[j]))
                    ==> #[trigger] sskr_recovered(sub) == Some(key@)
        },
{
    let group = bc_components::SSKRGroupSpec::new(threshold, count).ok()?;
    let spec = bc_components::SSKRSpec::new(1, vec![group]).ok()?;
    let secret = bc_components::SSKRSecret::new(key).ok()?;
    let groups = bc_components::sskr_generate(&spec, &secret).ok()?;
    Some(groups.into_iter().next()?.into_iter().map(|s| s.as_bytes().to_vec()).collect())
}

/// Relies on `bc_components::sskr_combine`: the secret the shares recover,
/// when they recover one and it is 32 bytes long.
#[verifier::external_body]
fn sskr_combine_key(shares: &Vec<Vec<u8>>) -> (r: Option<[u8; 32]>)
    ensures
        r matches Some(k) ==> sskr_recovered(byte_strings(shares@)) == Some(k@),
        (sskr_recovered(byte_strings(shares@)) matches Some(x) && x.len() == 32) ==> r is Some,
{
    let shares: Vec<bc_components::SSKRShare> = shares.iter().map(
        |s| bc_components::SSKRShare::from_data(s),
    ).collect();
    let secret = bc_components::sskr_combine(&shares).ok()?;
    <[u8; 32]>::try_from(secret.data()).ok()
}

/// The byte strings that `v` holds.
pub open spec fn byte_strings(v: Seq<Vec<u8>>) -> Seq<Seq<u8>> {
    v.map_values(|x: Vec<u8>| x@)
}

/// The `sskrShare` assertion holding `share`.
pub open spec fn share_assertion(share: Seq<u8>) -> Tree {
    Tree::Assertion(
        Box::new(Tree::Known(SSKR_SHARE)),
        Box::new(Tree::Leaf(bytes_content(share))),
    )
}

/// The member threshold that a share's metadata records.
pub open spec fn member_threshold(share: Seq<u8>) -> int {
    if share.len() >= SHARE_METADATA_LEN {
        (share[3] & 0x0fu8) as int + 1
    } else {
        0
    }
}

/// Some envelope of `es` carries `share` in an `sskrShare` assertion.
pub open spec fn carries_share(es: Seq<Tree>, share: Seq<u8>) -> bool {
    exists|i: int, j: int|
        0 <= i < es.len() && 0 <= j < assertions_of(es[i]).len() && #[trigger] assertions_of(
            es[i],
        )[j] == share_assertion(share)
}

/// The shares that the envelopes of `es` carry.
pub open spec fn carried_shares(es: Seq<Tree>) -> Set<Seq<u8>> {
    Set::new(|share: Seq<u8>| carries_share(es, share))
}

/// The share that `a` holds, when it has the shape of an `sskrShare`
/// assertion.
fn share_of(a: &Envelope) -> (r: Option<Vec<u8>>)
    requires
        a.inv(),
    ensures
        r matches Some(s) ==> a@ == share_assertion(s@),
        r is None ==> forall|s: Seq<u8>| a@ != share_assertion(s),
{
    if let Body::Assertion(p, o) = &a.body {
        if let Body::Known(k) = &p.body {
            if let Body::Leaf(c) = &o.body {
                if *k == SSKR_SHARE && c.len() >= 1 && c[0] == LEAF_BYTES {
                    let mut s: Vec<u8> = Vec::new();
                    let mut i: usize = 1;
                    while i < c.len()
                        invariant
                            1 <= i <= c@.len(),
                            s@ == c@.subrange(1, i as int),
                        decreases c@.len() - i,
                    {
                        s.push(c[i]);
                        i = i + 1;
                        assert(s@ =~= c@.subrange(1, i as int));
                    }
                    assert(c@ =~= bytes_content(s@));
                    assert(p@ == Tree::Known(SSKR_SHARE));
                    assert(o@ == Tree::Leaf(bytes_content(s@)));
                    return Some(s);
                }
            }
        }
    }
    proof {
        assert forall|s: Seq<u8>| a@ != share_assertion(s) by {
            if a@ == share_assertion(s) {
                assert(bytes_content(s)[0] == LEAF_BYTES);
                assert(a.body is Assertion);
                let p = a.body->Assertion_0;
                let o = a.body->Assertion_1;
                assert(p@ == Tree::Known(SSKR_SHARE));
                assert(p.body is Known);
                assert(o@ == Tree::Leaf(bytes_content(s)));
                assert(o.body is Leaf);
                assert(o.body->Leaf_0@ == bytes_content(s));
                assert(o.body->Leaf_0@.len() == o.body->Leaf_0.len());
            }
        }
    }
    None
}

/// Distinct shares make distinct `sskrShare` assertions.
proof fn lemma_share_assertion_injective(x: Seq<u8>, y: Seq<u8>)
    requires
        share_assertion(x) == share_assertion(y),
    ensures
        x == y,
{
    assert(bytes_content(x) == bytes_content(y));
    assert(x =~= bytes_content(x).subrange(1, bytes_content(x).len() as int));
    assert(y =~= bytes_content(y).subrange(1, bytes_content(y).len() as int));
}

/// Whether `v` holds a byte string equal to `s`.
fn contains_bytes(v: &Vec<Vec<u8>>, s: &Vec<u8>) -> (r: bool)
    ensures
        r == byte_strings(v@).contains(s@),
{
    let ghost m = byte_strings(v@);
    let mut i: usize = 0;
    while i < v.len()
        invariant
            m == byte_strings(v@),
            0 <= i <= v@.len(),
            forall|j: int| 0 <= j < i ==> m[j] != s@,
        decreases v@.len() - i,
    {
        if bytes_equal(&v[i], s) {
            assert(m[i as int] == s@);
            return true;
        }
        i = i + 1;
    }
    false
}

/// `es` is a split of `t`: `t` wrapped and encrypted as `enc` under the
/// 32-byte content key `k`, and envelope `i` that placeholder with share `i`
/// of `k` as its one `sskrShare` assertion. The shares are distinct, each
/// records the member threshold, and any `threshold` or more distinct ones
/// recover `k`.
pub open spec fn split_of(
    t: Tree,
    threshold: int,
    es: Seq<Tree>,
    enc: Tree,
    k: Seq<u8>,
    shares: Seq<Seq<u8>>,
) -> bool {
    &&& es.len() == shares.len()
    &&& enc is Encrypted
    &&& k.len() == 32
    &&& decrypt_result(enc, k) == Ok::<Tree, Error>(Tree::Wrapped(Box::new(t)))
    &&& shares.no_duplicates()
    &&& forall|i: int|
        0 <= i < es.len() ==> #[trigger] es[i] == with_assertion(enc, share_assertion(shares[i]))
            && shares[i].len() == SHARE_METADATA_LEN + 32 && member_threshold(shares[i]) == threshold
    &&& forall|sub: Seq<Seq<u8>>|
        sub.len() >= threshold && sub.no_duplicates() && (forall|j: int|
            0 <= j < sub.len() ==> shares.contains(#[trigger] sub[j])) ==> #[trigger] sskr_recovered(
            sub,
        ) == Some(k)
}

impl Envelope {
    /// Splits this envelope into `count` share envelopes, any `threshold` of
    /// which recover it: each is the envelope, wrapped and encrypted under a
    /// fresh content key, with one share of that key as an `sskrShare`
    /// assertion.
    pub fn sskr_split(self, threshold: usize, count: usize) -> (r: Option<Vec<Envelope>>)
        requires
            self.inv(),
            1 <= threshold <= count <= MAX_SHARES,
        ensures
            r is Some,
            r matches Some(v) ==> {
                &&& v@.len() == count
                &&& forall|i: int| 0 <= i < v@.len() ==> (#[trigger] v@[i]).inv()
                &&& exists|enc: Tree, k: Seq<u8>, shares: Seq<Seq<u8>>|
                    #[trigger] split_of(self@, threshold as int, views(v@), enc, k, shares)
            },
    {
        let key = random_key();
        let wrapped = self.wrap();
        let ghost w = wrapped@;
        proof {
            lemma_inv_encodable(&wrapped);
        }
        let encrypted = wrapped.encrypt(&key);
        proof {
            law_encrypt_round_trip(
                w,
                key@,
                encrypted@->Encrypted_1,
                encrypted@->Encrypted_2,
                encrypted@->Encrypted_3,
            );
            assert(encrypted@ == Tree::Encrypted(
                digest_of(w),
                encrypted@->Encrypted_1,
                encrypted@->Encrypted_2,
                encrypted@->Encrypted_3,
            ));
        }
        let shares = match sskr_shares(&key, threshold, count) {
            Some(s) => s,
            None => {
                return None;
            },
        };
        let ghost bs = byte_strings(shares@);
        let mut out: Vec<Envelope> = Vec::new();
        let mut i: usize = 0;
        while i < shares.len()
            invariant
                encrypted.inv(),
                bs == byte_strings(shares@),
                0 <= i <= shares@.len(),
                out@.len() == i,
                forall|j: int|
                    0 <= j < i ==> {
                        &&& (#[trigger] out@[j]).inv()
                        &&& out@[j]@ == with_assertion(encrypted@, share_assertion(bs[j]))
                    },
            decreases shares@.len() - i,
        {
            let e = encrypted.clone().add_assertion_pair(
                Envelope::known_value(SSKR_SHARE),
                Envelope::from_bytes(&shares[i]),
            );
            assert(bs[i as int] == shares@[i as int]@);
            out.push(e);
            i = i + 1;
        }
        proof {
            assert forall|j: int| 0 <= j < views(out@).len() implies #[trigger] views(out@)[j]
                == with_assertion(encrypted@, share_assertion(bs[j])) && bs[j].len()
                == SHARE_METADATA_LEN + 32 && member_threshold(bs[j]) == threshold as int by {
                assert(shares@[j]@ == bs[j]);
            }
            assert(split_of(self@, threshold as int, views(out@), encrypted@, key@, bs));
        }
        Some(out)
    }
}

/// The distinct shares that the envelopes carry, in order of appearance.
fn collect_shares(envelopes: &Vec<Envelope>) -> (r: Vec<Vec<u8>>)
    requires
        forall|i: int| 0 <= i < envelopes@.len() ==> (#[trigger] envelopes@[i]).inv(),
    ensures
        byte_strings(r@).no_duplicates(),
        byte_strings(r@).to_set() == carried_shares(views(envelopes@)),
{
    let ghost es = views(envelopes@);
    let mut col: Vec<Vec<u8>> = Vec::new();
    let mut i: usize = 0;
    while i < envelopes.len()
        invariant
            es == views(envelopes@),
            forall|k: int| 0 <= k < envelopes@.len() ==> (#[trigger] envelopes@[k]).inv(),
            0 <= i <= envelopes@.len(),
            byte_strings(col@).no_duplicates(),
            forall|s: Seq<u8>|
                #[trigger] byte_strings(col@).contains(s) <==> exists|k: int, l: int|
                    0 <= k < i && 0 <= l < assertions_of(es[k]).len() && #[trigger] assertions_of(
                        es[k],
                    )[l] == share_assertion(s),
        decreases envelopes@.len() - i,
    {
        assert(envelopes@[i as int].inv());
        let a = envelopes[i].assertions();
        let mut j: usize = 0;
        while j < a.len()
            invariant
                es == views(envelopes@),
                0 <= i < envelopes@.len(),
                forall|k: int| 0 <= k < a@.len() ==> (#[trigger] a@[k]).inv(),
                views(a@) == assertions_of(es[i as int]),
                0 <= j <= a@.len(),
                byte_strings(col@).no_duplicates(),
                forall|s: Seq<u8>|
                    #[trigger] byte_strings(col@).contains(s) <==> (exists|k: int, l: int|
                        0 <= k < i && 0 <= l < assertions_of(es[k]).len() && #[trigger] assertions_of(
                            es[k],
                        )[l] == share_assertion(s)) || (exists|l: int|
                        0 <= l < j && #[trigger] assertions_of(es[i as int])[l] == share_assertion(s)),
            decreases a@.len() - j,
        {
            assert(a@[j as int].inv());
            assert(assertions_of(es[i as int])[j as int] == a@[j as int]@);
            let ghost before = byte_strings(col@);
            let ghost aj = assertions_of(es[i as int])[j as int];
            match share_of(&a[j]) {
                Some(s) => {
                    if !contains_bytes(&col, &s) {
                        col.push(s);
                        proof {
                            let after = byte_strings(col@);
                            assert(after =~= before.push(s@));
                            assert forall|x: int, y: int| 0 <= x < y < after.len() implies after[x] != after[y] by {
                                if y == after.len() - 1 {
                                    assert(before.contains(before[x]));
                                }
                            }
                            assert forall|t: Seq<u8>| after.contains(t) <==> before.contains(t) || t == s@ by {
                                if after.contains(t) {
                                    let x = choose|x: int| 0 <= x < after.len() && after[x] == t;
                                    if x < before.len() {
                                        assert(before[x] == t);
                                    }
                                }
                                if before.contains(t) {
                                    let x = choose|x: int| 0 <= x < before.len() && before[x] == t;
                                    assert(after[x] == t);
                                }
                                if t == s@ {
                                    assert(after[before.len() as int] == t);
                                }
                            }
                        }
                    }
                    proof {
                        assert forall|t: Seq<u8>| aj == share_assertion(t) <==> t == s@ by {
                            if aj == share_assertion(t) {
                                lemma_share_assertion_injective(t, s@);
                            }
                        }
                    }
                },
                None => {},
            }
            proof {
                let after = byte_strings(col@);
                assert forall|t: Seq<u8>|
                    (exists|l: int| 0 <= l < j + 1 && #[trigger] assertions_of(es[i as int])[l] == share_assertion(t))
                    <==> (exists|l: int| 0 <= l < j && #[trigger] assertions_of(es[i as int])[l] == share_assertion(t))
                        || aj == share_assertion(t) by {
                    if aj == share_assertion(t) {
                        assert(assertions_of(es[i as int])[j as int] == share_assertion(t));
                    }
                }
            }
            j = j + 1;
        }
        i = i + 1;
    }
    proof {
        let m = byte_strings(col@);
        assert(m.to_set() =~= carried_shares(es));
    }
    col
}

/// The envelopes `es` carry enough shares to recover the 32-byte key `k`:
/// there is at least one share, each has its metadata and records a member
/// threshold no larger than the number of distinct shares, and the distinct
/// shares, in any order, recover `k`.
pub open spec fn shares_recover(es: Seq<Tree>, k: Seq<u8>) -> bool {
    let s = carried_shares(es);
    &&& es.len() > 0
    &&& s.len() > 0
    &&& forall|p: Seq<u8>|
        #[trigger] s.contains(p) ==> p.len() >= SHARE_METADATA_LEN && member_threshold(p) <= s.len()
    &&& k.len() == 32
    &&& forall|ss: Seq<Seq<u8>>|
        ss.no_duplicates() && ss.to_set() == s ==> #[trigger] sskr_recovered(ss) == Some(k)
}

/// Recovers the envelope that share envelopes were split from: gathers the
/// distinct shares they carry, recovers the content key, decrypts the
/// subject of the first envelope and unwraps it. Succeeds whenever the
/// shares recover a key under which that subject decrypts to a wrapped
/// envelope. Fails with `InsufficientShares` when every share records a
/// threshold above the number of distinct shares, or the shares recover no
/// key; other errors are those of decryption, and `MalformedInput` when the
/// decrypted subject is not a wrapped envelope.
pub fn sskr_join(envelopes: &Vec<Envelope>) -> (r: Result<Envelope, Error>)
    requires
        forall|i: int| 0 <= i < envelopes@.len() ==> (#[trigger] envelopes@[i]).inv(),
    ensures
        ({
            let s = carried_shares(views(envelopes@));
            (forall|p: Seq<u8>| s.contains(p) ==> s.len() < member_threshold(p)) ==> r
                == Err::<Envelope, Error>(Error::InsufficientShares)
        }),
        forall|k: Seq<u8>|
            shares_recover(views(envelopes@), k) && #[trigger] decrypt_result(
                subject_of(envelopes@[0]@),
                k,
            ) is Ok && decrypt_result(subject_of(envelopes@[0]@), k)->Ok_0 is Wrapped ==> (r matches Ok(
                y,
            ) && Tree::Wrapped(Box::new(y@)) == decrypt_result(subject_of(envelopes@[0]@), k)->Ok_0),
        r matches Ok(x) ==> x.inv() && envelopes@.len() > 0 && exists|ss: Seq<Seq<u8>>, k: Seq<u8>|
            ss.to_set() == carried_shares(views(envelopes@)) && sskr_recovered(ss) == Some(k)
                && decrypt_result(subject_of(envelopes@[0]@), k) == Ok::<Tree, Error>(
                Tree::Wrapped(Box::new(x@)),
            ),
{
    let col = collect_shares(envelopes);
    let ghost m = byte_strings(col@);
    let ghost set = carried_shares(views(envelopes@));
    proof {
        m.unique_seq_to_set();
        assert(m.len() == col@.len());
    }
    if col.len() == 0 {
        return Err(Error::InsufficientShares);
    }
    assert(m[0] == col@[0]@);
    assert(m.contains(m[0]));
    assert(m.to_set().contains(m[0]));
    assert(set.contains(m[0]));
    if col[0].len() < SHARE_METADATA_LEN {
        return Err(Error::InsufficientShares);
    }
    let threshold: usize = (col[0][3] & 0x0f) as usize + 1;
    assert(threshold == member_threshold(m[0]));
    if col.len() < threshold {
        return Err(Error::InsufficientShares);
    }
    assert(set.len() >= member_threshold(m[0]));
    assert(sskr_recovered(m) == sskr_recovered(byte_strings(col@)));
    let key = match sskr_combine_key(&col) {
        Some(k) => k,
        None => {
            return Err(Error::InsufficientShares);
        },
    };
    assert(envelopes@.len() > 0) by {
        assert(set.contains(m[0]));
    }
    let subject = envelopes[0].subject();
    assert(views(envelopes@)[0] == envelopes@[0]@);
    let opened = match subject.decrypt(&key) {
        Ok(o) => o,
        Err(e) => {
            return Err(e);
        },
    };
    let ghost ov = opened@;
    match opened.body {
        Body::Wrapped(c) => {
            assert(ov == Tree::Wrapped(Box::new(c@)));
            Ok(*c)
        },
        _ => Err(Error::MalformedInput),
    }
}

/// The envelopes of a split chosen by the distinct indices `idx`.
pub open spec fn chosen(es: Seq<Tree>, idx: Seq<int>) -> Seq<Tree> {
    Seq::new(idx.len(), |j: int| es[idx[j]])
}

/// The shares of a split chosen by the distinct indices `idx`.
pub open spec fn chosen_shares(shares: Seq<Seq<u8>>, idx: Seq<int>) -> Seq<Seq<u8>> {
    Seq::new(idx.len(), |j: int| shares[idx[j]])
}

/// The chosen envelopes of a split carry exactly the chosen shares.
proof fn lemma_chosen_carry(
    t: Tree,
    threshold: int,
    es: Seq<Tree>,
    enc: Tree,
    k: Seq<u8>,
    shares: Seq<Seq<u8>>,
    idx: Seq<int>,
)
    requires
        split_of(t, threshold, es, enc, k, shares),
        idx.no_duplicates(),
        forall|j: int| 0 <= j < idx.len() ==> 0 <= #[trigger] idx[j] < es.len(),
    ensures
        carried_shares(chosen(es, idx)) == chosen_shares(shares, idx).to_set(),
        chosen_shares(shares, idx).no_duplicates(),
        carried_shares(chosen(es, idx)).len() == idx.len(),
        forall|j: int| 0 <= j < idx.len() ==> #[trigger] assertions_of(chosen(es, idx)[j]) == seq![share_assertion(shares[idx[j]])],
{
    let c = chosen(es, idx);
    let cs = chosen_shares(shares, idx);
    assert forall|j: int| 0 <= j < idx.len() implies #[trigger] assertions_of(c[j]) == seq![share_assertion(shares[idx[j]])] by {
        assert(c[j] == es[idx[j]]);
        assert(es[idx[j]] == with_assertion(enc, share_assertion(shares[idx[j]])));
        assert(assertions_of(enc) == Seq::<Tree>::empty());
    }
    assert forall|p: Seq<u8>| carried_shares(c).contains(p) <==> cs.to_set().contains(p) by {
        if carried_shares(c).contains(p) {
            let (a, b) = choose|a: int, b: int|
                0 <= a < c.len() && 0 <= b < assertions_of(c[a]).len() && #[trigger] assertions_of(
                    c[a],
                )[b] == share_assertion(p);
            assert(assertions_of(c[a]) == seq![share_assertion(shares[idx[a]])]);
            lemma_share_assertion_injective(p, shares[idx[a]]);
            assert(cs[a] == p);
            assert(cs.contains(p));
        }
        if cs.to_set().contains(p) {
            assert(cs.contains(p));
            let a = choose|a: int| 0 <= a < cs.len() && cs[a] == p;
            assert(assertions_of(c[a]) == seq![share_assertion(shares[idx[a]])]);
            assert(assertions_of(c[a])[0] == share_assertion(p));
            assert(carries_share(c, p));
        }
    }
    assert(carried_shares(c) =~= cs.to_set());
    assert forall|x: int, y: int| 0 <= x < y < cs.len() implies cs[x] != cs[y] by {
        assert(idx[x] != idx[y]);
    }
    cs.unique_seq_to_set();
}

/// Threshold recovery: of the envelopes that a split makes, any `threshold`
/// or more distinct ones carry shares that recover the content key, under
/// which the first one's subject decrypts to the wrapped envelope; with
/// fewer, every share records a threshold above their number.
pub proof fn law_threshold_recovery(
    t: Tree,
    threshold: int,
    es: Seq<Tree>,
    enc: Tree,
    k: Seq<u8>,
    shares: Seq<Seq<u8>>,
    idx: Seq<int>,
)
    requires
        split_of(t, threshold, es, enc, k, shares),
        idx.no_duplicates(),
        idx.len() > 0,
        forall|j: int| 0 <= j < idx.len() ==> 0 <= #[trigger] idx[j] < es.len(),
    ensures
        idx.len() >= threshold ==> shares_recover(chosen(es, idx), k) && decrypt_result(
            subject_of(chosen(es, idx)[0]),
            k,
        ) == Ok::<Tree, Error>(Tree::Wrapped(Box::new(t))),
        idx.len() < threshold ==> forall|p: Seq<u8>|
            #[trigger] carried_shares(chosen(es, idx)).contains(p) ==> carried_shares(
                chosen(es, idx),
            ).len() < member_threshold(p),
{
    lemma_chosen_carry(t, threshold, es, enc, k, shares, idx);
    let c = chosen(es, idx);
    let cs = chosen_shares(shares, idx);
    let set = carried_shares(c);
    assert forall|p: Seq<u8>| #[trigger] set.contains(p) implies p.len() >= SHARE_METADATA_LEN
        && member_threshold(p) == threshold by {
        assert(cs.to_set().contains(p));
        assert(cs.contains(p));
        let a = choose|a: int| 0 <= a < cs.len() && cs[a] == p;
        assert(es[idx[a]] == with_assertion(enc, share_assertion(shares[idx[a]])));
    }
    assert(c[0] == es[idx[0]]);
    assert(es[idx[0]] == with_assertion(enc, share_assertion(shares[idx[0]])));
    if idx.len() >= threshold {
        assert(set.contains(cs[0])) by {
            assert(cs.contains(cs[0]));
        }
        assert forall|ss: Seq<Seq<u8>>| ss.no_duplicates() && ss.to_set() == set implies #[trigger] sskr_recovered(ss) == Some(k) by {
            ss.unique_seq_to_set();
            assert forall|j: int| 0 <= j < ss.len() implies shares.contains(#[trigger] ss[j]) by {
                assert(ss.to_set().contains(ss[j]));
                assert(cs.contains(ss[j]));
                let a = choose|a: int| 0 <= a < cs.len() && cs[a] == ss[j];
                assert(shares[idx[a]] == ss[j]);
            }
        }
    }
}

} // verus!
