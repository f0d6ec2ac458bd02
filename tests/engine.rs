use envelope::action::{Action, Direction};
use envelope::codec::{decode_envelope, encode_envelope};
use envelope::inclusion::{make_proof, verify_proof};
use envelope::obscure::{elide_removing_set, elide_revealing_set};
use envelope::salt::{DEFAULT_SALT_LEN, SALT};
use envelope::signature::SIGNED;
use envelope::sskr::{sskr_join, SSKR_SHARE};
use envelope::{obscure, Envelope, Error};

fn alice_knows_bob() -> Envelope {
    Envelope::from_text("Alice").add_assertion_pair(Envelope::from_text("knows"), Envelope::from_text("Bob"))
}

fn same(a: &Envelope, b: &Envelope) -> bool {
    encode_envelope(a) == encode_envelope(b)
}

fn public_key(private_key: &[u8; 32]) -> [u8; 32] {
    envelope::signature::public_key_of(private_key)
}

const KEY_A: [u8; 32] = [7u8; 32];
const KEY_B: [u8; 32] = [9u8; 32];

#[test]
fn leaf_digest_is_sha256_of_tagged_content() {
    let e = Envelope::from_text("Hello.");
    let mut image = vec![0u8, 1u8];
    image.extend_from_slice(b"Hello.");
    let expected = bc_components::Digest::from_image(&image).data().to_vec();
    assert_eq!(e.digest(), expected);
    assert_eq!(e.digest().len(), 32);
    assert_eq!(e.leaf_content().unwrap(), [vec![1u8], b"Hello.".to_vec()].concat());
}

#[test]
fn different_content_has_different_digest() {
    assert_ne!(Envelope::from_text("Alice").digest(), Envelope::from_text("Bob").digest());
    assert_ne!(Envelope::from_text("1").digest(), Envelope::from_u64(1).digest());
    assert_ne!(Envelope::from_bytes(&vec![1u8]).digest(), Envelope::from_text("\u{1}").digest());
}

#[test]
fn known_value_digest_hashes_big_endian_value() {
    let e = Envelope::known_value(3);
    let mut image = vec![1u8];
    image.extend_from_slice(&3u64.to_be_bytes());
    assert_eq!(e.digest(), bc_components::Digest::from_image(&image).data().to_vec());
    assert_eq!(e.known_value_of(), Some(3));
}

#[test]
fn assertion_order_does_not_change_digest() {
    let a = Envelope::from_text("Alice")
        .add_assertion_pair(Envelope::from_text("knows"), Envelope::from_text("Bob"))
        .add_assertion_pair(Envelope::from_text("knows"), Envelope::from_text("Carol"));
    let b = Envelope::from_text("Alice")
        .add_assertion_pair(Envelope::from_text("knows"), Envelope::from_text("Carol"))
        .add_assertion_pair(Envelope::from_text("knows"), Envelope::from_text("Bob"));
    assert_eq!(a.digest(), b.digest());
    assert!(same(&a, &b));
    assert_eq!(a.assertions().len(), 2);
}

#[test]
fn duplicate_assertion_collapses() {
    let a = alice_knows_bob().add_assertion_pair(Envelope::from_text("knows"), Envelope::from_text("Bob"));
    assert_eq!(a.assertions().len(), 1);
    assert_eq!(a.digest(), alice_knows_bob().digest());
}

#[test]
fn elision_keeps_digest() {
    let e = alice_knows_bob();
    let root = e.digest();
    let targets = vec![Envelope::from_text("Bob").digest()];
    let elided = elide_removing_set(e.clone(), &targets);
    assert_eq!(elided.digest(), root);
    assert!(!same(&elided, &e));
    let assertion = &elided.assertions()[0];
    assert!(!assertion.is_elided());
}

#[test]
fn eliding_root_collapses_to_placeholder() {
    let e = alice_knows_bob();
    let root = e.digest();
    let elided = elide_removing_set(e, &vec![root.clone()]);
    assert!(elided.is_elided());
    assert_eq!(elided.digest(), root);
}

#[test]
fn elision_is_idempotent() {
    let e = alice_knows_bob().add_assertion_pair(Envelope::from_text("age"), Envelope::from_u64(30));
    let targets = vec![Envelope::from_text("Bob").digest(), Envelope::from_u64(30).digest()];
    let once = elide_removing_set(e, &targets);
    let twice = elide_removing_set(once.clone(), &targets);
    assert!(same(&once, &twice));
}

#[test]
fn empty_target_set_changes_nothing() {
    let e = alice_knows_bob();
    let r = elide_removing_set(e.clone(), &vec![]);
    assert!(same(&r, &e));
}

#[test]
fn revealing_keeps_path_to_target() {
    let e = alice_knows_bob().add_assertion_pair(Envelope::from_text("age"), Envelope::from_u64(30));
    let root = e.digest();
    let subject = Envelope::from_text("Alice").digest();
    let r = elide_revealing_set(e, &vec![root.clone(), subject.clone()]);
    assert_eq!(r.digest(), root);
    assert_eq!(r.subject().digest(), subject);
    assert!(!r.subject().is_elided());
    for a in r.assertions() {
        assert!(a.is_elided());
    }
}

#[test]
fn revealing_nothing_elides_everything() {
    let e = alice_knows_bob();
    let root = e.digest();
    let r = elide_revealing_set(e, &vec![]);
    assert!(r.is_elided());
    assert_eq!(r.digest(), root);
}

#[test]
fn encrypt_round_trip() {
    let e = alice_knows_bob();
    let encrypted = e.clone().encrypt(&KEY_A);
    assert!(encrypted.is_encrypted());
    assert_eq!(encrypted.digest(), e.digest());
    let decrypted = encrypted.decrypt(&KEY_A).unwrap();
    assert!(same(&decrypted, &e));
}

#[test]
fn decrypt_with_wrong_key_is_digest_mismatch() {
    let encrypted = alice_knows_bob().encrypt(&KEY_A);
    assert_eq!(encrypted.decrypt(&KEY_B).unwrap_err(), Error::DigestMismatch);
}

#[test]
fn encryptions_differ_but_share_digest() {
    let a = alice_knows_bob().encrypt(&KEY_A);
    let b = alice_knows_bob().encrypt(&KEY_A);
    assert!(!same(&a, &b));
    assert_eq!(a.digest(), b.digest());
}

#[test]
fn compress_round_trip() {
    let long = "a long repetitive text ".repeat(40);
    let e = Envelope::from_text(&long).add_assertion_pair(Envelope::from_text("note"), Envelope::from_text(&long));
    let plain = encode_envelope(&e);
    let compressed = e.clone().compress();
    assert!(compressed.is_compressed());
    assert_eq!(compressed.digest(), e.digest());
    assert!(encode_envelope(&compressed).len() < plain.len());
    let back = compressed.decompress().unwrap();
    assert!(same(&back, &e));
}

#[test]
fn obscure_encrypt_removing_keeps_digest_and_decrypts() {
    let e = alice_knows_bob();
    let root = e.digest();
    let bob = Envelope::from_text("Bob").digest();
    let r = obscure(e, &vec![bob.clone()], &Action::Encrypt(KEY_A), Direction::Removing);
    assert_eq!(r.digest(), root);
    let assertion = &r.assertions()[0];
    assert!(!assertion.is_encrypted());
    let (predicate, object) = assertion.assertion_parts().unwrap();
    assert!(!predicate.is_encrypted());
    assert!(object.is_encrypted());
    assert_eq!(object.digest(), bob);
    assert!(same(&object.decrypt(&KEY_A).unwrap(), &Envelope::from_text("Bob")));
    let proof = make_proof(r.clone(), &vec![Envelope::from_text("Alice").digest()]).unwrap();
    assert!(verify_proof(&root, &proof, &vec![Envelope::from_text("Alice").digest()]));
    assert_eq!(make_proof(r, &vec![bob]).unwrap_err(), Error::TargetNotFound);
}

#[test]
fn obscure_compress_revealing_keeps_digest() {
    let e = alice_knows_bob();
    let root = e.digest();
    let alice = Envelope::from_text("Alice").digest();
    let r = obscure(e, &vec![root.clone(), alice], &Action::Compress, Direction::Revealing);
    assert_eq!(r.digest(), root);
    let a = &r.assertions()[0];
    assert!(a.is_compressed());
    let back = a.decompress().unwrap();
    assert!(same(&back, &Envelope::assertion(Envelope::from_text("knows"), Envelope::from_text("Bob"))));
}

#[test]
fn obscure_elide_matches_elision() {
    let e = alice_knows_bob();
    let targets = vec![Envelope::from_text("knows").digest()];
    let a = obscure(e.clone(), &targets, &Action::Elide, Direction::Removing);
    let b = elide_removing_set(e, &targets);
    assert!(same(&a, &b));
}

#[test]
fn salt_changes_digest_and_keeps_content() {
    let e = alice_knows_bob();
    let salted = e.clone().add_salt();
    assert_ne!(salted.digest(), e.digest());
    assert_eq!(salted.subject().digest(), e.subject().digest());
    let assertions = salted.assertions();
    assert_eq!(assertions.len(), 2);
    let mut salt_count = 0;
    for a in &assertions {
        if a.digest() == e.assertions()[0].digest() {
            assert!(same(a, &e.assertions()[0]));
            continue;
        }
        salt_count += 1;
        let (predicate, object) = a.assertion_parts().unwrap();
        assert_eq!(predicate.known_value_of(), Some(SALT));
        assert_eq!(object.leaf_content().unwrap().len(), 1 + DEFAULT_SALT_LEN);
    }
    assert_eq!(salt_count, 1);
    let s2 = e.clone().add_salt();
    assert_ne!(s2.digest(), salted.digest());
}

#[test]
fn salt_length_is_configurable() {
    let salted = Envelope::from_text("x").add_salt_with_len(32);
    let a = &salted.assertions()[0];
    let encoded = encode_envelope(a);
    assert!(encoded.len() > 32);
    let plain = Envelope::from_text("x").add_salt();
    let b = &plain.assertions()[0];
    assert_eq!(encode_envelope(b).len() + 16, encoded.len());
    assert_eq!(DEFAULT_SALT_LEN, 16);
}

#[test]
fn proof_verifies_against_root() {
    let e = alice_knows_bob().add_assertion_pair(Envelope::from_text("age"), Envelope::from_u64(30));
    let root = e.digest();
    let targets = vec![Envelope::from_text("Bob").digest()];
    let proof = make_proof(e, &targets).unwrap();
    assert!(verify_proof(&root, &proof, &targets));
    assert_eq!(proof.digest(), root);
}

#[test]
fn proof_rejects_wrong_root_or_target() {
    let e = alice_knows_bob().add_assertion_pair(Envelope::from_text("age"), Envelope::from_u64(30));
    let root = e.digest();
    let targets = vec![Envelope::from_text("Bob").digest()];
    let proof = make_proof(e, &targets).unwrap();
    let mut bad_root = root.clone();
    bad_root[0] ^= 1;
    assert!(!verify_proof(&bad_root, &proof, &targets));
    let substituted = vec![Envelope::from_u64(30).digest()];
    assert!(!verify_proof(&root, &proof, &substituted));
    let mut tampered = encode_envelope(&proof);
    let last = tampered.len() - 1;
    tampered[last] ^= 1;
    match decode_envelope(&tampered) {
        Ok(p) => assert!(!verify_proof(&root, &p, &targets)),
        Err(err) => assert_eq!(err, Error::MalformedInput),
    }
}

#[test]
fn proof_for_missing_target_fails() {
    let e = alice_knows_bob();
    assert_eq!(make_proof(e, &vec![Envelope::from_text("Carol").digest()]).unwrap_err(), Error::TargetNotFound);
}

#[test]
fn codec_round_trip() {
    let e = alice_knows_bob().wrap().add_assertion_pair(Envelope::known_value(4), Envelope::from_bytes(&vec![1, 2, 3]));
    let bytes = encode_envelope(&e);
    let back = decode_envelope(&bytes).unwrap();
    assert!(same(&back, &e));
    assert_eq!(back.digest(), e.digest());
    assert!(back.subject().is_wrapped());
}

#[test]
fn decode_rejects_garbage() {
    assert_eq!(decode_envelope(&vec![]).unwrap_err(), Error::MalformedInput);
    assert_eq!(decode_envelope(&vec![9, 0, 0]).unwrap_err(), Error::MalformedInput);
    let mut bytes = encode_envelope(&alice_knows_bob());
    bytes.push(0);
    assert_eq!(decode_envelope(&bytes).unwrap_err(), Error::MalformedInput);
}

#[test]
fn sign_and_verify() {
    let e = alice_knows_bob();
    let signed = e.clone().sign(&KEY_A);
    assert!(signed.has_signature_from(&public_key(&KEY_A)));
    assert!(signed.verify_signature_from(&public_key(&KEY_A)).is_ok());
    assert_eq!(e.verify_signature_from(&public_key(&KEY_A)).unwrap_err(), Error::VerificationFailed);
    assert_eq!(signed.verify_signature_from(&public_key(&KEY_B)).unwrap_err(), Error::VerificationFailed);
    assert_eq!(signed.subject().digest(), e.subject().digest());
    assert_eq!(signed.assertions().len(), 2);
    let signed_count = signed
        .assertions()
        .iter()
        .filter(|a| a.assertion_parts().unwrap().0.known_value_of() == Some(SIGNED))
        .count();
    assert_eq!(signed_count, 1);
}

#[test]
fn signatures_are_independent() {
    let e = Envelope::from_text("Hello.");
    let ab = e.clone().sign(&KEY_A).sign(&KEY_B);
    let ba = e.clone().sign(&KEY_B).sign(&KEY_A);
    for s in [&ab, &ba] {
        let signed_count = s
            .assertions()
            .iter()
            .filter(|a| a.assertion_parts().unwrap().0.known_value_of() == Some(SIGNED))
            .count();
        assert_eq!(signed_count, 2);
        assert!(s.has_signature_from(&public_key(&KEY_A)));
        assert!(s.has_signature_from(&public_key(&KEY_B)));
        assert!(!s.has_signature_from(&public_key(&[3u8; 32])));
        assert_eq!(s.assertions().len(), 2);
    }
    assert_eq!(ab.digest(), ba.digest());
}

#[test]
fn signature_survives_elision_of_other_assertions() {
    let e = alice_knows_bob().sign(&KEY_A);
    let knows = Envelope::assertion(Envelope::from_text("knows"), Envelope::from_text("Bob")).digest();
    let elided = elide_removing_set(e, &vec![knows]);
    assert!(elided.has_signature_from(&public_key(&KEY_A)));
}

#[test]
fn wrapped_envelope_signing() {
    let wrapped = alice_knows_bob().wrap().sign(&KEY_A);
    assert!(wrapped.subject().is_wrapped());
    assert!(wrapped.has_signature_from(&public_key(&KEY_A)));
    assert_eq!(wrapped.assertions().len(), 1);
}

#[test]
fn signature_matches_ed25519_of_subject_digest() {
    let e = Envelope::from_text("Hello.");
    let d = e.digest();
    let signed = e.sign(&KEY_A);
    let sig = bc_components::Ed25519PrivateKey::from_data(KEY_A).sign(&d);
    let expected = Envelope::assertion(Envelope::known_value(SIGNED), Envelope::from_bytes(&sig.to_vec()));
    assert_eq!(signed.assertions()[0].digest(), expected.digest());
}

#[test]
fn sskr_three_of_five_recovers() {
    let e = alice_knows_bob();
    let shares = e.clone().sskr_split(3, 5).unwrap();
    assert_eq!(shares.len(), 5);
    for s in &shares {
        assert!(s.subject().is_encrypted());
        assert_eq!(s.assertions().len(), 1);
        let (predicate, object) = s.assertions()[0].assertion_parts().unwrap();
        assert_eq!(predicate.known_value_of(), Some(SSKR_SHARE));
        assert!(object.leaf_content().is_some());
    }
    for picks in [[0usize, 1, 2], [0, 2, 4], [1, 3, 4], [2, 3, 4]] {
        let chosen: Vec<Envelope> = picks.iter().map(|&i| shares[i].clone()).collect();
        let back = sskr_join(&chosen).unwrap();
        assert!(same(&back, &e));
    }
    let _ = SSKR_SHARE;
}

#[test]
fn sskr_two_shares_are_insufficient() {
    let shares = alice_knows_bob().sskr_split(3, 5).unwrap();
    let two = vec![shares[0].clone(), shares[3].clone()];
    assert_eq!(sskr_join(&two).unwrap_err(), Error::InsufficientShares);
    let repeated = vec![shares[1].clone(), shares[1].clone(), shares[1].clone()];
    assert_eq!(sskr_join(&repeated).unwrap_err(), Error::InsufficientShares);
    assert_eq!(sskr_join(&vec![]).unwrap_err(), Error::InsufficientShares);
}

#[test]
fn sskr_without_shares_is_insufficient() {
    assert_eq!(sskr_join(&vec![alice_knows_bob()]).unwrap_err(), Error::InsufficientShares);
}

#[test]
fn obscure_encrypt_revealing_hides_all_but_target() {
    let e = alice_knows_bob().add_assertion_pair(Envelope::from_text("age"), Envelope::from_u64(30));
    let root = e.digest();
    let alice = Envelope::from_text("Alice").digest();
    let r = obscure(e, &vec![root.clone(), alice.clone()], &Action::Encrypt(KEY_B), Direction::Revealing);
    assert_eq!(r.digest(), root);
    assert_eq!(r.subject().digest(), alice);
    for a in r.assertions() {
        assert!(a.is_encrypted());
        let opened = a.decrypt(&KEY_B).unwrap();
        assert_eq!(opened.digest(), a.digest());
        assert!(opened.assertion_parts().is_some());
    }
}

#[test]
fn unwrap_gives_inner_envelope() {
    let inner = alice_knows_bob();
    let wrapped = inner.clone().wrap();
    assert_ne!(wrapped.digest(), inner.digest());
    assert!(same(&wrapped.unwrap_envelope().unwrap(), &inner));
    assert!(inner.unwrap_envelope().is_none());
}

#[test]
fn public_key_matches_ed25519() {
    let expected = *bc_components::Ed25519PrivateKey::from_data(KEY_A).public_key().data();
    assert_eq!(public_key(&KEY_A), expected);
}

#[test]
fn key_off_the_curve_is_rejected_without_panic() {
    let signed = alice_knows_bob().sign(&KEY_A);
    let bad = (0u8..=255)
        .map(|b| [b; 32])
        .find(|k| ed25519_dalek::VerifyingKey::from_bytes(k).is_err())
        .unwrap();
    assert!(!signed.has_signature_from(&bad));
    assert_eq!(signed.verify_signature_from(&bad).unwrap_err(), Error::VerificationFailed);
}

#[test]
fn sskr_split_gives_one_share_per_envelope() {
    let shares = Envelope::from_text("secret").sskr_split(2, 3).unwrap();
    assert_eq!(shares.len(), 3);
    let mut values = Vec::new();
    for s in &shares {
        assert_eq!(s.assertions().len(), 1);
        let (_, object) = s.assertions()[0].assertion_parts().unwrap();
        let share = object.leaf_content().unwrap();
        assert_eq!(share.len(), 1 + 5 + 32);
        assert_eq!((share[4] & 0x0f) + 1, 2);
        values.push(share);
    }
    values.dedup();
    assert_eq!(values.len(), 3);
    let back = sskr_join(&vec![shares[2].clone(), shares[0].clone()]).unwrap();
    assert!(same(&back, &Envelope::from_text("secret")));
}
