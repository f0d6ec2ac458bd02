use envelope::signature::SIGNED;
use envelope::Envelope;

const PRVKEYS: &str = "ur:crypto-prvkeys/hdcxhsinuesrennenlhfaopycnrfrkdmfnsrvltowmtbmyfwdafxvwmthersktcpetdwfnbndeah";

/// The 32 bytes that a private-key UR holds.
fn key_from_ur(s: &str) -> [u8; 32] {
    let data = bc_ur::UR::from_ur_string(s).unwrap().cbor().try_into_byte_string().unwrap();
    <[u8; 32]>::try_from(data.as_slice()).unwrap()
}

fn public_key(private_key: &[u8; 32]) -> [u8; 32] {
    envelope::signature::public_key_of(private_key)
}

fn alice_knows_bob() -> Envelope {
    Envelope::from_text("Alice").add_assertion_pair(Envelope::from_text("knows"), Envelope::from_text("Bob"))
}

fn indent(s: &str) -> String {
    s.lines().map(|l| format!("    {}", l)).collect::<Vec<_>>().join("\n")
}

/// Renders an envelope in the usual tree notation, assertions in text order.
fn format(e: &Envelope) -> String {
    if e.is_node() {
        let mut lines: Vec<String> = e.assertions().iter().map(format).collect();
        lines.sort();
        let subject = format(&e.subject());
        return format!("{} [\n{}\n]", subject, indent(&lines.join("\n")));
    }
    if let Some(inner) = e.unwrap_envelope() {
        return format!("{{\n{}\n}}", indent(&format(&inner)));
    }
    if let Some((p, o)) = e.assertion_parts() {
        let object = if p.known_value_of() == Some(SIGNED) { "Signature".to_string() } else { format(&o) };
        return format!("{}: {}", format(&p), object);
    }
    if let Some(n) = e.known_value_of() {
        return match n {
            3 => "'signed'".to_string(),
            15 => "'salt'".to_string(),
            _ => format!("'{}'", n),
        };
    }
    if let Some(c) = e.leaf_content() {
        if c[0] == 1 {
            return format!("\"{}\"", String::from_utf8(c[1..].to_vec()).unwrap());
        }
        return format!("Bytes({})", c.len() - 1);
    }
    "ELIDED".to_string()
}

#[test]
fn test_sign() {
    let prvkeys = key_from_ur(PRVKEYS);
    let signed = alice_knows_bob().sign(&prvkeys);
    assert_eq!(
        format(&signed),
        "\"Alice\" [\n    \"knows\": \"Bob\"\n    'signed': Signature\n]"
    );
    let pubkeys = public_key(&prvkeys);
    assert!(signed.verify_signature_from(&pubkeys).is_ok());
    assert!(alice_knows_bob().verify_signature_from(&pubkeys).is_err());
    let bad_prvkeys = *bc_components::Ed25519PrivateKey::new().data();
    let bad_pubkeys = public_key(&bad_prvkeys);
    assert!(signed.verify_signature_from(&bad_pubkeys).is_err());
}

#[test]
fn test_sign_2() {
    let prvkeys = key_from_ur(PRVKEYS);
    let wrapped_signed = alice_knows_bob().wrap().sign(&prvkeys);
    assert_eq!(
        format(&wrapped_signed),
        "{\n    \"Alice\" [\n        \"knows\": \"Bob\"\n    ]\n} [\n    'signed': Signature\n]"
    );
    let pubkeys = public_key(&prvkeys);
    assert!(wrapped_signed.verify_signature_from(&pubkeys).is_ok());
}

#[test]
fn test_sign_3() {
    let alice = [0x11u8; 32];
    let carol = [0x22u8; 32];
    let e = Envelope::from_text("Hello.").sign(&alice).sign(&carol);
    assert_eq!(
        format(&e),
        "\"Hello.\" [\n    'signed': Signature\n    'signed': Signature\n]"
    );
    assert!(e.verify_signature_from(&public_key(&alice)).is_ok());
    assert!(e.verify_signature_from(&public_key(&carol)).is_ok());
}
