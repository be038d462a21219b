//! Signed invites.

use goose_roaming::invite::{
    parse_signature, scope_tag, signature_from, signature_text, verify_claims, write_field,
    write_u32, write_u64,
};
use goose_roaming::{
    parse_endpoint_id, InviteClaims, RoamingError, Scope, SecretKey, SignedInvite,
};
use serde_json::Value;

fn claims(host: &SecretKey) -> InviteClaims {
    InviteClaims {
        version: 1,
        audience: host.public(),
        relay_urls: vec!["https://relay.example./".into()],
        scope: Scope::Control,
        allowed_client_keys: vec![],
        token_id: "tok-1".into(),
        not_before_ms: 1_000,
        expires_at_ms: 10_000,
        single_use: false,
    }
}

fn to_json(invite: &SignedInvite) -> Vec<u8> {
    let c = &invite.claims;
    let scope = match c.scope {
        Scope::Control => "control",
        Scope::Attach => "attach",
        Scope::Observe => "observe",
    };
    let keys: Vec<String> = c.allowed_client_keys.iter().map(|k| k.to_text()).collect();
    let mut map = serde_json::Map::new();
    map.insert("version".to_string(), Value::from(c.version));
    map.insert("audience".to_string(), Value::from(c.audience.to_text()));
    map.insert("relay_urls".to_string(), Value::from(c.relay_urls.clone()));
    map.insert("scope".to_string(), Value::from(scope));
    map.insert("allowed_client_keys".to_string(), Value::from(keys));
    map.insert("token_id".to_string(), Value::from(c.token_id.clone()));
    map.insert("not_before_ms".to_string(), Value::from(c.not_before_ms));
    map.insert("expires_at_ms".to_string(), Value::from(c.expires_at_ms));
    map.insert("single_use".to_string(), Value::from(c.single_use));
    let mut outer = serde_json::Map::new();
    outer.insert("claims".to_string(), Value::Object(map));
    outer.insert("signature".to_string(), Value::from(signature_text(&invite.signature)));
    serde_json::to_vec(&Value::Object(outer)).unwrap()
}

fn from_json(json: &[u8]) -> Result<SignedInvite, String> {
    let value: Value = serde_json::from_slice(json).map_err(|e| e.to_string())?;
    let c = &value["claims"];
    let text = |v: &Value| v.as_str().unwrap_or("").to_string();
    let list = |v: &Value| -> Vec<String> {
        v.as_array().map(|a| a.iter().map(|x| text(x)).collect()).unwrap_or_default()
    };
    let mut keys = Vec::new();
    for key in list(&c["allowed_client_keys"]) {
        keys.push(parse_endpoint_id(&key).map_err(|e| format!("{e:?}"))?);
    }
    let scope = match c["scope"].as_str() {
        Some("control") => Scope::Control,
        Some("attach") => Scope::Attach,
        Some("observe") => Scope::Observe,
        _ => return Err("unknown scope".to_string()),
    };
    Ok(SignedInvite {
        claims: InviteClaims {
            version: c["version"].as_u64().unwrap_or(0) as u32,
            audience: parse_endpoint_id(&text(&c["audience"])).map_err(|e| format!("{e:?}"))?,
            relay_urls: list(&c["relay_urls"]),
            scope,
            allowed_client_keys: keys,
            token_id: text(&c["token_id"]),
            not_before_ms: c["not_before_ms"].as_u64().unwrap_or(0),
            expires_at_ms: c["expires_at_ms"].as_u64().unwrap_or(0),
            single_use: c["single_use"].as_bool().unwrap_or(false),
        },
        signature: parse_signature(&text(&value["signature"]))?,
    })
}

#[test]
fn signs_and_verifies() {
    let host = SecretKey::generate();
    let invite = SignedInvite::sign(&host, claims(&host));
    assert!(invite.verify(5_000).is_ok());
}

#[test]
fn rejects_expired_and_premature() {
    let host = SecretKey::generate();
    let invite = SignedInvite::sign(&host, claims(&host));
    assert!(invite.verify(500).is_err());
    assert!(invite.verify(20_000).is_err());
}

#[test]
fn rejects_tampered_scope() {
    let host = SecretKey::generate();
    let mut invite = SignedInvite::sign(&host, claims(&host));
    invite.claims.scope = Scope::Observe;
    assert!(invite.verify(5_000).is_err());
}

#[test]
fn token_round_trips() {
    let host = SecretKey::generate();
    let invite = SignedInvite::sign(&host, claims(&host));
    let token = SignedInvite::encode(Ok(to_json(&invite))).unwrap();
    assert!(token.starts_with("goose+roam://"));
    let decoded =
        SignedInvite::from_json(from_json(&SignedInvite::decode(&token).unwrap())).unwrap();
    assert!(decoded.verify(5_000).is_ok());
    assert_eq!(decoded.claims.token_id, "tok-1");
}

#[test]
fn client_allowlist_enforced() {
    let host = SecretKey::generate();
    let allowed = SecretKey::generate().public();
    let other = SecretKey::generate().public();
    let mut c = claims(&host);
    c.allowed_client_keys = vec![allowed];
    let invite = SignedInvite::sign(&host, c);
    assert!(invite.permits_client(&allowed));
    assert!(!invite.permits_client(&other));
}

#[test]
fn bearer_permits_anyone() {
    let host = SecretKey::generate();
    let invite = SignedInvite::sign(&host, claims(&host));
    assert!(invite.permits_client(&SecretKey::generate().public()));
}

#[test]
fn validity_begins_with_and_ends_before_its_bounds() {
    let host = SecretKey::generate();
    let invite = SignedInvite::sign(&host, claims(&host));
    let early = RoamingError::Invite("invite not yet valid".to_string());
    let late = RoamingError::Invite("invite expired".to_string());
    assert_eq!(invite.verify(999), Err(early));
    assert_eq!(invite.verify(1_000), Ok(()));
    assert_eq!(invite.verify(9_999), Ok(()));
    assert_eq!(invite.verify(10_000), Err(late));
}

#[test]
fn the_version_counts_before_the_signature_and_that_before_the_window() {
    let host = SecretKey::generate();
    let mut c = claims(&host);
    c.version = 2;
    let bad_version = RoamingError::Invite("unsupported invite version 2".to_string());
    assert_eq!(verify_claims(&c, false, 0), Err(bad_version.clone()));
    assert_eq!(SignedInvite::sign(&host, c).verify(5_000), Err(bad_version));
    let bad_signature = RoamingError::Invite("bad signature".to_string());
    assert_eq!(verify_claims(&claims(&host), false, 0), Err(bad_signature.clone()));
    let stranger = SecretKey::generate();
    let forged = SignedInvite::sign(&stranger, claims(&host));
    assert_eq!(forged.verify(5_000), Err(bad_signature));
}

#[test]
fn every_field_is_signed() {
    let host = SecretKey::generate();
    let signed = SignedInvite::sign(&host, claims(&host));
    let bytes = signed.claims.canonical_bytes();
    let mut changed = vec![signed.clone(); 8];
    changed[0].claims.relay_urls.push("https://b.example/".into());
    changed[1].claims.scope = Scope::Attach;
    changed[2].claims.allowed_client_keys.push(host.public());
    changed[3].claims.token_id = "tok-2".into();
    changed[4].claims.not_before_ms = 0;
    changed[5].claims.expires_at_ms = u64::MAX;
    changed[6].claims.single_use = true;
    changed[7].claims.audience = SecretKey::generate().public();
    for invite in &changed {
        assert_ne!(invite.claims.canonical_bytes(), bytes);
        assert!(invite.verify(5_000).is_err());
    }
    assert_eq!(signed.claims.canonical_bytes(), bytes);
}

#[test]
fn lists_cannot_run_into_each_other() {
    let host = SecretKey::generate();
    let mut a = claims(&host);
    a.relay_urls = vec!["ab".into(), "c".into()];
    let mut b = claims(&host);
    b.relay_urls = vec!["a".into(), "bc".into()];
    assert_ne!(a.canonical_bytes(), b.canonical_bytes());
}

#[test]
fn canonical_bytes_are_laid_out_as_documented() {
    let host = SecretKey::from_bytes(&[3u8; 32]);
    let c = claims(&host);
    let mut want = Vec::new();
    want.extend_from_slice(&23u32.to_le_bytes());
    want.extend_from_slice(b"goose-roaming-invite-v1");
    want.extend_from_slice(&1u32.to_le_bytes());
    want.extend_from_slice(&32u32.to_le_bytes());
    want.extend_from_slice(host.public().as_bytes());
    want.extend_from_slice(&1u32.to_le_bytes());
    want.extend_from_slice(&23u32.to_le_bytes());
    want.extend_from_slice(b"https://relay.example./");
    want.extend_from_slice(&1u32.to_le_bytes());
    want.extend_from_slice(&0u32.to_le_bytes());
    want.extend_from_slice(&5u32.to_le_bytes());
    want.extend_from_slice(b"tok-1");
    want.extend_from_slice(&1_000u64.to_le_bytes());
    want.extend_from_slice(&10_000u64.to_le_bytes());
    want.push(0);
    assert_eq!(c.canonical_bytes(), want);
}

#[test]
fn numbers_and_fields_are_little_endian() {
    let mut buf = Vec::new();
    write_u32(&mut buf, 0x0102_0304);
    write_u64(&mut buf, 0x1112_1314_1516_1718);
    write_field(&mut buf, b"xy");
    assert_eq!(
        buf,
        vec![
            4, 3, 2, 1, 0x18, 0x17, 0x16, 0x15, 0x14, 0x13, 0x12, 0x11, 2, 0, 0, 0, b'x', b'y'
        ]
    );
    assert_eq!(scope_tag(Scope::Control), 1);
    assert_eq!(scope_tag(Scope::Attach), 2);
    assert_eq!(scope_tag(Scope::Observe), 3);
}

#[test]
fn signatures_are_those_of_the_key_crate() {
    let host = SecretKey::from_bytes(&[9u8; 32]);
    let invite = SignedInvite::sign(&host, claims(&host));
    let theirs = iroh::SecretKey::from_bytes(&[9u8; 32]);
    assert_eq!(theirs.public().as_bytes(), host.public().as_bytes());
    let signature = theirs.sign(&invite.claims.canonical_bytes());
    assert_eq!(signature.to_bytes(), invite.signature.to_bytes());
    assert!(theirs.public().verify(&invite.claims.canonical_bytes(), &signature).is_ok());
}

#[test]
fn the_address_names_each_relay_once() {
    let host = SecretKey::generate();
    let mut c = claims(&host);
    c.relay_urls = vec![
        "https://relay.example./".into(),
        "HTTPS://relay.example./".into(),
        "ws://b.example/".into(),
    ];
    let addr = SignedInvite::sign(&host, c).endpoint_addr().unwrap();
    assert_eq!(addr.id, host.public());
    assert_eq!(addr.relays, vec!["https://relay.example./", "ws://b.example/"]);
    let mut broken = claims(&host);
    broken.relay_urls = vec!["not a url".into()];
    assert_eq!(
        SignedInvite::sign(&host, broken).endpoint_addr().unwrap_err(),
        RoamingError::Invite("bad relay url not a url".to_string())
    );
}

#[test]
fn unreadable_tokens_say_why() {
    assert_eq!(
        SignedInvite::decode("abc"),
        Err(RoamingError::Invite("missing goose+roam:// scheme".to_string()))
    );
    // White space is not trimmed here.
    assert!(SignedInvite::decode(" goose+roam://e30").is_err());
    assert_eq!(
        SignedInvite::decode("goose+roam://*"),
        Err(RoamingError::Invite("invalid base64".to_string()))
    );
    assert_eq!(
        SignedInvite::encode(Err("x".to_string())),
        Err(RoamingError::Invite("encode failed: x".to_string()))
    );
    match SignedInvite::from_json(Err("y".to_string())) {
        Err(e) => assert_eq!(e, RoamingError::Invite("invalid invite json: y".to_string())),
        Ok(_) => panic!("no invite was read"),
    }
    assert_eq!(SignedInvite::decode("goose+roam://e30").unwrap(), b"{}".to_vec());
}

#[test]
fn signatures_travel_as_base64() {
    let host = SecretKey::generate();
    let signature = host.sign(b"message");
    let text = signature_text(&signature);
    assert_eq!(text.len(), 86);
    assert_eq!(parse_signature(&text), Ok(signature));
    assert_eq!(parse_signature("AAAA"), Err("signature must be 64 bytes".to_string()));
    assert!(parse_signature("=").is_err());
    assert_eq!(signature_from(&[0u8; 63]), Err("signature must be 64 bytes".to_string()));
    assert_eq!(signature_from(&[5u8; 64]).unwrap().to_bytes(), [5u8; 64]);
}

#[test]
fn endpoint_ids_parse_back_from_their_text() {
    let id = SecretKey::generate().public();
    assert_eq!(parse_endpoint_id(&id.to_text()), Ok(id));
    assert_eq!(id.to_text(), iroh::PublicKey::from_bytes(id.as_bytes()).unwrap().to_string());
    match parse_endpoint_id("xyz") {
        Err(RoamingError::Identity(m)) => {
            assert!(m.starts_with("invalid endpoint id `xyz`: "));
            assert!(m.len() > "invalid endpoint id `xyz`: ".len());
        }
        other => panic!("{other:?}"),
    }
    assert_eq!(goose_roaming::EndpointId::from_bytes(id.as_bytes()), Some(id));
    // Some encodings are not points of the curve.
    let mut refused = 0;
    for first in 0u8..32 {
        let mut bytes = [0u8; 32];
        bytes[0] = first;
        if goose_roaming::EndpointId::from_bytes(&bytes).is_none() {
            refused += 1;
        }
    }
    assert!(refused > 0);
}

#[test]
fn tokens_and_cards_are_safe_in_a_url() {
    let bytes: Vec<u8> = (0..=255u8).chain([0xfb, 0xff, 0xfe]).collect();
    let token = SignedInvite::encode(Ok(bytes.clone())).unwrap();
    let card = goose_roaming::ConnectionCard::encode(Ok(bytes)).unwrap();
    for text in [token, card] {
        let body = text.strip_prefix("goose+roam://").unwrap();
        assert!(body.contains('-') && body.contains('_'));
        assert!(body.chars().all(|c| c.is_ascii_alphanumeric() || c == '-' || c == '_'));
    }
}
