//! Connection cards.

use goose_roaming::card::{fingerprint_of, CARD_SCHEME};
use goose_roaming::{parse_endpoint_id, ConnectionCard, RoamingError, SecretKey};
use serde_json::Value;
use sha2::Digest;

fn to_json(card: &ConnectionCard) -> Vec<u8> {
    let mut map = serde_json::Map::new();
    map.insert("version".to_string(), Value::from(card.version));
    map.insert("endpoint_id".to_string(), Value::from(card.endpoint_id.to_text()));
    map.insert("relay_urls".to_string(), Value::from(card.relay_urls.clone()));
    serde_json::to_vec(&Value::Object(map)).unwrap()
}

fn from_json(json: &[u8]) -> Result<ConnectionCard, String> {
    let value: Value = serde_json::from_slice(json).map_err(|e| e.to_string())?;
    let id = value["endpoint_id"].as_str().ok_or("no endpoint id")?;
    let urls = value["relay_urls"].as_array().ok_or("no relay urls")?;
    Ok(ConnectionCard {
        version: value["version"].as_u64().ok_or("no version")? as u32,
        endpoint_id: parse_endpoint_id(id).map_err(|e| format!("{e:?}"))?,
        relay_urls: urls.iter().map(|u| u.as_str().unwrap_or("").to_string()).collect(),
    })
}

#[test]
fn round_trips() {
    let id = SecretKey::generate().public();
    let card = ConnectionCard::new(id, vec!["https://relay.example./".to_string()]);
    let encoded = ConnectionCard::encode(Ok(to_json(&card))).unwrap();
    assert!(encoded.starts_with(CARD_SCHEME));
    let decoded =
        ConnectionCard::from_json(from_json(&ConnectionCard::decode(&encoded).unwrap())).unwrap();
    assert_eq!(card, decoded);
}

#[test]
fn fingerprint_is_stable_and_grouped() {
    let id = SecretKey::generate().public();
    let card = ConnectionCard::new(id, vec![]);
    let fp = card.fingerprint();
    assert_eq!(fp, card.fingerprint());
    assert_eq!(fp.len(), 14); // 4+1+4+1+4
    assert_eq!(fp.matches('-').count(), 2);
}

#[test]
fn rejects_foreign_scheme() {
    assert!(ConnectionCard::decode("https://example./abc").is_err());
}

#[test]
fn endpoint_addr_rejects_non_http_relay() {
    let id = SecretKey::generate().public();
    let bad = ConnectionCard::new(id, vec!["file:///etc/passwd".to_string()]);
    assert!(bad.endpoint_addr().is_err());
    let ok = ConnectionCard::new(id, vec!["https://relay.example./".to_string()]);
    assert!(ok.endpoint_addr().is_ok());
}

#[test]
fn fingerprints_show_six_bytes_of_the_digest() {
    let mut digest = [0xffu8; 32];
    digest[0] = 0x3f;
    digest[1] = 0x9a;
    digest[2] = 0x1c;
    digest[3] = 0x22;
    digest[4] = 0x8d;
    digest[5] = 0x40;
    assert_eq!(fingerprint_of(&digest), "3f9a-1c22-8d40");
}

#[test]
fn fingerprints_come_from_the_hash_of_the_key() {
    let id = SecretKey::from_bytes(&[7u8; 32]).public();
    let card = ConnectionCard::new(id, vec!["https://a.example/".to_string()]);
    let digest: [u8; 32] = sha2::Sha256::digest(id.as_bytes()).into();
    assert_eq!(card.fingerprint(), fingerprint_of(&digest));
    let other = ConnectionCard::new(id, vec![]);
    assert_eq!(card.fingerprint(), other.fingerprint());
    let stranger = ConnectionCard::new(SecretKey::from_bytes(&[8u8; 32]).public(), vec![]);
    assert_ne!(card.fingerprint(), stranger.fingerprint());
}

#[test]
fn cards_are_base64_behind_the_scheme() {
    let text = ConnectionCard::encode(Ok(b"{}?>".to_vec())).unwrap();
    assert_eq!(text, "goose+roam://e30_Pg");
    assert_eq!(ConnectionCard::decode(&text).unwrap(), b"{}?>".to_vec());
    assert_eq!(ConnectionCard::decode("  goose+roam://e30_Pg\n").unwrap(), b"{}?>".to_vec());
    assert_eq!(ConnectionCard::encode(Ok(vec![])).unwrap(), "goose+roam://");
    assert_eq!(ConnectionCard::decode("goose+roam://").unwrap(), Vec::<u8>::new());
}

#[test]
fn unreadable_cards_say_why() {
    assert_eq!(
        ConnectionCard::decode("nothing"),
        Err(RoamingError::Card("missing goose+roam:// scheme".to_string()))
    );
    match ConnectionCard::decode("goose+roam://!!!") {
        Err(RoamingError::Card(m)) => assert!(m.starts_with("bad base64: ")),
        other => panic!("{other:?}"),
    }
    assert_eq!(
        ConnectionCard::encode(Err("no".to_string())),
        Err(RoamingError::Card("encode card: no".to_string()))
    );
    assert_eq!(
        ConnectionCard::from_json(Err("eof".to_string())),
        Err(RoamingError::Card("bad card: eof".to_string()))
    );
    let mut card = ConnectionCard::new(SecretKey::generate().public(), vec![]);
    card.version = 27;
    assert_eq!(
        ConnectionCard::from_json(Ok(card)),
        Err(RoamingError::Card("unsupported card version 27".to_string()))
    );
}

#[test]
fn dialable_relays_are_normalised_and_listed_once() {
    let id = SecretKey::generate().public();
    let card = ConnectionCard::new(
        id,
        vec![
            "https://Relay.example".to_string(),
            "http://other.example/".to_string(),
            "https://relay.example/".to_string(),
        ],
    );
    let addr = card.endpoint_addr().unwrap();
    assert_eq!(addr.id, id);
    assert_eq!(addr.relays, vec!["https://relay.example/", "http://other.example/"]);
}

#[test]
fn undialable_relays_say_why() {
    let id = SecretKey::generate().public();
    let scheme = ConnectionCard::new(id, vec!["ws://relay.example/".to_string()]);
    assert_eq!(
        scheme.endpoint_addr().unwrap_err(),
        RoamingError::Card("relay url must be http(s): ws://relay.example/".to_string())
    );
    let broken = ConnectionCard::new(
        id,
        vec!["https://ok.example/".to_string(), "https://".to_string(), "ftp://x".to_string()],
    );
    assert_eq!(
        broken.endpoint_addr().unwrap_err(),
        RoamingError::Card("bad relay url https://".to_string())
    );
}

#[test]
fn card_relays_are_dialled_once_each_and_the_first_bad_one_is_named() {
    let id = SecretKey::from_bytes(&[1u8; 32]).public();
    let dialled = |urls: &[&str]| {
        ConnectionCard::new(id, urls.iter().map(|u| u.to_string()).collect()).endpoint_addr()
    };
    let addr = dialled(&["https://b.example", "http://a.example/", "https://b.example/"]).unwrap();
    assert_eq!(addr.relays, vec!["https://b.example/", "http://a.example/"]);
    assert!(dialled(&[]).unwrap().relays.is_empty());
    match dialled(&["https://b.example", "ftp://c.example", "gopher://d.example"]) {
        Err(RoamingError::Card(reason)) => {
            assert_eq!(reason, "relay url must be http(s): ftp://c.example")
        }
        other => panic!("{other:?}"),
    }
}

#[test]
fn fingerprints_have_three_groups() {
    for seed in 0..4u8 {
        let id = SecretKey::from_bytes(&[seed; 32]).public();
        let print = ConnectionCard::new(id, vec![]).fingerprint();
        assert_eq!(print.len(), 14);
        let groups: Vec<&str> = print.split('-').collect();
        assert_eq!(groups.iter().map(|g| g.len()).collect::<Vec<_>>(), vec![4, 4, 4]);
    }
}
