//! The browser client, keys in hexadecimal, and frames.

use goose_roaming::digits::{decode_hex_key, encode_hex_key};
use goose_roaming::frame::{read_length, write_frame, MAX_FRAME_BYTES};
use goose_roaming::relay::RelayMode;
use goose_roaming::web::{
    accepted_agent, decode_card, decode_card_endpoint_id, dial_addr, dial_step, host_card,
    relay_mode_from_urls, strip_trailing_dot_host, BrowserAck, DialAction, DialEvent, DialPhase,
    HostCard, RoamClient,
};
use goose_roaming::{ConnectionCard, SecretKey};

#[test]
fn the_dot_behind_a_host_is_stripped() {
    assert_eq!(strip_trailing_dot_host("https://host./path"), "https://host/path");
    assert_eq!(strip_trailing_dot_host("https://host.:443/a/b"), "https://host:443/a/b");
    assert_eq!(strip_trailing_dot_host("https://host."), "https://host");
    assert_eq!(strip_trailing_dot_host("https://host./"), "https://host/");
    // Only one dot comes off.
    assert_eq!(strip_trailing_dot_host("https://host../"), "https://host./");
}

#[test]
fn urls_without_a_dot_are_kept() {
    for url in [
        "https://host/path.",
        "https://host:80/",
        "host.",
        "",
        "https://",
        "https://user:pass/",
        "https://a.b:x./y",
        "https://[::1]:443/x",
    ] {
        let want = if url == "https://a.b:x./y" { "https://a.b:x/y" } else { url };
        assert_eq!(strip_trailing_dot_host(url), want);
    }
}

#[test]
fn keys_round_trip_through_hexadecimal() {
    let mut key = [0u8; 32];
    for (i, b) in key.iter_mut().enumerate() {
        *b = (i * 37 % 256) as u8;
    }
    let hex = encode_hex_key(&key);
    assert_eq!(hex.len(), 64);
    assert!(hex.starts_with("00254a6f94b9de0328"));
    assert_eq!(decode_hex_key(&hex), Ok(key));
    assert_eq!(decode_hex_key(&hex.to_uppercase()), Ok(key));
}

#[test]
fn keys_that_cannot_be_read_say_why() {
    assert_eq!(decode_hex_key("ab"), Err("secret must be 64 hex chars, got 2".to_string()));
    assert_eq!(decode_hex_key(""), Err("secret must be 64 hex chars, got 0".to_string()));
    let bad = format!("{}zz", "0".repeat(62));
    assert_eq!(decode_hex_key(&bad), Err("secret has invalid hex".to_string()));
    // A character of two bytes within one pair, and one across two pairs.
    let within = format!("é{}", "0".repeat(62));
    assert_eq!(decode_hex_key(&within), Err("secret has invalid hex".to_string()));
    let across = format!("0é{}", "0".repeat(61));
    assert_eq!(decode_hex_key(&across), Err("secret not utf-8".to_string()));
    // A sign is no digit.
    for pair in ["+f", "+0", "f+", "++"] {
        for at in [0, 31] {
            let signed = format!("{}{pair}{}", "00".repeat(at), "00".repeat(31 - at));
            assert_eq!(decode_hex_key(&signed), Err("secret has invalid hex".to_string()));
        }
    }
    let signed = format!("+f{}", "0".repeat(62));
    match RoamClient::new(Some(signed)) {
        Err(e) => assert_eq!(e, "secret has invalid hex"),
        Ok(_) => panic!("a sign was read as a digit"),
    }
    let minus = format!("-f{}", "0".repeat(62));
    assert_eq!(decode_hex_key(&minus), Err("secret has invalid hex".to_string()));
    for a in 0u8..128 {
        for b in [0u8, b'+', b'0', b'9', b'A', b'F', b'G', b'a', b'f', b'g', 127] {
            let text = format!("{}{}{}", a as char, b as char, "0".repeat(62));
            let pair = format!("{}{}", a as char, b as char);
            let digits = pair.chars().all(|c| c.is_ascii_hexdigit());
            let want = if digits {
                Ok(u8::from_str_radix(&pair, 16).unwrap())
            } else {
                Err("secret has invalid hex".to_string())
            };
            assert_eq!(decode_hex_key(&text).map(|k| k[0]), want, "{pair:?}");
        }
    }
}

#[test]
fn keys_are_written_back_in_lower_case() {
    let mixed = "0123456789abcdefABCDEF0aA1bB2cC3dD4eE5fF6aA7bB8cC9dD0eE1fF2aA3bB";
    let key = decode_hex_key(mixed).unwrap();
    assert_eq!(encode_hex_key(&key), mixed.to_ascii_lowercase());
    let client = RoamClient::new(Some(mixed.to_string())).unwrap();
    assert_eq!(client.secret_hex(), mixed.to_ascii_lowercase());
}

#[test]
fn identities_are_restored_from_their_secret() {
    let client = RoamClient::new(None).unwrap();
    let hex = client.secret_hex();
    let again = RoamClient::new(Some(hex.clone())).unwrap();
    assert_eq!(again.endpoint_id(), client.endpoint_id());
    assert_eq!(again.secret_hex(), hex);
    // An empty secret asks for a fresh identity.
    let fresh = RoamClient::new(Some(String::new())).unwrap();
    assert_ne!(fresh.secret_hex(), hex);
    assert!(RoamClient::new(Some("xyz".to_string())).is_err());
    let known = RoamClient::new(Some("07".repeat(32))).unwrap();
    assert_eq!(known.secret().to_bytes(), [7u8; 32]);
    assert_eq!(
        known.endpoint_id(),
        iroh::SecretKey::from_bytes(&[7u8; 32]).public().to_string()
    );
    let card = known.own_card();
    assert_eq!(card.endpoint_id.to_text(), known.endpoint_id());
    assert!(card.relay_urls.is_empty());
    assert_eq!(card.version, 1);
}

#[test]
fn a_browser_card_is_a_card() {
    let client = RoamClient::new(None).unwrap();
    let text = client.my_card(Ok(b"{}".to_vec())).unwrap();
    assert_eq!(ConnectionCard::decode(&text).unwrap(), b"{}".to_vec());
    assert_eq!(decode_card(&text).unwrap(), b"{}".to_vec());
    assert_eq!(client.my_card(Err("why".to_string())), Err("why".to_string()));
}

#[test]
fn host_cards_are_normalised_for_browsers() {
    let id = SecretKey::generate().public();
    let given = HostCard {
        endpoint_id: id,
        relay_urls: vec!["https://relay.example./".to_string(), "https://b/".to_string()],
    };
    let card = host_card(Ok(given.clone())).unwrap();
    assert_eq!(card.relay_urls, vec!["https://relay.example/", "https://b/"]);
    assert_eq!(decode_card_endpoint_id(Ok(given)), Ok(id.to_text()));
    assert_eq!(host_card(Err("eof".to_string())).unwrap_err(), "decode card: eof");
    assert_eq!(
        decode_card_endpoint_id(Err("eof".to_string())),
        Err("decode card: eof".to_string())
    );
    assert_eq!(decode_card("x"), Err("missing goose+roam:// scheme".to_string()));
    assert!(decode_card("goose+roam://%").unwrap_err().starts_with("decode card base64: "));
    let addr = dial_addr(&card).unwrap();
    assert_eq!(addr.relays, vec!["https://relay.example/", "https://b/"]);
    let broken = HostCard { endpoint_id: id, relay_urls: vec!["?".to_string()] };
    assert_eq!(dial_addr(&broken).unwrap_err(), "bad relay url ?");
}

#[test]
fn unusable_relays_are_left_out() {
    let urls = vec!["nope".to_string(), "https://a.example".to_string()];
    match relay_mode_from_urls(&urls) {
        RelayMode::Custom(configs) => {
            assert_eq!(configs.len(), 1);
            assert_eq!(configs[0].url, "https://a.example/");
            assert_eq!(configs[0].auth_token, None);
        }
        other => panic!("{other:?}"),
    }
    assert!(matches!(relay_mode_from_urls(&vec!["nope".to_string()]), RelayMode::Default));
    assert!(matches!(relay_mode_from_urls(&vec![]), RelayMode::Default));
}

#[test]
fn hosts_answer_with_an_agent_or_a_code() {
    let yes = BrowserAck::Accepted { agent_id: "agent".to_string() };
    assert_eq!(accepted_agent(yes), Ok("agent".to_string()));
    let no = BrowserAck::Rejected { code: "revoked".to_string() };
    assert_eq!(accepted_agent(no), Err("rejected by host: revoked".to_string()));
}

fn some_host() -> HostCard {
    HostCard {
        endpoint_id: SecretKey::from_bytes(&[3u8; 32]).public(),
        relay_urls: vec!["https://relay.example".to_string()],
    }
}

#[test]
fn browsers_dial_step_by_step() {
    let card = some_host();
    let (phase, action) = dial_step(&card, DialPhase::Binding, DialEvent::Bound(Ok(())));
    match action {
        DialAction::Connect(addr) => {
            assert_eq!(addr.id, card.endpoint_id);
            assert_eq!(addr.relays, vec!["https://relay.example/"]);
        }
        _ => panic!("the host is not dialled"),
    }
    let (phase, action) = dial_step(&card, phase, DialEvent::Connected(Ok(())));
    assert!(matches!(action, DialAction::Open));
    let (phase, action) = dial_step(&card, phase, DialEvent::Opened(Ok(())));
    assert!(matches!(action, DialAction::SendHello));
    let (phase, action) = dial_step(&card, phase, DialEvent::Sent(Ok(())));
    assert!(matches!(action, DialAction::ReadAck));
    let yes = BrowserAck::Accepted { agent_id: "agent".to_string() };
    let (phase, action) = dial_step(&card, phase, DialEvent::Answered(Ok(yes)));
    assert_eq!(phase, DialPhase::Done);
    match action {
        DialAction::Ready(agent) => assert_eq!(agent, "agent"),
        _ => panic!("the connection does not stand"),
    }
}

fn dial_failure(card: &HostCard, phase: DialPhase, event: DialEvent) -> String {
    match dial_step(card, phase, event) {
        (DialPhase::Done, DialAction::Fail(e)) => e,
        _ => panic!("the step did not fail"),
    }
}

#[test]
fn browsers_say_which_step_failed() {
    let card = some_host();
    let x = || "x".to_string();
    let fails = |phase: DialPhase, event: DialEvent| dial_failure(&card, phase, event);
    assert_eq!(fails(DialPhase::Binding, DialEvent::Bound(Err(x()))), "bind endpoint: x");
    assert_eq!(fails(DialPhase::Connecting, DialEvent::Connected(Err(x()))), "connect: x");
    assert_eq!(fails(DialPhase::Opening, DialEvent::Opened(Err(x()))), "open_bi: x");
    assert_eq!(fails(DialPhase::Greeting, DialEvent::NotEncoded(x())), "x");
    assert_eq!(fails(DialPhase::Greeting, DialEvent::Sent(Err(x()))), "x");
    assert_eq!(fails(DialPhase::Waiting, DialEvent::NotRead(x())), "x");
    assert_eq!(fails(DialPhase::Waiting, DialEvent::Answered(Err(x()))), "decode ack: x");
    let no = BrowserAck::Rejected { code: "revoked".to_string() };
    assert_eq!(
        fails(DialPhase::Waiting, DialEvent::Answered(Ok(no))),
        "rejected by host: revoked"
    );
    assert_eq!(fails(DialPhase::Done, DialEvent::Bound(Ok(()))), "handshake out of order");
    let broken = HostCard { endpoint_id: card.endpoint_id, relay_urls: vec!["?".to_string()] };
    assert_eq!(
        dial_failure(&broken, DialPhase::Binding, DialEvent::Bound(Ok(()))),
        "bad relay url ?"
    );
}

#[test]
fn frames_carry_their_length() {
    let frame = write_frame(b"hello").unwrap();
    assert_eq!(frame, b"\x05\0\0\0hello".to_vec());
    let header = [frame[0], frame[1], frame[2], frame[3]];
    assert_eq!(read_length(&header), Ok(5));
    assert_eq!(write_frame(b"").unwrap(), vec![0, 0, 0, 0]);
}

#[test]
fn frames_are_bounded() {
    let largest = vec![1u8; MAX_FRAME_BYTES as usize];
    assert_eq!(write_frame(&largest).unwrap().len(), 65540);
    assert_eq!(read_length(&[0, 0, 1, 0]), Ok(65536));
    let too_large = Err("handshake frame too large".to_string());
    assert_eq!(read_length(&[1, 0, 1, 0]), too_large);
    assert_eq!(read_length(&[0xff; 4]), too_large);
    assert!(write_frame(&vec![0u8; 65537]).is_err());
}
