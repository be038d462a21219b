//! Minting invites, admitting peers, dialling hosts.

use goose_roaming::node::{
    accept_step, admit_client, authorize, bind_plan, connect_step, invite_claims, live_relay_urls,
    make_invite, now_ms, random_token_id, token_id_of, vetted, AcceptAction, AcceptEvent, AcceptPhase,
    ConnectAction, ConnectEvent, ConnectPhase, HelloRead, TransportAddr,
};
use goose_roaming::relay::RelayMode;
use goose_roaming::{
    ClientHello, EndpointId, HostAck, InviteOptions, RelayEntry, RelaySettings, RoamingConfig,
    RoamingError, Scope, SecretKey, SignedInvite, TrustBook, TrustPolicy,
};

const NOW: u64 = 1_700_000_000_000;

fn host() -> SecretKey {
    SecretKey::from_bytes(&[1u8; 32])
}

fn client() -> EndpointId {
    SecretKey::from_bytes(&[2u8; 32]).public()
}

fn invite(options: InviteOptions) -> SignedInvite {
    make_invite(&host(), &RelaySettings::Disabled, &vec![], options, NOW)
}

fn decide(book: &mut TrustBook, signed: &SignedInvite, at: u64) -> Result<Scope, String> {
    admit_client(book, &host().public(), &client(), signed, at).0
}

#[test]
fn minted_invites_advertise_live_relays_after_configured_ones() {
    let settings = RelaySettings::Custom(vec![
        RelayEntry::with_auth("https://a.example/", "secret"),
        RelayEntry::new("https://b.example/"),
    ]);
    let live = vec![
        "https://b.example/".to_string(),
        "https://c.example/".to_string(),
        "https://c.example/".to_string(),
    ];
    let options = InviteOptions::new(Scope::Attach, 3_600_000).allow_client(client()).single_use();
    let signed = make_invite(&host(), &settings, &live, options, NOW);
    let c = &signed.claims;
    assert_eq!(c.version, 1);
    assert_eq!(c.audience, host().public());
    assert_eq!(
        c.relay_urls,
        vec!["https://a.example/", "https://b.example/", "https://c.example/"]
    );
    assert_eq!(c.scope, Scope::Attach);
    assert_eq!(c.allowed_client_keys, vec![client()]);
    assert!(c.single_use);
    assert_eq!(c.not_before_ms, NOW);
    assert_eq!(c.expires_at_ms, NOW + 3_600_000);
    assert_eq!(c.token_id.len(), 32);
    assert_eq!(signed.verify(NOW), Ok(()));
    assert_eq!(signed.verify(NOW + 3_599_999), Ok(()));
    assert!(signed.verify(NOW - 1).is_err());
    assert!(signed.verify(NOW + 3_600_000).is_err());
}

#[test]
fn claims_carry_the_token_id_they_are_given() {
    let c = invite_claims(
        client(),
        &RelaySettings::N0Default,
        &vec![],
        InviteOptions::new(Scope::Control, 0),
        "id".to_string(),
        5,
    );
    assert_eq!(c.token_id, "id");
    assert_eq!(c.expires_at_ms, 5);
    assert!(c.relay_urls.is_empty());
    assert!(!c.single_use);
}

#[test]
fn lifetimes_are_kept_to_the_millisecond() {
    let signed = invite(InviteOptions::new(Scope::Control, 1_500));
    assert_eq!(signed.claims.expires_at_ms - signed.claims.not_before_ms, 1_500);
    assert_eq!(signed.verify(NOW), Ok(()));
    assert_eq!(signed.verify(NOW + 1_499), Ok(()));
    assert!(signed.verify(NOW + 1_500).is_err());
}

#[test]
fn token_ids_are_random_hexadecimal() {
    let mut bytes = [0u8; 16];
    bytes[0] = 0xab;
    bytes[15] = 0x0f;
    assert_eq!(token_id_of(&bytes), "ab00000000000000000000000000000f");
    let a = random_token_id();
    let b = random_token_id();
    assert_ne!(a, b);
    assert!(a.chars().all(|c| c.is_ascii_hexdigit() && !c.is_ascii_uppercase()));
}

#[test]
fn bearer_invites_admit_again_and_again() {
    let mut book = TrustBook::new(TrustPolicy::Bearer);
    let signed = invite(InviteOptions::new(Scope::Control, 60_000));
    let (first, persist) = admit_client(&mut book, &host().public(), &client(), &signed, NOW);
    assert_eq!(first, Ok(Scope::Control));
    assert!(!persist);
    assert_eq!(decide(&mut book, &signed, NOW + 1), Ok(Scope::Control));
    assert!(book.allowed_keys().is_empty());
}

#[test]
fn single_use_invites_pair_once() {
    let mut book = TrustBook::new(TrustPolicy::Allowlist);
    let signed = invite(InviteOptions::new(Scope::Observe, 60_000).single_use());
    let (first, persist) = admit_client(&mut book, &host().public(), &client(), &signed, NOW);
    assert_eq!(first, Ok(Scope::Observe));
    assert!(persist);
    assert_eq!(book.allowed_keys(), vec![client().to_text()]);
    assert!(book.is_token_revoked(&signed.claims.token_id));
    let (again, persist) = admit_client(&mut book, &host().public(), &client(), &signed, NOW);
    assert_eq!(again, Err("invalid_capability".to_string()));
    assert!(!persist);
    // The pinned key is admitted with another invite.
    let other = invite(InviteOptions::new(Scope::Control, 60_000));
    assert_eq!(decide(&mut book, &other, NOW), Ok(Scope::Control));
}

#[test]
fn each_refusal_has_its_code() {
    let mut book = TrustBook::new(TrustPolicy::Bearer);
    let signed = invite(InviteOptions::new(Scope::Control, 60_000));
    let code = |s: &str| Err::<Scope, String>(s.to_string());
    // Expired.
    assert_eq!(decide(&mut book, &signed, NOW + 60_000), code("invalid_capability"));
    // Not for this host.
    let elsewhere = SecretKey::from_bytes(&[7u8; 32]).public();
    assert_eq!(
        admit_client(&mut book, &elsewhere, &client(), &signed, NOW).0,
        code("invalid_capability")
    );
    // Not for this client.
    let bound = invite(InviteOptions::new(Scope::Control, 60_000).allow_client(elsewhere));
    assert_eq!(decide(&mut book, &bound, NOW), code("not_allowlisted"));
    // Not on the allowlist.
    let mut strict = TrustBook::new(TrustPolicy::Allowlist);
    assert_eq!(decide(&mut strict, &signed, NOW), code("not_allowlisted"));
    strict.allow(&client());
    assert_eq!(decide(&mut strict, &signed, NOW), Ok(Scope::Control));
    // A revoked token.
    book.revoke_token(&signed.claims.token_id);
    assert_eq!(decide(&mut book, &signed, NOW), code("invalid_capability"));
    // A revoked key, allowed or not.
    strict.revoke_key(&client());
    assert_eq!(decide(&mut strict, &signed, NOW), code("revoked"));
    assert!(!strict.is_token_revoked(&signed.claims.token_id));
}

#[test]
fn hellos_that_cannot_be_read_are_refused() {
    let mut book = TrustBook::default();
    let us = host().public();
    let peer = client();
    let failed = HelloRead::Failed("eof".to_string());
    let (r, persist) = authorize(&mut book, &us, &peer, failed, NOW);
    assert_eq!(r, Err("eof".to_string()));
    assert!(!persist);
    let malformed = HelloRead::Malformed("no json".to_string());
    let (r, _) = authorize(&mut book, &us, &peer, malformed, NOW);
    assert_eq!(r, Err("bad hello: no json".to_string()));
    let hello = ClientHello::new(
        invite(InviteOptions::new(Scope::Attach, 60_000)),
        Some("laptop".to_string()),
    );
    let (r, _) = authorize(&mut book, &us, &peer, HelloRead::Hello(hello), NOW);
    assert_eq!(r, Ok((Scope::Attach, Some("laptop".to_string()))));
}

#[test]
fn a_server_may_veto_a_scope() {
    let admitted = || Ok((Scope::Observe, None));
    let veto = || Err("scope_not_supported".to_string());
    assert_eq!(vetted(admitted(), veto()), Err("scope_not_supported".to_string()));
    assert_eq!(vetted(admitted(), Ok(())), admitted());
    let refused = || Err("revoked".to_string());
    assert_eq!(vetted(refused(), veto()), refused());
    assert_eq!(vetted(refused(), Ok(())), refused());
}

#[test]
fn admitted_clients_are_acknowledged_then_served_then_recorded_as_gone() {
    let decided = AcceptEvent::Decided {
        decision: Ok((Scope::Control, Some("l".to_string()))),
        agent_id: "agent".to_string(),
    };
    let (phase, action) = accept_step(AcceptPhase::Authorizing, decided);
    match action {
        AcceptAction::SendAck(HostAck::Accepted { scope, agent_id }) => {
            assert_eq!(scope, Scope::Control);
            assert_eq!(agent_id, "agent");
        }
        _ => panic!("no acceptance was sent"),
    }
    let (phase, action) = accept_step(phase, AcceptEvent::AckSent { ok: true });
    match action {
        AcceptAction::Serve { scope, label, agent_id } => {
            assert_eq!(scope, Scope::Control);
            assert_eq!(label.as_deref(), Some("l"));
            assert_eq!(agent_id, "agent");
        }
        _ => panic!("the agent was not served"),
    }
    let (phase, action) = accept_step(phase, AcceptEvent::Ended);
    assert!(matches!(action, AcceptAction::RecordDisconnect));
    assert!(matches!(phase, AcceptPhase::Done));
}

#[test]
fn refused_clients_are_told_and_never_served() {
    let decided =
        AcceptEvent::Decided { decision: Err("revoked".to_string()), agent_id: "a".to_string() };
    let (phase, action) = accept_step(AcceptPhase::Authorizing, decided);
    match action {
        AcceptAction::SendAck(HostAck::Rejected { code }) => assert_eq!(code, "revoked"),
        _ => panic!("no refusal was sent"),
    }
    let (phase, action) = accept_step(phase, AcceptEvent::AckSent { ok: true });
    assert!(matches!(action, AcceptAction::Finish));
    assert!(matches!(phase, AcceptPhase::Done));
    // An acceptance that could not be sent ends the connection too.
    let (_, action) = accept_step(
        AcceptPhase::Accepting { scope: Scope::Control, label: None, agent_id: "a".to_string() },
        AcceptEvent::AckSent { ok: false },
    );
    assert!(matches!(action, AcceptAction::Finish));
}

fn failure(phase: ConnectPhase, event: ConnectEvent) -> RoamingError {
    match connect_step(phase, event) {
        (ConnectPhase::Done, ConnectAction::Fail(e)) => e,
        _ => panic!("the step did not fail"),
    }
}

#[test]
fn dialling_goes_step_by_step() {
    let (phase, action) = connect_step(ConnectPhase::Checking, ConnectEvent::Checked(Ok(())));
    assert!(matches!(action, ConnectAction::Dial));
    let (phase, action) = connect_step(phase, ConnectEvent::Dialled(Ok(())));
    assert!(matches!(action, ConnectAction::Open));
    let (phase, action) = connect_step(phase, ConnectEvent::Opened(Ok(())));
    assert!(matches!(action, ConnectAction::SendHello));
    let (phase, action) = connect_step(phase, ConnectEvent::Sent(Ok(())));
    assert!(matches!(action, ConnectAction::ReadAck));
    let ack = HostAck::Accepted { scope: Scope::Observe, agent_id: "agent".to_string() };
    let (phase, action) = connect_step(phase, ConnectEvent::Answered(Ok(ack)));
    assert_eq!(phase, ConnectPhase::Done);
    match action {
        ConnectAction::Connected { scope, agent_id } => {
            assert_eq!(scope, Scope::Observe);
            assert_eq!(agent_id, "agent");
        }
        _ => panic!("not connected"),
    }
}

#[test]
fn each_step_of_dialling_fails_in_its_own_words() {
    let transport = |m: &str| RoamingError::Transport(m.to_string());
    let why = || "why".to_string();
    assert_eq!(
        failure(ConnectPhase::Checking, ConnectEvent::Checked(Err(RoamingError::Invite(why())))),
        RoamingError::Invite(why())
    );
    assert_eq!(
        failure(ConnectPhase::Dialling, ConnectEvent::Dialled(Err(why()))),
        transport("connect failed: why")
    );
    assert_eq!(
        failure(ConnectPhase::Opening, ConnectEvent::Opened(Err(why()))),
        transport("open_bi failed: why")
    );
    assert_eq!(
        failure(ConnectPhase::Greeting, ConnectEvent::NotEncoded(why())),
        transport("encode hello: why")
    );
    assert_eq!(
        failure(ConnectPhase::Greeting, ConnectEvent::Sent(Err(transport("x")))),
        transport("x")
    );
    assert_eq!(
        failure(ConnectPhase::Waiting, ConnectEvent::NotRead(transport("y"))),
        transport("y")
    );
    assert_eq!(
        failure(ConnectPhase::Waiting, ConnectEvent::Answered(Err(why()))),
        transport("decode ack: why")
    );
    let refusal = HostAck::Rejected { code: "revoked".to_string() };
    assert_eq!(
        failure(ConnectPhase::Waiting, ConnectEvent::Answered(Ok(refusal))),
        RoamingError::Rejected("revoked".to_string())
    );
    assert_eq!(
        failure(ConnectPhase::Checking, ConnectEvent::Dialled(Ok(()))),
        transport("handshake out of order")
    );
}

#[test]
fn the_clock_counts_from_the_epoch() {
    assert_eq!(now_ms(Some(1_700_000_000_123)), 1_700_000_000_123);
    assert_eq!(now_ms(None), 0);
    assert_eq!(now_ms(Some((1u128 << 64) + 5)), 5);
}

#[test]
fn live_relays_are_the_relay_addresses() {
    let addrs = vec![
        TransportAddr::Ip("10.0.0.1:1".to_string()),
        TransportAddr::Relay("https://a.example/".to_string()),
        TransportAddr::Other,
        TransportAddr::Relay("https://b.example/".to_string()),
    ];
    assert_eq!(live_relay_urls(&addrs), vec!["https://a.example/", "https://b.example/"]);
}

#[test]
fn ip_transports_are_cleared_for_local_ipv4_only() {
    let clears = |s: &RelaySettings, v4: Option<bool>| bind_plan(s, v4).unwrap().clear_ip_transports;
    assert!(clears(&RelaySettings::Disabled, Some(true)));
    assert!(!clears(&RelaySettings::Disabled, Some(false)));
    assert!(!clears(&RelaySettings::Disabled, None));
    assert!(!clears(&RelaySettings::N0Default, Some(true)));
    let bad = RelaySettings::Custom(vec![RelayEntry::new("::")]);
    assert!(bind_plan(&bad, None).is_err());
    assert!(matches!(
        bind_plan(&RelaySettings::Disabled, None).unwrap().relay_mode,
        RelayMode::Disabled
    ));
}

#[test]
fn configurations_start_from_defaults() {
    let config: RoamingConfig<u8, u16, &str> = RoamingConfig::new(host(), 1);
    assert!(matches!(config.relay, RelaySettings::N0Default));
    assert_eq!(config.trust.policy, TrustPolicy::Bearer);
    assert_eq!(config.bind_addr, None);
    assert_eq!(config.trust_path, None);
    let config = config
        .with_relay(RelaySettings::Disabled)
        .with_trust(TrustBook::new(TrustPolicy::Allowlist))
        .with_directory(2)
        .with_bind_addr(80)
        .with_trust_path("trust.json");
    assert!(matches!(config.relay, RelaySettings::Disabled));
    assert_eq!(config.trust.policy, TrustPolicy::Allowlist);
    assert_eq!(config.directory, 2);
    assert_eq!(config.bind_addr, Some(80));
    assert_eq!(config.trust_path, Some("trust.json"));
    assert_eq!(config.identity.public(), host().public());
}
