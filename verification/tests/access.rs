//! Trust by invite and by key together.

use goose_roaming::access::{decide, Introduction, TrustChange};
use goose_roaming::node::make_invite;
use goose_roaming::{
    AccessBooks, ClientHello, EndpointId, InviteOptions, RelaySettings, Scope, SecretKey,
    SignedInvite, TrustPolicy,
};

const NOW: u64 = 1_700_000_000_000;

fn host() -> SecretKey {
    SecretKey::from_bytes(&[1u8; 32])
}

fn peer(seed: u8) -> EndpointId {
    SecretKey::from_bytes(&[seed; 32]).public()
}

fn invite(options: InviteOptions) -> SignedInvite {
    make_invite(&host(), &RelaySettings::Disabled, &vec![], options, NOW)
}

fn by_key() -> Introduction {
    Introduction::Key { label: Some("laptop".to_string()) }
}

fn by_invite(invite: &SignedInvite) -> Introduction {
    Introduction::Invite(ClientHello::new(invite.clone(), None))
}

fn admitted(scope: Scope, label: Option<&str>) -> Result<(Scope, Option<String>), String> {
    Ok((scope, label.map(|l| l.to_string())))
}

fn refused(code: &str) -> Result<(Scope, Option<String>), String> {
    Err(code.to_string())
}

#[test]
fn trust_file_refresh_takes_effect_on_running_share() {
    let us = host().public();
    let mut running = AccessBooks::new();
    let mut file = AccessBooks::default();
    let (first, _) =
        decide(&mut running, Some(file.clone()), &us, &peer(2), by_key(), NOW);
    assert_eq!(first, refused("not_allowlisted"));

    file.apply(&TrustChange::Accept(peer(2)));
    let (second, persist) =
        decide(&mut running, Some(file.clone()), &us, &peer(2), by_key(), NOW);
    assert_eq!(second, admitted(Scope::Control, Some("laptop")));
    assert!(!persist);
    let (other, _) = decide(&mut running, Some(file.clone()), &us, &peer(3), by_key(), NOW);
    assert_eq!(other, refused("not_allowlisted"));

    file.apply(&TrustChange::Revoke(peer(2)));
    let (third, _) = decide(&mut running, Some(file.clone()), &us, &peer(2), by_key(), NOW);
    assert_eq!(third, refused("not_allowlisted"));
    let shown = invite(InviteOptions::new(Scope::Attach, 60_000));
    let (fourth, _) = decide(&mut running, Some(file), &us, &peer(2), by_invite(&shown), NOW);
    assert_eq!(fourth, refused("revoked"));
}

#[test]
fn what_is_known_counts_where_the_file_cannot_be_read() {
    let us = host().public();
    let mut running = AccessBooks::new();
    running.apply(&TrustChange::Accept(peer(2)));
    let (kept, _) = decide(&mut running, None, &us, &peer(2), by_key(), NOW);
    assert_eq!(kept, admitted(Scope::Control, Some("laptop")));
    // An empty book that could be read replaces it.
    let (gone, _) =
        decide(&mut running, Some(AccessBooks::new()), &us, &peer(2), by_key(), NOW);
    assert_eq!(gone, refused("not_allowlisted"));
}

#[test]
fn invites_and_keys_are_decided_on_apart() {
    let us = host().public();
    let mut books = AccessBooks::new();
    let shown = invite(InviteOptions::new(Scope::Observe, 60_000));
    let (invited, _) = decide(&mut books, None, &us, &peer(2), by_invite(&shown), NOW);
    assert_eq!(invited, admitted(Scope::Observe, None));
    let (keyed, _) = decide(&mut books, None, &us, &peer(2), by_key(), NOW);
    assert_eq!(keyed, refused("not_allowlisted"));

    let failed = Introduction::Failed("eof".to_string());
    assert_eq!(decide(&mut books, None, &us, &peer(2), failed, NOW), (refused("eof"), false));
    let malformed = Introduction::Malformed("eof".to_string());
    assert_eq!(
        decide(&mut books, None, &us, &peer(2), malformed, NOW),
        (refused("bad hello: eof"), false)
    );
}

#[test]
fn redeemed_invites_stay_redeemed_when_the_file_lags() {
    let us = host().public();
    let mut books = AccessBooks::new();
    let shown = invite(InviteOptions::new(Scope::Control, 60_000).single_use());
    let (first, persist) = decide(&mut books, None, &us, &peer(2), by_invite(&shown), NOW);
    assert_eq!(first, admitted(Scope::Control, None));
    assert!(persist);
    let stale = Some(AccessBooks::new());
    let (second, persist) = decide(&mut books, stale, &us, &peer(2), by_invite(&shown), NOW);
    assert_eq!(second, refused("invalid_capability"));
    assert!(!persist);
}

#[test]
fn the_policy_of_a_run_outlives_the_file() {
    let mut books = AccessBooks::new();
    books.trust.set_policy(TrustPolicy::Allowlist);
    books.reread(Some(AccessBooks::new()));
    assert_eq!(books.trust.policy, TrustPolicy::Allowlist);
}

#[test]
fn keys_pinned_by_pairing_count_as_accepted() {
    let us = host().public();
    let mut books = AccessBooks::new();
    let shown = invite(InviteOptions::new(Scope::Control, 60_000).single_use());
    let (paired, _) = decide(&mut books, None, &us, &peer(2), by_invite(&shown), NOW);
    assert!(paired.is_ok());
    books.apply(&TrustChange::Accept(peer(3)));
    let mut both = vec![peer(2).to_text(), peer(3).to_text()];
    both.sort();
    assert_eq!(books.allowed_keys(), both);
    books.apply(&TrustChange::Keep);
    assert_eq!(books.allowed_keys(), both);

    books.apply(&TrustChange::Revoke(peer(2)));
    assert_eq!(books.allowed_keys(), vec![peer(3).to_text()]);
    books.apply(&TrustChange::Accept(peer(2)));
    assert_eq!(books.allowed_keys(), both);
}
