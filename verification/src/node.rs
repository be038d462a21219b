//! The roaming node: minting invites, admitting peers, and dialling hosts.
//!
//! The transport itself stands outside. What is here decides, from plain
//! values, what is sent, who is admitted, and what happens next.

use vstd::prelude::*;

use crate::digits;
use crate::error::{ErrorView, RoamingError};
use crate::identity::{self, EndpointId, SecretKey};
use crate::invite::{self, InviteClaims, SignedInvite};
use crate::lists;
use crate::relay::{self, RelayMode, RelaySettings};
use crate::scope::Scope;
use crate::text;
use crate::trust::{TrustBook, TrustPolicy, TrustView};

verus! {

/// The protocol name under which agents are served.
pub const ROAMING_ACP_ALPN: &'static str = "goose-acp/1";

// ---------------------------------------------------------------------------
// Configuration

/// Configuration for binding a roaming node. The directory `D`, the socket
/// address `A` and the path `P` are carried through.
pub struct RoamingConfig<D, A, P> {
    pub identity: SecretKey,
    pub relay: RelaySettings,
    pub trust: TrustBook,
    /// Tracks observed connections.
    pub directory: D,
    /// An explicit socket address to bind to.
    pub bind_addr: Option<A>,
    /// Where the trust book is kept; without it trust is in memory only.
    pub trust_path: Option<P>,
}

impl<D, A, P> RoamingConfig<D, A, P> {
    /// A configuration with defaults: public relays, bearer trust, no explicit
    /// address, trust in memory only.
    pub fn new(identity: SecretKey, directory: D) -> (r: RoamingConfig<D, A, P>)
        ensures
            r.identity == identity,
            r.relay == RelaySettings::N0Default,
            r.trust.wf(),
            r.trust@ == TrustView::empty(TrustPolicy::Bearer),
            r.directory == directory,
            r.bind_addr is None,
            r.trust_path is None,
    {
        RoamingConfig {
            identity,
            relay: RelaySettings::N0Default,
            trust: TrustBook::new(TrustPolicy::Bearer),
            directory,
            bind_addr: None,
            trust_path: None,
        }
    }

    /// With a specific relay configuration.
    pub fn with_relay(self, relay: RelaySettings) -> (r: RoamingConfig<D, A, P>)
        ensures
            r == (RoamingConfig { relay, ..self }),
    {
        RoamingConfig { relay, ..self }
    }

    /// With a specific trust book.
    pub fn with_trust(self, trust: TrustBook) -> (r: RoamingConfig<D, A, P>)
        ensures
            r == (RoamingConfig { trust, ..self }),
    {
        RoamingConfig { trust, ..self }
    }

    /// With a directory for observed connections.
    pub fn with_directory(self, directory: D) -> (r: RoamingConfig<D, A, P>)
        ensures
            r == (RoamingConfig { directory, ..self }),
    {
        RoamingConfig { directory, ..self }
    }

    /// Bound to a specific socket address.
    pub fn with_bind_addr(self, addr: A) -> (r: RoamingConfig<D, A, P>)
        ensures
            r == (RoamingConfig { bind_addr: Some(addr), ..self }),
    {
        RoamingConfig { bind_addr: Some(addr), ..self }
    }

    /// With trust changes kept at `path`.
    pub fn with_trust_path(self, path: P) -> (r: RoamingConfig<D, A, P>)
        ensures
            r == (RoamingConfig { trust_path: Some(path), ..self }),
    {
        RoamingConfig { trust_path: Some(path), ..self }
    }
}

/// How to bind the endpoint: its relays, and whether the default transports
/// are cleared first so that a single-family local path is used.
#[derive(Debug, Clone)]
pub struct BindPlan {
    pub relay_mode: RelayMode,
    pub clear_ip_transports: bool,
}

/// How to bind, given the relays and, if an address is set, whether it is an
/// IPv4 address.
pub open spec fn binds(
    settings: RelaySettings,
    bind_is_ipv4: Option<bool>,
    r: Result<BindPlan, RoamingError>,
) -> bool {
    match r {
        Ok(plan) => {
            &&& plan.clear_ip_transports == (settings is Disabled && bind_is_ipv4 == Some(true))
            &&& match settings {
                RelaySettings::N0Default => plan.relay_mode is Default,
                RelaySettings::Disabled => plan.relay_mode is Disabled,
                RelaySettings::Custom(entries) => plan.relay_mode matches RelayMode::Custom(
                    configs,
                ) && relay::configured(entries@, configs@),
            }
        },
        Err(e) => settings matches RelaySettings::Custom(entries) && relay::refused(
            entries@,
            e@,
        ),
    }
}

/// The default transports are cleared only for a local IPv4 address without
/// relays; without custom relays binding never fails; and custom relays are all
/// used.
pub proof fn binding_uses_the_relays(
    settings: RelaySettings,
    bind_is_ipv4: Option<bool>,
    r: Result<BindPlan, RoamingError>,
)
    requires
        binds(settings, bind_is_ipv4, r),
    ensures
        !(settings is Custom) ==> r is Ok,
        r matches Ok(plan) ==> (plan.clear_ip_transports <==> settings is Disabled && bind_is_ipv4
            == Some(true)),
        settings is N0Default && r is Ok ==> r->Ok_0.relay_mode is Default,
        settings is Disabled && r is Ok ==> r->Ok_0.relay_mode is Disabled,
        settings is Custom && r is Ok ==> r->Ok_0.relay_mode is Custom
            && r->Ok_0.relay_mode->Custom_0@.len() == settings->Custom_0@.len(),
{
}

/// Plans how to bind, given the relays and, if an address is set, whether it
/// is an IPv4 address.
pub fn bind_plan(settings: &RelaySettings, bind_is_ipv4: Option<bool>) -> (r: Result<
    BindPlan,
    RoamingError,
>)
    ensures
        binds(*settings, bind_is_ipv4, r),
{
    let relays_disabled = match settings {
        RelaySettings::Disabled => true,
        _ => false,
    };
    let bound_to_ipv4 = match bind_is_ipv4 {
        Some(v4) => v4,
        None => false,
    };
    match settings.to_relay_mode() {
        Ok(relay_mode) => Ok(
            BindPlan { relay_mode, clear_ip_transports: relays_disabled && bound_to_ipv4 },
        ),
        Err(e) => Err(e),
    }
}

// ---------------------------------------------------------------------------
// The clock

/// The time in unix milliseconds that a clock shows.
pub open spec fn shown_ms(since_epoch: Option<u128>) -> int {
    match since_epoch {
        Some(ms) => (ms % 0x1_0000_0000_0000_0000) as int,
        None => 0,
    }
}

/// The milliseconds since the epoch are the time, as long as they fit, and a
/// later time shows more of them.
pub proof fn milliseconds_are_the_time(ms: u128, later: u128)
    requires
        ms <= later <= u64::MAX,
    ensures
        shown_ms(Some(ms)) == ms,
        shown_ms(Some(later)) - shown_ms(Some(ms)) == later - ms,
        shown_ms(None) == 0,
{
}

/// The current time in unix milliseconds, from the milliseconds since the epoch
/// as the clock gives them. A clock before the epoch counts as zero; of a time
/// beyond 64 bits the upper bits are lost.
pub fn now_ms(since_epoch: Option<u128>) -> (r: u64)
    ensures
        r == shown_ms(since_epoch),
        r == (match since_epoch {
            Some(ms) => ms % 0x1_0000_0000_0000_0000,
            None => 0,
        }),
{
    match since_epoch {
        Some(ms) => (ms % 0x1_0000_0000_0000_0000) as u64,
        None => 0,
    }
}

// ---------------------------------------------------------------------------
// Minting invites

/// Options for minting an invite.
#[derive(Debug, Clone)]
pub struct InviteOptions {
    /// Capability granted to the connecting client.
    pub scope: Scope,
    /// How long the invite is valid for, in milliseconds.
    pub ttl_ms: u64,
    /// If not empty, only these client keys may redeem the invite.
    pub allowed_client_keys: Vec<EndpointId>,
    /// Whether the invite is consumed on first redemption.
    pub single_use: bool,
}

impl InviteOptions {
    /// A reusable invite for any holder.
    pub fn new(scope: Scope, ttl_ms: u64) -> (r: InviteOptions)
        ensures
            r.scope == scope,
            r.ttl_ms == ttl_ms,
            r.allowed_client_keys@.len() == 0,
            !r.single_use,
    {
        InviteOptions { scope, ttl_ms, allowed_client_keys: Vec::new(), single_use: false }
    }

    /// Restricts redemption to a client key; may be repeated.
    pub fn allow_client(self, id: EndpointId) -> (r: InviteOptions)
        ensures
            allows_too(self, id, r),
            r.allowed_client_keys@ == self.allowed_client_keys@.push(id),
            r.scope == self.scope,
            r.ttl_ms == self.ttl_ms,
            r.single_use == self.single_use,
    {
        let mut keys = self.allowed_client_keys;
        keys.push(id);
        InviteOptions {
            scope: self.scope,
            ttl_ms: self.ttl_ms,
            allowed_client_keys: keys,
            single_use: self.single_use,
        }
    }

    /// Makes the invite single-use: the first redeemer's key is pinned.
    pub fn single_use(self) -> (r: InviteOptions)
        ensures
            r == (InviteOptions { single_use: true, ..self }),
    {
        InviteOptions { single_use: true, ..self }
    }
}

/// Whether `after` are the options `before` with one more client key allowed.
pub open spec fn allows_too(before: InviteOptions, id: EndpointId, after: InviteOptions) -> bool {
    &&& after.allowed_client_keys@ == before.allowed_client_keys@.push(id)
    &&& after.scope == before.scope
    &&& after.ttl_ms == before.ttl_ms
    &&& after.single_use == before.single_use
}

/// Each key that is allowed may redeem the invite, and so may all that were
/// allowed before; nothing else about the invite changes.
pub proof fn allowed_clients_may_all_redeem(
    before: InviteOptions,
    id: EndpointId,
    after: InviteOptions,
    i: int,
)
    requires
        allows_too(before, id, after),
        0 <= i < before.allowed_client_keys@.len(),
    ensures
        invite::permits(invite::key_views(after.allowed_client_keys@), id@),
        invite::permits(
            invite::key_views(after.allowed_client_keys@),
            before.allowed_client_keys@[i]@,
        ),
        after.scope == before.scope,
        after.ttl_ms == before.ttl_ms,
        after.single_use == before.single_use,
{
    let keys = invite::key_views(after.allowed_client_keys@);
    let n = before.allowed_client_keys@.len() as int;
    invite::each_listed_key_may_redeem(keys, id@);
    assert(keys[n] == id@);
    assert(keys[i] == before.allowed_client_keys@[i]@);
}

/// One way to reach the endpoint.
#[derive(Debug, Clone, PartialEq, Eq)]
pub enum TransportAddr {
    /// Through a relay, by its URL.
    Relay(String),
    /// At an IP address.
    Ip(String),
    /// By some other transport.
    Other,
}

/// The relay URLs among the ways to reach an endpoint, in order.
pub open spec fn relay_urls_of(addrs: Seq<TransportAddr>) -> Seq<Seq<char>>
    decreases addrs.len(),
{
    if addrs.len() == 0 {
        Seq::empty()
    } else {
        match addrs.last() {
            TransportAddr::Relay(url) => relay_urls_of(addrs.drop_last()).push(url@),
            _ => relay_urls_of(addrs.drop_last()),
        }
    }
}

/// The relay URLs among the ways to reach an endpoint.
pub fn live_relay_urls(addrs: &Vec<TransportAddr>) -> (r: Vec<String>)
    ensures
        text::views(r@) == relay_urls_of(addrs@),
{
    let mut out: Vec<String> = Vec::new();
    let mut i: usize = 0;
    assert(addrs@.take(0) == Seq::<TransportAddr>::empty());
    assert(text::views(out@) == Seq::<Seq<char>>::empty());
    while i < addrs.len()
        invariant
            i <= addrs@.len(),
            text::views(out@) == relay_urls_of(addrs@.take(i as int)),
        decreases addrs@.len() - i,
    {
        assert(addrs@.take(i + 1).drop_last() == addrs@.take(i as int));
        assert(addrs@.take(i + 1).last() == addrs@[i as int]);
        let ghost before = out@;
        match &addrs[i] {
            TransportAddr::Relay(url) => {
                out.push(url.clone());
                assert(text::views(out@) == text::views(before).push(url@));
            },
            _ => {},
        }
        i = i + 1;
    }
    assert(addrs@.take(addrs@.len() as int) == addrs@);
    out
}

/// `rand::fill` on 16 bytes: random bytes, of which nothing is said.
#[verifier::external_body]
fn random_bytes() -> (r: [u8; 16]) {
    let mut bytes = [0u8; 16];
    rand::fill(&mut bytes);
    bytes
}

/// The token id that 16 bytes give: 32 hexadecimal digits.
pub fn token_id_of(bytes: &[u8; 16]) -> (r: String)
    ensures
        r@ == digits::lower_hex(bytes@),
{
    digits::hex_of(bytes)
}

/// Whether a text is the token id of some 16 bytes.
pub open spec fn is_token_id(id: Seq<char>) -> bool {
    exists|bytes: Seq<u8>| bytes.len() == 16 && id == #[trigger] digits::lower_hex(bytes)
}

/// A new random token id.
pub fn random_token_id() -> (r: String)
    ensures
        is_token_id(r@),
        r@.len() == 32,
{
    let bytes = random_bytes();
    token_id_of(&bytes)
}

/// What an invite says that a node mints.
pub open spec fn minted(
    us: Seq<u8>,
    advertised: Seq<Seq<char>>,
    live: Seq<Seq<char>>,
    options: InviteOptions,
    token_id: Seq<char>,
    now: u64,
) -> invite::ClaimsView {
    invite::ClaimsView {
        version: 1,
        audience: us,
        relay_urls: lists::merged(advertised, live),
        scope: options.scope,
        allowed_client_keys: invite::key_views(options.allowed_client_keys@),
        token_id,
        not_before_ms: now,
        expires_at_ms: (now + options.ttl_ms) as u64,
        single_use: options.single_use,
    }
}

/// The body of an invite from `us`, good from `now` for the time given in the
/// options. It advertises the configured relays, then the live ones that are
/// not among them.
pub fn invite_claims(
    us: EndpointId,
    settings: &RelaySettings,
    live: &Vec<String>,
    options: InviteOptions,
    token_id: String,
    now: u64,
) -> (r: InviteClaims)
    requires
        now + options.ttl_ms <= u64::MAX,
    ensures
        r@ == minted(us@, relay::advertised(*settings), text::views(live@), options, token_id@, now),
{
    let relay_urls = lists::merge(settings.advertised_urls(), live);
    InviteClaims {
        version: 1,
        audience: us,
        relay_urls,
        scope: options.scope,
        allowed_client_keys: options.allowed_client_keys,
        token_id,
        not_before_ms: now,
        expires_at_ms: now + options.ttl_ms,
        single_use: options.single_use,
    }
}

/// Mints a signed invite under a fresh token id. The endpoint id of the node is
/// the public half of its key.
pub fn make_invite(
    secret: &SecretKey,
    settings: &RelaySettings,
    live: &Vec<String>,
    options: InviteOptions,
    now: u64,
) -> (r: SignedInvite)
    requires
        now + options.ttl_ms <= u64::MAX,
    ensures
        is_token_id(r.claims@.token_id),
        r.claims@ == minted(
            identity::ed25519_public(secret@),
            relay::advertised(*settings),
            text::views(live@),
            options,
            r.claims@.token_id,
            now,
        ),
        r.signature@ == identity::ed25519_signature(secret@, invite::canonical(r.claims@)),
        r.claims.expires_at_ms - r.claims.not_before_ms == options.ttl_ms,
        r.claims.scope == options.scope,
        r.claims.single_use == options.single_use,
        r.claims.audience@ == identity::ed25519_public(secret@),
        r.claims@.allowed_client_keys == invite::key_views(options.allowed_client_keys@),
        identity::nonce_is_regular(r.signature@) ==> r.signature_holds() && forall|at: u64|
            #[trigger] r.verdict(at) is Ok <==> now <= at < now + options.ttl_ms,
{
    let claims = invite_claims(secret.public(), settings, live, options, random_token_id(), now);
    SignedInvite::sign(secret, claims)
}

/// An invite that a node minted, and whose signature holds, is good from the
/// moment it was minted until its time to live has passed.
pub proof fn minted_invites_hold_for_their_ttl(
    signed: SignedInvite,
    us: Seq<u8>,
    advertised: Seq<Seq<char>>,
    live: Seq<Seq<char>>,
    options: InviteOptions,
    now: u64,
    at: u64,
)
    requires
        now + options.ttl_ms <= u64::MAX,
        signed.claims@ == minted(us, advertised, live, options, signed.claims@.token_id, now),
        signed.signature_holds(),
    ensures
        signed.verdict(at) is Ok <==> now <= at < now + options.ttl_ms,
{
}

// ---------------------------------------------------------------------------
// Admission

/// The first message of a client: the invite it redeems, and how it calls
/// itself.
#[derive(Debug, Clone)]
pub struct ClientHello {
    pub invite: SignedInvite,
    pub label: Option<String>,
}

impl ClientHello {
    /// A hello with an invite and an optional label.
    pub fn new(invite: SignedInvite, label: Option<String>) -> (r: ClientHello)
        ensures
            r == (ClientHello { invite, label }),
    {
        ClientHello { invite, label }
    }
}

/// The host's answer to a client's hello.
#[derive(Debug, Clone, PartialEq, Eq)]
pub enum HostAck {
    Accepted { scope: Scope, agent_id: String },
    Rejected { code: String },
}

/// What came in place of a client's hello.
pub enum HelloRead {
    /// The frame could not be read, for this reason.
    Failed(String),
    /// The frame holds no hello, for this reason.
    Malformed(String),
    /// A hello.
    Hello(ClientHello),
}

/// What admitting a client gives: the scope, or the code of the refusal; the
/// trust state afterwards; and whether it has to be kept.
#[verifier::ext_equal]
pub struct Admission {
    pub outcome: Result<Scope, Seq<char>>,
    pub state: TrustView,
    pub persist: bool,
}

impl Admission {
    pub open spec fn refused(code: Seq<char>, state: TrustView) -> Admission {
        Admission { outcome: Err(code), state, persist: false }
    }
}

/// Whether `client`, which showed `signed` at `now`, is admitted by the host
/// `us` under a trust state. The checks come in this order: the invite itself,
/// whom it is for, who may redeem it, revoked keys, the token, the policy. A
/// single-use token is consumed, and its redeemer's key is pinned.
pub open spec fn admission(
    state: TrustView,
    us: Seq<u8>,
    client: Seq<u8>,
    signed: SignedInvite,
    now: u64,
) -> Admission {
    let claims = signed.claims@;
    if signed.verdict(now) is Err || claims.audience != us {
        Admission::refused("invalid_capability"@, state)
    } else if !invite::permits(claims.allowed_client_keys, client) {
        Admission::refused("not_allowlisted"@, state)
    } else if state.key_revoked(client) {
        Admission::refused("revoked"@, state)
    } else if state.revoked_tokens.contains(claims.token_id) {
        Admission::refused("invalid_capability"@, state)
    } else if claims.single_use {
        Admission {
            outcome: Ok(claims.scope),
            state: state.revoking_token(claims.token_id).allowing(client),
            persist: true,
        }
    } else if !state.admits(client) {
        Admission::refused("not_allowlisted"@, state)
    } else {
        Admission { outcome: Ok(claims.scope), state, persist: false }
    }
}

/// Whether a client that showed `signed` is admitted. Changes the trust book
/// where a single-use invite is redeemed, and tells whether it then has to be
/// kept.
pub fn admit_client(
    trust: &mut TrustBook,
    us: &EndpointId,
    client: &EndpointId,
    signed: &SignedInvite,
    now: u64,
) -> (r: (Result<Scope, String>, bool))
    requires
        old(trust).wf(),
    ensures
        final(trust).wf(),
        final(trust)@ == admission(old(trust)@, us@, client@, *signed, now).state,
        r.1 == admission(old(trust)@, us@, client@, *signed, now).persist,
        match r.0 {
            Ok(scope) => admission(old(trust)@, us@, client@, *signed, now).outcome == Ok::<
                Scope,
                Seq<char>,
            >(scope),
            Err(code) => admission(old(trust)@, us@, client@, *signed, now).outcome == Err::<
                Scope,
                Seq<char>,
            >(code@),
        },
{
    if signed.verify(now).is_err() {
        return (Err("invalid_capability".to_owned()), false);
    }
    if !signed.claims.audience.same(us) {
        return (Err("invalid_capability".to_owned()), false);
    }
    if !signed.permits_client(client) {
        return (Err("not_allowlisted".to_owned()), false);
    }
    if trust.is_key_revoked(client) {
        return (Err("revoked".to_owned()), false);
    }
    let mut changed = false;
    if signed.claims.single_use {
        if !trust.redeem_single_use(signed.claims.token_id.as_str()) {
            assert(trust@ =~= old(trust)@);
            return (Err("invalid_capability".to_owned()), false);
        }
        trust.allow(client);
        changed = true;
    } else if trust.is_token_revoked(signed.claims.token_id.as_str()) {
        return (Err("invalid_capability".to_owned()), false);
    }
    if !trust.is_allowed(client) {
        return (Err("not_allowlisted".to_owned()), false);
    }
    (Ok(signed.claims.scope), changed)
}

/// Decides on a connection from what came in place of the client's hello, and
/// hands the label on.
pub fn authorize(
    trust: &mut TrustBook,
    us: &EndpointId,
    client: &EndpointId,
    hello: HelloRead,
    now: u64,
) -> (r: (Result<(Scope, Option<String>), String>, bool))
    requires
        old(trust).wf(),
    ensures
        final(trust).wf(),
        match hello {
            HelloRead::Failed(reason) => r.0 matches Err(e) && e@ == reason@ && !r.1
                && final(trust)@ == old(trust)@,
            HelloRead::Malformed(reason) => r.0 matches Err(e) && e@ == "bad hello: "@ + reason@
                && !r.1 && final(trust)@ == old(trust)@,
            HelloRead::Hello(given) => {
                let a = admission(old(trust)@, us@, client@, given.invite, now);
                &&& final(trust)@ == a.state
                &&& r.1 == a.persist
                &&& match r.0 {
                    Ok((scope, label)) => a.outcome == Ok::<Scope, Seq<char>>(scope) && label
                        == given.label,
                    Err(code) => a.outcome == Err::<Scope, Seq<char>>(code@),
                }
            },
        },
{
    match hello {
        HelloRead::Failed(reason) => (Err(reason), false),
        HelloRead::Malformed(reason) => (Err(text::concat("bad hello: ", reason.as_str())), false),
        HelloRead::Hello(given) => {
            let (outcome, persist) = admit_client(trust, us, client, &given.invite, now);
            match outcome {
                Ok(scope) => (Ok((scope, given.label)), persist),
                Err(code) => (Err(code), persist),
            }
        },
    }
}

/// An admitted client showed an invite of this host that holds now and that it
/// may redeem, its key and the token are not revoked, and it is admitted by the
/// policy afterwards. It gets the scope of the invite.
pub proof fn admission_is_earned(
    state: TrustView,
    us: Seq<u8>,
    client: Seq<u8>,
    signed: SignedInvite,
    now: u64,
)
    requires
        admission(state, us, client, signed, now).outcome is Ok,
    ensures
        signed.signature_holds(),
        signed.claims.not_before_ms <= now < signed.claims.expires_at_ms,
        signed.claims@.audience == us,
        invite::permits(signed.claims@.allowed_client_keys, client),
        !state.key_revoked(client),
        !state.revoked_tokens.contains(signed.claims@.token_id),
        admission(state, us, client, signed, now).state.admits(client),
        admission(state, us, client, signed, now).outcome == Ok::<Scope, Seq<char>>(
            signed.claims.scope,
        ),
{
}

/// A refused client leaves the trust state as it was, and nothing is kept.
pub proof fn refusals_change_nothing(
    state: TrustView,
    us: Seq<u8>,
    client: Seq<u8>,
    signed: SignedInvite,
    now: u64,
)
    requires
        admission(state, us, client, signed, now).outcome is Err,
    ensures
        admission(state, us, client, signed, now).state == state,
        !admission(state, us, client, signed, now).persist,
{
}

/// A single-use invite admits once: after it was redeemed, it admits no one,
/// the redeemer included, at any time.
pub proof fn single_use_invites_admit_once(
    state: TrustView,
    us: Seq<u8>,
    client: Seq<u8>,
    signed: SignedInvite,
    now: u64,
    other: Seq<u8>,
    later: u64,
)
    requires
        signed.claims.single_use,
        admission(state, us, client, signed, now).outcome is Ok,
    ensures
        admission(
            admission(state, us, client, signed, now).state,
            us,
            other,
            signed,
            later,
        ).outcome is Err,
{
}

/// Redeeming a single-use invite pins the redeemer: it is on the allowlist
/// afterwards, whatever the policy.
pub proof fn pairing_pins_the_redeemer(
    state: TrustView,
    us: Seq<u8>,
    client: Seq<u8>,
    signed: SignedInvite,
    now: u64,
)
    requires
        signed.claims.single_use,
        admission(state, us, client, signed, now).outcome is Ok,
    ensures
        admission(state, us, client, signed, now).state.allowed.contains(
            digits::lower_hex(client),
        ),
        admission(state, us, client, signed, now).persist,
{
}

/// A revoked key is refused, whatever invite it shows and however it is
/// allowed otherwise; and so is everyone who shows a revoked token.
pub proof fn revoked_peers_are_refused(
    state: TrustView,
    us: Seq<u8>,
    client: Seq<u8>,
    signed: SignedInvite,
    now: u64,
)
    requires
        state.key_revoked(client) || state.revoked_tokens.contains(signed.claims@.token_id),
    ensures
        admission(state, us, client, signed, now).outcome is Err,
{
}

/// An invite for one host admits no one at another.
pub proof fn invites_are_bound_to_their_host(
    state: TrustView,
    us: Seq<u8>,
    client: Seq<u8>,
    signed: SignedInvite,
    now: u64,
)
    requires
        signed.claims@.audience != us,
    ensures
        admission(state, us, client, signed, now).outcome == Err::<Scope, Seq<char>>(
            "invalid_capability"@,
        ),
{
}

/// The decision on a client once the server was asked.
pub open spec fn with_veto(
    decision: Result<(Scope, Option<String>), String>,
    veto: Result<(), String>,
) -> Result<(Scope, Option<String>), String> {
    match (decision, veto) {
        (Ok(_), Err(code)) => Err(code),
        (decision, _) => decision,
    }
}

/// A client is admitted only where it was admitted and the server serves its
/// scope, and then with what it was granted. A refusal keeps its code, and a
/// veto gives its own.
pub proof fn vetoes_only_take_away(
    granted: (Scope, Option<String>),
    code: String,
    veto: Result<(), String>,
    other: String,
)
    ensures
        with_veto(Ok(granted), Ok(())) == Ok::<(Scope, Option<String>), String>(granted),
        with_veto(Ok(granted), Err(code)) == Err::<(Scope, Option<String>), String>(code),
        with_veto(Err(other), veto) == Err::<(Scope, Option<String>), String>(other),
{
}

/// The decision on a client, once the server has said whether it serves the
/// granted scope. A veto comes before any answer is sent, so that the client is
/// refused cleanly; a client that was refused already stays refused.
pub fn vetted(
    decision: Result<(Scope, Option<String>), String>,
    veto: Result<(), String>,
) -> (r: Result<(Scope, Option<String>), String>)
    ensures
        r == with_veto(decision, veto),
        r == (match (decision, veto) {
            (Ok(_), Err(code)) => Err::<(Scope, Option<String>), String>(code),
            (decision, _) => decision,
        }),
{
    match (decision, veto) {
        (Ok(_), Err(code)) => Err(code),
        (decision, _) => decision,
    }
}

// ---------------------------------------------------------------------------
// Serving a connection

/// How far an inbound connection has come.
pub enum AcceptPhase {
    /// The client's hello is awaited.
    Authorizing,
    /// The acceptance is being sent.
    Accepting { scope: Scope, label: Option<String>, agent_id: String },
    /// The refusal is being sent.
    Rejecting,
    /// The agent is served.
    Serving,
    /// The connection is over.
    Done,
}

/// What happened on an inbound connection.
pub enum AcceptEvent {
    /// The client was admitted or refused; the agent's id is known.
    Decided { decision: Result<(Scope, Option<String>), String>, agent_id: String },
    /// The answer was sent, or could not be.
    AckSent { ok: bool },
    /// The session ended.
    Ended,
}

/// What to do on an inbound connection.
pub enum AcceptAction {
    /// Send this answer.
    SendAck(HostAck),
    /// Record the connection and serve the agent.
    Serve { scope: Scope, label: Option<String>, agent_id: String },
    /// Record that the client is gone.
    RecordDisconnect,
    /// Nothing more.
    Finish,
}

/// Whether an action sends the acceptance of a client.
pub open spec fn sends_acceptance(action: AcceptAction, scope: Scope, agent_id: Seq<char>) -> bool {
    action matches AcceptAction::SendAck(HostAck::Accepted { scope: s, agent_id: a }) && s == scope
        && a@ == agent_id
}

/// The next phase of an inbound connection, and what to do.
pub open spec fn serves_to(
    phase: AcceptPhase,
    event: AcceptEvent,
    next: AcceptPhase,
    action: AcceptAction,
) -> bool {
    match (phase, event) {
        (
            AcceptPhase::Authorizing,
            AcceptEvent::Decided { decision: Ok((scope, label)), agent_id },
        ) => next == (AcceptPhase::Accepting { scope, label, agent_id }) && sends_acceptance(
            action,
            scope,
            agent_id@,
        ),
        (AcceptPhase::Authorizing, AcceptEvent::Decided { decision: Err(reason), .. }) => next
            == AcceptPhase::Rejecting && action == AcceptAction::SendAck(
            HostAck::Rejected { code: reason },
        ),
        (AcceptPhase::Accepting { scope, label, agent_id }, AcceptEvent::AckSent { ok: true }) =>
            next == AcceptPhase::Serving && action == (AcceptAction::Serve {
            scope,
            label,
            agent_id,
        }),
        (AcceptPhase::Serving, AcceptEvent::Ended) => next == AcceptPhase::Done && action
            == AcceptAction::RecordDisconnect,
        _ => next == AcceptPhase::Done && action == AcceptAction::Finish,
    }
}

/// The next phase of an inbound connection, and what to do.
pub fn accept_step(phase: AcceptPhase, event: AcceptEvent) -> (r: (AcceptPhase, AcceptAction))
    ensures
        serves_to(phase, event, r.0, r.1),
{
    match (phase, event) {
        (
            AcceptPhase::Authorizing,
            AcceptEvent::Decided { decision: Ok((scope, label)), agent_id },
        ) => {
            let ack = HostAck::Accepted { scope, agent_id: agent_id.clone() };
            (AcceptPhase::Accepting { scope, label, agent_id }, AcceptAction::SendAck(ack))
        },
        (AcceptPhase::Authorizing, AcceptEvent::Decided { decision: Err(reason), .. }) => (
            AcceptPhase::Rejecting,
            AcceptAction::SendAck(HostAck::Rejected { code: reason }),
        ),
        (AcceptPhase::Accepting { scope, label, agent_id }, AcceptEvent::AckSent { ok: true }) => (
            AcceptPhase::Serving,
            AcceptAction::Serve { scope, label, agent_id },
        ),
        (AcceptPhase::Serving, AcceptEvent::Ended) => (
            AcceptPhase::Done,
            AcceptAction::RecordDisconnect,
        ),
        _ => (AcceptPhase::Done, AcceptAction::Finish),
    }
}

/// Whatever happens on a connection, the agent is served only to a client that
/// was admitted and told so, with the scope and label it was admitted with.
pub proof fn only_admitted_clients_are_served(
    decided: AcceptEvent,
    phase: AcceptPhase,
    answer: AcceptAction,
    sent: AcceptEvent,
    next: AcceptPhase,
    action: AcceptAction,
)
    requires
        serves_to(AcceptPhase::Authorizing, decided, phase, answer),
        serves_to(phase, sent, next, action),
    ensures
        !(answer is Serve),
        action matches AcceptAction::Serve { scope, label, agent_id } ==> {
            &&& decided == (AcceptEvent::Decided { decision: Ok((scope, label)), agent_id })
            &&& sends_acceptance(answer, scope, agent_id@)
            &&& sent == (AcceptEvent::AckSent { ok: true })
        },
{
}

/// A client that was refused is told the code of its refusal, and nothing else
/// is done for it.
pub proof fn refused_clients_are_told_why(
    code: String,
    agent_id: String,
    phase: AcceptPhase,
    answer: AcceptAction,
    sent: AcceptEvent,
    next: AcceptPhase,
    action: AcceptAction,
)
    requires
        serves_to(
            AcceptPhase::Authorizing,
            AcceptEvent::Decided { decision: Err(code), agent_id },
            phase,
            answer,
        ),
        serves_to(phase, sent, next, action),
    ensures
        answer == AcceptAction::SendAck(HostAck::Rejected { code }),
        next == AcceptPhase::Done,
        action == AcceptAction::Finish,
{
}

// ---------------------------------------------------------------------------
// Dialling a host

/// How far an outbound connection has come.
#[derive(Debug, Clone, Copy, PartialEq, Eq, Structural)]
pub enum ConnectPhase {
    /// The invite is being checked.
    Checking,
    /// The host is being dialled.
    Dialling,
    /// The stream is being opened.
    Opening,
    /// The hello is being sent.
    Greeting,
    /// The host's answer is awaited.
    Waiting,
    /// The connection stands or has failed.
    Done,
}

/// What happened on an outbound connection. Each holds the reason of a failure.
pub enum ConnectEvent {
    Checked(Result<(), RoamingError>),
    Dialled(Result<(), String>),
    Opened(Result<(), String>),
    /// The hello could not be written down.
    NotEncoded(String),
    Sent(Result<(), RoamingError>),
    /// The frame with the answer could not be read.
    NotRead(RoamingError),
    Answered(Result<HostAck, String>),
}

/// What to do on an outbound connection.
pub enum ConnectAction {
    /// Dial the host.
    Dial,
    /// Open a stream.
    Open,
    /// Send the hello.
    SendHello,
    /// Read the host's answer.
    ReadAck,
    /// Record the connection, which stands.
    Connected { scope: Scope, agent_id: String },
    /// Give up with this error.
    Fail(RoamingError),
}

/// What an outbound connection comes to in a phase that an event does not fit.
pub open spec fn out_of_order() -> ErrorView {
    ErrorView::Transport("handshake out of order"@)
}

/// Whether an action gives up with an error.
pub open spec fn gives_up(action: ConnectAction, error: ErrorView) -> bool {
    action matches ConnectAction::Fail(e) && e@ == error
}

/// The next phase of an outbound connection, and what to do.
pub open spec fn connects_to(
    phase: ConnectPhase,
    event: ConnectEvent,
    next: ConnectPhase,
    action: ConnectAction,
) -> bool {
    match (phase, event) {
        (ConnectPhase::Checking, ConnectEvent::Checked(Ok(()))) => next == ConnectPhase::Dialling
            && action == ConnectAction::Dial,
        (ConnectPhase::Checking, ConnectEvent::Checked(Err(e))) => next == ConnectPhase::Done
            && action == ConnectAction::Fail(e),
        (ConnectPhase::Dialling, ConnectEvent::Dialled(Ok(()))) => next == ConnectPhase::Opening
            && action == ConnectAction::Open,
        (ConnectPhase::Dialling, ConnectEvent::Dialled(Err(reason))) => next == ConnectPhase::Done
            && gives_up(action, ErrorView::Transport("connect failed: "@ + reason@)),
        (ConnectPhase::Opening, ConnectEvent::Opened(Ok(()))) => next == ConnectPhase::Greeting
            && action == ConnectAction::SendHello,
        (ConnectPhase::Opening, ConnectEvent::Opened(Err(reason))) => next == ConnectPhase::Done
            && gives_up(action, ErrorView::Transport("open_bi failed: "@ + reason@)),
        (ConnectPhase::Greeting, ConnectEvent::NotEncoded(reason)) => next == ConnectPhase::Done
            && gives_up(action, ErrorView::Transport("encode hello: "@ + reason@)),
        (ConnectPhase::Greeting, ConnectEvent::Sent(Ok(()))) => next == ConnectPhase::Waiting
            && action == ConnectAction::ReadAck,
        (ConnectPhase::Greeting, ConnectEvent::Sent(Err(e))) => next == ConnectPhase::Done && action
            == ConnectAction::Fail(e),
        (ConnectPhase::Waiting, ConnectEvent::NotRead(e)) => next == ConnectPhase::Done && action
            == ConnectAction::Fail(e),
        (ConnectPhase::Waiting, ConnectEvent::Answered(Err(reason))) => next == ConnectPhase::Done
            && gives_up(action, ErrorView::Transport("decode ack: "@ + reason@)),
        (
            ConnectPhase::Waiting,
            ConnectEvent::Answered(Ok(HostAck::Accepted { scope, agent_id })),
        ) => next == ConnectPhase::Done && action == (ConnectAction::Connected { scope, agent_id }),
        (ConnectPhase::Waiting, ConnectEvent::Answered(Ok(HostAck::Rejected { code }))) => next
            == ConnectPhase::Done && action == ConnectAction::Fail(RoamingError::Rejected(code)),
        _ => next == ConnectPhase::Done && gives_up(action, out_of_order()),
    }
}

/// The next phase of an outbound connection, and what to do.
pub fn connect_step(phase: ConnectPhase, event: ConnectEvent) -> (r: (ConnectPhase, ConnectAction))
    ensures
        connects_to(phase, event, r.0, r.1),
{
    match (phase, event) {
        (ConnectPhase::Checking, ConnectEvent::Checked(Ok(()))) => (
            ConnectPhase::Dialling,
            ConnectAction::Dial,
        ),
        (ConnectPhase::Checking, ConnectEvent::Checked(Err(e))) => (
            ConnectPhase::Done,
            ConnectAction::Fail(e),
        ),
        (ConnectPhase::Dialling, ConnectEvent::Dialled(Ok(()))) => (
            ConnectPhase::Opening,
            ConnectAction::Open,
        ),
        (ConnectPhase::Dialling, ConnectEvent::Dialled(Err(reason))) => (
            ConnectPhase::Done,
            transport_failure("connect failed: ", reason.as_str()),
        ),
        (ConnectPhase::Opening, ConnectEvent::Opened(Ok(()))) => (
            ConnectPhase::Greeting,
            ConnectAction::SendHello,
        ),
        (ConnectPhase::Opening, ConnectEvent::Opened(Err(reason))) => (
            ConnectPhase::Done,
            transport_failure("open_bi failed: ", reason.as_str()),
        ),
        (ConnectPhase::Greeting, ConnectEvent::NotEncoded(reason)) => (
            ConnectPhase::Done,
            transport_failure("encode hello: ", reason.as_str()),
        ),
        (ConnectPhase::Greeting, ConnectEvent::Sent(Ok(()))) => (
            ConnectPhase::Waiting,
            ConnectAction::ReadAck,
        ),
        (ConnectPhase::Greeting, ConnectEvent::Sent(Err(e))) => (
            ConnectPhase::Done,
            ConnectAction::Fail(e),
        ),
        (ConnectPhase::Waiting, ConnectEvent::NotRead(e)) => (
            ConnectPhase::Done,
            ConnectAction::Fail(e),
        ),
        (ConnectPhase::Waiting, ConnectEvent::Answered(Err(reason))) => (
            ConnectPhase::Done,
            transport_failure("decode ack: ", reason.as_str()),
        ),
        (
            ConnectPhase::Waiting,
            ConnectEvent::Answered(Ok(HostAck::Accepted { scope, agent_id })),
        ) => (ConnectPhase::Done, ConnectAction::Connected { scope, agent_id }),
        (ConnectPhase::Waiting, ConnectEvent::Answered(Ok(HostAck::Rejected { code }))) => (
            ConnectPhase::Done,
            ConnectAction::Fail(RoamingError::Rejected(code)),
        ),
        _ => (
            ConnectPhase::Done,
            ConnectAction::Fail(RoamingError::Transport("handshake out of order".to_owned())),
        ),
    }
}

fn transport_failure(what: &str, reason: &str) -> (r: ConnectAction)
    ensures
        r matches ConnectAction::Fail(e) && e@ == ErrorView::Transport(what@ + reason@),
{
    ConnectAction::Fail(RoamingError::Transport(text::concat(what, reason)))
}

/// A host is dialled only with an invite that was checked, and a connection
/// stands only where the host's answer accepts it, with the scope it names.
pub proof fn connections_stand_by_the_hosts_word(
    phase: ConnectPhase,
    event: ConnectEvent,
    next: ConnectPhase,
    action: ConnectAction,
)
    requires
        connects_to(phase, event, next, action),
    ensures
        action is Dial ==> event matches ConnectEvent::Checked(Ok(())),
        action matches ConnectAction::Connected { scope, agent_id } ==> event
            == ConnectEvent::Answered(Ok(HostAck::Accepted { scope, agent_id })),
{
}

// ---------------------------------------------------------------------------
// What holds of admission, minting and the handshakes

/// A client that shows an invite of this host, of the current version, whose
/// signature holds and in whose window the time lies, is admitted with the scope
/// of the invite, wherever its key stands on the list of the invite or there is
/// no list, neither its key nor the token is revoked, and the policy lets it in:
/// any key under the bearer policy, and a pinned key or the redeemer of a
/// single-use invite under either.
pub proof fn valid_invites_are_honoured(
    state: TrustView,
    us: Seq<u8>,
    client: Seq<u8>,
    signed: SignedInvite,
    now: u64,
    i: int,
)
    requires
        signed.claims.version == 1,
        signed.signature_holds(),
        signed.claims.not_before_ms <= now < signed.claims.expires_at_ms,
        signed.claims.audience@ == us,
        signed.claims.allowed_client_keys@.len() == 0 || (0 <= i
            < signed.claims.allowed_client_keys@.len()
            && signed.claims.allowed_client_keys@[i]@ == client),
        !state.revoked_keys.contains(digits::lower_hex(client)),
        !state.revoked_tokens.contains(signed.claims.token_id@),
        state.policy == TrustPolicy::Bearer || state.allowed.contains(digits::lower_hex(client))
            || signed.claims.single_use,
    ensures
        admission(state, us, client, signed, now).outcome == Ok::<Scope, Seq<char>>(
            signed.claims.scope,
        ),
{
    let keys = signed.claims@.allowed_client_keys;
    invite::each_listed_key_may_redeem(keys, client);
    if signed.claims.allowed_client_keys@.len() > 0 {
        assert(keys[i] == client);
    }
}

/// Every refusal has its code: an invite that does not hold, is for another host
/// or whose token is refused is an invalid capability; a key that may not redeem
/// it, or that the policy does not let in, is not allowlisted; a revoked key is
/// revoked.
pub proof fn refusals_have_their_codes(
    state: TrustView,
    us: Seq<u8>,
    client: Seq<u8>,
    signed: SignedInvite,
    now: u64,
)
    ensures
        ({
            let claims = signed.claims@;
            let outcome = admission(state, us, client, signed, now).outcome;
            let holds = claims.version == 1 && signed.signature_holds() && claims.not_before_ms
                <= now && now < claims.expires_at_ms && claims.audience == us;
            let listed = claims.allowed_client_keys.len() == 0
                || claims.allowed_client_keys.contains(client);
            let barred = state.revoked_keys.contains(digits::lower_hex(client));
            let spent = state.revoked_tokens.contains(claims.token_id);
            &&& !holds ==> outcome == Err::<Scope, Seq<char>>("invalid_capability"@)
            &&& holds && !listed ==> outcome == Err::<Scope, Seq<char>>("not_allowlisted"@)
            &&& holds && listed && barred ==> outcome == Err::<Scope, Seq<char>>("revoked"@)
            &&& holds && listed && !barred && spent ==> outcome == Err::<Scope, Seq<char>>(
                "invalid_capability"@,
            )
            &&& holds && listed && !barred && !spent && !claims.single_use && state.policy
                == TrustPolicy::Allowlist && !state.allowed.contains(digits::lower_hex(client))
                ==> outcome == Err::<Scope, Seq<char>>("not_allowlisted"@)
        }),
{
}

/// Redeeming a single-use invite spends its token and pins the redeemer, and
/// changes nothing else; redeeming any other changes nothing at all.
pub proof fn redemption_changes_only_the_token_and_the_pin(
    state: TrustView,
    us: Seq<u8>,
    client: Seq<u8>,
    signed: SignedInvite,
    now: u64,
)
    requires
        admission(state, us, client, signed, now).outcome is Ok,
    ensures
        ({
            let after = admission(state, us, client, signed, now).state;
            &&& after.policy == state.policy
            &&& after.revoked_keys == state.revoked_keys
            &&& signed.claims.single_use ==> after.allowed == state.allowed.insert(
                digits::lower_hex(client),
            ) && after.revoked_tokens == state.revoked_tokens.insert(signed.claims.token_id@)
            &&& !signed.claims.single_use ==> after == state
            &&& admission(state, us, client, signed, now).persist == signed.claims.single_use
        }),
{
}

/// A client that was admitted is told so, with its scope and the id of the
/// agent; once it has been told, it is served with that scope and its label; and
/// when it goes, that is recorded. Where it could not be told, it is not served.
pub proof fn admitted_clients_are_told_and_served(
    scope: Scope,
    label: Option<String>,
    agent_id: String,
    told: (AcceptPhase, AcceptAction),
    served: (AcceptPhase, AcceptAction),
    gone: (AcceptPhase, AcceptAction),
    untold: (AcceptPhase, AcceptAction),
)
    requires
        serves_to(
            AcceptPhase::Authorizing,
            AcceptEvent::Decided { decision: Ok((scope, label)), agent_id },
            told.0,
            told.1,
        ),
        serves_to(told.0, AcceptEvent::AckSent { ok: true }, served.0, served.1),
        serves_to(served.0, AcceptEvent::Ended, gone.0, gone.1),
        serves_to(told.0, AcceptEvent::AckSent { ok: false }, untold.0, untold.1),
    ensures
        told.1 matches AcceptAction::SendAck(HostAck::Accepted { scope: s, agent_id: a }) && s
            == scope && a@ == agent_id@,
        served.1 == (AcceptAction::Serve { scope, label, agent_id }),
        gone.1 == AcceptAction::RecordDisconnect,
        untold.1 == AcceptAction::Finish,
{
}

/// A handshake in which every step goes well dials, opens a stream, sends the
/// hello, reads the answer, and ends in a connection with the scope and the
/// agent that the answer names; or in the refusal that it names.
pub proof fn handshakes_that_go_well_connect(
    scope: Scope,
    agent_id: String,
    code: String,
    a: (ConnectPhase, ConnectAction),
    b: (ConnectPhase, ConnectAction),
    c: (ConnectPhase, ConnectAction),
    d: (ConnectPhase, ConnectAction),
    accepted: (ConnectPhase, ConnectAction),
    refused: (ConnectPhase, ConnectAction),
)
    requires
        connects_to(ConnectPhase::Checking, ConnectEvent::Checked(Ok(())), a.0, a.1),
        connects_to(a.0, ConnectEvent::Dialled(Ok(())), b.0, b.1),
        connects_to(b.0, ConnectEvent::Opened(Ok(())), c.0, c.1),
        connects_to(c.0, ConnectEvent::Sent(Ok(())), d.0, d.1),
        connects_to(
            d.0,
            ConnectEvent::Answered(Ok(HostAck::Accepted { scope, agent_id })),
            accepted.0,
            accepted.1,
        ),
        connects_to(
            d.0,
            ConnectEvent::Answered(Ok(HostAck::Rejected { code })),
            refused.0,
            refused.1,
        ),
    ensures
        a.1 is Dial,
        b.1 is Open,
        c.1 is SendHello,
        d.1 is ReadAck,
        accepted.1 == (ConnectAction::Connected { scope, agent_id }),
        refused.1 == ConnectAction::Fail(RoamingError::Rejected(code)),
{
}

/// A failure at any step ends the handshake with its own reason, and nothing
/// that was not done counts as done.
pub proof fn failed_steps_end_the_handshake(
    phase: ConnectPhase,
    reason: String,
    error: RoamingError,
    dialled: (ConnectPhase, ConnectAction),
    opened: (ConnectPhase, ConnectAction),
    checked: (ConnectPhase, ConnectAction),
    sent: (ConnectPhase, ConnectAction),
    unread: (ConnectPhase, ConnectAction),
)
    requires
        connects_to(
            ConnectPhase::Dialling,
            ConnectEvent::Dialled(Err(reason)),
            dialled.0,
            dialled.1,
        ),
        connects_to(ConnectPhase::Opening, ConnectEvent::Opened(Err(reason)), opened.0, opened.1),
        connects_to(ConnectPhase::Checking, ConnectEvent::Checked(Err(error)), checked.0, checked.1),
        connects_to(ConnectPhase::Greeting, ConnectEvent::Sent(Err(error)), sent.0, sent.1),
        connects_to(ConnectPhase::Waiting, ConnectEvent::NotRead(error), unread.0, unread.1),
    ensures
        dialled.1 matches ConnectAction::Fail(e) && e@ == ErrorView::Transport(
            "connect failed: "@ + reason@,
        ),
        opened.1 matches ConnectAction::Fail(e) && e@ == ErrorView::Transport(
            "open_bi failed: "@ + reason@,
        ),
        checked.1 == ConnectAction::Fail(error),
        sent.1 == ConnectAction::Fail(error),
        unread.1 == ConnectAction::Fail(error),
        dialled.0 == ConnectPhase::Done && opened.0 == ConnectPhase::Done && checked.0
            == ConnectPhase::Done && sent.0 == ConnectPhase::Done && unread.0 == ConnectPhase::Done,
{
}

/// Every relay among the ways to reach an endpoint counts, in order, and nothing
/// else does.
pub proof fn every_live_relay_counts(addrs: Seq<TransportAddr>, url: String, ip: String)
    ensures
        relay_urls_of(Seq::empty()) == Seq::<Seq<char>>::empty(),
        relay_urls_of(addrs.push(TransportAddr::Relay(url))) == relay_urls_of(addrs).push(url@),
        relay_urls_of(addrs.push(TransportAddr::Ip(ip))) == relay_urls_of(addrs),
        relay_urls_of(addrs.push(TransportAddr::Other)) == relay_urls_of(addrs),
{
    assert(addrs.push(TransportAddr::Relay(url)).drop_last() =~= addrs);
    assert(addrs.push(TransportAddr::Ip(ip)).drop_last() =~= addrs);
    assert(addrs.push(TransportAddr::Other).drop_last() =~= addrs);
}

/// A minted invite is for this host, grants what was asked for, to the keys that
/// were asked for, as often as was asked for, and names every relay: the
/// configured ones first and unchanged, each live one, and no other.
pub proof fn minted_invites_grant_what_was_asked_for(
    us: Seq<u8>,
    advertised: Seq<Seq<char>>,
    live: Seq<Seq<char>>,
    options: InviteOptions,
    token_id: Seq<char>,
    now: u64,
)
    requires
        now + options.ttl_ms <= u64::MAX,
    ensures
        ({
            let c = minted(us, advertised, live, options, token_id, now);
            &&& c.version == 1
            &&& c.audience == us
            &&& c.scope == options.scope
            &&& c.single_use == options.single_use
            &&& c.token_id == token_id
            &&& c.allowed_client_keys.len() == options.allowed_client_keys@.len()
            &&& forall|i: int|
                0 <= i < options.allowed_client_keys@.len() ==> #[trigger] c.allowed_client_keys[i]
                    == options.allowed_client_keys@[i]@
            &&& c.not_before_ms == now
            &&& c.expires_at_ms == now + options.ttl_ms
            &&& advertised.is_prefix_of(c.relay_urls)
            &&& forall|u: Seq<char>| #[trigger]
                c.relay_urls.contains(u) <==> advertised.contains(u) || live.contains(u)
        }),
{
    lists::merged_holds_both(advertised, live);
}

/// A token id is 32 characters, each a hexadecimal digit in lower case, and
/// different bytes give different ids.
pub proof fn token_ids_are_hexadecimal(bytes: Seq<u8>, other: Seq<u8>)
    requires
        bytes.len() == 16,
        other.len() == 16,
    ensures
        digits::lower_hex(bytes).len() == 32,
        forall|i: int|
            0 <= i < 32 ==> ('0' <= #[trigger] digits::lower_hex(bytes)[i] <= '9' || 'a'
                <= digits::lower_hex(bytes)[i] <= 'f'),
        digits::lower_hex(bytes) == digits::lower_hex(other) ==> bytes == other,
{
    if digits::lower_hex(bytes) == digits::lower_hex(other) {
        digits::lower_hex_is_injective(bytes, other);
    }
}

/// A hello that cannot be written down, and an answer that cannot be understood,
/// end the handshake with the reason.
pub proof fn unclear_words_end_the_handshake(
    reason: String,
    unwritten: (ConnectPhase, ConnectAction),
    unclear: (ConnectPhase, ConnectAction),
)
    requires
        connects_to(
            ConnectPhase::Greeting,
            ConnectEvent::NotEncoded(reason),
            unwritten.0,
            unwritten.1,
        ),
        connects_to(
            ConnectPhase::Waiting,
            ConnectEvent::Answered(Err(reason)),
            unclear.0,
            unclear.1,
        ),
    ensures
        unwritten.1 is Fail && unwritten.1->Fail_0@ == ErrorView::Transport(
            "encode hello: "@ + reason@,
        ),
        unclear.1 is Fail && unclear.1->Fail_0@ == ErrorView::Transport("decode ack: "@ + reason@),
        unwritten.0 == ConnectPhase::Done && unclear.0 == ConnectPhase::Done,
{
}

} // verus!
