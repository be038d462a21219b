//! The roaming client of a browser.
//!
//! A browser reaches hosts through relays only. It keeps its identity as a
//! secret in hexadecimal, and shows it to hosts as a card.

use vstd::prelude::*;

use crate::base64url;
use crate::card::{self, ConnectionCard};
use crate::digits;
use crate::identity::{self, EndpointId, SecretKey};
use crate::invite::{self, EndpointAddr};
use crate::relay::{RelayConfig, RelayMode};
use crate::relay_url;
use crate::text;

verus! {

/// How many chunks may wait in either direction before a writer has to wait.
pub const CHANNEL_CAP: usize = 16;

/// How many bytes are read at a time.
pub const READ_CHUNK: usize = 16384;

// ---------------------------------------------------------------------------
// Host names

/// Whether every character is a decimal digit.
pub open spec fn all_digits(s: Seq<char>) -> bool {
    forall|i: int| 0 <= i < s.len() ==> '0' <= #[trigger] s[i] <= '9'
}

/// The parts of a URL as far as the host is concerned.
#[verifier::ext_equal]
pub struct UrlParts {
    pub scheme: Seq<char>,
    pub host: Seq<char>,
    pub port: Option<Seq<char>>,
    pub path: Option<Seq<char>>,
}

/// The host and the port of an authority: what follows the last colon is a port
/// if it is a number.
pub open spec fn host_and_port(authority: Seq<char>) -> (Seq<char>, Option<Seq<char>>) {
    match text::rhalves(authority, ':') {
        Some((host, port)) => if port.len() > 0 && all_digits(port) {
            (host, Some(port))
        } else {
            (authority, None)
        },
        None => (authority, None),
    }
}

/// The parts of a URL, if it has a scheme.
pub open spec fn url_parts(url: Seq<char>) -> Option<UrlParts> {
    match text::halves(url, "://"@) {
        None => None,
        Some((scheme, rest)) => {
            let (authority, path) = match text::halves(rest, "/"@) {
                Some((a, p)) => (a, Some(p)),
                None => (rest, None),
            };
            let (host, port) = host_and_port(authority);
            Some(UrlParts { scheme, host, port, path })
        },
    }
}

/// The authority of a host and a port.
pub open spec fn authority_of(host: Seq<char>, port: Option<Seq<char>>) -> Seq<char> {
    match port {
        Some(p) => host + ":"@ + p,
        None => host,
    }
}

/// The URL of its parts.
pub open spec fn url_of(parts: UrlParts) -> Seq<char> {
    let front = parts.scheme + "://"@ + authority_of(parts.host, parts.port);
    match parts.path {
        Some(p) => front + "/"@ + p,
        None => front,
    }
}

/// A host without the dot at its end.
pub open spec fn undotted(host: Seq<char>) -> Seq<char> {
    if host.len() > 0 && host.last() == '.' {
        host.drop_last()
    } else {
        host
    }
}

/// A URL without the dot at the end of its host. A text without a scheme stays
/// as it is.
pub open spec fn without_host_dot(url: Seq<char>) -> Seq<char> {
    match url_parts(url) {
        None => url,
        Some(parts) => url_of(UrlParts { host: undotted(parts.host), ..parts }),
    }
}

proof fn lemma_halves_join(s: Seq<char>, sep: Seq<char>)
    ensures
        text::halves(s, sep) matches Some((a, b)) ==> s == a + sep + b,
{
    if text::find(s, sep) is Some {
        let i = text::find(s, sep)->0;
        text::find_from_is_least(s, sep, 0);
        assert(s =~= s.take(i) + s.subrange(i, i + sep.len()) + s.skip(i + sep.len()));
    }
}

proof fn lemma_rhalves_join(s: Seq<char>, sep: char)
    ensures
        text::rhalves(s, sep) matches Some((a, b)) ==> s == a + seq![sep] + b,
{
    text::rfind_is_greatest(s, sep);
    if text::rfind(s, sep) is Some {
        let i = text::rfind(s, sep)->0;
        assert(s =~= s.take(i) + seq![sep] + s.skip(i + 1));
    }
}

/// The parts of a URL make it up again.
pub proof fn url_parts_make_up_the_url(url: Seq<char>)
    requires
        url_parts(url) is Some,
    ensures
        url_of(url_parts(url)->0) == url,
{
    reveal_strlit(":");
    assert(":"@ =~= seq![':']);
    lemma_halves_join(url, "://"@);
    let (_, rest) = text::halves(url, "://"@)->0;
    lemma_halves_join(rest, "/"@);
    let authority = match text::halves(rest, "/"@) {
        Some((a, _)) => a,
        None => rest,
    };
    lemma_rhalves_join(authority, ':');
    let parts = url_parts(url)->0;
    assert(authority_of(parts.host, parts.port) =~= authority);
    assert(url_of(parts) =~= url);
}

/// A URL whose host has no dot at its end stays as it is.
pub proof fn hosts_without_a_dot_are_kept(url: Seq<char>)
    requires
        url_parts(url) matches Some(parts) ==> parts.host.len() == 0 || parts.host.last() != '.',
    ensures
        without_host_dot(url) == url,
{
    if url_parts(url) is Some {
        url_parts_make_up_the_url(url);
        let parts = url_parts(url)->0;
        assert(UrlParts { host: undotted(parts.host), ..parts } =~= parts);
    }
}

fn is_number(s: &str) -> (r: bool)
    ensures
        r == (s@.len() > 0 && all_digits(s@)),
{
    let cs = text::chars_of(s);
    if cs.len() == 0 {
        return false;
    }
    let mut i: usize = 0;
    while i < cs.len()
        invariant
            i <= cs@.len(),
            cs@ == s@,
            cs@.len() > 0,
            forall|j: int| 0 <= j < i ==> '0' <= #[trigger] cs@[j] <= '9',
        decreases cs@.len() - i,
    {
        if !('0' <= cs[i] && cs[i] <= '9') {
            return false;
        }
        i = i + 1;
    }
    true
}

fn strip_dot(host: &str) -> (r: String)
    ensures
        r@ == undotted(host@),
{
    let cs = text::chars_of(host);
    let n: usize = cs.len();
    if n > 0 && cs[n - 1] == '.' {
        let r = text::string_of(&cs, 0, n - 1);
        assert(r@ =~= host@.drop_last());
        r
    } else {
        host.to_owned()
    }
}

/// Strips the dot at the end of a URL's host, which browsers refuse; an
/// optional port is kept.
pub fn strip_trailing_dot_host(url: &str) -> (r: String)
    ensures
        r@ == without_host_dot(url@),
{
    match text::split_once(url, "://") {
        None => url.to_owned(),
        Some((scheme, rest)) => {
            let (authority, path) = match text::split_once(rest, "/") {
                Some((a, p)) => (a, Some(p)),
                None => (rest, None),
            };
            let (host, port) = match text::rsplit_once(authority, ':') {
                Some((h, p)) => if is_number(p) {
                    (h, Some(p))
                } else {
                    (authority, None)
                },
                None => (authority, None),
            };
            let host = strip_dot(host);
            let authority = match port {
                Some(p) => text::concat3(host.as_str(), ":", p),
                None => host,
            };
            let front = text::concat3(scheme, "://", authority.as_str());
            match path {
                Some(p) => text::concat3(front.as_str(), "/", p),
                None => front,
            }
        },
    }
}

// ---------------------------------------------------------------------------
// Cards

/// What a browser reads of a host's card.
#[derive(Debug, Clone)]
pub struct HostCard {
    pub endpoint_id: EndpointId,
    pub relay_urls: Vec<String>,
}

/// The written form of the card that a text carries, or why there is none.
pub open spec fn host_card_bytes(card: Seq<char>) -> Result<Seq<u8>, Seq<char>> {
    match text::after_prefix(text::trimmed(card), card::CARD_SCHEME@) {
        None => Err("missing goose+roam:// scheme"@),
        Some(body) => match base64url::base64url_bytes(body) {
            Ok(json) => Ok(json),
            Err(e) => Err("decode card base64: "@ + e),
        },
    }
}

/// The JSON form of the card that a text carries.
pub fn decode_card(card: &str) -> (r: Result<Vec<u8>, String>)
    ensures
        match r {
            Ok(json) => host_card_bytes(card@) == Ok::<Seq<u8>, Seq<char>>(json@),
            Err(e) => host_card_bytes(card@) == Err::<Seq<u8>, Seq<char>>(e@),
        },
{
    match text::strip_prefix(text::trim(card), card::CARD_SCHEME) {
        None => Err("missing goose+roam:// scheme".to_owned()),
        Some(body) => match base64url::decode(body) {
            Ok(json) => Ok(json),
            Err(e) => Err(text::concat("decode card base64: ", e.as_str())),
        },
    }
}

/// The relay URLs of a card as a browser uses them.
pub open spec fn browser_urls(urls: Seq<Seq<char>>) -> Seq<Seq<char>> {
    urls.map_values(|u: Seq<char>| without_host_dot(u))
}

/// What a card comes to in a browser.
pub open spec fn is_host_card(
    parsed: Result<HostCard, String>,
    r: Result<HostCard, String>,
) -> bool {
    match (parsed, r) {
        (Ok(given), Ok(card)) => card.endpoint_id == given.endpoint_id && text::views(
            card.relay_urls@,
        ) == browser_urls(text::views(given.relay_urls@)),
        (Err(reason), Err(e)) => e@ == "decode card: "@ + reason@,
        _ => false,
    }
}

/// A card that was read keeps its endpoint and every one of its relays, in its
/// place and without the dot behind its host; one that was not read has none.
pub proof fn host_cards_keep_every_relay(
    given: HostCard,
    r: Result<HostCard, String>,
    unread: Result<HostCard, String>,
    reason: String,
)
    requires
        is_host_card(Ok(given), r),
        is_host_card(Err(reason), unread),
    ensures
        unread is Err,
        r is Ok,
        r->Ok_0.endpoint_id == given.endpoint_id,
        r->Ok_0.relay_urls@.len() == given.relay_urls@.len(),
        forall|i: int|
            0 <= i < given.relay_urls@.len() ==> (#[trigger] r->Ok_0.relay_urls@[i])@
                == without_host_dot(given.relay_urls@[i]@),
{
    let card = r->Ok_0;
    let urls = text::views(given.relay_urls@);
    assert(text::views(card.relay_urls@).len() == card.relay_urls@.len());
    assert forall|i: int| 0 <= i < given.relay_urls@.len() implies (
    #[trigger] card.relay_urls@[i])@ == without_host_dot(given.relay_urls@[i]@) by {
        assert(text::views(card.relay_urls@)[i] == browser_urls(urls)[i]);
        assert(urls[i] == given.relay_urls@[i]@);
    }
}

/// The card that reading the JSON form gave, with its relay URLs as a browser
/// uses them. The relays and the address to dial then name the same hosts.
pub fn host_card(parsed: Result<HostCard, String>) -> (r: Result<HostCard, String>)
    ensures
        is_host_card(parsed, r),
{
    match parsed {
        Err(reason) => Err(text::concat("decode card: ", reason.as_str())),
        Ok(given) => {
            let ghost all = browser_urls(text::views(given.relay_urls@));
            let mut relay_urls: Vec<String> = Vec::new();
            let mut i: usize = 0;
            assert(text::views(relay_urls@) =~= all.take(0));
            while i < given.relay_urls.len()
                invariant
                    i <= given.relay_urls@.len(),
                    all == browser_urls(text::views(given.relay_urls@)),
                    text::views(relay_urls@) == all.take(i as int),
                decreases given.relay_urls@.len() - i,
            {
                let ghost before = relay_urls@;
                assert(all[i as int] == without_host_dot(given.relay_urls@[i as int]@));
                relay_urls.push(strip_trailing_dot_host(given.relay_urls[i].as_str()));
                assert(text::views(relay_urls@) =~= text::views(before).push(all[i as int]));
                assert(all.take(i + 1) =~= all.take(i as int).push(all[i as int]));
                i = i + 1;
            }
            assert(all.take(given.relay_urls@.len() as int) =~= all);
            Ok(HostCard { endpoint_id: given.endpoint_id, relay_urls })
        },
    }
}

/// The endpoint id of a card, as text, to show whom a card is about.
pub fn decode_card_endpoint_id(parsed: Result<HostCard, String>) -> (r: Result<String, String>)
    ensures
        match (parsed, r) {
            (Ok(given), Ok(id)) => id@ == digits::lower_hex(given.endpoint_id@),
            (Err(reason), Err(e)) => e@ == "decode card: "@ + reason@,
            _ => false,
        },
{
    match host_card(parsed) {
        Ok(card) => Ok(card.endpoint_id.to_text()),
        Err(e) => Err(e),
    }
}

// ---------------------------------------------------------------------------
// Dialling

/// The relays of a list of URLs, normalised; what is no URL is left out.
pub open spec fn usable_relays(urls: Seq<Seq<char>>) -> Seq<Seq<char>>
    decreases urls.len(),
{
    if urls.len() == 0 {
        Seq::empty()
    } else {
        match relay_url::relay_url(urls.last()) {
            Some(url) => usable_relays(urls.drop_last()).push(url),
            None => usable_relays(urls.drop_last()),
        }
    }
}

/// Whether the transport is set up with the relays of a list of URLs.
pub open spec fn sets_up(urls: Seq<Seq<char>>, mode: RelayMode) -> bool {
    let usable = usable_relays(urls);
    if usable.len() == 0 {
        mode is Default
    } else {
        &&& mode matches RelayMode::Custom(configs)
        &&& configs@.len() == usable.len()
        &&& forall|i: int|
            0 <= i < usable.len() ==> (#[trigger] configs@[i]).url@ == usable[i]
                && configs@[i].auth_token is None
    }
}

/// Every URL of the list that is one is among the relays, without a token; where
/// none is, the public relays are used.
pub proof fn usable_relays_are_set_up(urls: Seq<Seq<char>>, mode: RelayMode, k: int)
    requires
        sets_up(urls, mode),
        0 <= k < urls.len(),
        relay_url::relay_url(urls[k]) is Some,
    ensures
        mode is Custom,
        exists|i: int|
            0 <= i < mode->Custom_0@.len() && (#[trigger] mode->Custom_0@[i]).url@
                == relay_url::relay_url(urls[k])->0 && mode->Custom_0@[i].auth_token is None,
{
    lemma_usable_holds(urls, k);
    let usable = usable_relays(urls);
    let i = choose|i: int|
        0 <= i < usable.len() && #[trigger] usable[i] == relay_url::relay_url(urls[k])->0;
    assert(mode->Custom_0@[i].url@ == usable[i]);
}

/// Where no text of the list is a relay URL, the public relays are used.
pub proof fn public_relays_stand_in(urls: Seq<Seq<char>>, mode: RelayMode)
    requires
        sets_up(urls, mode),
        forall|k: int| 0 <= k < urls.len() ==> relay_url::relay_url(#[trigger] urls[k]) is None,
    ensures
        mode is Default,
{
    lemma_none_usable(urls);
}

proof fn lemma_none_usable(urls: Seq<Seq<char>>)
    requires
        forall|k: int| 0 <= k < urls.len() ==> relay_url::relay_url(#[trigger] urls[k]) is None,
    ensures
        usable_relays(urls).len() == 0,
    decreases urls.len(),
{
    if urls.len() > 0 {
        assert forall|k: int| 0 <= k < urls.drop_last().len() implies relay_url::relay_url(
            #[trigger] urls.drop_last()[k],
        ) is None by {
            assert(urls.drop_last()[k] == urls[k]);
        }
        lemma_none_usable(urls.drop_last());
        assert(urls.last() == urls[urls.len() - 1]);
    }
}

proof fn lemma_usable_holds(urls: Seq<Seq<char>>, k: int)
    requires
        0 <= k < urls.len(),
        relay_url::relay_url(urls[k]) is Some,
    ensures
        exists|i: int|
            0 <= i < usable_relays(urls).len() && #[trigger] usable_relays(urls)[i]
                == relay_url::relay_url(urls[k])->0,
    decreases urls.len(),
{
    let init = urls.drop_last();
    if k < init.len() {
        assert(init[k] == urls[k]);
        lemma_usable_holds(init, k);
        let i = choose|i: int|
            0 <= i < usable_relays(init).len() && #[trigger] usable_relays(init)[i]
                == relay_url::relay_url(urls[k])->0;
        assert(usable_relays(urls)[i] == usable_relays(init)[i]);
    } else {
        assert(usable_relays(urls)[usable_relays(init).len() as int] == relay_url::relay_url(
            urls[k],
        )->0);
    }
}

/// The relays to set the transport up with: those of the URLs that are usable,
/// or the public ones if none is.
pub fn relay_mode_from_urls(urls: &Vec<String>) -> (r: RelayMode)
    ensures
        sets_up(text::views(urls@), r),
        ({
            let usable = usable_relays(text::views(urls@));
            if usable.len() == 0 {
                r is Default
            } else {
                &&& r matches RelayMode::Custom(configs)
                &&& configs@.len() == usable.len()
                &&& forall|i: int|
                    0 <= i < usable.len() ==> (#[trigger] configs@[i]).url@ == usable[i]
                        && configs@[i].auth_token is None
            }
        }),
{
    let ghost all = text::views(urls@);
    let mut configs: Vec<RelayConfig> = Vec::new();
    let mut i: usize = 0;
    assert(all.take(0) =~= Seq::<Seq<char>>::empty());
    while i < urls.len()
        invariant
            i <= urls@.len(),
            all == text::views(urls@),
            configs@.len() == usable_relays(all.take(i as int)).len(),
            forall|j: int|
                0 <= j < configs@.len() ==> (#[trigger] configs@[j]).url@ == usable_relays(
                    all.take(i as int),
                )[j] && configs@[j].auth_token is None,
        decreases urls@.len() - i,
    {
        assert(all.take(i + 1).drop_last() =~= all.take(i as int));
        assert(all.take(i + 1).last() == urls@[i as int]@);
        if let Some(url) = relay_url::parse_relay_url(urls[i].as_str()) {
            configs.push(RelayConfig { url, auth_token: None });
        }
        i = i + 1;
    }
    assert(all.take(urls@.len() as int) =~= all);
    if configs.len() == 0 {
        RelayMode::Default
    } else {
        RelayMode::Custom(configs)
    }
}

/// Whom to dial for a card; the first relay URL that is none is an error.
pub fn dial_addr(card: &HostCard) -> (r: Result<EndpointAddr, String>)
    ensures
        match (r, invite::relays_of(text::views(card.relay_urls@))) {
            (Ok(addr), Ok(list)) => addr.id == card.endpoint_id && text::views(addr.relays@) == list,
            (Err(e), Err(bad)) => e@ == invite::bad_relay_text(bad),
            _ => false,
        },
{
    match invite::read_relays(&card.relay_urls) {
        Ok(relays) => Ok(EndpointAddr { id: card.endpoint_id, relays }),
        Err(bad) => Err(text::concat("bad relay url ", bad.as_str())),
    }
}

/// The host's answer, as far as a browser reads it.
#[derive(Debug, Clone, PartialEq, Eq)]
pub enum BrowserAck {
    Accepted { agent_id: String },
    Rejected { code: String },
}

/// The id of the agent that a host's answer grants, or the refusal.
pub fn accepted_agent(ack: BrowserAck) -> (r: Result<String, String>)
    ensures
        match (ack, r) {
            (BrowserAck::Accepted { agent_id }, Ok(id)) => id == agent_id,
            (BrowserAck::Rejected { code }, Err(e)) => e@ == "rejected by host: "@ + code@,
            _ => false,
        },
{
    match ack {
        BrowserAck::Accepted { agent_id } => Ok(agent_id),
        BrowserAck::Rejected { code } => Err(text::concat("rejected by host: ", code.as_str())),
    }
}

// ---------------------------------------------------------------------------
// Dialling

/// How far a browser has come in dialling a host.
#[derive(Debug, Clone, Copy, PartialEq, Eq, Structural)]
pub enum DialPhase {
    /// The endpoint is being bound.
    Binding,
    /// The host is being dialled.
    Connecting,
    /// The stream is being opened.
    Opening,
    /// The hello is being sent.
    Greeting,
    /// The host's answer is awaited.
    Waiting,
    /// The connection stands or has failed.
    Done,
}

/// What happened while dialling. Each holds the reason of a failure.
pub enum DialEvent {
    Bound(Result<(), String>),
    Connected(Result<(), String>),
    Opened(Result<(), String>),
    /// The hello could not be written down.
    NotEncoded(String),
    Sent(Result<(), String>),
    /// The frame with the answer could not be read.
    NotRead(String),
    Answered(Result<BrowserAck, String>),
}

/// What to do while dialling.
pub enum DialAction {
    /// Dial this address.
    Connect(EndpointAddr),
    /// Open a stream.
    Open,
    /// Send the hello.
    SendHello,
    /// Read the host's answer.
    ReadAck,
    /// The connection to this agent stands.
    Ready(String),
    /// Give up with this text.
    Fail(String),
}

/// Whether an action gives up with a text.
pub open spec fn fails_with(action: DialAction, reason: Seq<char>) -> bool {
    action matches DialAction::Fail(e) && e@ == reason
}

/// Whether an action dials a card: its endpoint, through its relays.
pub open spec fn dials(action: DialAction, card: HostCard, relays: Seq<Seq<char>>) -> bool {
    action matches DialAction::Connect(addr) && addr.id == card.endpoint_id && text::views(
        addr.relays@,
    ) == relays
}

/// The next phase of dialling the host of a card, and what to do. The first
/// relay URL of the card that is none is an error, once the endpoint is bound.
pub open spec fn dials_on(
    card: HostCard,
    phase: DialPhase,
    event: DialEvent,
    next: DialPhase,
    action: DialAction,
) -> bool {
    match (phase, event) {
        (DialPhase::Binding, DialEvent::Bound(Ok(()))) => match invite::relays_of(
            text::views(card.relay_urls@),
        ) {
            Ok(relays) => next == DialPhase::Connecting && dials(action, card, relays),
            Err(bad) => next == DialPhase::Done && fails_with(action, invite::bad_relay_text(bad)),
        },
        (DialPhase::Binding, DialEvent::Bound(Err(e))) => next == DialPhase::Done && fails_with(
            action,
            "bind endpoint: "@ + e@,
        ),
        (DialPhase::Connecting, DialEvent::Connected(Ok(()))) => next == DialPhase::Opening
            && action == DialAction::Open,
        (DialPhase::Connecting, DialEvent::Connected(Err(e))) => next == DialPhase::Done
            && fails_with(action, "connect: "@ + e@),
        (DialPhase::Opening, DialEvent::Opened(Ok(()))) => next == DialPhase::Greeting && action
            == DialAction::SendHello,
        (DialPhase::Opening, DialEvent::Opened(Err(e))) => next == DialPhase::Done && fails_with(
            action,
            "open_bi: "@ + e@,
        ),
        (DialPhase::Greeting, DialEvent::NotEncoded(e)) => next == DialPhase::Done && fails_with(
            action,
            e@,
        ),
        (DialPhase::Greeting, DialEvent::Sent(Ok(()))) => next == DialPhase::Waiting && action
            == DialAction::ReadAck,
        (DialPhase::Greeting, DialEvent::Sent(Err(e))) => next == DialPhase::Done && fails_with(
            action,
            e@,
        ),
        (DialPhase::Waiting, DialEvent::NotRead(e)) => next == DialPhase::Done && fails_with(
            action,
            e@,
        ),
        (DialPhase::Waiting, DialEvent::Answered(Err(e))) => next == DialPhase::Done && fails_with(
            action,
            "decode ack: "@ + e@,
        ),
        (DialPhase::Waiting, DialEvent::Answered(Ok(BrowserAck::Accepted { agent_id }))) => next
            == DialPhase::Done && action == DialAction::Ready(agent_id),
        (DialPhase::Waiting, DialEvent::Answered(Ok(BrowserAck::Rejected { code }))) => next
            == DialPhase::Done && fails_with(action, "rejected by host: "@ + code@),
        _ => next == DialPhase::Done && fails_with(action, "handshake out of order"@),
    }
}

/// The next phase of dialling the host of a card, and what to do.
pub fn dial_step(card: &HostCard, phase: DialPhase, event: DialEvent) -> (r: (
    DialPhase,
    DialAction,
))
    ensures
        dials_on(*card, phase, event, r.0, r.1),
{
    match (phase, event) {
        (DialPhase::Binding, DialEvent::Bound(Ok(()))) => match dial_addr(card) {
            Ok(addr) => (DialPhase::Connecting, DialAction::Connect(addr)),
            Err(e) => (DialPhase::Done, DialAction::Fail(e)),
        },
        (DialPhase::Binding, DialEvent::Bound(Err(e))) => given_up("bind endpoint: ", e.as_str()),
        (DialPhase::Connecting, DialEvent::Connected(Ok(()))) => (
            DialPhase::Opening,
            DialAction::Open,
        ),
        (DialPhase::Connecting, DialEvent::Connected(Err(e))) => given_up("connect: ", e.as_str()),
        (DialPhase::Opening, DialEvent::Opened(Ok(()))) => (
            DialPhase::Greeting,
            DialAction::SendHello,
        ),
        (DialPhase::Opening, DialEvent::Opened(Err(e))) => given_up("open_bi: ", e.as_str()),
        (DialPhase::Greeting, DialEvent::NotEncoded(e)) => (DialPhase::Done, DialAction::Fail(e)),
        (DialPhase::Greeting, DialEvent::Sent(Ok(()))) => (DialPhase::Waiting, DialAction::ReadAck),
        (DialPhase::Greeting, DialEvent::Sent(Err(e))) => (DialPhase::Done, DialAction::Fail(e)),
        (DialPhase::Waiting, DialEvent::NotRead(e)) => (DialPhase::Done, DialAction::Fail(e)),
        (DialPhase::Waiting, DialEvent::Answered(Err(e))) => given_up("decode ack: ", e.as_str()),
        (DialPhase::Waiting, DialEvent::Answered(Ok(ack))) => match accepted_agent(ack) {
            Ok(agent_id) => (DialPhase::Done, DialAction::Ready(agent_id)),
            Err(e) => (DialPhase::Done, DialAction::Fail(e)),
        },
        _ => (DialPhase::Done, DialAction::Fail("handshake out of order".to_owned())),
    }
}

fn given_up(what: &str, reason: &str) -> (r: (DialPhase, DialAction))
    ensures
        r.0 == DialPhase::Done,
        fails_with(r.1, what@ + reason@),
{
    (DialPhase::Done, DialAction::Fail(text::concat(what, reason)))
}

/// A browser's connection stands only where the host's answer accepts it, and
/// the host that is dialled is the one of the card.
pub proof fn browsers_stand_by_the_hosts_word(
    card: HostCard,
    phase: DialPhase,
    event: DialEvent,
    next: DialPhase,
    action: DialAction,
)
    requires
        dials_on(card, phase, event, next, action),
    ensures
        action matches DialAction::Ready(agent_id) ==> event == DialEvent::Answered(
            Ok(BrowserAck::Accepted { agent_id }),
        ),
        action matches DialAction::Connect(addr) ==> addr.id == card.endpoint_id,
{
}

// ---------------------------------------------------------------------------
// Identity

/// A browser's roaming identity.
#[derive(Clone, Copy)]
pub struct RoamClient {
    secret: SecretKey,
}

impl View for RoamClient {
    type V = Seq<u8>;

    closed spec fn view(&self) -> Seq<u8> {
        self.secret@
    }
}

impl RoamClient {
    /// The identity of a secret of 64 hexadecimal digits, or a fresh one where
    /// none, or an empty one, is given.
    pub fn new(secret_hex: Option<String>) -> (r: Result<RoamClient, String>)
        ensures
            match secret_hex {
                Some(hex) => if hex@.len() > 0 {
                    &&& match (r, digits::key_value(vstd::utf8::encode_utf8(hex@))) {
                        (Ok(client), Ok(key)) => client@ == key && digits::lower_hex(client@)
                            == digits::ascii_lower_text(hex@),
                        (Err(e), Err(reason)) => e@ == reason,
                        _ => false,
                    }
                    &&& r is Ok <==> digits::is_hex_key(vstd::utf8::encode_utf8(hex@))
                } else {
                    r is Ok
                },
                None => r is Ok,
            },
    {
        match secret_hex {
            Some(hex) => {
                if hex.as_str().is_empty() {
                    return Ok(RoamClient { secret: SecretKey::generate() });
                }
                match digits::decode_hex_key(hex.as_str()) {
                    Ok(bytes) => Ok(RoamClient { secret: SecretKey::from_bytes(&bytes) }),
                    Err(e) => Err(e),
                }
            },
            None => Ok(RoamClient { secret: SecretKey::generate() }),
        }
    }

    /// The public key as text: what a host accepts.
    pub fn endpoint_id(&self) -> (r: String)
        ensures
            r@ == digits::lower_hex(identity::ed25519_public(self@)),
    {
        self.secret.public().to_text()
    }

    /// The secret in hexadecimal, to be kept by the browser.
    pub fn secret_hex(&self) -> (r: String)
        ensures
            r@ == digits::lower_hex(self@),
            digits::key_value(vstd::utf8::encode_utf8(r@)) == Ok::<Seq<u8>, Seq<char>>(self@),
    {
        let bytes = self.secret.to_bytes();
        proof {
            assert(bytes@.len() == 32);
            digits::hex_key_round_trips(bytes@);
        }
        digits::encode_hex_key(&bytes)
    }

    /// The secret key itself, for the transport.
    pub fn secret(&self) -> (r: SecretKey)
        ensures
            r@ == self@,
    {
        self.secret
    }

    /// The card of this identity. It names no relays: the host never dials the
    /// browser.
    pub fn own_card(&self) -> (r: ConnectionCard)
        ensures
            r.version == card::CARD_VERSION,
            r.endpoint_id@ == identity::ed25519_public(self@),
            r.relay_urls@.len() == 0,
    {
        ConnectionCard::new(self.secret.public(), Vec::new())
    }

    /// The text of the own card, from what writing it as JSON gave. It is a card
    /// as any other node encodes it.
    pub fn my_card(&self, json: Result<Vec<u8>, String>) -> (r: Result<String, String>)
        ensures
            match (r, json) {
                (Ok(text), Ok(bytes)) => text@ == invite::token_text(bytes@)
                    && invite::is_url_safe(text@) && card::card_bytes(text@) == Ok::<
                    Seq<u8>,
                    crate::error::ErrorView,
                >(bytes@),
                (Err(e), Err(reason)) => e@ == reason@,
                _ => false,
            },
    {
        match json {
            Err(reason) => Err(reason),
            Ok(bytes) => Ok(card::card_text(bytes.as_slice())),
        }
    }
}

/// An identity that was kept in hexadecimal is restored: the key that the text
/// stands for is the one it was made from.
pub proof fn kept_identities_are_restored(client: RoamClient)
    ensures
        digits::key_value(vstd::utf8::encode_utf8(digits::lower_hex(client@))) == Ok::<
            Seq<u8>,
            Seq<char>,
        >(client@),
{
    identity::secret_keys_hold_32_bytes(client.secret);
    digits::hex_key_round_trips(client@);
}

// ---------------------------------------------------------------------------
// What holds of hosts, relays and dialling

/// Whether the parts of a URL can be told apart: no colon in the scheme, no
/// slash before the path, a port that is a number, and without a port no colon
/// in the host.
pub open spec fn can_be_told_apart(parts: UrlParts) -> bool {
    &&& !parts.scheme.contains(':')
    &&& !parts.host.contains('/')
    &&& parts.port matches Some(p) ==> p.len() > 0 && all_digits(p)
    &&& parts.port is None ==> !parts.host.contains(':')
}

#[verifier::spinoff_prover]
proof fn lemma_scheme_found(scheme: Seq<char>, rest: Seq<char>)
    requires
        !scheme.contains(':'),
    ensures
        text::halves(scheme + "://"@ + rest, "://"@) == Some((scheme, rest)),
{
    reveal_strlit("://");
    let url = scheme + "://"@ + rest;
    let n = scheme.len() as int;
    assert(url.subrange(n, n + 3) =~= "://"@);
    assert forall|j: int| 0 <= j < n implies !#[trigger] text::occurs_at(url, "://"@, j) by {
        if text::occurs_at(url, "://"@, j) {
            assert(url.subrange(j, j + 3)[0] == ':');
            assert(url[j] == scheme[j]);
        }
    }
    text::find_is(url, "://"@, n);
    assert(url.take(n) =~= scheme);
    assert(url.skip(n + 3) =~= rest);
}

#[verifier::spinoff_prover]
proof fn lemma_path_found(authority: Seq<char>, path: Seq<char>)
    requires
        !authority.contains('/'),
    ensures
        text::halves(authority + "/"@ + path, "/"@) == Some((authority, path)),
        text::halves(authority, "/"@) is None,
{
    reveal_strlit("/");
    let rest = authority + "/"@ + path;
    let m = authority.len() as int;
    assert(rest.subrange(m, m + 1) =~= "/"@);
    assert forall|j: int| 0 <= j < m implies !#[trigger] text::occurs_at(rest, "/"@, j) by {
        if text::occurs_at(rest, "/"@, j) {
            assert(rest.subrange(j, j + 1)[0] == '/');
            assert(rest[j] == authority[j]);
        }
    }
    text::find_is(rest, "/"@, m);
    assert(rest.take(m) =~= authority);
    assert(rest.skip(m + 1) =~= path);
    text::find_from_is_least(authority, "/"@, 0);
    if let Some(j) = text::find(authority, "/"@) {
        assert(authority.subrange(j, j + 1)[0] == '/');
        assert(authority[j] == '/');
    }
}

#[verifier::spinoff_prover]
proof fn lemma_port_found(host: Seq<char>, port: Option<Seq<char>>)
    requires
        !host.contains('/'),
        port matches Some(p) ==> p.len() > 0 && all_digits(p),
        port is None ==> !host.contains(':'),
    ensures
        host_and_port(authority_of(host, port)) == (host, port),
        !authority_of(host, port).contains('/'),
{
    reveal_strlit(":");
    let authority = authority_of(host, port);
    assert forall|k: int| 0 <= k < authority.len() implies authority[k] != '/' by {
        if k < host.len() {
            assert(authority[k] == host[k]);
            assert(host.contains(host[k]));
        } else if k > host.len() {
            let p = port->0;
            assert(authority[k] == p[k - host.len() - 1]);
        }
    }
    text::rfind_is_greatest(authority, ':');
    if let Some(p) = port {
        let h = host.len() as int;
        assert(authority[h] == ':');
        let at = text::rfind(authority, ':')->0;
        if at > h {
            assert(authority[at] == p[at - h - 1]);
        }
        assert(authority.take(h) =~= host);
        assert(authority.skip(h + 1) =~= p);
    }
}

/// The parts that a URL was made from are found in it.
#[verifier::spinoff_prover]
pub proof fn url_parts_are_found(parts: UrlParts)
    requires
        can_be_told_apart(parts),
    ensures
        url_parts(url_of(parts)) == Some(parts),
{
    let authority = authority_of(parts.host, parts.port);
    let rest = match parts.path {
        Some(p) => authority + "/"@ + p,
        None => authority,
    };
    lemma_port_found(parts.host, parts.port);
    lemma_path_found(
        authority,
        match parts.path {
            Some(p) => p,
            None => Seq::empty(),
        },
    );
    lemma_scheme_found(parts.scheme, rest);
    assert(url_of(parts) =~= parts.scheme + "://"@ + rest);
    assert(url_parts(url_of(parts))->0 =~= parts);
}

/// Of a host with a dot at its end the dot goes, and one dot only; the scheme,
/// the rest of the host, the port and the path stay.
pub proof fn the_dot_behind_a_host_goes(
    scheme: Seq<char>,
    host: Seq<char>,
    port: Seq<char>,
    path: Seq<char>,
)
    requires
        !scheme.contains(':'),
        !host.contains('/'),
        port.len() > 0 && all_digits(port),
    ensures
        without_host_dot(scheme + "://"@ + host.push('.') + ":"@ + port + "/"@ + path) == scheme
            + "://"@ + host + ":"@ + port + "/"@ + path,
        without_host_dot(scheme + "://"@ + host.push('.') + ":"@ + port) == scheme + "://"@ + host
            + ":"@ + port,
        !host.contains(':') ==> without_host_dot(scheme + "://"@ + host.push('.') + "/"@ + path)
            == scheme + "://"@ + host + "/"@ + path,
        !host.contains(':') ==> without_host_dot(scheme + "://"@ + host.push('.')) == scheme
            + "://"@ + host,
{
    lemma_undotted_url(scheme, host, Some(port), Some(path));
    lemma_undotted_url(scheme, host, Some(port), None);
    let dotted = host.push('.');
    assert(scheme + "://"@ + dotted + ":"@ + port + "/"@ + path =~= scheme + "://"@ + (dotted + ":"@
        + port) + "/"@ + path);
    assert(scheme + "://"@ + host + ":"@ + port + "/"@ + path =~= scheme + "://"@ + (host + ":"@
        + port) + "/"@ + path);
    assert(scheme + "://"@ + dotted + ":"@ + port =~= scheme + "://"@ + (dotted + ":"@ + port));
    assert(scheme + "://"@ + host + ":"@ + port =~= scheme + "://"@ + (host + ":"@ + port));
    if !host.contains(':') {
        lemma_undotted_url(scheme, host, None, Some(path));
        lemma_undotted_url(scheme, host, None, None);
    }
}

proof fn lemma_undotted_url(
    scheme: Seq<char>,
    host: Seq<char>,
    port: Option<Seq<char>>,
    path: Option<Seq<char>>,
)
    requires
        !scheme.contains(':'),
        !host.contains('/'),
        port matches Some(p) ==> p.len() > 0 && all_digits(p),
        port is None ==> !host.contains(':'),
    ensures
        without_host_dot(url_of(UrlParts { scheme, host: host.push('.'), port, path })) == url_of(
            UrlParts { scheme, host, port, path },
        ),
{
    let dotted = UrlParts { scheme, host: host.push('.'), port, path };
    assert forall|k: int| 0 <= k < dotted.host.len() implies dotted.host[k] != '/' && (port is None
        ==> dotted.host[k] != ':') by {
        if k < host.len() {
            assert(dotted.host[k] == host[k]);
            assert(host.contains(host[k]));
        }
    }
    url_parts_are_found(dotted);
    assert(host.push('.').drop_last() =~= host);
    assert(UrlParts { host: undotted(dotted.host), ..dotted } =~= (UrlParts {
        scheme,
        host,
        port,
        path,
    }));
}

/// Every relay URL of a card is used, in its place, without the dot behind its
/// host.
pub proof fn every_relay_of_a_card_is_used(urls: Seq<Seq<char>>)
    ensures
        browser_urls(urls).len() == urls.len(),
        forall|i: int|
            0 <= i < urls.len() ==> #[trigger] browser_urls(urls)[i] == without_host_dot(urls[i]),
{
}

/// Each URL that is one is a relay, in order, and what is none is left out.
pub proof fn every_usable_relay_counts(urls: Seq<Seq<char>>, url: Seq<char>)
    ensures
        usable_relays(Seq::empty()) == Seq::<Seq<char>>::empty(),
        relay_url::relay_url(url) matches Some(relay) ==> usable_relays(urls.push(url))
            == usable_relays(urls).push(relay),
        relay_url::relay_url(url) is None ==> usable_relays(urls.push(url)) == usable_relays(urls),
{
    assert(urls.push(url).drop_last() =~= urls);
}

/// A browser reads of a text exactly the card that any other node does.
pub proof fn browsers_read_the_same_cards(card: Seq<char>)
    ensures
        match (host_card_bytes(card), card::card_bytes(card)) {
            (Ok(a), Ok(b)) => a == b,
            (Err(_), Err(_)) => true,
            _ => false,
        },
{
}

/// A browser whose every step goes well dials the host of the card through the
/// relays of the card, opens a stream, sends the hello, reads the answer, and is
/// ready with the agent that the answer names; or fails with the refusal.
pub proof fn browsers_that_go_well_are_ready(
    card: HostCard,
    relays: Seq<Seq<char>>,
    agent_id: String,
    code: String,
    a: (DialPhase, DialAction),
    b: (DialPhase, DialAction),
    c: (DialPhase, DialAction),
    d: (DialPhase, DialAction),
    accepted: (DialPhase, DialAction),
    refused: (DialPhase, DialAction),
)
    requires
        invite::relays_of(text::views(card.relay_urls@)) == Ok::<Seq<Seq<char>>, Seq<char>>(relays),
        dials_on(card, DialPhase::Binding, DialEvent::Bound(Ok(())), a.0, a.1),
        dials_on(card, a.0, DialEvent::Connected(Ok(())), b.0, b.1),
        dials_on(card, b.0, DialEvent::Opened(Ok(())), c.0, c.1),
        dials_on(card, c.0, DialEvent::Sent(Ok(())), d.0, d.1),
        dials_on(
            card,
            d.0,
            DialEvent::Answered(Ok(BrowserAck::Accepted { agent_id })),
            accepted.0,
            accepted.1,
        ),
        dials_on(
            card,
            d.0,
            DialEvent::Answered(Ok(BrowserAck::Rejected { code })),
            refused.0,
            refused.1,
        ),
    ensures
        a.1 matches DialAction::Connect(addr) && addr.id == card.endpoint_id && text::views(
            addr.relays@,
        ) == relays,
        b.1 is Open,
        c.1 is SendHello,
        d.1 is ReadAck,
        accepted.1 == DialAction::Ready(agent_id),
        refused.1 matches DialAction::Fail(e) && e@ == "rejected by host: "@ + code@,
{
}

/// A browser that fails says at which step and why, and is done.
pub proof fn browsers_say_why_they_failed(
    card: HostCard,
    reason: String,
    bound: (DialPhase, DialAction),
    connected: (DialPhase, DialAction),
    opened: (DialPhase, DialAction),
    sent: (DialPhase, DialAction),
    unread: (DialPhase, DialAction),
    unclear: (DialPhase, DialAction),
)
    requires
        dials_on(card, DialPhase::Binding, DialEvent::Bound(Err(reason)), bound.0, bound.1),
        dials_on(
            card,
            DialPhase::Connecting,
            DialEvent::Connected(Err(reason)),
            connected.0,
            connected.1,
        ),
        dials_on(card, DialPhase::Opening, DialEvent::Opened(Err(reason)), opened.0, opened.1),
        dials_on(card, DialPhase::Greeting, DialEvent::Sent(Err(reason)), sent.0, sent.1),
        dials_on(card, DialPhase::Waiting, DialEvent::NotRead(reason), unread.0, unread.1),
        dials_on(
            card,
            DialPhase::Waiting,
            DialEvent::Answered(Err(reason)),
            unclear.0,
            unclear.1,
        ),
    ensures
        bound.1 is Fail && bound.1->Fail_0@ == "bind endpoint: "@ + reason@,
        connected.1 is Fail && connected.1->Fail_0@ == "connect: "@ + reason@,
        opened.1 is Fail && opened.1->Fail_0@ == "open_bi: "@ + reason@,
        sent.1 is Fail && sent.1->Fail_0@ == reason@,
        unread.1 is Fail && unread.1->Fail_0@ == reason@,
        unclear.1 is Fail && unclear.1->Fail_0@ == "decode ack: "@ + reason@,
        bound.0 == DialPhase::Done && connected.0 == DialPhase::Done && opened.0 == DialPhase::Done
            && sent.0 == DialPhase::Done && unread.0 == DialPhase::Done && unclear.0
            == DialPhase::Done,
{
}

} // verus!
