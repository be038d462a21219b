//! Relay configuration for the roaming endpoint.
//!
//! Relays give NAT traversal and a fallback path. Relay URLs travel in
//! invites, but relay credentials never do: each endpoint obtains its own.

use vstd::prelude::*;

use crate::error::{ErrorView, RoamingError};
use crate::invite;
use crate::relay_url;
use crate::text;

verus! {

/// How the roaming endpoint reaches relays.
#[derive(Debug, Clone)]
pub enum RelaySettings {
    /// The transport's public relays.
    N0Default,
    /// A custom set of relay URLs, optionally with a bearer token per URL.
    Custom(Vec<RelayEntry>),
    /// No relays: direct connectivity only.
    Disabled,
}

impl Default for RelaySettings {
    /// The transport's public relays.
    fn default() -> (r: RelaySettings)
        ensures
            r == RelaySettings::N0Default,
    {
        RelaySettings::N0Default
    }
}

/// A single relay URL and an optional auth token.
#[derive(Debug, Clone)]
pub struct RelayEntry {
    pub url: String,
    pub auth_token: Option<String>,
}

impl RelayEntry {
    /// A relay without a token.
    pub fn new(url: &str) -> (r: RelayEntry)
        ensures
            r.url@ == url@,
            r.auth_token is None,
    {
        RelayEntry { url: url.to_owned(), auth_token: None }
    }

    /// A relay with a token.
    pub fn with_auth(url: &str, token: &str) -> (r: RelayEntry)
        ensures
            r.url@ == url@,
            r.auth_token matches Some(t) && t@ == token@,
    {
        RelayEntry { url: url.to_owned(), auth_token: Some(token.to_owned()) }
    }
}

/// One relay for the transport: its normalised URL and its token.
#[derive(Debug, Clone)]
pub struct RelayConfig {
    pub url: String,
    pub auth_token: Option<String>,
}

/// The relays that the transport is set up with.
#[derive(Debug, Clone)]
pub enum RelayMode {
    /// The transport's public relays.
    Default,
    /// No relays.
    Disabled,
    /// These relays; of two entries with one URL the later counts.
    Custom(Vec<RelayConfig>),
}

/// The URLs of a list of entries.
pub open spec fn urls_of(entries: Seq<RelayEntry>) -> Seq<Seq<char>> {
    entries.map_values(|e: RelayEntry| e.url@)
}

/// The relay URLs that invites advertise: the custom ones, without tokens.
pub open spec fn advertised(settings: RelaySettings) -> Seq<Seq<char>> {
    match settings {
        RelaySettings::Custom(entries) => urls_of(entries@),
        RelaySettings::N0Default | RelaySettings::Disabled => Seq::empty(),
    }
}

/// Whether `config` is `entry` with its URL normalised.
pub open spec fn configures(entry: RelayEntry, config: RelayConfig) -> bool {
    relay_url::relay_url(entry.url@) == Some(config.url@) && match (
        entry.auth_token,
        config.auth_token,
    ) {
        (Some(a), Some(b)) => a@ == b@,
        (None, None) => true,
        _ => false,
    }
}

/// Whether an entry's URL is one, by position.
pub open spec fn parses(entries: Seq<RelayEntry>, i: int) -> bool {
    relay_url::relay_url(entries[i].url@) is Some
}

/// Whether the entry at `i` is the first whose URL is none.
pub open spec fn first_bad_at(entries: Seq<RelayEntry>, i: int) -> bool {
    &&& 0 <= i < entries.len()
    &&& !parses(entries, i)
    &&& forall|j: int| 0 <= j < i ==> #[trigger] parses(entries, j)
}

impl RelaySettings {
    /// The relay URLs advertised to peers in invites, without auth tokens.
    pub fn advertised_urls(&self) -> (r: Vec<String>)
        ensures
            text::views(r@) == advertised(*self),
    {
        let mut out: Vec<String> = Vec::new();
        match self {
            RelaySettings::Custom(entries) => {
                let ghost all = urls_of(entries@);
                let mut i: usize = 0;
                assert(text::views(out@) == all.take(0));
                while i < entries.len()
                    invariant
                        i <= entries@.len(),
                        all == urls_of(entries@),
                        text::views(out@) == all.take(i as int),
                    decreases entries@.len() - i,
                {
                    let ghost before = out@;
                    out.push(entries[i].url.clone());
                    assert(text::views(out@) == text::views(before).push(all[i as int]));
                    assert(all.take(i + 1) == all.take(i as int).push(all[i as int]));
                    i = i + 1;
                }
                assert(all.take(entries@.len() as int) == all);
            },
            RelaySettings::N0Default | RelaySettings::Disabled => {
                assert(text::views(out@) == Seq::<Seq<char>>::empty());
            },
        }
        out
    }

    /// The relays to set the transport up with. The first custom URL that is
    /// none is an error.
    pub fn to_relay_mode(&self) -> (r: Result<RelayMode, RoamingError>)
        ensures
            match *self {
                RelaySettings::N0Default => r matches Ok(RelayMode::Default),
                RelaySettings::Disabled => r matches Ok(RelayMode::Disabled),
                RelaySettings::Custom(entries) => match r {
                    Ok(mode) => mode matches RelayMode::Custom(configs) && configured(
                        entries@,
                        configs@,
                    ),
                    Err(e) => refused(entries@, e@),
                },
            },
    {
        match self {
            RelaySettings::N0Default => Ok(RelayMode::Default),
            RelaySettings::Disabled => Ok(RelayMode::Disabled),
            RelaySettings::Custom(entries) => match relay_configs(entries) {
                Ok(configs) => Ok(RelayMode::Custom(configs)),
                Err(e) => Err(e),
            },
        }
    }
}

/// Whether `configs` are `entries` with their URLs normalised, in order.
pub open spec fn configured(entries: Seq<RelayEntry>, configs: Seq<RelayConfig>) -> bool {
    &&& configs.len() == entries.len()
    &&& forall|i: int| 0 <= i < entries.len() ==> configures(#[trigger] entries[i], configs[i])
}

/// Whether `e` is the error for the first entry whose URL is none.
pub open spec fn refused(entries: Seq<RelayEntry>, e: ErrorView) -> bool {
    exists|i: int| #[trigger]
        first_bad_at(entries, i) && e == ErrorView::Transport(
            invite::bad_relay_text(entries[i].url@),
        )
}

fn relay_configs(entries: &Vec<RelayEntry>) -> (r: Result<Vec<RelayConfig>, RoamingError>)
    ensures
        match r {
            Ok(configs) => configured(entries@, configs@),
            Err(e) => refused(entries@, e@),
        },
{
    let mut configs: Vec<RelayConfig> = Vec::new();
    let mut i: usize = 0;
    while i < entries.len()
        invariant
            i <= entries@.len(),
            configs@.len() == i,
            forall|j: int| 0 <= j < i ==> configures(#[trigger] entries@[j], configs@[j]),
            forall|j: int| 0 <= j < i ==> #[trigger] parses(entries@, j),
        decreases entries@.len() - i,
    {
        match relay_url::parse_relay_url(entries[i].url.as_str()) {
            None => {
                assert(first_bad_at(entries@, i as int));
                return Err(
                    RoamingError::Transport(
                        text::concat("bad relay url ", entries[i].url.as_str()),
                    ),
                );
            },
            Some(url) => {
                let auth_token = match &entries[i].auth_token {
                    Some(token) => Some(token.clone()),
                    None => None,
                };
                configs.push(RelayConfig { url, auth_token });
            },
        }
        i = i + 1;
    }
    Ok(configs)
}

/// What invites advertise does not depend on the relays' tokens: two settings
/// with the same URLs advertise the same.
pub proof fn tokens_do_not_travel(a: Vec<RelayEntry>, b: Vec<RelayEntry>)
    requires
        urls_of(a@) == urls_of(b@),
    ensures
        advertised(RelaySettings::Custom(a)) == advertised(RelaySettings::Custom(b)),
{
}

/// Every custom relay is advertised, by the URL it was configured with and in
/// its place; and nothing else is.
pub proof fn every_custom_relay_is_advertised(entries: Vec<RelayEntry>)
    ensures
        advertised(RelaySettings::Custom(entries)).len() == entries@.len(),
        forall|i: int|
            0 <= i < entries@.len() ==> #[trigger] advertised(RelaySettings::Custom(entries))[i]
                == entries@[i].url@,
        advertised(RelaySettings::N0Default).len() == 0,
        advertised(RelaySettings::Disabled).len() == 0,
{
}

/// Each relay that the transport is set up with is the entry in its place, with
/// its own token or none; and the relays are set up exactly where every URL is
/// one.
pub proof fn relays_keep_their_tokens(
    entries: Seq<RelayEntry>,
    configs: Seq<RelayConfig>,
    i: int,
)
    requires
        configured(entries, configs),
        0 <= i < entries.len(),
    ensures
        configs.len() == entries.len(),
        relay_url::relay_url(entries[i].url@) == Some(configs[i].url@),
        (configs[i].auth_token is Some) == (entries[i].auth_token is Some),
        configs[i].auth_token is Some ==> configs[i].auth_token->0@ == entries[i].auth_token->0@,
{
    assert(configures(entries[i], configs[i]));
}

/// Setting relays up fails only over a URL that is none, and it names the first.
pub proof fn refused_relays_are_named(entries: Seq<RelayEntry>, e: ErrorView)
    requires
        refused(entries, e),
    ensures
        exists|i: int|
            0 <= i < entries.len() && relay_url::relay_url((#[trigger] entries[i]).url@) is None
                && e == ErrorView::Transport("bad relay url "@ + entries[i].url@) && forall|j: int|
                0 <= j < i ==> relay_url::relay_url((#[trigger] entries[j]).url@) is Some,
{
    let i = choose|i: int| #[trigger]
        first_bad_at(entries, i) && e == ErrorView::Transport(
            invite::bad_relay_text(entries[i].url@),
        );
    assert forall|j: int| 0 <= j < i implies relay_url::relay_url((#[trigger] entries[j]).url@) is Some by {
        assert(parses(entries, j));
    }
    assert(!parses(entries, i));
    assert(relay_url::relay_url(entries[i].url@) is None);
}

} // verus!
