//! The `roam` command: what each subcommand decides and prints.

use vstd::prelude::*;
use vstd::string::StringExecFns;

use crate::access::TrustChange;
use crate::card::{self, ConnectionCard};
use crate::error::{ErrorView, RoamingError};
use crate::digits;
use crate::identity::{self, EndpointId};
use crate::lists;
use crate::sha256;
use crate::text;

verus! {

/// Where observed connections are kept, in the state directory.
pub const DIRECTORY_FILE: &'static str = "roaming_directory.json";

/// Where trust is kept, in the configuration directory.
pub const TRUST_FILE: &'static str = "roaming_trust.json";

/// Where saved peers are kept, in the configuration directory.
pub const PEERBOOK_FILE: &'static str = "roaming_peers.json";

/// How long to wait for a relay, in seconds.
pub const ONLINE_WAIT_SECS: u64 = 15;

// ---------------------------------------------------------------------------
// Commands

/// A `roam` subcommand. The directory `P` is carried through.
#[derive(Debug, Clone)]
pub enum RoamCommand<P> {
    /// Prints this node's connection card.
    Id,
    /// Serves this node's agent to accepted peers.
    Share { builtins: Vec<String>, cwd: Option<P> },
    /// Opens an interactive session with a remote agent.
    Connect { target: String, label: Option<String> },
    /// Delegates a one-shot task to a remote agent.
    Delegate {
        target: String,
        task: Option<String>,
        session: Option<String>,
        list_sessions: bool,
    },
    /// Offers a remote agent as a local endpoint.
    Bridge { target: String, listen: Option<String>, label: Option<String> },
    /// Manages saved peers and accepted keys.
    Peers { command: Option<PeersCommand> },
    /// Shows observed connections.
    Connections,
}

/// A `roam peers` subcommand.
#[derive(Debug, Clone, PartialEq, Eq)]
pub enum PeersCommand {
    /// Saves a peer's card.
    Add { card: String, name: Option<String> },
    /// Accepts connections from a peer's key.
    Accept { target: String, name: Option<String> },
    /// Stops accepting a peer.
    Revoke { target: String },
    /// Removes a saved peer.
    Remove { name: String },
    /// Renames a saved peer.
    Rename { from: String, to: String },
    /// Lists saved peers and accepted keys.
    List,
}

/// The peers subcommand that is meant.
pub open spec fn meant(command: Option<PeersCommand>) -> PeersCommand {
    match command {
        Some(c) => c,
        None => PeersCommand::List,
    }
}

/// A subcommand that is given is the one that is meant, and without one nothing
/// is changed.
pub proof fn given_subcommands_are_meant(command: PeersCommand)
    ensures
        meant(Some(command)) == command,
        meant(None) is List,
{
}

/// The peers subcommand that is meant: listing where none is given.
pub fn peers_command(command: Option<PeersCommand>) -> (r: PeersCommand)
    ensures
        r == meant(command),
        match command {
            Some(c) => r == c,
            None => r == PeersCommand::List,
        },
{
    match command {
        Some(c) => c,
        None => PeersCommand::List,
    }
}

/// A file of a directory: a slash stands between them unless the directory
/// ends with one or is empty.
pub open spec fn file_in(dir: Seq<char>, name: Seq<char>) -> Seq<char> {
    if dir.len() == 0 || dir.last() == '/' {
        dir + name
    } else {
        dir + "/"@ + name
    }
}

fn join_file(dir: &str, name: &str) -> (r: String)
    ensures
        r@ == file_in(dir@, name@),
{
    let cs = text::chars_of(dir);
    if cs.len() == 0 || cs[cs.len() - 1] == '/' {
        text::concat(dir, name)
    } else {
        text::concat3(dir, "/", name)
    }
}

/// Where observed connections are kept.
pub fn directory_path(state_dir: &str) -> (r: String)
    ensures
        r@ == file_in(state_dir@, DIRECTORY_FILE@),
{
    join_file(state_dir, DIRECTORY_FILE)
}

/// Where trust is kept.
pub fn trust_path(config_dir: &str) -> (r: String)
    ensures
        r@ == file_in(config_dir@, TRUST_FILE@),
{
    join_file(config_dir, TRUST_FILE)
}

/// Where saved peers are kept.
pub fn peerbook_path(config_dir: &str) -> (r: String)
    ensures
        r@ == file_in(config_dir@, PEERBOOK_FILE@),
{
    join_file(config_dir, PEERBOOK_FILE)
}

// ---------------------------------------------------------------------------
// Targets

/// The first `n` characters of a text, or all of it if it is shorter.
pub open spec fn first_chars(s: Seq<char>, n: nat) -> Seq<char> {
    if s.len() <= n {
        s
    } else {
        s.take(n as int)
    }
}

fn take_chars(s: &str, n: usize) -> (r: String)
    ensures
        r@ == first_chars(s@, n as nat),
{
    let cs = text::chars_of(s);
    if cs.len() <= n {
        s.to_owned()
    } else {
        let r = text::string_of(&cs, 0, n);
        assert(r@ =~= s@.take(n as int));
        r
    }
}

/// A short form of an endpoint id: its first twelve characters.
pub fn short_id(id: &str) -> (r: String)
    ensures
        r@ == first_chars(id@, 12),
{
    take_chars(id, 12)
}

/// The name under which a peer is saved: the one given, or a short form of its
/// endpoint id.
pub open spec fn saved_name(name: Option<String>, id: Seq<u8>) -> Seq<char> {
    match name {
        Some(given) => given@,
        None => first_chars(digits::lower_hex(id), 12),
    }
}

/// The name under which a peer is saved.
pub fn save_name(name: Option<String>, id: &EndpointId) -> (r: String)
    ensures
        r@ == saved_name(name, id@),
{
    match name {
        Some(n) => n,
        None => {
            let full = id.to_text();
            short_id(full.as_str())
        },
    }
}

/// How accepting a peer goes on: whose card it is, and under which name the
/// card is saved. A saved peer is not saved again.
pub struct AcceptPlan {
    pub card: ConnectionCard,
    pub save_as: Option<String>,
    /// Whether a name was given that has no use.
    pub name_ignored: bool,
}

/// How accepting `target` goes on, from the card it carries, if it is one, and
/// the card saved under it, if there is one.
pub fn accept_plan(
    target: &str,
    name: Option<String>,
    inline: Option<ConnectionCard>,
    saved: Option<ConnectionCard>,
) -> (r: Result<AcceptPlan, String>)
    ensures
        match (inline, saved, r) {
            (Some(card), _, Ok(plan)) => {
                &&& plan.card == card
                &&& plan.save_as matches Some(n)
                &&& n@ == saved_name(name, card.endpoint_id@)
                &&& !plan.name_ignored
            },
            (None, Some(card), Ok(plan)) => plan.card == card && plan.save_as is None
                && plan.name_ignored == (name is Some),
            (None, None, Err(e)) => e@ == "no saved peer `"@ + target@
                + "` and it is not a card; add it first with `goose roam peers add`"@,
            _ => false,
        },
{
    match inline {
        Some(card) => {
            let save_as = save_name(name, &card.endpoint_id);
            Ok(AcceptPlan { card, save_as: Some(save_as), name_ignored: false })
        },
        None => match saved {
            Some(card) => Ok(AcceptPlan { card, save_as: None, name_ignored: name.is_some() }),
            None => Err(
                text::concat3(
                    "no saved peer `",
                    target,
                    "` and it is not a card; add it first with `goose roam peers add`",
                ),
            ),
        },
    }
}

/// The key that a target stands for: that of the card it carries, or of the
/// peer saved under it, or the one whose text it is.
pub fn resolve_key(
    target: &str,
    inline: Option<EndpointId>,
    saved: Option<EndpointId>,
) -> (r: Result<EndpointId, String>)
    ensures
        match (inline, saved, r) {
            (Some(key), _, Ok(k)) => k == key,
            (None, Some(key), Ok(k)) => k == key,
            (None, None, Ok(k)) => identity::parsed_key(target@) == Ok::<Seq<u8>, Seq<char>>(k@),
            (None, None, Err(e)) => identity::parsed_key(target@) is Err && e@ == "`"@ + target@
                + "` is not a saved peer, a card, or an endpoint id"@,
            _ => false,
        },
{
    if let Some(key) = inline {
        return Ok(key);
    }
    if let Some(key) = saved {
        return Ok(key);
    }
    match identity::parse_endpoint_id(target) {
        Ok(key) => Ok(key),
        Err(_) => Err(
            text::concat3("`", target, "` is not a saved peer, a card, or an endpoint id"),
        ),
    }
}

/// Where the card of a target comes from.
#[derive(Debug, Clone, PartialEq, Eq)]
pub enum CardSource {
    /// The target is a card.
    Inline,
    /// The target names a saved peer.
    Saved,
}

/// Where the card of a target comes from: a target with the scheme of a card is
/// one.
pub fn card_source(target: &str) -> (r: CardSource)
    ensures
        r == (if card::CARD_SCHEME@.is_prefix_of(target@) {
            CardSource::Inline
        } else {
            CardSource::Saved
        }),
{
    if text::starts_with(target, card::CARD_SCHEME) {
        CardSource::Inline
    } else {
        CardSource::Saved
    }
}

/// What the card to dial for a target is.
pub open spec fn is_card_of(
    target: Seq<char>,
    inline: Result<ConnectionCard, RoamingError>,
    saved: Option<ConnectionCard>,
    r: Result<ConnectionCard, String>,
) -> bool {
    if card::CARD_SCHEME@.is_prefix_of(target) {
        match (inline, r) {
            (Ok(card), Ok(c)) => c == card,
            (Err(e), Err(m)) => m@ == error_text(e@),
            _ => false,
        }
    } else {
        match (saved, r) {
            (Some(card), Ok(c)) => c == card,
            (None, Err(m)) => m@ == "no saved peer named `"@ + target
                + "` (and it is not a card); see `goose roam peers`"@,
            _ => false,
        }
    }
}

/// A target that begins like a card is read as one, whatever is saved under it;
/// any other target is looked up, whatever it might be read as.
pub proof fn cards_and_names_are_told_apart(
    body: Seq<char>,
    name: Seq<char>,
    given: ConnectionCard,
    known: ConnectionCard,
    inline: Result<ConnectionCard, RoamingError>,
    saved: Option<ConnectionCard>,
    reason: RoamingError,
    a: Result<ConnectionCard, String>,
    b: Result<ConnectionCard, String>,
    c: Result<ConnectionCard, String>,
    d: Result<ConnectionCard, String>,
)
    requires
        !"goose+roam://"@.is_prefix_of(name),
        is_card_of("goose+roam://"@ + body, Ok(given), saved, a),
        is_card_of("goose+roam://"@ + body, Err(reason), saved, b),
        is_card_of(name, inline, Some(known), c),
        is_card_of(name, inline, None, d),
    ensures
        a == Ok::<ConnectionCard, String>(given),
        b is Err && b->Err_0@ == error_text(reason@),
        c == Ok::<ConnectionCard, String>(known),
        d is Err,
{
    assert(card::CARD_SCHEME@.is_prefix_of("goose+roam://"@ + body));
}

/// The card to dial for a target: the one it carries, with the reason it cannot
/// be read, or the one saved under it.
pub fn resolve_card(
    target: &str,
    inline: Result<ConnectionCard, RoamingError>,
    saved: Option<ConnectionCard>,
) -> (r: Result<ConnectionCard, String>)
    ensures
        is_card_of(target@, inline, saved, r),
{
    match card_source(target) {
        CardSource::Inline => match inline {
            Ok(card) => Ok(card),
            Err(e) => Err(error_message(&e)),
        },
        CardSource::Saved => match saved {
            Some(card) => Ok(card),
            None => Err(
                text::concat3(
                    "no saved peer named `",
                    target,
                    "` (and it is not a card); see `goose roam peers`",
                ),
            ),
        },
    }
}

/// The text of an error.
pub open spec fn error_text(e: ErrorView) -> Seq<char> {
    match e {
        ErrorView::Identity(m) => m,
        ErrorView::Invite(m) => m,
        ErrorView::Card(m) => m,
        ErrorView::Transport(m) => m,
        ErrorView::Rejected(m) => m,
    }
}

/// The text of an error.
pub fn error_message(e: &RoamingError) -> (r: String)
    ensures
        r@ == error_text(e@),
{
    match e {
        RoamingError::Identity(m) => m.clone(),
        RoamingError::Invite(m) => m.clone(),
        RoamingError::Card(m) => m.clone(),
        RoamingError::Transport(m) => m.clone(),
        RoamingError::Rejected(m) => m.clone(),
    }
}

// ---------------------------------------------------------------------------
// What is said

/// What is said once a card was saved under a name.
pub open spec fn saved_text(name: Seq<char>, id: Seq<u8>) -> Seq<Seq<char>> {
    seq![
        "saved peer `"@ + name + "` -> "@ + digits::lower_hex(id) + " (fingerprint "@
            + card::grouped(sha256::sha256(id)) + ")"@,
        "accept connections from it with: goose roam peers accept "@ + name,
    ]
}

/// What is said of a name that has no use, because the target is a saved peer.
pub open spec fn ignored_text(target: Seq<char>) -> Seq<char> {
    "note: `"@ + target + "` is a saved peer; ignoring the extra name arg"@
}

/// What is said once a key is accepted.
pub open spec fn accepted_text(id: Seq<u8>) -> Seq<Seq<char>> {
    seq![
        "accepting connections from "@ + digits::lower_hex(id),
        "verify the fingerprint out of band: "@ + card::grouped(sha256::sha256(id)),
        "a running `goose roam share` picks this up on the next connection"@,
    ]
}

/// What is said once a key is revoked.
pub open spec fn revoked_text(id: Seq<u8>) -> Seq<Seq<char>> {
    seq![
        "revoked "@ + digits::lower_hex(id) + "; it can no longer connect"@,
        "note: an already-open session is unaffected until it disconnects"@,
    ]
}

/// What is said once a saved peer has another name.
pub open spec fn renamed_text(from: Seq<char>, to: Seq<char>) -> Seq<char> {
    "renamed `"@ + from + "` -> `"@ + to + "`"@
}

/// Says that a card was saved under a name.
pub fn saved_lines(name: &str, card: &ConnectionCard) -> (r: Vec<String>)
    ensures
        text::views(r@) == saved_text(name@, card.endpoint_id@),
{
    let mut first = text::concat3("saved peer `", name, "` -> ");
    first.append(card.endpoint_id.to_text().as_str());
    first.append(" (fingerprint ");
    first.append(card.fingerprint().as_str());
    first.append(")");
    let second = text::concat("accept connections from it with: goose roam peers accept ", name);
    two_lines(first, second)
}

fn two_lines(first: String, second: String) -> (r: Vec<String>)
    ensures
        text::views(r@) == seq![first@, second@],
{
    let mut lines: Vec<String> = Vec::new();
    lines.push(first);
    lines.push(second);
    assert(text::views(lines@) =~= seq![first@, second@]);
    lines
}

/// Says that a name has no use.
pub fn ignored_name(target: &str) -> (r: String)
    ensures
        r@ == ignored_text(target@),
{
    text::concat3("note: `", target, "` is a saved peer; ignoring the extra name arg")
}

/// Says that a key is accepted.
pub fn accepted_lines(card: &ConnectionCard) -> (r: Vec<String>)
    ensures
        text::views(r@) == accepted_text(card.endpoint_id@),
{
    let id = card.endpoint_id.to_text();
    let print = card.fingerprint();
    let mut lines = two_lines(
        text::concat("accepting connections from ", id.as_str()),
        text::concat("verify the fingerprint out of band: ", print.as_str()),
    );
    let ghost before = lines@;
    lines.push("a running `goose roam share` picks this up on the next connection".to_owned());
    assert(text::views(lines@) =~= text::views(before).push(
        "a running `goose roam share` picks this up on the next connection"@,
    ));
    lines
}

/// Says that a key is revoked.
pub fn revoked_lines(key: &EndpointId) -> (r: Vec<String>)
    ensures
        text::views(r@) == revoked_text(key@),
{
    let id = key.to_text();
    two_lines(
        text::concat3("revoked ", id.as_str(), "; it can no longer connect"),
        "note: an already-open session is unaffected until it disconnects".to_owned(),
    )
}

/// What is said of removing a saved peer, which was there or not.
pub fn removed_line(name: &str, was_saved: bool) -> (r: String)
    ensures
        r@ == removed_text(name@, was_saved),
        r@ == (if was_saved {
            "removed peer `"@ + name@ + "` from the address book"@
        } else {
            "no peer named `"@ + name@ + "`"@
        }),
{
    if was_saved {
        text::concat3("removed peer `", name, "` from the address book")
    } else {
        text::concat3("no peer named `", name, "`")
    }
}

/// Says that a saved peer has another name.
pub fn renamed_line(from: &str, to: &str) -> (r: String)
    ensures
        r@ == renamed_text(from@, to@),
{
    let mut line = text::concat3("renamed `", from, "` -> `");
    line.append(to);
    line.append("`");
    line
}

/// What is said about a node's own card.
pub open spec fn identity_text(id: Seq<u8>) -> Seq<Seq<char>> {
    seq![
        "  endpoint id : "@ + digits::lower_hex(id),
        "  fingerprint : "@ + card::grouped(sha256::sha256(id)),
    ]
}

/// What is said once an agent is shared.
pub open spec fn sharing_text(
    agent_id: Seq<char>,
    working_dir: Seq<char>,
    accepted: nat,
) -> Seq<Seq<char>> {
    seq![
        "roaming agent is live"@,
        "  endpoint id : "@ + agent_id,
        "  working dir : "@ + working_dir,
        "  accepted    : "@ + digits::decimal(accepted) + " peer key(s)"@,
    ]
}

/// What is said once a remote agent is bridged.
pub open spec fn bridging_text(agent_id: Seq<char>, local: Option<Seq<char>>) -> Seq<Seq<char>> {
    match local {
        Some(addr) => seq![
            "bridging remote agent `"@ + agent_id + "` on tcp://"@ + addr,
            "point an ACP client at this address; serving one connection"@,
        ],
        None => seq![
            "bridging remote agent `"@ + agent_id + "` over stdio; speak ACP on stdin/stdout"@,
        ],
    }
}

/// What is said of removing a saved peer.
pub open spec fn removed_text(name: Seq<char>, was_saved: bool) -> Seq<char> {
    if was_saved {
        "removed peer `"@ + name + "` from the address book"@
    } else {
        "no peer named `"@ + name + "`"@
    }
}

/// Says whose a node's own card is.
pub fn identity_lines(card: &ConnectionCard) -> (r: Vec<String>)
    ensures
        text::views(r@) == identity_text(card.endpoint_id@),
        text::views(r@) == seq![
            "  endpoint id : "@ + digits::lower_hex(card.endpoint_id@),
            "  fingerprint : "@ + card::grouped(sha256::sha256(card.endpoint_id@)),
        ],
{
    let id = card.endpoint_id.to_text();
    let print = card.fingerprint();
    two_lines(
        text::concat("  endpoint id : ", id.as_str()),
        text::concat("  fingerprint : ", print.as_str()),
    )
}

/// What is said once an agent is shared: under which id, in which directory,
/// and to how many keys.
pub fn share_lines(agent_id: &str, working_dir: &str, accepted: usize) -> (r: Vec<String>)
    ensures
        text::views(r@) == sharing_text(agent_id@, working_dir@, accepted as nat),
        text::views(r@) == seq![
            "roaming agent is live"@,
            "  endpoint id : "@ + agent_id@,
            "  working dir : "@ + working_dir@,
            "  accepted    : "@ + digits::decimal(accepted as nat) + " peer key(s)"@,
        ],
{
    let number = digits::decimal_of(accepted as u64);
    let mut lines = two_lines(
        "roaming agent is live".to_owned(),
        text::concat("  endpoint id : ", agent_id),
    );
    let ghost before = lines@;
    lines.push(text::concat("  working dir : ", working_dir));
    assert(text::views(lines@) =~= text::views(before).push("  working dir : "@ + working_dir@));
    let ghost before = lines@;
    lines.push(text::concat3("  accepted    : ", number.as_str(), " peer key(s)"));
    assert(text::views(lines@) =~= text::views(before).push(
        "  accepted    : "@ + digits::decimal(accepted as nat) + " peer key(s)"@,
    ));
    lines
}

/// What is said once a remote agent is bridged: on a local address, or on the
/// standard streams.
pub fn bridge_lines(agent_id: &str, local: Option<&str>) -> (r: Vec<String>)
    ensures
        text::views(r@) == bridging_text(
            agent_id@,
            match local {
                Some(addr) => Some(addr@),
                None => None,
            },
        ),
        text::views(r@) == (match local {
            Some(addr) => seq![
                "bridging remote agent `"@ + agent_id@ + "` on tcp://"@ + addr@,
                "point an ACP client at this address; serving one connection"@,
            ],
            None => seq![
                "bridging remote agent `"@ + agent_id@
                    + "` over stdio; speak ACP on stdin/stdout"@,
            ],
        }),
{
    match local {
        Some(addr) => {
            let mut first = text::concat3("bridging remote agent `", agent_id, "` on tcp://");
            first.append(addr);
            two_lines(
                first,
                "point an ACP client at this address; serving one connection".to_owned(),
            )
        },
        None => {
            let mut lines: Vec<String> = Vec::new();
            lines.push(
                text::concat3(
                    "bridging remote agent `",
                    agent_id,
                    "` over stdio; speak ACP on stdin/stdout",
                ),
            );
            assert(text::views(lines@) =~= seq![
                "bridging remote agent `"@ + agent_id@
                    + "` over stdio; speak ACP on stdin/stdout"@,
            ]);
            lines
        },
    }
}

// ---------------------------------------------------------------------------
// Managing peers

/// A change of the saved peers.
#[derive(Debug, Clone, PartialEq, Eq)]
pub enum BookChange {
    /// Nothing changes.
    Keep,
    /// This card text is saved under this name.
    Save { name: String, card: String },
    /// The peer saved under this name is removed.
    Remove { name: String },
    /// A saved peer gets another name.
    Rename { from: String, to: String },
}

/// What a `roam peers` subcommand comes to: a note, a change of the saved peers,
/// a change of whom the node trusts, whether the peers are listed, and what is
/// said once all is done.
#[derive(Debug, Clone, PartialEq, Eq)]
pub struct PeersPlan {
    pub note: Option<String>,
    pub book: BookChange,
    pub trust: TrustChange,
    pub list: bool,
    pub said: Vec<String>,
}

/// Whether a change of the saved peers is to save a card text under a name.
pub open spec fn saves(change: BookChange, name: Seq<char>, card: Seq<char>) -> bool {
    change matches BookChange::Save { name: n, card: c } && n@ == name && c@ == card
}

/// What a `roam peers` subcommand comes to.
pub open spec fn comes_to(
    command: PeersCommand,
    inline: Result<ConnectionCard, RoamingError>,
    saved: Option<ConnectionCard>,
    r: Result<PeersPlan, String>,
) -> bool {
    match (command, r) {
        (PeersCommand::Add { card, name }, Ok(plan)) => {
            &&& inline matches Ok(given)
            &&& saves(plan.book, saved_name(name, given.endpoint_id@), card@)
            &&& plan.trust == TrustChange::Keep
            &&& plan.note is None && !plan.list
            &&& text::views(plan.said@) == saved_text(
                saved_name(name, given.endpoint_id@),
                given.endpoint_id@,
            )
        },
        (PeersCommand::Add { .. }, Err(e)) => inline matches Err(reason) && e@ == error_text(
            reason@,
        ),
        (PeersCommand::Accept { target, name }, Ok(plan)) => match (inline, saved) {
            (Ok(given), _) => {
                &&& saves(plan.book, saved_name(name, given.endpoint_id@), target@)
                &&& plan.trust == TrustChange::Accept(given.endpoint_id)
                &&& plan.note is None && !plan.list
                &&& text::views(plan.said@) == accepted_text(given.endpoint_id@)
            },
            (Err(_), Some(known)) => {
                &&& plan.book == BookChange::Keep
                &&& plan.trust == TrustChange::Accept(known.endpoint_id)
                &&& (plan.note is Some) == (name is Some)
                &&& plan.note matches Some(note) ==> note@ == ignored_text(target@)
                &&& !plan.list
                &&& text::views(plan.said@) == accepted_text(known.endpoint_id@)
            },
            (Err(_), None) => false,
        },
        (PeersCommand::Accept { target, .. }, Err(e)) => inline is Err && saved is None && e@
            == "no saved peer `"@ + target@
            + "` and it is not a card; add it first with `goose roam peers add`"@,
        (PeersCommand::Revoke { target }, Ok(plan)) => {
            &&& plan.book == BookChange::Keep
            &&& plan.trust matches TrustChange::Revoke(key)
            &&& match (inline, saved) {
                (Ok(given), _) => key == given.endpoint_id,
                (Err(_), Some(known)) => key == known.endpoint_id,
                (Err(_), None) => identity::parsed_key(target@) == Ok::<Seq<u8>, Seq<char>>(
                    key@,
                ),
            }
            &&& plan.note is None && !plan.list
            &&& text::views(plan.said@) == revoked_text(key@)
        },
        (PeersCommand::Revoke { target }, Err(e)) => inline is Err && saved is None
            && identity::parsed_key(target@) is Err && e@ == "`"@ + target@
            + "` is not a saved peer, a card, or an endpoint id"@,
        (PeersCommand::Remove { name }, Ok(plan)) => plan.book == (BookChange::Remove { name })
            && plan.trust == TrustChange::Keep && plan.note is None && !plan.list
            && plan.said@.len() == 0,
        (PeersCommand::Rename { from, to }, Ok(plan)) => plan.book == (BookChange::Rename {
            from,
            to,
        }) && plan.trust == TrustChange::Keep && plan.note is None && !plan.list
            && text::views(plan.said@) == seq![renamed_text(from@, to@)],
        (PeersCommand::List, Ok(plan)) => plan.book == BookChange::Keep && plan.trust
            == TrustChange::Keep && plan.note is None && plan.list && plan.said@.len() == 0,
        _ => false,
    }
}

/// What a `roam peers` subcommand comes to, from the card that its target
/// carries, or why it carries none, and the card saved under its target, if
/// there is one.
///
/// Adding saves the given card, and a text that is no card is an error. Accepting
/// accepts the key of the given card, which is saved too, or that of a saved
/// peer, which is not saved again. Revoking revokes a key and leaves the saved
/// peers alone; removing, renaming and listing leave trust alone.
pub fn peers_plan(
    command: PeersCommand,
    inline: Result<ConnectionCard, RoamingError>,
    saved: Option<ConnectionCard>,
) -> (r: Result<PeersPlan, String>)
    ensures
        comes_to(command, inline, saved, r),
{
    match command {
        PeersCommand::Add { card, name } => match inline {
            Ok(given) => {
                let name = save_name(name, &given.endpoint_id);
                let said = saved_lines(name.as_str(), &given);
                Ok(
                    PeersPlan {
                        note: None,
                        book: BookChange::Save { name, card },
                        trust: TrustChange::Keep,
                        list: false,
                        said,
                    },
                )
            },
            Err(reason) => Err(error_message(&reason)),
        },
        PeersCommand::Accept { target, name } => {
            let carried = match inline {
                Ok(given) => Some(given),
                Err(_) => None,
            };
            let plan = match accept_plan(target.as_str(), name, carried, saved) {
                Ok(plan) => plan,
                Err(reason) => return Err(reason),
            };
            let note = if plan.name_ignored {
                Some(ignored_name(target.as_str()))
            } else {
                None
            };
            let book = match plan.save_as {
                Some(name) => BookChange::Save { name, card: target },
                None => BookChange::Keep,
            };
            let said = accepted_lines(&plan.card);
            Ok(
                PeersPlan {
                    note,
                    book,
                    trust: TrustChange::Accept(plan.card.endpoint_id),
                    list: false,
                    said,
                },
            )
        },
        PeersCommand::Revoke { target } => {
            let carried = match &inline {
                Ok(given) => Some(given.endpoint_id),
                Err(_) => None,
            };
            let known = match &saved {
                Some(card) => Some(card.endpoint_id),
                None => None,
            };
            match resolve_key(target.as_str(), carried, known) {
                Ok(key) => Ok(
                    PeersPlan {
                        note: None,
                        book: BookChange::Keep,
                        trust: TrustChange::Revoke(key),
                        list: false,
                        said: revoked_lines(&key),
                    },
                ),
                Err(reason) => Err(reason),
            }
        },
        PeersCommand::Remove { name } => Ok(
            PeersPlan {
                note: None,
                book: BookChange::Remove { name },
                trust: TrustChange::Keep,
                list: false,
                said: Vec::new(),
            },
        ),
        PeersCommand::Rename { from, to } => {
            let mut said: Vec<String> = Vec::new();
            said.push(renamed_line(from.as_str(), to.as_str()));
            assert(text::views(said@) =~= seq![renamed_text(from@, to@)]);
            Ok(
                PeersPlan {
                    note: None,
                    book: BookChange::Rename { from, to },
                    trust: TrustChange::Keep,
                    list: false,
                    said,
                },
            )
        },
        PeersCommand::List => Ok(
            PeersPlan {
                note: None,
                book: BookChange::Keep,
                trust: TrustChange::Keep,
                list: true,
                said: Vec::new(),
            },
        ),
    }
}

// ---------------------------------------------------------------------------
// Sharing and delegating

/// The extensions of a shared agent.
pub open spec fn extensions(builtins: Seq<Seq<char>>) -> Seq<Seq<char>> {
    if builtins.len() == 0 {
        seq!["developer"@]
    } else {
        builtins
    }
}

/// A shared agent has all the extensions that are given, in order, and no other;
/// and never none.
pub proof fn shared_agents_have_their_extensions(builtins: Seq<Seq<char>>, x: Seq<char>)
    ensures
        extensions(builtins.push(x)) == builtins.push(x),
        extensions(Seq::empty()) == seq!["developer"@],
        extensions(builtins).len() > 0,
{
}

/// The extensions of a shared agent: the developer extension where none is
/// given.
pub fn share_builtins(builtins: Vec<String>) -> (r: Vec<String>)
    ensures
        text::views(r@) == extensions(text::views(builtins@)),
        if builtins@.len() == 0 {
            text::views(r@) == seq!["developer"@]
        } else {
            r == builtins
        },
{
    if builtins.len() == 0 {
        let mut out: Vec<String> = Vec::new();
        out.push("developer".to_owned());
        assert(text::views(out@) =~= seq!["developer"@]);
        out
    } else {
        builtins
    }
}

/// Whether sharing comes with a warning: no one can connect where no key is
/// accepted.
pub open spec fn warns(accepted: nat) -> bool {
    accepted == 0
}

/// A node that accepts some key is shared without a warning, and one that
/// accepts none is not.
pub proof fn sharing_warns_where_no_one_can_connect(accepted: Seq<Seq<char>>, key: Seq<char>)
    ensures
        warns(Seq::<Seq<char>>::empty().len()),
        !warns(accepted.push(key).len()),
{
}

/// The warning for a node that accepts no one.
pub fn share_warning(accepted: usize) -> (r: Option<String>)
    ensures
        r is Some <==> warns(accepted as nat),
        if accepted == 0 {
            r matches Some(w) && w@
                == "warning: no peers are accepted yet — no one can connect.\nAccept a peer's key first: goose roam peers accept <name|card>"@
        } else {
            r is None
        },
{
    if accepted == 0 {
        Some(
            "warning: no peers are accepted yet — no one can connect.\nAccept a peer's key first: goose roam peers accept <name|card>".to_owned(),
        )
    } else {
        None
    }
}

/// What delegating comes to.
#[derive(Debug, Clone, PartialEq, Eq)]
pub enum DelegatePlan {
    /// List the remote sessions.
    List,
    /// Run a task in a session, or in a new one.
    Run { task: String, session: Option<String> },
}

/// What delegating comes to.
pub open spec fn delegates(
    task: Option<String>,
    session: Option<String>,
    list_sessions: bool,
    r: Result<DelegatePlan, String>,
) -> bool {
    if list_sessions {
        r == Ok::<DelegatePlan, String>(DelegatePlan::List)
    } else {
        match task {
            Some(t) => r == Ok::<DelegatePlan, String>(DelegatePlan::Run { task: t, session }),
            None => r matches Err(e) && e@ == "a task is required (or pass --list-sessions)"@,
        }
    }
}

/// A task is run as it was given, in the session that was given or in a new one;
/// listing is asked for by itself, with a task or without; and asking for
/// neither is an error.
pub proof fn tasks_are_run_as_given(
    task: String,
    session: Option<String>,
    run: Result<DelegatePlan, String>,
    listed: Result<DelegatePlan, String>,
    neither: Result<DelegatePlan, String>,
)
    requires
        delegates(Some(task), session, false, run),
        delegates(Some(task), session, true, listed),
        delegates(None, session, false, neither),
    ensures
        run == Ok::<DelegatePlan, String>(DelegatePlan::Run { task, session }),
        listed == Ok::<DelegatePlan, String>(DelegatePlan::List),
        neither is Err,
{
}

/// What delegating comes to: listing goes first, and without it a task is
/// required.
pub fn delegate_plan(task: Option<String>, session: Option<String>, list_sessions: bool) -> (r:
    Result<DelegatePlan, String>)
    ensures
        delegates(task, session, list_sessions, r),
        if list_sessions {
            r == Ok::<DelegatePlan, String>(DelegatePlan::List)
        } else {
            match task {
                Some(t) => r == Ok::<DelegatePlan, String>(DelegatePlan::Run { task: t, session }),
                None => r matches Err(e) && e@
                    == "a task is required (or pass --list-sessions)"@,
            }
        },
{
    if list_sessions {
        return Ok(DelegatePlan::List);
    }
    match task {
        Some(t) => Ok(DelegatePlan::Run { task: t, session }),
        None => Err("a task is required (or pass --list-sessions)".to_owned()),
    }
}

/// The line that announces a delegated task.
pub open spec fn delegating_text(agent: Seq<char>, session: Option<Seq<char>>) -> Seq<char> {
    match session {
        Some(id) => "delegating to `"@ + agent + "` session "@ + id + "..."@,
        None => "delegating task to `"@ + agent + "`..."@,
    }
}

/// Announces a delegated task.
pub fn delegate_status(agent: &str, session: Option<&str>) -> (r: String)
    ensures
        r@ == delegating_text(
            agent@,
            match session {
                Some(id) => Some(id@),
                None => None,
            },
        ),
        r@ == (match session {
            Some(id) => "delegating to `"@ + agent@ + "` session "@ + id@ + "..."@,
            None => "delegating task to `"@ + agent@ + "`..."@,
        }),
{
    match session {
        Some(id) => {
            let mut line = text::concat3("delegating to `", agent, "` session ");
            line.append(id);
            line.append("...");
            line
        },
        None => text::concat3("delegating task to `", agent, "`..."),
    }
}

/// The label of a bridge: the one given, or `bridge`.
pub fn bridge_label(label: Option<String>) -> (r: String)
    ensures
        match label {
            Some(l) => r == l,
            None => r@ == "bridge"@,
        },
{
    match label {
        Some(l) => l,
        None => "bridge".to_owned(),
    }
}

// ---------------------------------------------------------------------------
// Tables

/// `n` spaces.
pub open spec fn spaces(n: nat) -> Seq<char> {
    Seq::new(n, |i: int| ' ')
}

/// A text with spaces behind it, up to a width.
pub open spec fn padded(s: Seq<char>, width: nat) -> Seq<char> {
    if s.len() >= width {
        s
    } else {
        s + spaces((width - s.len()) as nat)
    }
}

/// A text of at most twenty characters: a longer one is cut, and ends with an
/// ellipsis.
pub open spec fn cut(s: Seq<char>) -> Seq<char> {
    if s.len() > 20 {
        s.take(19) + "…"@
    } else {
        s
    }
}

/// A cut text is never longer than twenty characters.
pub proof fn cut_texts_fit(s: Seq<char>)
    ensures
        cut(s).len() <= 20,
        s.len() <= 20 ==> cut(s) == s,
{
    reveal_strlit("…");
}

fn pad(s: &str, width: usize) -> (r: String)
    ensures
        r@ == padded(s@, width as nat),
{
    let n = text::chars_of(s).len();
    let mut out = s.to_owned();
    let mut i: usize = n;
    assert(s@ + spaces(0) =~= s@);
    while i < width
        invariant
            n <= i,
            n == s@.len(),
            i <= width || i == n,
            out@ == s@ + spaces((i - n) as nat),
        decreases width - i,
    {
        out.push(' ');
        assert(s@ + spaces((i + 1 - n) as nat) =~= (s@ + spaces((i - n) as nat)).push(' '));
        i = i + 1;
    }
    out
}

/// Cuts a text to at most twenty characters.
pub fn cut_text(s: &str) -> (r: String)
    ensures
        r@ == cut(s@),
{
    let cs = text::chars_of(s);
    if cs.len() > 20 {
        let head = text::string_of(&cs, 0, 19);
        assert(head@ =~= s@.take(19));
        text::concat(head.as_str(), "…")
    } else {
        s.to_owned()
    }
}

/// A row of three columns, of which the last is not padded.
pub open spec fn row(a: Seq<char>, wa: nat, b: Seq<char>, wb: nat, c: Seq<char>) -> Seq<char> {
    padded(a, wa) + " "@ + padded(b, wb) + " "@ + c
}

fn row_text(a: &str, wa: usize, b: &str, wb: usize, c: &str) -> (r: String)
    ensures
        r@ == row(a@, wa as nat, b@, wb as nat, c@),
{
    let left = pad(a, wa);
    let middle = pad(b, wb);
    let mut line = text::concat3(left.as_str(), " ", middle.as_str());
    line.append(" ");
    line.append(c);
    line
}

/// A saved peer: its name, and its endpoint id as text.
#[derive(Debug, Clone, PartialEq, Eq)]
pub struct SavedPeer {
    pub name: String,
    pub endpoint_id: String,
}

/// The endpoint ids of saved peers.
pub open spec fn saved_ids(peers: Seq<SavedPeer>) -> Seq<Seq<char>> {
    peers.map_values(|p: SavedPeer| p.endpoint_id@)
}

/// The row of a saved peer.
pub open spec fn saved_row(p: SavedPeer, accepted: Seq<Seq<char>>) -> Seq<char> {
    row(
        p.name@,
        16,
        if accepted.contains(p.endpoint_id@) {
            "yes"@
        } else {
            "no"@
        },
        8,
        p.endpoint_id@,
    )
}

/// The row of an accepted key that is not that of a saved peer.
pub open spec fn unsaved_row(id: Seq<char>) -> Seq<char> {
    row("(unsaved)"@, 16, "yes"@, 8, id)
}

/// The rows of the saved peers, then those of the other accepted keys.
pub open spec fn peer_rows(peers: Seq<SavedPeer>, accepted: Seq<Seq<char>>) -> Seq<Seq<char>> {
    peers.map_values(|p: SavedPeer| saved_row(p, accepted)) + accepted.filter(
        |id: Seq<char>| !saved_ids(peers).contains(id),
    ).map_values(|id: Seq<char>| unsaved_row(id))
}

fn ids_of(peers: &Vec<SavedPeer>) -> (r: Vec<String>)
    ensures
        text::views(r@) == saved_ids(peers@),
{
    let mut out: Vec<String> = Vec::new();
    let mut i: usize = 0;
    assert(text::views(out@) =~= saved_ids(peers@).take(0));
    while i < peers.len()
        invariant
            i <= peers@.len(),
            text::views(out@) == saved_ids(peers@).take(i as int),
        decreases peers@.len() - i,
    {
        let ghost before = out@;
        out.push(peers[i].endpoint_id.clone());
        assert(text::views(out@) =~= text::views(before).push(saved_ids(peers@)[i as int]));
        assert(saved_ids(peers@).take(i + 1) =~= saved_ids(peers@).take(i as int).push(
            saved_ids(peers@)[i as int],
        ));
        i = i + 1;
    }
    assert(saved_ids(peers@).take(peers@.len() as int) =~= saved_ids(peers@));
    out
}

/// The table of saved peers and accepted keys: a heading, a row for each saved
/// peer that tells whether its key is accepted, and a row for each other
/// accepted key. Where there is neither, there is no table.
pub fn peer_table(peers: &Vec<SavedPeer>, accepted: &Vec<String>) -> (r: Option<Vec<String>>)
    ensures
        match r {
            None => peers@.len() == 0 && accepted@.len() == 0,
            Some(lines) => (peers@.len() > 0 || accepted@.len() > 0) && text::views(lines@) == seq![
                row("NAME"@, 16, "ACCEPT"@, 8, "ENDPOINT ID"@),
            ] + peer_rows(peers@, text::views(accepted@)),
        },
{
    if peers.len() == 0 && accepted.len() == 0 {
        return None;
    }
    let ghost keys = text::views(accepted@);
    let ghost head = seq![row("NAME"@, 16, "ACCEPT"@, 8, "ENDPOINT ID"@)];
    let ghost saved = peers@.map_values(|p: SavedPeer| saved_row(p, keys));
    let mut lines: Vec<String> = Vec::new();
    lines.push(row_text("NAME", 16, "ACCEPT", 8, "ENDPOINT ID"));
    let mut i: usize = 0;
    assert(text::views(lines@) =~= head + saved.take(0));
    while i < peers.len()
        invariant
            i <= peers@.len(),
            keys == text::views(accepted@),
            saved == peers@.map_values(|p: SavedPeer| saved_row(p, keys)),
            text::views(lines@) == head + saved.take(i as int),
        decreases peers@.len() - i,
    {
        let ghost before = lines@;
        let id = peers[i].endpoint_id.as_str();
        let accept = if lists::contains_text(accepted, id) {
            "yes"
        } else {
            "no"
        };
        lines.push(row_text(peers[i].name.as_str(), 16, accept, 8, id));
        assert(saved[i as int] == saved_row(peers@[i as int], keys));
        assert(text::views(lines@) =~= text::views(before).push(saved[i as int]));
        assert(head + saved.take(i + 1) =~= (head + saved.take(i as int)).push(saved[i as int]));
        i = i + 1;
    }
    assert(saved.take(peers@.len() as int) =~= saved);
    let known = ids_of(peers);
    let ghost keep = |id: Seq<char>| !saved_ids(peers@).contains(id);
    let ghost shown = |id: Seq<char>| unsaved_row(id);
    let mut k: usize = 0;
    proof {
        reveal(Seq::filter);
        assert(keys.take(0) =~= Seq::<Seq<char>>::empty());
        assert(keys.take(0).filter(keep).map_values(shown) =~= Seq::<Seq<char>>::empty());
        assert(head + saved + Seq::<Seq<char>>::empty() =~= head + saved);
    }
    while k < accepted.len()
        invariant
            k <= accepted@.len(),
            keys == text::views(accepted@),
            text::views(known@) == saved_ids(peers@),
            keep == (|id: Seq<char>| !saved_ids(peers@).contains(id)),
            shown == (|id: Seq<char>| unsaved_row(id)),
            text::views(lines@) == head + saved + keys.take(k as int).filter(keep).map_values(
                shown,
            ),
        decreases accepted@.len() - k,
    {
        let ghost before = lines@;
        let ghost done = keys.take(k as int).filter(keep);
        proof {
            assert(keys[k as int] == accepted@[k as int]@);
            assert(keys.take(k + 1) =~= keys.take(k as int).push(keys[k as int]));
            keys.take(k as int).lemma_filter_push(keys[k as int], keep);
        }
        if !lists::contains_text(&known, accepted[k].as_str()) {
            lines.push(row_text("(unsaved)", 16, "yes", 8, accepted[k].as_str()));
            proof {
                let new = unsaved_row(keys[k as int]);
                assert(done.push(keys[k as int]).map_values(shown) =~= done.map_values(shown).push(
                    new,
                ));
                assert(text::views(lines@) =~= text::views(before).push(new));
                assert(head + saved + done.map_values(shown).push(new) =~= (head + saved
                    + done.map_values(shown)).push(new));
            }
        }
        k = k + 1;
    }
    assert(keys.take(accepted@.len() as int) =~= keys);
    assert(head + saved + keys.filter(keep).map_values(shown) =~= head + (saved + keys.filter(
        keep,
    ).map_values(shown)));
    Some(lines)
}

/// An observed connection.
#[derive(Debug, Clone, PartialEq, Eq)]
pub struct Observed {
    pub connected: bool,
    pub inbound: bool,
    pub agent_id: Option<String>,
    pub endpoint_id: String,
}

/// The row of an observed connection.
pub open spec fn observed_row(e: Observed) -> Seq<char> {
    padded(
        if e.connected {
            "connected"@
        } else {
            "seen"@
        },
        10,
    ) + " "@ + row(
        if e.inbound {
            "inbound"@
        } else {
            "outbound"@
        },
        9,
        cut(
            match e.agent_id {
                Some(a) => a@,
                None => "-"@,
            },
        ),
        20,
        e.endpoint_id@,
    )
}

/// The table of observed connections. Where there is none, there is no table.
pub fn connection_table(entries: &Vec<Observed>) -> (r: Option<Vec<String>>)
    ensures
        match r {
            None => entries@.len() == 0,
            Some(lines) => entries@.len() > 0 && text::views(lines@) == seq![
                padded("STATUS"@, 10) + " "@ + row("DIR"@, 9, "AGENT"@, 20, "ENDPOINT ID"@),
            ] + entries@.map_values(|e: Observed| observed_row(e)),
        },
{
    if entries.len() == 0 {
        return None;
    }
    let ghost head = seq![
        padded("STATUS"@, 10) + " "@ + row("DIR"@, 9, "AGENT"@, 20, "ENDPOINT ID"@),
    ];
    let ghost rows = entries@.map_values(|e: Observed| observed_row(e));
    let mut lines: Vec<String> = Vec::new();
    let left = pad("STATUS", 10);
    let right = row_text("DIR", 9, "AGENT", 20, "ENDPOINT ID");
    lines.push(text::concat3(left.as_str(), " ", right.as_str()));
    let mut i: usize = 0;
    assert(text::views(lines@) =~= head + rows.take(0));
    while i < entries.len()
        invariant
            i <= entries@.len(),
            rows == entries@.map_values(|e: Observed| observed_row(e)),
            text::views(lines@) == head + rows.take(i as int),
        decreases entries@.len() - i,
    {
        let ghost before = lines@;
        let e = &entries[i];
        let status = if e.connected {
            pad("connected", 10)
        } else {
            pad("seen", 10)
        };
        let dir = if e.inbound {
            "inbound"
        } else {
            "outbound"
        };
        let agent = match &e.agent_id {
            Some(a) => cut_text(a.as_str()),
            None => cut_text("-"),
        };
        let rest = row_text(dir, 9, agent.as_str(), 20, e.endpoint_id.as_str());
        lines.push(text::concat3(status.as_str(), " ", rest.as_str()));
        assert(rows[i as int] == observed_row(entries@[i as int]));
        assert(text::views(lines@) =~= text::views(before).push(rows[i as int]));
        assert(head + rows.take(i + 1) =~= (head + rows.take(i as int)).push(rows[i as int]));
        i = i + 1;
    }
    assert(rows.take(entries@.len() as int) =~= rows);
    Some(lines)
}

/// A session of a remote agent.
#[derive(Debug, Clone, PartialEq, Eq)]
pub struct RemoteSession {
    pub session_id: String,
    pub title: Option<String>,
    pub updated_at: Option<String>,
}

/// The characters of a text, or none where it is missing.
pub open spec fn or_empty(t: Option<String>) -> Seq<char> {
    match t {
        Some(s) => s@,
        None => Seq::empty(),
    }
}

/// The row of a remote session.
pub open spec fn session_row(s: RemoteSession) -> Seq<char> {
    row(s.session_id@, 40, cut(or_empty(s.title)), 20, or_empty(s.updated_at))
}

fn text_or_empty(t: &Option<String>) -> (r: &str)
    ensures
        r@ == or_empty(*t),
{
    match t {
        Some(s) => s.as_str(),
        None => {
            proof {
                reveal_strlit("");
                assert(""@ =~= Seq::<char>::empty());
            }
            ""
        },
    }
}

/// The table of a remote agent's sessions. Where there is none, there is no
/// table.
pub fn session_table(sessions: &Vec<RemoteSession>) -> (r: Option<Vec<String>>)
    ensures
        match r {
            None => sessions@.len() == 0,
            Some(lines) => sessions@.len() > 0 && text::views(lines@) == seq![
                row("SESSION ID"@, 40, "TITLE"@, 20, "UPDATED"@),
            ] + sessions@.map_values(|s: RemoteSession| session_row(s)),
        },
{
    if sessions.len() == 0 {
        return None;
    }
    let ghost head = seq![row("SESSION ID"@, 40, "TITLE"@, 20, "UPDATED"@)];
    let ghost rows = sessions@.map_values(|s: RemoteSession| session_row(s));
    let mut lines: Vec<String> = Vec::new();
    lines.push(row_text("SESSION ID", 40, "TITLE", 20, "UPDATED"));
    let mut i: usize = 0;
    assert(text::views(lines@) =~= head + rows.take(0));
    while i < sessions.len()
        invariant
            i <= sessions@.len(),
            rows == sessions@.map_values(|s: RemoteSession| session_row(s)),
            text::views(lines@) == head + rows.take(i as int),
        decreases sessions@.len() - i,
    {
        let ghost before = lines@;
        let s = &sessions[i];
        let title = cut_text(text_or_empty(&s.title));
        lines.push(
            row_text(
                s.session_id.as_str(),
                40,
                title.as_str(),
                20,
                text_or_empty(&s.updated_at),
            ),
        );
        assert(rows[i as int] == session_row(sessions@[i as int]));
        assert(text::views(lines@) =~= text::views(before).push(rows[i as int]));
        assert(head + rows.take(i + 1) =~= (head + rows.take(i as int)).push(rows[i as int]));
        i = i + 1;
    }
    assert(rows.take(sessions@.len() as int) =~= rows);
    Some(lines)
}

// ---------------------------------------------------------------------------
// What holds of names and tables

/// A short form is the beginning of a text, as long as it may be, and all of a
/// text that is not longer.
pub proof fn short_forms_begin_the_text(s: Seq<char>, n: nat)
    ensures
        first_chars(s, n).is_prefix_of(s),
        first_chars(s, n).len() == (if s.len() < n {
            s.len()
        } else {
            n
        }),
{
}

/// A peer is saved under the name that was given, and otherwise under the first
/// twelve digits of its endpoint id.
pub proof fn peers_are_saved_under_their_names(name: String, id: Seq<u8>)
    requires
        id.len() >= 6,
    ensures
        saved_name(Some(name), id) == name@,
        saved_name(None, id).len() == 12,
        saved_name(None, id).is_prefix_of(digits::lower_hex(id)),
{
}

/// A file of a directory stands behind the directory and one slash, whether or
/// not the directory was given with a slash at its end.
pub proof fn files_stand_behind_one_slash(dir: Seq<char>, name: Seq<char>)
    requires
        dir.len() > 0,
        dir.last() != '/',
    ensures
        file_in(dir, name) == dir + seq!['/'] + name,
        file_in(dir.push('/'), name) == file_in(dir, name),
        file_in(Seq::empty(), name) == name,
{
    reveal_strlit("/");
    assert("/"@ =~= seq!['/']);
    assert(dir.push('/') + name =~= dir + seq!['/'] + name);
    assert(Seq::<char>::empty() + name =~= name);
}

/// A padded text begins with the text, all of it, and is at least as wide as the
/// column; only spaces stand behind it.
pub proof fn padding_adds_spaces(s: Seq<char>, width: nat)
    ensures
        s.is_prefix_of(padded(s, width)),
        padded(s, width).len() == (if s.len() < width {
            width
        } else {
            s.len()
        }),
        forall|i: int| s.len() <= i < padded(s, width).len() ==> #[trigger] padded(s, width)[i] == ' ',
{
}

/// A cut text keeps its first nineteen characters and ends with an ellipsis, at
/// a width of twenty.
pub proof fn cut_texts_keep_their_beginning(s: Seq<char>)
    requires
        s.len() > 20,
    ensures
        cut(s).len() == 20,
        cut(s).take(19) == s.take(19),
        cut(s)[19] == '…',
{
    reveal_strlit("…");
    assert(cut(s).take(19) =~= s.take(19));
}

/// A row shows its three columns: the first at its start, the second behind the
/// first column and a space, and the third behind both and a space, to the end.
pub proof fn rows_show_their_columns(
    a: Seq<char>,
    wa: nat,
    b: Seq<char>,
    wb: nat,
    c: Seq<char>,
)
    ensures
        ({
            let r = row(a, wa, b, wb, c);
            let x = if a.len() < wa {
                wa
            } else {
                a.len()
            };
            let y = if b.len() < wb {
                wb
            } else {
                b.len()
            };
            &&& r.len() == x + y + 2 + c.len()
            &&& r.take(a.len() as int) == a
            &&& r.subrange(x + 1int, x + 1int + b.len()) == b
            &&& r.skip(x + y + 2int) == c
        }),
{
    reveal_strlit(" ");
    let r = row(a, wa, b, wb, c);
    let (p, q) = (padded(a, wa), padded(b, wb));
    padding_adds_spaces(a, wa);
    padding_adds_spaces(b, wb);
    assert(r.take(a.len() as int) =~= a);
    assert(r.subrange(p.len() + 1int, p.len() + 1int + b.len()) =~= b);
    assert(r.skip(p.len() + q.len() + 2int) =~= c);
}

/// Whether a line shows one of the accepted keys, which no saved peer has.
pub open spec fn shows_unsaved_key(
    peers: Seq<SavedPeer>,
    accepted: Seq<Seq<char>>,
    line: Seq<char>,
) -> bool {
    exists|k: int|
        0 <= k < accepted.len() && line == row("(unsaved)"@, 16, "yes"@, 8, #[trigger] accepted[k])
            && forall|i: int|
            0 <= i < peers.len() ==> (#[trigger] peers[i]).endpoint_id@ != accepted[k]
}

/// The table of peers has a row for each saved peer, in order, that says `yes`
/// exactly where its key is among the accepted ones; and behind them a row for
/// each accepted key that no saved peer has, and for no other.
pub proof fn peer_tables_tell_who_is_accepted(peers: Seq<SavedPeer>, accepted: Seq<Seq<char>>)
    ensures
        peer_rows(peers, accepted).len() >= peers.len(),
        forall|i: int|
            0 <= i < peers.len() && accepted.contains(peers[i].endpoint_id@) ==> #[trigger] peer_rows(
                peers,
                accepted,
            )[i] == row(peers[i].name@, 16, "yes"@, 8, peers[i].endpoint_id@),
        forall|i: int|
            0 <= i < peers.len() && !accepted.contains(peers[i].endpoint_id@)
                ==> #[trigger] peer_rows(peers, accepted)[i] == row(
                peers[i].name@,
                16,
                "no"@,
                8,
                peers[i].endpoint_id@,
            ),
        forall|k: int|
            0 <= k < accepted.len() && (forall|i: int|
                0 <= i < peers.len() ==> (#[trigger] peers[i]).endpoint_id@ != accepted[k])
                ==> peer_rows(peers, accepted).skip(peers.len() as int).contains(
                row("(unsaved)"@, 16, "yes"@, 8, #[trigger] accepted[k]),
            ),
        forall|r: int|
            peers.len() <= r < peer_rows(peers, accepted).len() ==> shows_unsaved_key(
                peers,
                accepted,
                #[trigger] peer_rows(peers, accepted)[r],
            ),
{
    let keep = |id: Seq<char>| !saved_ids(peers).contains(id);
    let kept = accepted.filter(keep);
    let rows = peer_rows(peers, accepted);
    let tail = rows.skip(peers.len() as int);
    assert(tail =~= kept.map_values(|id: Seq<char>| unsaved_row(id)));
    assert forall|k: int|
        0 <= k < accepted.len() && (forall|i: int|
            0 <= i < peers.len() ==> (#[trigger] peers[i]).endpoint_id@ != accepted[k]) implies tail.contains(
        row("(unsaved)"@, 16, "yes"@, 8, #[trigger] accepted[k]),
    ) by {
        let id = accepted[k];
        if saved_ids(peers).contains(id) {
            let i = choose|i: int| 0 <= i < saved_ids(peers).len() && saved_ids(peers)[i] == id;
            assert(peers[i].endpoint_id@ == id);
        }
        accepted.lemma_filter_contains(keep, k);
        let m = choose|m: int| 0 <= m < kept.len() && kept[m] == id;
        assert(tail[m] == unsaved_row(id));
    }
    assert forall|r: int| peers.len() <= r < rows.len() implies shows_unsaved_key(
        peers,
        accepted,
        #[trigger] rows[r],
    ) by {
        let m = r - peers.len();
        assert(rows[r] == tail[m]);
        accepted.lemma_filter_pred(keep, m);
        accepted.lemma_filter_contains_rev(keep, kept[m]);
        let k = choose|k: int| 0 <= k < accepted.len() && accepted[k] == kept[m];
        assert(rows[r] == unsaved_row(accepted[k]));
        assert forall|i: int| 0 <= i < peers.len() implies (#[trigger] peers[i]).endpoint_id@
            != accepted[k] by {
            assert(saved_ids(peers)[i] == peers[i].endpoint_id@);
        }
    }
}

/// The row of an observed connection says whether it stands and which way it
/// went, and ends with the endpoint id.
pub proof fn connection_rows_say_how_it_stands(e: Observed)
    ensures
        e.connected ==> "connected "@.is_prefix_of(observed_row(e)),
        !e.connected ==> "seen "@.is_prefix_of(observed_row(e)),
        e.inbound ==> observed_row(e).subrange(11, 18) == "inbound"@,
        !e.inbound ==> observed_row(e).subrange(11, 19) == "outbound"@,
        e.agent_id matches Some(a) ==> (a@.len() <= 20 ==> observed_row(e).subrange(
            21,
            21int + a@.len(),
        ) == a@),
        observed_row(e).len() == 42 + e.endpoint_id@.len(),
        observed_row(e).skip(42) == e.endpoint_id@,
{
    reveal_strlit("connected ");
    reveal_strlit("connected");
    reveal_strlit("seen ");
    reveal_strlit("seen");
    reveal_strlit("inbound");
    reveal_strlit("outbound");
    reveal_strlit(" ");
    reveal_strlit("-");
    let agent = cut(
        match e.agent_id {
            Some(a) => a@,
            None => "-"@,
        },
    );
    cut_texts_fit(
        match e.agent_id {
            Some(a) => a@,
            None => "-"@,
        },
    );
    let dir = if e.inbound {
        "inbound"@
    } else {
        "outbound"@
    };
    let status = if e.connected {
        "connected"@
    } else {
        "seen"@
    };
    let rest = row(dir, 9, agent, 20, e.endpoint_id@);
    rows_show_their_columns(dir, 9, agent, 20, e.endpoint_id@);
    let r = observed_row(e);
    assert(r =~= padded(status, 10) + " "@ + rest);
    assert forall|i: int| 0 <= i < rest.len() implies r[11 + i] == rest[i] by {}
    assert(r.subrange(11, 11int + dir.len()) =~= rest.take(dir.len() as int));
    assert(r.subrange(21, 21int + agent.len()) =~= rest.subrange(10, 10int + agent.len()));
    assert(r.skip(42) =~= rest.skip(31));
    if e.connected {
        assert("connected "@.is_prefix_of(r));
    } else {
        assert("seen "@.is_prefix_of(r));
    }
}

/// The row of a remote session begins with its id, and ends with the time of its
/// last update; between them stands its title.
pub proof fn session_rows_name_the_session(s: RemoteSession)
    requires
        s.session_id@.len() <= 40,
    ensures
        session_row(s).take(s.session_id@.len() as int) == s.session_id@,
        s.title matches Some(t) ==> (t@.len() <= 20 ==> session_row(s).subrange(
            41,
            41int + t@.len(),
        ) == t@),
        s.updated_at matches Some(u) ==> session_row(s).skip(62) == u@,
        s.updated_at is None ==> session_row(s).len() == 62,
{
    let title = cut(or_empty(s.title));
    cut_texts_fit(or_empty(s.title));
    rows_show_their_columns(s.session_id@, 40, title, 20, or_empty(s.updated_at));
}

/// Accepting and revoking a target mean the same key: that of the card it
/// carries, before that of the peer saved under it.
pub proof fn accepting_and_revoking_mean_the_same_key(
    target: String,
    name: Option<String>,
    inline: Result<ConnectionCard, RoamingError>,
    saved: Option<ConnectionCard>,
    accepted: PeersPlan,
    revoked: Result<PeersPlan, String>,
)
    requires
        comes_to(PeersCommand::Accept { target, name }, inline, saved, Ok(accepted)),
        comes_to(PeersCommand::Revoke { target }, inline, saved, revoked),
    ensures
        accepted.trust is Accept,
        revoked is Ok,
        revoked->Ok_0.trust == TrustChange::Revoke(accepted.trust->Accept_0),
        inline matches Ok(card) ==> accepted.trust->Accept_0 == card.endpoint_id,
        inline is Err ==> saved is Some && accepted.trust->Accept_0 == saved->0.endpoint_id,
{
}

/// Adding and accepting a card save the same card text under the same name; a
/// saved peer is not saved again by accepting it.
pub proof fn adding_and_accepting_save_the_same(
    card: String,
    name: Option<String>,
    given: ConnectionCard,
    reason: RoamingError,
    saved: Option<ConnectionCard>,
    added: Result<PeersPlan, String>,
    accepted: Result<PeersPlan, String>,
    known: Result<PeersPlan, String>,
)
    requires
        comes_to(PeersCommand::Add { card, name }, Ok(given), saved, added),
        comes_to(PeersCommand::Accept { target: card, name }, Ok(given), saved, accepted),
        comes_to(PeersCommand::Accept { target: card, name }, Err(reason), saved, known),
    ensures
        added is Ok && accepted is Ok,
        ({
            let (a, b) = (added->Ok_0.book, accepted->Ok_0.book);
            &&& a is Save && b is Save
            &&& a->Save_name@ == b->Save_name@
            &&& a->Save_card@ == card@ && b->Save_card@ == card@
            &&& name matches Some(n) ==> a->Save_name@ == n@
            &&& name is None ==> a->Save_name@ == first_chars(
                digits::lower_hex(given.endpoint_id@),
                12,
            )
        }),
        known matches Ok(plan) ==> plan.book == BookChange::Keep,
        known is Ok <==> saved is Some,
{
}

/// Trust changes only by accepting and revoking, and the address book only by
/// adding, accepting a card, removing and renaming; only listing lists.
pub proof fn each_subcommand_changes_its_own(
    command: PeersCommand,
    inline: Result<ConnectionCard, RoamingError>,
    saved: Option<ConnectionCard>,
    plan: PeersPlan,
)
    requires
        comes_to(command, inline, saved, Ok(plan)),
    ensures
        plan.trust is Accept <==> command is Accept,
        plan.trust is Revoke <==> command is Revoke,
        plan.book is Save <==> command is Add || (command is Accept && inline is Ok),
        plan.book is Remove <==> command is Remove,
        plan.book is Rename <==> command is Rename,
        command matches PeersCommand::Remove { name } ==> plan.book == (BookChange::Remove { name }),
        command matches PeersCommand::Rename { from, to } ==> plan.book == (BookChange::Rename {
            from,
            to,
        }),
        plan.list <==> command is List,
        plan.note is Some ==> command is Accept && inline is Err,
{
}

/// Removing, renaming and listing always come to something, whatever the target
/// could be read as.
pub proof fn managing_names_needs_no_card(
    command: PeersCommand,
    inline: Result<ConnectionCard, RoamingError>,
    saved: Option<ConnectionCard>,
    r: Result<PeersPlan, String>,
)
    requires
        comes_to(command, inline, saved, r),
        command is Remove || command is Rename || command is List,
    ensures
        r is Ok,
{
}

/// The text of an error is the one it was made with, whatever kind it is of.
pub proof fn errors_say_what_they_were_made_with(m: Seq<char>)
    ensures
        error_text(ErrorView::Identity(m)) == m,
        error_text(ErrorView::Invite(m)) == m,
        error_text(ErrorView::Card(m)) == m,
        error_text(ErrorView::Transport(m)) == m,
        error_text(ErrorView::Rejected(m)) == m,
{
}

/// What is said of a peer names it in full: the name it is saved under, its
/// endpoint id, and the fingerprint of that id.
pub proof fn peers_are_named_in_full(name: Seq<char>, to: Seq<char>, id: Seq<u8>)
    ensures
        ({
            let hex = digits::lower_hex(id);
            let print = card::grouped(sha256::sha256(id));
            &&& saved_text(name, id).len() == 2
            &&& text::occurs_at(saved_text(name, id)[0], name, 12)
            &&& text::occurs_at(saved_text(name, id)[0], hex, 17int + name.len())
            &&& text::occurs_at(saved_text(name, id)[0], print, 31int + name.len() + hex.len())
            &&& saved_text(name, id)[1].skip(57) == name
            &&& accepted_text(id).len() == 3
            &&& accepted_text(id)[0].skip(27) == hex
            &&& accepted_text(id)[1].skip(36) == print
            &&& revoked_text(id).len() == 2
            &&& text::occurs_at(revoked_text(id)[0], hex, 8)
            &&& identity_text(id).len() == 2
            &&& identity_text(id)[0].skip(16) == hex
            &&& identity_text(id)[1].skip(16) == print
        }),
        text::occurs_at(ignored_text(name), name, 7),
        text::occurs_at(renamed_text(name, to), name, 9),
        text::occurs_at(renamed_text(name, to), to, 15int + name.len()),
        text::occurs_at(removed_text(name, true), name, 14),
        text::occurs_at(removed_text(name, false), name, 15),
        removed_text(name, true) != removed_text(name, false),
{
    reveal_strlit("saved peer `");
    reveal_strlit("` -> ");
    reveal_strlit(" (fingerprint ");
    reveal_strlit(")");
    reveal_strlit("accept connections from it with: goose roam peers accept ");
    reveal_strlit("accepting connections from ");
    reveal_strlit("verify the fingerprint out of band: ");
    reveal_strlit("revoked ");
    reveal_strlit("; it can no longer connect");
    reveal_strlit("  endpoint id : ");
    reveal_strlit("  fingerprint : ");
    reveal_strlit("note: `");
    reveal_strlit("` is a saved peer; ignoring the extra name arg");
    reveal_strlit("renamed `");
    reveal_strlit("` -> `");
    reveal_strlit("`");
    reveal_strlit("removed peer `");
    reveal_strlit("` from the address book");
    reveal_strlit("no peer named `");
    let hex = digits::lower_hex(id);
    let print = card::grouped(sha256::sha256(id));
    let a = saved_text(name, id)[0];
    assert(a.subrange(12, 12int + name.len()) =~= name);
    assert(a.subrange(17int + name.len(), 17int + name.len() + hex.len()) =~= hex);
    let n = name.len();
    assert(a.subrange(31int + n + hex.len(), 31int + n + hex.len() + print.len()) =~= print);
    assert(saved_text(name, id)[1].skip(57) =~= name);
    assert(accepted_text(id)[0].skip(27) =~= hex);
    assert(accepted_text(id)[1].skip(36) =~= print);
    assert(revoked_text(id)[0].subrange(8, 8int + hex.len()) =~= hex);
    assert(identity_text(id)[0].skip(16) =~= hex);
    assert(identity_text(id)[1].skip(16) =~= print);
    assert(ignored_text(name).subrange(7, 7int + n) =~= name);
    assert(renamed_text(name, to).subrange(9, 9int + n) =~= name);
    assert(renamed_text(name, to).subrange(15int + n, 15int + n + to.len()) =~= to);
    assert(removed_text(name, true).subrange(14, 14int + n) =~= name);
    assert(removed_text(name, false).subrange(15, 15int + n) =~= name);
    assert(removed_text(name, true)[0] == 'r' && removed_text(name, false)[0] == 'n');
}

/// What is said of sharing and bridging names the agent and where it is, in full,
/// and how many keys are accepted.
pub proof fn agents_are_named_in_full(
    agent: Seq<char>,
    place: Seq<char>,
    session: Seq<char>,
    accepted: nat,
)
    ensures
        sharing_text(agent, place, accepted).len() == 4,
        sharing_text(agent, place, accepted)[1].skip(16) == agent,
        sharing_text(agent, place, accepted)[2].skip(16) == place,
        text::occurs_at(
            sharing_text(agent, place, accepted)[3],
            digits::decimal(accepted),
            16,
        ),
        sharing_text(agent, place, accepted)[3].len() == 28 + digits::decimal(accepted).len(),
        text::occurs_at(bridging_text(agent, Some(place))[0], agent, 23),
        bridging_text(agent, Some(place))[0].skip(34int + agent.len()) == place,
        text::occurs_at(bridging_text(agent, None)[0], agent, 23),
        text::occurs_at(delegating_text(agent, Some(session)), agent, 15),
        text::occurs_at(delegating_text(agent, Some(session)), session, 25int + agent.len()),
        text::occurs_at(delegating_text(agent, None), agent, 20),
{
    reveal_strlit("  endpoint id : ");
    reveal_strlit("  working dir : ");
    reveal_strlit("  accepted    : ");
    reveal_strlit(" peer key(s)");
    reveal_strlit("bridging remote agent `");
    reveal_strlit("` on tcp://");
    reveal_strlit("` over stdio; speak ACP on stdin/stdout");
    reveal_strlit("delegating to `");
    reveal_strlit("` session ");
    reveal_strlit("...");
    reveal_strlit("delegating task to `");
    reveal_strlit("`...");
    let number = digits::decimal(accepted);
    let n = agent.len();
    let shared = sharing_text(agent, place, accepted);
    assert(shared[1].skip(16) =~= agent);
    assert(shared[2].skip(16) =~= place);
    assert(shared[3].subrange(16, 16int + number.len()) =~= number);
    assert(bridging_text(agent, Some(place))[0].subrange(23, 23int + n) =~= agent);
    assert(bridging_text(agent, Some(place))[0].skip(34int + n) =~= place);
    assert(bridging_text(agent, None)[0].subrange(23, 23int + n) =~= agent);
    assert(delegating_text(agent, Some(session)).subrange(15, 15int + n) =~= agent);
    assert(delegating_text(agent, Some(session)).subrange(25int + n, 25int + n + session.len())
        =~= session);
    assert(delegating_text(agent, None).subrange(20, 20int + n) =~= agent);
}

} // verus!
