//! Federating remote peers into one server.
//!
//! A session that lives on a peer is addressed as `roam:<peer>:<remote id>`.
//! Rewriting the id at the boundary lets everything in between treat it as
//! just another opaque id.

use std::collections::VecDeque;

use vstd::prelude::*;
use vstd::string::StringExecFns;

use crate::instant::{self, Instant};
use crate::ranking::{self, Ranked};
use crate::text;

verus! {

/// Marks a session id as living on a remote peer.
pub const FEDERATED_PREFIX: &'static str = "roam:";

// ---------------------------------------------------------------------------
// Session ids

/// The id a client sees for a session that lives on `peer`.
pub open spec fn federated(peer: Seq<char>, remote: Seq<char>) -> Seq<char> {
    FEDERATED_PREFIX@ + peer + ":"@ + remote
}

/// The peer and the remote id of a client-facing id, or `None` if it is local:
/// the first colon behind the prefix separates them, and neither is empty.
pub open spec fn split_federated(id: Seq<char>) -> Option<(Seq<char>, Seq<char>)> {
    match text::after_prefix(id, FEDERATED_PREFIX@) {
        None => None,
        Some(rest) => match text::halves(rest, ":"@) {
            None => None,
            Some((peer, remote)) => if peer.len() == 0 || remote.len() == 0 {
                None
            } else {
                Some((peer, remote))
            },
        },
    }
}

/// Builds the id a client sees for a session that lives on `peer`.
pub fn federated_id(peer: &str, remote: &str) -> (r: String)
    ensures
        r@ == federated(peer@, remote@),
{
    let mut id = text::concat3(FEDERATED_PREFIX, peer, ":");
    id.append(remote);
    id
}

/// Splits a client-facing id into peer and remote id, or gives `None` if it is
/// local.
pub fn split_federated_id<'a>(id: &'a str) -> (r: Option<(&'a str, &'a str)>)
    ensures
        match r {
            Some((peer, remote)) => split_federated(id@) == Some((peer@, remote@)),
            None => split_federated(id@) is None,
        },
{
    match text::strip_prefix(id, FEDERATED_PREFIX) {
        None => None,
        Some(rest) => match text::split_once(rest, ":") {
            None => None,
            Some((peer, remote)) => if peer.is_empty() || remote.is_empty() {
                None
            } else {
                Some((peer, remote))
            },
        },
    }
}

proof fn lemma_colon_found(peer: Seq<char>, remote: Seq<char>)
    requires
        !peer.contains(':'),
    ensures
        text::find(peer + ":"@ + remote, ":"@) == Some(peer.len() as int),
{
    reveal_strlit(":");
    let s = peer + ":"@ + remote;
    assert(":"@ =~= seq![':']);
    assert(s.subrange(peer.len() as int, peer.len() as int + 1) =~= ":"@);
    assert forall|j: int| 0 <= j < peer.len() implies !#[trigger] text::occurs_at(s, ":"@, j) by {
        if text::occurs_at(s, ":"@, j) {
            assert(s.subrange(j, j + 1)[0] == ":"@[0]);
            assert(s[j] == peer[j]);
            assert(peer.contains(peer[j]));
        }
    }
    text::find_is(s, ":"@, peer.len() as int);
}

/// A federated id splits back into its parts, wherever the peer is named
/// without a colon and neither part is empty. The remote id may hold colons.
pub proof fn federated_ids_round_trip(peer: Seq<char>, remote: Seq<char>)
    requires
        peer.len() > 0,
        remote.len() > 0,
        !peer.contains(':'),
    ensures
        split_federated(federated(peer, remote)) == Some((peer, remote)),
{
    reveal_strlit(":");
    let id = federated(peer, remote);
    let rest = peer + ":"@ + remote;
    assert(id =~= FEDERATED_PREFIX@ + rest);
    assert(id.skip(FEDERATED_PREFIX@.len() as int) =~= rest);
    lemma_colon_found(peer, remote);
    assert(rest.take(peer.len() as int) =~= peer);
    assert(rest.skip(peer.len() as int + 1) =~= remote);
}

/// An id that splits is the federated id of its parts, and its peer is named
/// without a colon. So an id that is no federated id is local.
pub proof fn split_ids_are_federated(id: Seq<char>, peer: Seq<char>, remote: Seq<char>)
    requires
        split_federated(id) == Some((peer, remote)),
    ensures
        federated(peer, remote) == id,
        !peer.contains(':'),
        peer.len() > 0,
        remote.len() > 0,
{
    reveal_strlit(":");
    let n = FEDERATED_PREFIX@.len() as int;
    let rest = id.skip(n);
    text::find_from_is_least(rest, ":"@, 0);
    let i = text::find(rest, ":"@)->0;
    assert(":"@ =~= seq![':']);
    assert(rest.subrange(i, i + 1) =~= ":"@);
    assert(id =~= FEDERATED_PREFIX@ + rest);
    assert(rest =~= rest.take(i) + ":"@ + rest.skip(i + 1));
    assert(id =~= federated(peer, rest.skip(i + 1)));
    if peer.contains(':') {
        let j = choose|j: int| 0 <= j < peer.len() && peer[j] == ':';
        assert(rest.subrange(j, j + 1) =~= ":"@);
        assert(text::occurs_at(rest, ":"@, j));
    }
}

// ---------------------------------------------------------------------------
// Which peers are federated

/// The name of a peer in federated ids: its nickname, which holds no colon. A
/// card, which holds one, has no name.
pub open spec fn name_of(target: Seq<char>) -> Option<Seq<char>> {
    if target.contains(':') {
        None
    } else {
        Some(target)
    }
}

/// A text with a colon anywhere in it names no peer, and any other text is a name
/// as it stands; so no two texts share a name.
pub proof fn names_stand_as_they_are(front: Seq<char>, back: Seq<char>, a: Seq<char>, b: Seq<char>)
    ensures
        name_of(front + seq![':'] + back) is None,
        !a.contains(':') ==> name_of(a) == Some(a),
        name_of(a) is Some && name_of(a) == name_of(b) ==> a == b,
{
    assert((front + seq![':'] + back)[front.len() as int] == ':');
}

proof fn lemma_contains_colon(s: Seq<char>)
    ensures
        (text::find(s, ":"@) is Some) == s.contains(':'),
{
    reveal_strlit(":");
    text::find_from_is_least(s, ":"@, 0);
    assert(":"@ =~= seq![':']);
    match text::find(s, ":"@) {
        Some(i) => {
            assert(s.subrange(i, i + 1)[0] == ':');
            assert(s[i] == ':');
        },
        None => {
            if s.contains(':') {
                let j = choose|j: int| 0 <= j < s.len() && s[j] == ':';
                assert(s.subrange(j, j + 1) =~= ":"@);
                assert(text::occurs_at(s, ":"@, j));
            }
        },
    }
}

/// The name a peer is known by in federated ids. A nickname is used as it is;
/// a card is refused, and so is a name with a colon.
pub fn peer_name(target: &str) -> (r: Option<String>)
    ensures
        match r {
            Some(name) => name_of(target@) == Some(name@),
            None => name_of(target@) is None,
        },
{
    proof {
        lemma_contains_colon(target@);
    }
    if text::contains(target, ":") {
        return None;
    }
    Some(target.to_owned())
}

/// The targets of a comma-separated list, trimmed, without the blank ones.
pub open spec fn targets_of(raw: Seq<char>) -> Seq<Seq<char>> {
    text::listed(text::pieces(raw, ','))
}

/// Splits a comma-separated list of targets.
pub fn split_targets(raw: &str) -> (r: Vec<String>)
    ensures
        text::views(r@) == targets_of(raw@),
{
    let parts = text::split(raw, ',');
    text::trim_all(&parts)
}

/// The targets to federate: those of the environment if it names any, else
/// those of the configuration, trimmed, without the blank ones.
pub open spec fn targets_from(env: Option<Seq<char>>, config: Seq<Seq<char>>) -> Seq<Seq<char>> {
    if env is Some && targets_of(env->0).len() > 0 {
        targets_of(env->0)
    } else {
        text::listed(config)
    }
}

/// The targets to federate, from the environment variable and from the
/// configuration file.
pub fn configured_targets(env: Option<String>, config: &Vec<String>) -> (r: Vec<String>)
    ensures
        text::views(r@) == targets_from(
            match env {
                Some(raw) => Some(raw@),
                None => None,
            },
            text::views(config@),
        ),
{
    if let Some(raw) = &env {
        let targets = split_targets(raw.as_str());
        assert(text::views(targets@).len() == targets@.len());
        if targets.len() > 0 {
            return targets;
        }
    }
    text::trim_all(config)
}

/// The names of the targets that have one, in order.
pub open spec fn names_of(targets: Seq<Seq<char>>) -> Seq<Seq<char>> {
    targets.filter(|t: Seq<char>| name_of(t) is Some)
}

/// The peers to supervise: those of the targets that have a name, under that
/// name.
pub fn peer_names(targets: &Vec<String>) -> (r: Vec<String>)
    ensures
        text::views(r@) == names_of(text::views(targets@)),
{
    let ghost all = text::views(targets@);
    let ghost keep = |t: Seq<char>| name_of(t) is Some;
    let mut out: Vec<String> = Vec::new();
    let mut i: usize = 0;
    proof {
        reveal(Seq::filter);
        assert(all.take(0) =~= Seq::<Seq<char>>::empty());
        assert(text::views(out@) =~= Seq::<Seq<char>>::empty());
    }
    while i < targets.len()
        invariant
            i <= targets@.len(),
            all == text::views(targets@),
            keep == (|t: Seq<char>| name_of(t) is Some),
            text::views(out@) == all.take(i as int).filter(keep),
        decreases targets@.len() - i,
    {
        let ghost before = out@;
        proof {
            assert(all[i as int] == targets@[i as int]@);
            assert(all.take(i + 1) =~= all.take(i as int).push(all[i as int]));
            all.take(i as int).lemma_filter_push(all[i as int], keep);
        }
        if let Some(name) = peer_name(targets[i].as_str()) {
            out.push(name);
            assert(text::views(out@) =~= text::views(before).push(all[i as int]));
        }
        i = i + 1;
    }
    assert(all.take(targets@.len() as int) =~= all);
    out
}

/// Every peer that is supervised has a name under which its sessions can be
/// addressed: whatever a nonempty remote id is, the federated id splits back.
pub proof fn supervised_peers_are_addressable(
    env: Option<Seq<char>>,
    config: Seq<Seq<char>>,
    i: int,
    remote: Seq<char>,
)
    requires
        0 <= i < names_of(targets_from(env, config)).len(),
        remote.len() > 0,
    ensures
        split_federated(federated(names_of(targets_from(env, config))[i], remote)) == Some(
            (names_of(targets_from(env, config))[i], remote),
        ),
{
    let targets = targets_from(env, config);
    let keep = |t: Seq<char>| name_of(t) is Some;
    let name = names_of(targets)[i];
    targets.lemma_filter_pred(keep, i);
    targets.lemma_filter_contains_rev(keep, name);
    let nonblank = |p: Seq<char>| p.len() > 0;
    let parts = if env is Some && targets_of(env->0).len() > 0 {
        text::pieces(env->0, ',')
    } else {
        config
    };
    let mapped = parts.map_values(|p: Seq<char>| text::trimmed(p));
    let k = choose|k: int| 0 <= k < targets.len() && targets[k] == name;
    mapped.lemma_filter_pred(nonblank, k);
    federated_ids_round_trip(name, remote);
}

// ---------------------------------------------------------------------------
// Calls to peers

/// How a call to a peer went.
pub enum CallProgress<T, E> {
    /// No peer of that name is federated.
    Unknown,
    /// The peer is not connected.
    Offline,
    /// The connection went away before the call was taken.
    NotTaken,
    /// The connection went away before the answer came.
    Dropped,
    /// The answer did not come in time.
    TimedOut,
    /// The peer answered.
    Answered(Result<T, E>),
}

/// Why a call to a peer failed.
#[derive(Debug)]
pub enum CallFailure<E> {
    /// A resource was not found, with the text to show.
    NotFound(String),
    /// The peer is not connected, with the text to show.
    Offline(String),
    /// The peer answered with this error.
    Remote(E),
}

/// A call that is routed to a peer for one of its sessions, or to list them.
#[derive(Debug, Clone, Copy, PartialEq, Eq, Structural)]
pub enum PeerMethod {
    ListSessions,
    LoadSession,
    Prompt,
    SetConfigOption,
    RenameSession,
    ArchiveSession,
    DeleteSession,
    ListTools,
    ListExtensions,
    AddExtension,
    RemoveExtension,
}

/// How many seconds a peer gets to list its sessions.
pub const PEER_LIST_TIMEOUT: u64 = 5;

/// How many seconds a peer gets to replay a session.
pub const PEER_LOAD_TIMEOUT: u64 = 30;

/// How many seconds a peer gets for a quick call.
pub const PEER_MANAGE_TIMEOUT: u64 = 10;

/// How many seconds a peer gets to answer.
pub open spec fn limit_of(method: PeerMethod) -> Option<u64> {
    match method {
        PeerMethod::ListSessions => Some(5),
        PeerMethod::LoadSession | PeerMethod::SetConfigOption => Some(30),
        PeerMethod::Prompt => None,
        _ => Some(10),
    }
}

/// A prompt may take as long as it takes, and every other call has a limit: five
/// seconds for a list, thirty where a session is replayed or set up, and ten
/// otherwise.
pub proof fn only_prompts_have_no_limit(method: PeerMethod)
    ensures
        limit_of(method) is None <==> method == PeerMethod::Prompt,
        limit_of(method) == Some(5u64) <==> method == PeerMethod::ListSessions,
        limit_of(method) == Some(30u64) <==> method == PeerMethod::LoadSession || method
            == PeerMethod::SetConfigOption,
        limit_of(method) is Some ==> 5 <= limit_of(method)->0 <= 30,
        limit_of(PeerMethod::DeleteSession) == Some(10u64),
        method != PeerMethod::ListSessions && method != PeerMethod::LoadSession && method
            != PeerMethod::SetConfigOption && method != PeerMethod::Prompt ==> limit_of(method)
            == limit_of(PeerMethod::DeleteSession),
{
}

/// How many seconds a peer gets to answer: few for a list, which every client
/// waits for, more for a session that is replayed, and no limit for a prompt.
pub fn time_limit(method: PeerMethod) -> (r: Option<u64>)
    ensures
        r == limit_of(method),
        r == (match method {
            PeerMethod::ListSessions => Some(5u64),
            PeerMethod::LoadSession | PeerMethod::SetConfigOption => Some(30u64),
            PeerMethod::Prompt => None::<u64>,
            _ => Some(10u64),
        }),
{
    match method {
        PeerMethod::ListSessions => Some(PEER_LIST_TIMEOUT),
        PeerMethod::LoadSession | PeerMethod::SetConfigOption => Some(PEER_LOAD_TIMEOUT),
        PeerMethod::Prompt => None,
        _ => Some(PEER_MANAGE_TIMEOUT),
    }
}

/// The text that names a peer which is not connected.
pub open spec fn offline_text(peer: Seq<char>) -> Seq<char> {
    "roam peer `"@ + peer + "` is not connected"@
}

/// The text that names a peer which is not federated.
pub open spec fn unknown_text(peer: Seq<char>) -> Seq<char> {
    "roam peer `"@ + peer + "` is not federated by this server"@
}

/// The text that names a peer which is not connected.
pub fn offline(peer: &str) -> (r: String)
    ensures
        r@ == offline_text(peer@),
{
    text::concat3("roam peer `", peer, "` is not connected")
}

/// Why a call to a peer failed, as mathematical values.
pub enum FailureView<E> {
    NotFound(Seq<char>),
    Offline(Seq<char>),
    Remote(E),
}

impl<E> View for CallFailure<E> {
    type V = FailureView<E>;

    open spec fn view(&self) -> FailureView<E> {
        match self {
            CallFailure::NotFound(m) => FailureView::NotFound(m@),
            CallFailure::Offline(m) => FailureView::Offline(m@),
            CallFailure::Remote(e) => FailureView::Remote(*e),
        }
    }
}

/// What a call to a peer comes to.
pub open spec fn outcome_of<T, E>(peer: Seq<char>, progress: CallProgress<T, E>) -> Result<
    T,
    FailureView<E>,
> {
    match progress {
        CallProgress::Answered(Ok(value)) => Ok(value),
        CallProgress::Answered(Err(e)) => Err(FailureView::Remote(e)),
        CallProgress::Unknown => Err(FailureView::NotFound(unknown_text(peer))),
        _ => Err(FailureView::Offline(offline_text(peer))),
    }
}

/// An answer of a peer is passed on as it came, a value as well as an error. No
/// answer comes to the same whatever kept it; and the peer is named both where
/// it did not answer and where it is not known.
pub proof fn answers_are_passed_on<T, E>(
    peer: Seq<char>,
    value: T,
    error: E,
    progress: CallProgress<T, E>,
)
    ensures
        outcome_of(peer, CallProgress::Answered(Ok::<T, E>(value))) == Ok::<T, FailureView<E>>(
            value,
        ),
        outcome_of(peer, CallProgress::Answered(Err::<T, E>(error))) == Err::<T, FailureView<E>>(
            FailureView::Remote(error),
        ),
        !(progress is Answered) && !(progress is Unknown) ==> outcome_of(peer, progress)
            == outcome_of(peer, CallProgress::<T, E>::Offline) && outcome_of(peer, progress)
            == Err::<T, FailureView<E>>(FailureView::Offline(offline_text(peer))),
        progress is Unknown ==> outcome_of(peer, progress) == Err::<T, FailureView<E>>(
            FailureView::NotFound(unknown_text(peer)),
        ),
        offline_text(peer).len() > 11 + peer.len(),
        offline_text(peer).subrange(11, 11int + peer.len()) == peer,
        unknown_text(peer).len() > 11 + peer.len(),
        unknown_text(peer).subrange(11, 11int + peer.len()) == peer,
{
    reveal_strlit("roam peer `");
    reveal_strlit("` is not connected");
    reveal_strlit("` is not federated by this server");
    assert(offline_text(peer).subrange(11, 11int + peer.len()) =~= peer);
    assert(unknown_text(peer).subrange(11, 11int + peer.len()) =~= peer);
}

/// What a call to `peer` comes to. A peer that is unknown is named, rather than
/// the session reported missing; whatever keeps an answer from coming counts as
/// the peer being offline.
pub fn call_result<T, E>(peer: &str, progress: CallProgress<T, E>) -> (r: Result<T, CallFailure<E>>)
    ensures
        match r {
            Ok(value) => outcome_of(peer@, progress) == Ok::<T, FailureView<E>>(value),
            Err(e) => outcome_of(peer@, progress) == Err::<T, FailureView<E>>(e@),
        },
        match progress {
            CallProgress::Answered(Ok(value)) => r == Ok::<T, CallFailure<E>>(value),
            CallProgress::Answered(Err(e)) => r == Err::<T, CallFailure<E>>(CallFailure::Remote(e)),
            CallProgress::Unknown => r matches Err(CallFailure::NotFound(m)) && m@ == unknown_text(
                peer@,
            ),
            _ => r matches Err(CallFailure::Offline(m)) && m@ == offline_text(peer@),
        },
{
    match progress {
        CallProgress::Answered(Ok(value)) => Ok(value),
        CallProgress::Answered(Err(e)) => Err(CallFailure::Remote(e)),
        CallProgress::Unknown => Err(
            CallFailure::NotFound(
                text::concat3("roam peer `", peer, "` is not federated by this server"),
            ),
        ),
        _ => Err(CallFailure::Offline(offline(peer))),
    }
}

/// Whether `found` is the place of the first peer with a name.
pub open spec fn is_place_of(names: Seq<Seq<char>>, name: Seq<char>, found: Option<int>) -> bool {
    match found {
        Some(i) => 0 <= i < names.len() && names[i] == name && forall|j: int|
            0 <= j < i ==> #[trigger] names[j] != name,
        None => !names.contains(name),
    }
}

/// Every federated peer is found by its name, wherever in the list it stands; a
/// name that no peer has is not found; and names that differ lead to different
/// peers.
pub proof fn every_peer_is_found(
    names: Seq<Seq<char>>,
    k: int,
    found: Option<int>,
    other: Seq<char>,
    other_found: Option<int>,
)
    requires
        0 <= k < names.len(),
        is_place_of(names, names[k], found),
        is_place_of(names, other, other_found),
        other != names[k],
    ensures
        found is Some,
        0 <= found->0 <= k,
        names[found->0] == names[k],
        names.no_duplicates() ==> found == Some(k),
        other_found != found,
        (forall|i: int| 0 <= i < names.len() ==> #[trigger] names[i] != other) ==> other_found is None,
{
    assert(names.contains(names[k]));
    if let Some(i) = found {
        if i > k {
            assert(names[k] != names[k]);
        }
    }
    if let Some(i) = other_found {
        assert(names[i] == other);
    }
}

/// The place of the first peer with a name, if there is one.
pub fn peer_index(names: &Vec<String>, name: &str) -> (r: Option<usize>)
    ensures
        is_place_of(
            text::views(names@),
            name@,
            match r {
                Some(i) => Some(i as int),
                None => None,
            },
        ),
        match r {
            Some(i) => i < names@.len() && names@[i as int]@ == name@ && forall|j: int|
                0 <= j < i ==> (#[trigger] names@[j])@ != name@,
            None => !text::views(names@).contains(name@),
        },
{
    let mut i: usize = 0;
    while i < names.len()
        invariant
            i <= names@.len(),
            forall|j: int| 0 <= j < i ==> (#[trigger] names@[j])@ != name@,
        decreases names@.len() - i,
    {
        if text::same(names[i].as_str(), name) {
            assert(text::views(names@)[i as int] == name@);
            assert forall|j: int| 0 <= j < i implies #[trigger] text::views(names@)[j] != name@ by {
                assert(names@[j]@ != name@);
            }
            return Some(i);
        }
        i = i + 1;
    }
    proof {
        if text::views(names@).contains(name@) {
            let k = choose|k: int| 0 <= k < names@.len() && text::views(names@)[k] == name@;
            assert(names@[k]@ == name@);
        }
    }
    None
}

/// The answer to a permission request of a peer.
pub open spec fn answered<T>(queued: bool, attached: bool, answer: Option<T>) -> Option<T> {
    if queued && attached {
        answer
    } else {
        None
    }
}

/// Permission is granted only by the client that is attached, and only where the
/// request got there: otherwise it is denied, and an answer of that client is
/// passed on as it came.
pub proof fn only_the_attached_client_grants<T>(queued: bool, attached: bool, answer: T)
    ensures
        answered(queued, attached, Some(answer)) is Some <==> queued && attached,
        answered(true, true, Some(answer)) == Some(answer),
        answered::<T>(queued, attached, None) is None,
{
}

/// The answer to a permission request of a peer. The request is queued for the
/// client, unless the queue is closed, and put to the client that is attached,
/// if there is one. The answer is the client's; where the request does not get
/// there, is dropped from the queue or is not answered, it is none, and so
/// cancelled: the remote agent is denied rather than left waiting.
pub fn permission_answer<T>(queued: bool, attached: bool, answer: Option<T>) -> (r: Option<T>)
    ensures
        r == answered(queued, attached, answer),
        r == (if queued && attached {
            answer
        } else {
            None
        }),
{
    if queued && attached {
        answer
    } else {
        None
    }
}

// ---------------------------------------------------------------------------
// Queueing events

/// How many events can queue for the client before the oldest are dropped. A
/// client that cannot keep up would rather lose stream chunks than stall the
/// remote agent.
pub const EVENT_QUEUE: usize = 256;

/// The queue after an event came in: it stands last, and where the queue was
/// full the oldest is gone.
pub open spec fn queued<T>(events: Seq<T>, event: T) -> Seq<T> {
    if events.len() < EVENT_QUEUE {
        events.push(event)
    } else {
        events.drop_first().push(event)
    }
}

/// The queue after events came in one after the other, and none was taken out.
pub open spec fn all_queued<T>(events: Seq<T>, arrivals: Seq<T>) -> Seq<T>
    decreases arrivals.len(),
{
    if arrivals.len() == 0 {
        events
    } else {
        queued(all_queued(events, arrivals.drop_last()), arrivals.last())
    }
}

/// What is taken out of a queue, and what is left in it.
pub open spec fn taken<T>(events: Seq<T>) -> (Option<T>, Seq<T>) {
    if events.len() == 0 {
        (None, events)
    } else {
        (Some(events.first()), events.drop_first())
    }
}

/// Events are taken out in the order in which they came in, one at a time, and
/// nothing is taken out of an empty queue.
pub proof fn events_come_out_in_order<T>(first: T, rest: Seq<T>)
    ensures
        taken(seq![first] + rest) == (Some(first), rest),
        taken(Seq::<T>::empty()) == (None::<T>, Seq::<T>::empty()),
{
    assert((seq![first] + rest).drop_first() =~= rest);
}

/// The events that wait for the client, the oldest first.
pub struct EventQueue<T> {
    events: VecDeque<T>,
}

impl<T> View for EventQueue<T> {
    type V = Seq<T>;

    closed spec fn view(&self) -> Seq<T> {
        self.events@
    }
}

impl<T> EventQueue<T> {
    /// No more events wait than can queue.
    pub open spec fn wf(&self) -> bool {
        self@.len() <= EVENT_QUEUE
    }

    /// A queue in which nothing waits.
    pub fn new() -> (r: EventQueue<T>)
        ensures
            r.wf(),
            r@ == Seq::<T>::empty(),
    {
        EventQueue { events: VecDeque::new() }
    }

    /// Queues an event behind the others. Where the queue is full, the oldest
    /// event is taken out and given back.
    pub fn push(&mut self, event: T) -> (r: Option<T>)
        requires
            old(self).wf(),
        ensures
            final(self).wf(),
            final(self)@ == queued(old(self)@, event),
            r == (if old(self)@.len() < EVENT_QUEUE {
                None
            } else {
                Some(old(self)@.first())
            }),
    {
        let mut dropped: Option<T> = None;
        if self.events.len() >= EVENT_QUEUE {
            dropped = self.events.pop_front();
        }
        self.events.push_back(event);
        assert(self@ == queued(old(self)@, event));
        dropped
    }

    /// Takes the oldest event out, if any waits.
    pub fn pop(&mut self) -> (r: Option<T>)
        requires
            old(self).wf(),
        ensures
            final(self).wf(),
            (r, final(self)@) == taken(old(self)@),
            match r {
                Some(event) => old(self)@.len() > 0 && event == old(self)@.first()
                    && final(self)@ == old(self)@.drop_first(),
                None => old(self)@.len() == 0 && final(self)@ == old(self)@,
            },
    {
        let oldest = self.events.pop_front();
        proof {
            if oldest is Some {
                assert(self@ == old(self)@.drop_first());
            }
        }
        oldest
    }
}

impl<T> Default for EventQueue<T> {
    /// A queue in which nothing waits.
    fn default() -> (r: EventQueue<T>)
        ensures
            r.wf(),
            r@ == Seq::<T>::empty(),
    {
        EventQueue::new()
    }
}

/// What waits when events came in and none was taken out is the newest of them,
/// in the order in which they came: all while they fit, and otherwise as many as
/// can queue.
pub proof fn the_newest_events_wait<T>(events: Seq<T>, arrivals: Seq<T>)
    requires
        events.len() <= EVENT_QUEUE,
    ensures
        all_queued(events, arrivals) == (if events.len() + arrivals.len() <= EVENT_QUEUE {
            events + arrivals
        } else {
            (events + arrivals).skip(events.len() + arrivals.len() - EVENT_QUEUE)
        }),
    decreases arrivals.len(),
{
    let all = events + arrivals;
    if arrivals.len() == 0 {
        assert(all =~= events);
    } else {
        the_newest_events_wait(events, arrivals.drop_last());
        let before = events + arrivals.drop_last();
        assert(all =~= before.push(arrivals.last()));
        if all.len() > EVENT_QUEUE {
            assert(all_queued(events, arrivals) =~= all.skip(all.len() - EVENT_QUEUE));
        }
    }
}

// ---------------------------------------------------------------------------
// Listing sessions

/// One session of a list. What clients show of it besides is carried through.
pub struct SessionInfo<P> {
    pub session_id: String,
    pub updated_at: Option<String>,
    pub rest: P,
}

/// One session as mathematical values.
pub struct SessionView<P> {
    pub session_id: Seq<char>,
    pub updated_at: Option<Seq<char>>,
    pub rest: P,
}

/// The characters of an optional text.
pub open spec fn text_view(t: Option<String>) -> Option<Seq<char>> {
    match t {
        Some(s) => Some(s@),
        None => None,
    }
}

impl<P> View for SessionInfo<P> {
    type V = SessionView<P>;

    open spec fn view(&self) -> SessionView<P> {
        SessionView {
            session_id: self.session_id@,
            updated_at: text_view(self.updated_at),
            rest: self.rest,
        }
    }
}

/// The views of a list of sessions.
pub open spec fn session_views<P>(list: Seq<SessionInfo<P>>) -> Seq<SessionView<P>> {
    list.map_values(|s: SessionInfo<P>| s@)
}

/// One page of sessions, and where the next one begins.
pub struct SessionPage<P> {
    pub sessions: Vec<SessionInfo<P>>,
    pub next_cursor: Option<String>,
}

/// What came of asking a peer for its sessions.
pub enum PeerListing<P> {
    /// The peer is offline, did not answer in time, or failed.
    Absent,
    /// The peer's first page.
    Page(SessionPage<P>),
}

/// A peer, and what came of asking it for its sessions.
pub struct PeerSessions<P> {
    pub peer: String,
    pub listing: PeerListing<P>,
}

/// The instant by which a session is ordered; a text that is no time counts as
/// missing.
pub open spec fn sort_instant(updated_at: Option<Seq<char>>) -> Option<(i64, u32)> {
    match updated_at {
        Some(t) => instant::rfc3339_instant(t),
        None => None,
    }
}

/// A remote session as the client sees it.
pub open spec fn readdressed<P>(peer: Seq<char>, s: SessionView<P>) -> SessionView<P> {
    SessionView { session_id: federated(peer, s.session_id), ..s }
}

/// The sessions that a peer contributes.
pub open spec fn contributed<P>(p: PeerSessions<P>) -> Seq<SessionView<P>> {
    match p.listing {
        PeerListing::Absent => Seq::empty(),
        PeerListing::Page(page) => session_views(page.sessions@).map_values(
            |s: SessionView<P>| readdressed(p.peer@, s),
        ),
    }
}

/// The local sessions, followed by those that each peer contributes.
pub open spec fn gathered<P>(local: Seq<SessionView<P>>, peers: Seq<PeerSessions<P>>) -> Seq<
    SessionView<P>,
>
    decreases peers.len(),
{
    if peers.len() == 0 {
        local
    } else {
        gathered(local, peers.drop_last()) + contributed(peers.last())
    }
}

/// Sessions with the instants by which they are ordered.
pub open spec fn dated<P>(list: Seq<SessionView<P>>) -> Seq<(
    Option<(i64, u32)>,
    SessionView<P>,
)> {
    list.map_values(|s: SessionView<P>| (sort_instant(s.updated_at), s))
}

/// The instant by which a session is ordered.
pub fn sort_key(updated_at: Option<&str>) -> (r: Option<(i64, u32)>)
    ensures
        r == sort_instant(
            match updated_at {
                Some(t) => Some(t@),
                None => None,
            },
        ),
{
    match updated_at {
        Some(t) => instant::parse_instant(t),
        None => None,
    }
}

/// Re-addresses a remote session so that the client can refer back to it.
pub fn rewrite<P>(peer: &str, info: SessionInfo<P>) -> (r: SessionInfo<P>)
    ensures
        r@ == readdressed(peer@, info@),
{
    let session_id = federated_id(peer, info.session_id.as_str());
    SessionInfo { session_id, updated_at: info.updated_at, rest: info.rest }
}

fn append_page<P>(out: &mut Vec<SessionInfo<P>>, peer: &str, sessions: Vec<SessionInfo<P>>)
    ensures
        session_views(final(out)@) == session_views(old(out)@) + session_views(
            sessions@,
        ).map_values(|s: SessionView<P>| readdressed(peer@, s)),
{
    let ghost start = session_views(out@);
    let ghost all = session_views(sessions@).map_values(
        |s: SessionView<P>| readdressed(peer@, s),
    );
    assert(start + all.take(0) =~= start);
    for info in it: sessions
        invariant
            it.seq() == sessions@,
            all == session_views(sessions@).map_values(
                |s: SessionView<P>| readdressed(peer@, s),
            ),
            session_views(out@) == start + all.take(it.index()),
    {
        let ghost before = out@;
        let ghost k = it.index();
        assert(all[k] == readdressed(peer@, info@));
        out.push(rewrite(peer, info));
        assert(session_views(out@) =~= session_views(before).push(all[k]));
        assert(start + all.take(k + 1) =~= (start + all.take(k)).push(all[k]));
    }
    assert(all.take(sessions@.len() as int) =~= all);
}

/// The local sessions, followed by those of each peer, re-addressed.
fn gather<P>(local: Vec<SessionInfo<P>>, peers: Vec<PeerSessions<P>>) -> (r: Vec<SessionInfo<P>>)
    ensures
        session_views(r@) == gathered(session_views(local@), peers@),
{
    let ghost first = session_views(local@);
    let mut out = local;
    assert(peers@.take(0) =~= Seq::<PeerSessions<P>>::empty());
    for p in it: peers
        invariant
            it.seq() == peers@,
            session_views(out@) == gathered(first, peers@.take(it.index())),
    {
        let ghost k = it.index();
        assert(peers@.take(k + 1).drop_last() =~= peers@.take(k));
        assert(peers@.take(k + 1).last() == p);
        let ghost before = session_views(out@);
        match p.listing {
            PeerListing::Absent => {
                assert(before + Seq::<SessionView<P>>::empty() =~= before);
            },
            PeerListing::Page(page) => {
                append_page(&mut out, p.peer.as_str(), page.sessions);
            },
        }
    }
    assert(peers@.take(peers@.len() as int) =~= peers@);
    out
}

/// Whether `sorted` are the sessions of `list`, the newest first; sessions of
/// one instant keep their order, and those without one come last.
pub open spec fn newest_sessions_first<P>(
    list: Seq<SessionView<P>>,
    sorted: Seq<SessionView<P>>,
) -> bool {
    ranking::ordered_from(ranking::order_of::<Instant>(), dated(list), dated(sorted))
}

/// Orders sessions with the newest first.
pub fn sort_sessions<P>(sessions: Vec<SessionInfo<P>>) -> (r: Vec<SessionInfo<P>>)
    ensures
        newest_sessions_first(session_views(sessions@), session_views(r@)),
{
    let mut list: Vec<Ranked<Instant, SessionInfo<P>>> = Vec::new();
    for info in it: sessions
        invariant
            it.seq() == sessions@,
            list@.len() == it.index(),
            forall|j: int|
                0 <= j < it.index() ==> (#[trigger] list@[j]).item == sessions@[j]
                    && list@[j].rank@ == sort_instant(sessions@[j]@.updated_at),
    {
        let at = match &info.updated_at {
            Some(t) => sort_key(Some(t.as_str())),
            None => sort_key(None),
        };
        list.push(Ranked { rank: Instant { at }, item: info });
    }
    let sorted = ranking::put_in_order(list);
    let ghost whole = sorted@;
    let mut out: Vec<SessionInfo<P>> = Vec::new();
    for x in it: sorted
        invariant
            it.seq() == whole,
            out@.len() == it.index(),
            forall|j: int| 0 <= j < it.index() ==> #[trigger] out@[j] == whole[j].item,
    {
        out.push(x.item);
    }
    proof {
        let ahead = ranking::order_of::<Instant>();
        let view = |s: SessionInfo<P>| s@;
        let a = ranking::ranks(list@);
        let b = ranking::ranks(whole);
        assert forall|j: int| 0 <= j < b.len() implies (#[trigger] b[j]).0 == sort_instant(
            b[j].1@.updated_at,
        ) by {
            ranking::ordered_items_were_there(ahead, a, b, j);
            let k = choose|k: int| 0 <= k < a.len() && a[k] == b[j];
            assert(a[k] == (list@[k].rank@, list@[k].item));
        }
        ranking::ordering_commutes_with_mapping(ahead, a, b, view);
        assert(ranking::mapped(a, view) =~= dated(session_views(sessions@)));
        assert forall|j: int| 0 <= j < out@.len() implies #[trigger] dated(
            session_views(out@),
        )[j] == ranking::mapped(b, view)[j] by {
            assert(b[j] == (whole[j].rank@, whole[j].item));
            assert(out@[j] == whole[j].item);
        }
        assert(ranking::mapped(b, view) =~= dated(session_views(out@)));
    }
    out
}

/// Whether `page` is the local page merged with the sessions of the peers.
pub open spec fn merges<P>(
    cursor: Option<&str>,
    local: SessionPage<P>,
    peers: Seq<PeerSessions<P>>,
    page: SessionPage<P>,
) -> bool {
    &&& page.next_cursor == local.next_cursor
    &&& cursor is Some ==> page == local
    &&& cursor is None ==> newest_sessions_first(
        gathered(session_views(local.sessions@), peers),
        session_views(page.sessions@),
    )
}

/// Adds every present peer's sessions to a page that was made locally, and
/// orders the whole with the newest first. Only the first page, which is asked
/// for without a cursor, is merged; later pages stay as they are. The cursor of
/// the next page stays too, so local pagination works as before.
pub fn merge_sessions<P>(
    cursor: Option<&str>,
    local: SessionPage<P>,
    peers: Vec<PeerSessions<P>>,
) -> (r: SessionPage<P>)
    ensures
        merges(cursor, local, peers@, r),
        r.next_cursor == local.next_cursor,
        cursor is Some ==> r == local,
        cursor is None ==> newest_sessions_first(
            gathered(session_views(local.sessions@), peers@),
            session_views(r.sessions@),
        ),
{
    if cursor.is_some() {
        return local;
    }
    let all = gather(local.sessions, peers);
    SessionPage { sessions: sort_sessions(all), next_cursor: local.next_cursor }
}

/// A peer that is absent shortens the list and changes nothing else: the list
/// is gathered as if the peer were not federated.
pub proof fn absent_peers_are_left_out<P>(
    local: Seq<SessionView<P>>,
    before: Seq<PeerSessions<P>>,
    absent: PeerSessions<P>,
)
    requires
        absent.listing is Absent,
    ensures
        gathered(local, before.push(absent)) == gathered(local, before),
{
    assert(before.push(absent).drop_last() =~= before);
    assert(gathered(local, before) + Seq::<SessionView<P>>::empty() =~= gathered(local, before));
}

/// Merging loses no session and invents none: what is listed are the local
/// sessions and the re-addressed remote ones, each as often as it was there.
pub proof fn merging_is_a_permutation<P>(list: Seq<SessionView<P>>, sorted: Seq<SessionView<P>>)
    requires
        newest_sessions_first(list, sorted),
    ensures
        sorted.to_multiset() == list.to_multiset(),
{
    ranking::ordering_is_a_permutation(
        ranking::order_of::<Instant>(),
        dated(list),
        dated(sorted),
    );
    assert forall|s: SessionView<P>| sorted.to_multiset().count(s) == list.to_multiset().count(
        s,
    ) by {
        lemma_dated_count(sorted, s);
        lemma_dated_count(list, s);
    }
    assert(sorted.to_multiset() =~= list.to_multiset());
}

proof fn lemma_dated_count<P>(list: Seq<SessionView<P>>, s: SessionView<P>)
    ensures
        list.to_multiset().count(s) == dated(list).to_multiset().count(
            (sort_instant(s.updated_at), s),
        ),
    decreases list.len(),
{
    broadcast use vstd::seq_lib::group_to_multiset_ensures;

    if list.len() == 0 {
        assert(list =~= Seq::<SessionView<P>>::empty());
        assert(dated(list) =~= Seq::<(Option<(i64, u32)>, SessionView<P>)>::empty());
    } else {
        let init = list.drop_last();
        let last = list.last();
        lemma_dated_count(init, s);
        assert(list =~= init.push(last));
        assert(dated(list) =~= dated(init).push((sort_instant(last.updated_at), last)));
    }
}

/// The order of a merged list is fixed by the sessions in it: two lists that
/// are both the newest first are the same.
pub proof fn merged_order_is_unique<P>(
    list: Seq<SessionView<P>>,
    a: Seq<SessionView<P>>,
    b: Seq<SessionView<P>>,
)
    requires
        newest_sessions_first(list, a),
        newest_sessions_first(list, b),
    ensures
        a == b,
{
    <Instant as ranking::Rank>::is_total_order();
    ranking::order_is_unique(ranking::order_of::<Instant>(), dated(list), dated(a), dated(b));
    assert(dated(a).len() == a.len() && dated(b).len() == b.len());
    assert forall|i: int| 0 <= i < a.len() implies a[i] == b[i] by {
        assert(dated(a)[i].1 == dated(b)[i].1);
    }
    assert(a =~= b);
}

// ---------------------------------------------------------------------------
// What holds of federation

/// The instant of a session: what its text denotes, if it has one.
pub open spec fn instant_of<P>(s: SessionView<P>) -> Option<(i64, u32)> {
    if s.updated_at is Some {
        instant::rfc3339_instant(s.updated_at->0)
    } else {
        None
    }
}

/// A session that was updated in a later second stands before one that was
/// updated in an earlier one, whatever the fractions; within one second the
/// greater fraction stands first.
pub proof fn newer_sessions_stand_first<P>(
    list: Seq<SessionView<P>>,
    sorted: Seq<SessionView<P>>,
    i: int,
    j: int,
    at: (i64, u32),
    other: (i64, u32),
)
    requires
        newest_sessions_first(list, sorted),
        0 <= i < sorted.len(),
        0 <= j < sorted.len(),
        instant_of(sorted[i]) == Some(at),
        instant_of(sorted[j]) == Some(other),
    ensures
        at.0 > other.0 ==> i < j,
        at.0 == other.0 && at.1 > other.1 ==> i < j,
{
    let d = dated(sorted);
    assert(d[i].0 == instant_of(sorted[i]));
    assert(d[j].0 == instant_of(sorted[j]));
    if j < i {
        assert(!(ranking::order_of::<Instant>())(d[i].0, d[j].0));
    }
}

/// A session without an instant stands behind all that have one.
pub proof fn undated_sessions_stand_last<P>(
    list: Seq<SessionView<P>>,
    sorted: Seq<SessionView<P>>,
    i: int,
    j: int,
)
    requires
        newest_sessions_first(list, sorted),
        0 <= i < sorted.len(),
        0 <= j < sorted.len(),
        instant_of(sorted[i]) is Some,
        instant_of(sorted[j]) is None,
    ensures
        i < j,
{
    let d = dated(sorted);
    assert(d[i].0 == instant_of(sorted[i]));
    assert(d[j].0 == instant_of(sorted[j]));
    if j < i {
        assert(!(ranking::order_of::<Instant>())(d[i].0, d[j].0));
    }
}

/// Sessions of one instant keep the order in which they were gathered.
pub proof fn sessions_of_one_instant_keep_their_order<P>(
    list: Seq<SessionView<P>>,
    sorted: Seq<SessionView<P>>,
    at: Option<(i64, u32)>,
)
    requires
        newest_sessions_first(list, sorted),
    ensures
        sorted.filter(|s: SessionView<P>| instant_of(s) == at) == list.filter(
            |s: SessionView<P>| instant_of(s) == at,
        ),
{
    lemma_group_of_instant(list, at);
    lemma_group_of_instant(sorted, at);
    assert(ranking::of_rank(dated(sorted), at) == ranking::of_rank(dated(list), at));
    let same = |s: SessionView<P>| instant_of(s) == at;
    let a = dated(list.filter(same));
    let b = dated(sorted.filter(same));
    assert(a.len() == list.filter(same).len() && b.len() == sorted.filter(same).len());
    assert forall|k: int| 0 <= k < a.len() implies list.filter(same)[k] == sorted.filter(same)[k] by {
        assert(a[k].1 == list.filter(same)[k]);
        assert(b[k].1 == sorted.filter(same)[k]);
    }
    assert(sorted.filter(same) =~= list.filter(same));
}

proof fn lemma_group_of_instant<P>(list: Seq<SessionView<P>>, at: Option<(i64, u32)>)
    ensures
        ranking::of_rank(dated(list), at) == dated(
            list.filter(|s: SessionView<P>| instant_of(s) == at),
        ),
    decreases list.len(),
{
    let same = |s: SessionView<P>| instant_of(s) == at;
    reveal(Seq::filter);
    if list.len() == 0 {
        ranking::groups_grow_at_the_end(dated(list), (None, arbitrary()), at);
        assert(dated(list) =~= Seq::<(Option<(i64, u32)>, SessionView<P>)>::empty());
        assert(list.filter(same) =~= Seq::<SessionView<P>>::empty());
        assert(dated(list.filter(same)) =~= Seq::<(Option<(i64, u32)>, SessionView<P>)>::empty());
    } else {
        let init = list.drop_last();
        let last = list.last();
        let pair = (sort_instant(last.updated_at), last);
        lemma_group_of_instant(init, at);
        assert(list =~= init.push(last));
        assert(dated(list) =~= dated(init).push(pair));
        init.lemma_filter_push(last, same);
        ranking::groups_grow_at_the_end(dated(init), pair, at);
        assert(dated(init.filter(same).push(last)) =~= dated(init.filter(same)).push(pair));
        assert(pair.0 == instant_of(last));
        assert(list.filter(same) == (if same(last) {
            init.filter(same).push(last)
        } else {
            init.filter(same)
        }));
    }
}

/// Each present peer adds its sessions, all of them and in order, behind what
/// was gathered before. Each is addressed through the peer, so that its id leads
/// back there, and stays as it is otherwise.
pub proof fn peers_add_their_sessions<P>(
    local: Seq<SessionView<P>>,
    before: Seq<PeerSessions<P>>,
    peer: String,
    page: SessionPage<P>,
)
    ensures
        gathered(local, Seq::empty()) == local,
        ({
            let was = gathered(local, before);
            let now = gathered(
                local,
                before.push(PeerSessions { peer, listing: PeerListing::Page(page) }),
            );
            &&& now.len() == was.len() + page.sessions@.len()
            &&& now.take(was.len() as int) == was
            &&& forall|k: int|
                0 <= k < page.sessions@.len() ==> {
                    let s = #[trigger] now[was.len() + k];
                    &&& s.session_id == federated(peer@, page.sessions@[k].session_id@)
                    &&& s.updated_at == text_view(page.sessions@[k].updated_at)
                    &&& s.rest == page.sessions@[k].rest
                    &&& peer@.len() > 0 && !peer@.contains(':')
                        && page.sessions@[k].session_id@.len() > 0 ==> split_federated(s.session_id)
                        == Some((peer@, page.sessions@[k].session_id@))
                }
        }),
{
    let p = PeerSessions { peer, listing: PeerListing::Page(page) };
    let was = gathered(local, before);
    let now = gathered(local, before.push(p));
    assert(before.push(p).drop_last() =~= before);
    assert(now =~= was + contributed(p));
    assert(now.take(was.len() as int) =~= was);
    assert forall|k: int| 0 <= k < page.sessions@.len() implies {
        let s = #[trigger] now[was.len() + k];
        &&& s.session_id == federated(peer@, page.sessions@[k].session_id@)
        &&& s.updated_at == text_view(page.sessions@[k].updated_at)
        &&& s.rest == page.sessions@[k].rest
        &&& peer@.len() > 0 && !peer@.contains(':') && page.sessions@[k].session_id@.len() > 0
            ==> split_federated(s.session_id) == Some((peer@, page.sessions@[k].session_id@))
    } by {
        assert(now[was.len() + k] == contributed(p)[k]);
        assert(contributed(p)[k] == readdressed(peer@, page.sessions@[k]@));
        if peer@.len() > 0 && !peer@.contains(':') && page.sessions@[k].session_id@.len() > 0 {
            federated_ids_round_trip(peer@, page.sessions@[k].session_id@);
        }
    }
}

/// The local sessions are all listed, under their own ids.
pub proof fn local_sessions_stay_as_they_are<P>(
    local: Seq<SessionView<P>>,
    peers: Seq<PeerSessions<P>>,
)
    ensures
        gathered(local, peers).len() >= local.len(),
        gathered(local, peers).take(local.len() as int) == local,
    decreases peers.len(),
{
    if peers.len() == 0 {
        assert(local.take(local.len() as int) =~= local);
    } else {
        local_sessions_stay_as_they_are(local, peers.drop_last());
        let init = gathered(local, peers.drop_last());
        assert((init + contributed(peers.last())).take(local.len() as int) =~= init.take(
            local.len() as int,
        ));
    }
}

/// Every nickname among the targets is supervised, in order and under its own
/// name; a target with a colon is left out, and nothing else is.
pub proof fn nicknames_are_supervised(targets: Seq<Seq<char>>, t: Seq<char>)
    ensures
        names_of(Seq::empty()) == Seq::<Seq<char>>::empty(),
        t.contains(':') ==> names_of(targets.push(t)) == names_of(targets),
        !t.contains(':') ==> names_of(targets.push(t)) == names_of(targets).push(t),
{
    reveal(Seq::filter);
    let keep = |x: Seq<char>| name_of(x) is Some;
    targets.lemma_filter_push(t, keep);
}

/// A comma separates targets: those of two texts with a comma between them are
/// those of the first and then those of the second. A text without a comma is
/// one target, trimmed, or none if it is blank.
pub proof fn commas_separate_targets(a: Seq<char>, b: Seq<char>)
    ensures
        targets_of(a + seq![','] + b) == targets_of(a) + targets_of(b),
        !a.contains(',') ==> targets_of(a) == (if forall|i: int|
            0 <= i < a.len() ==> text::white(#[trigger] a[i]) {
            Seq::empty()
        } else {
            seq![text::trimmed(a)]
        }),
{
    text::pieces_stand_between_separators(a, b, ',');
    text::lists_follow_one_another(text::pieces(a, ','), text::pieces(b, ','));
    text::listing_keeps_what_is_not_blank(Seq::empty(), a);
    assert(Seq::<Seq<char>>::empty().push(a) =~= seq![a]);
    assert(Seq::<Seq<char>>::empty().push(text::trimmed(a)) =~= seq![text::trimmed(a)]);
}

/// The environment decides which peers are federated wherever it names any, and
/// otherwise the configuration does.
pub proof fn the_environment_comes_first(env: Seq<char>, config: Seq<Seq<char>>)
    ensures
        targets_of(env).len() > 0 ==> targets_from(Some(env), config) == targets_of(env),
        targets_of(env).len() == 0 ==> targets_from(Some(env), config) == targets_from(
            None,
            config,
        ),
        targets_from(None, config) == text::listed(config),
{
}

/// A first page lists every local session under its own id, and every session of
/// every peer that is present under an id that names the peer; it has no other
/// rows. A later page, and the cursor of any page, stay as they are.
pub proof fn first_pages_list_every_session<P>(
    local: SessionPage<P>,
    peers: Seq<PeerSessions<P>>,
    page: SessionPage<P>,
    cursor: &str,
    later: SessionPage<P>,
    i: int,
    p: int,
    listed: SessionPage<P>,
    k: int,
)
    requires
        merges(None, local, peers, page),
        merges(Some(cursor), local, peers, later),
        0 <= i < local.sessions@.len(),
        0 <= p < peers.len(),
        peers[p].listing == PeerListing::Page(listed),
        0 <= k < listed.sessions@.len(),
    ensures
        later == local,
        page.next_cursor == local.next_cursor,
        session_views(page.sessions@).contains(local.sessions@[i]@),
        session_views(page.sessions@).contains(
            (SessionView {
                session_id: federated(peers[p].peer@, listed.sessions@[k].session_id@),
                updated_at: text_view(listed.sessions@[k].updated_at),
                rest: listed.sessions@[k].rest,
            }),
        ),
        page.sessions@.len() == gathered(session_views(local.sessions@), peers).len(),
{
    broadcast use vstd::seq_lib::group_to_multiset_ensures;

    let first = session_views(local.sessions@);
    let all = gathered(first, peers);
    let shown = session_views(page.sessions@);
    merging_is_a_permutation(all, shown);
    local_sessions_stay_as_they_are(first, peers);
    assert(first[i] == local.sessions@[i]@);
    assert(all.take(first.len() as int)[i] == first[i]);
    assert(all.contains(first[i]));
    assert(all.to_multiset().count(first[i]) > 0);
    assert(shown.to_multiset().count(first[i]) > 0);
    lemma_gathered_holds(first, peers, p, listed, k);
    let remote = readdressed(peers[p].peer@, listed.sessions@[k]@);
    assert(all.to_multiset().count(remote) > 0);
    assert(shown.to_multiset().count(remote) > 0);
    assert(all.to_multiset().len() == all.len());
    assert(shown.to_multiset().len() == shown.len());
}

proof fn lemma_gathered_holds<P>(
    local: Seq<SessionView<P>>,
    peers: Seq<PeerSessions<P>>,
    p: int,
    listed: SessionPage<P>,
    k: int,
)
    requires
        0 <= p < peers.len(),
        peers[p].listing == PeerListing::Page(listed),
        0 <= k < listed.sessions@.len(),
    ensures
        gathered(local, peers).contains(readdressed(peers[p].peer@, listed.sessions@[k]@)),
    decreases peers.len(),
{
    let init = peers.drop_last();
    let before = gathered(local, init);
    let more = contributed(peers.last());
    let x = readdressed(peers[p].peer@, listed.sessions@[k]@);
    if p == init.len() {
        assert(more[k] == x);
        assert((before + more)[before.len() + k] == x);
    } else {
        assert(init[p] == peers[p]);
        lemma_gathered_holds(local, init, p, listed, k);
        let j = choose|j: int| 0 <= j < before.len() && before[j] == x;
        assert((before + more)[j] == x);
    }
}

} // verus!
