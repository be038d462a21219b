//! Sharing one live session among roaming peers, and serving each peer its own.
//!
//! One client to the local agent is served on to every peer: updates go to all,
//! prompts come back by role, and only the controller is asked for permission.

use vstd::prelude::*;
use vstd::string::StringExecFns;

use crate::broker::{self, Refused, Role, Route, SessionBroker, SubscriberId};
use crate::scope::Scope;
use crate::text;

verus! {

/// What the shared session runs against. The directory `P` is carried through.
#[derive(Debug, Clone)]
pub enum ResumeTarget<P> {
    /// A new session in `cwd`.
    New { cwd: P },
    /// The kept session `session_id`, activated in `cwd`.
    Existing { session_id: String, cwd: P },
}

/// How the agent is told to start: a new session is built; a kept one is
/// loaded, and attached to under its own id.
pub enum StartPlan<P> {
    Build { cwd: P },
    LoadAndAttach { session_id: String, cwd: P },
}

/// How the agent is told to start.
pub open spec fn started<P>(target: ResumeTarget<P>) -> StartPlan<P> {
    match target {
        ResumeTarget::New { cwd } => StartPlan::Build { cwd },
        ResumeTarget::Existing { session_id, cwd } => StartPlan::LoadAndAttach { session_id, cwd },
    }
}

/// A kept session is resumed under its own id and never built anew, a new one is
/// built and never loaded, and each in the directory that was given.
pub proof fn kept_sessions_are_resumed<P>(session_id: String, cwd: P)
    ensures
        started(ResumeTarget::Existing { session_id, cwd }) == (StartPlan::LoadAndAttach {
            session_id,
            cwd,
        }),
        started(ResumeTarget::New { cwd }) == (StartPlan::Build { cwd }),
{
}

impl<P> ResumeTarget<P> {
    /// How the agent is told to start.
    pub fn plan(self) -> (r: StartPlan<P>)
        ensures
            r == started(self),
            match self {
                ResumeTarget::New { cwd } => r == (StartPlan::Build { cwd }),
                ResumeTarget::Existing { session_id, cwd } => r == (StartPlan::LoadAndAttach {
                    session_id,
                    cwd,
                }),
            },
    {
        match self {
            ResumeTarget::New { cwd } => StartPlan::Build { cwd },
            ResumeTarget::Existing { session_id, cwd } => StartPlan::LoadAndAttach {
                session_id,
                cwd,
            },
        }
    }
}

/// Whether a scope is enough for the full surface.
pub open spec fn full_surface(scope: Scope) -> bool {
    scope == Scope::Control
}

/// The full surface is for the controller's scope alone: neither attaching nor
/// observing is enough.
pub proof fn the_full_surface_needs_control(scope: Scope)
    ensures
        full_surface(scope) <==> broker::role_of(scope) == Role::Controller,
        !full_surface(Scope::Attach) && !full_surface(Scope::Observe),
        full_surface(Scope::Control),
{
}

/// Serves goose's full surface to each peer, with a fresh agent from the server
/// `S` per connection.
pub struct FullAcpBridge<S> {
    pub server: S,
    pub agent_id: String,
}

impl<S> FullAcpBridge<S> {
    /// A bridge for a server, under the id that peers see.
    pub fn new(server: S, agent_id: &str) -> (r: FullAcpBridge<S>)
        ensures
            r.server == server,
            r.agent_id@ == agent_id@,
    {
        FullAcpBridge { server, agent_id: agent_id.to_owned() }
    }

    /// Whether a peer with this scope is served. The full surface has no gate
    /// per request, so only a peer with control is.
    pub fn admits(&self, scope: Scope) -> (r: Result<(), String>)
        ensures
            r is Ok <==> full_surface(scope),
            match r {
                Ok(()) => scope == Scope::Control,
                Err(e) => scope != Scope::Control && e@ == "scope_not_supported"@,
            },
    {
        if scope != Scope::Control {
            return Err("scope_not_supported".to_owned());
        }
        Ok(())
    }

    /// The id that peers see.
    pub fn agent_id(&self) -> (r: String)
        ensures
            r@ == self.agent_id@,
    {
        self.agent_id.clone()
    }
}

/// One fresh agent per broker, from the server `S`.
pub struct GooseAgentBackend<S> {
    pub server: S,
}

impl<S> GooseAgentBackend<S> {
    /// A backend for a server.
    pub fn new(server: S) -> (r: GooseAgentBackend<S>)
        ensures
            r.server == server,
    {
        GooseAgentBackend { server }
    }
}

// ---------------------------------------------------------------------------
// Peers of a shared session

/// The peers of a shared session: the broker, and which of them can be asked
/// for permission.
pub struct SharedSession {
    broker: SessionBroker,
    askable: Vec<u64>,
}

impl SharedSession {
    /// The peers with their roles.
    pub closed spec fn peers(&self) -> Map<u64, Role> {
        self.broker.peers()
    }

    /// The id that the next peer gets.
    pub closed spec fn next(&self) -> u64 {
        self.broker.next()
    }

    /// The peers that can be asked for permission.
    pub closed spec fn askable(&self) -> Set<u64> {
        self.askable@.to_set()
    }

    /// The broker holds, and whoever controls the session can be asked.
    pub closed spec fn wf(&self) -> bool {
        &&& self.broker.wf()
        &&& forall|id: SubscriberId| #[trigger]
            broker::controls(self.broker.peers(), id) ==> self.askable@.to_set().contains(id.0)
        &&& forall|id: u64| #[trigger]
            self.askable@.to_set().contains(id) ==> self.broker.peers().contains_key(id)
    }

    /// A session without peers.
    pub fn new() -> (r: SharedSession)
        ensures
            r.wf(),
            r.peers() == Map::<u64, Role>::empty(),
            r.askable() == Set::<u64>::empty(),
            r.next() == 0,
    {
        let r = SharedSession { broker: SessionBroker::new(), askable: Vec::new() };
        assert(r.askable() =~= Set::<u64>::empty());
        r
    }

    /// A peer joins with its scope. A controller can be asked for permission.
    pub fn join(&mut self, scope: Scope) -> (r: SubscriberId)
        requires
            old(self).wf(),
            old(self).next() < u64::MAX,
        ensures
            final(self).wf(),
            r.0 == old(self).next(),
            final(self).next() == old(self).next() + 1,
            !old(self).peers().contains_key(r.0),
            final(self).peers() == broker::attached(old(self).peers(), r, broker::role_of(scope)),
            final(self).askable() == (if scope == Scope::Control {
                old(self).askable().insert(r.0)
            } else {
                old(self).askable()
            }),
    {
        let id = self.broker.attach_peer(scope);
        if scope == Scope::Control {
            let ghost before = self.askable@;
            self.askable.push(id.0);
            proof {
                before.lemma_push_to_set_commute(id.0);
            }
        }
        proof {
            let was = old(self).broker.peers();
            let now = self.broker.peers();
            assert forall|x: SubscriberId| #[trigger] broker::controls(now, x) implies
                self.askable@.to_set().contains(x.0) by {
                if x != id {
                    if scope == Scope::Control {
                        broker::last_controller_wins(was, id, x);
                    } else {
                        assert(broker::controls(was, x));
                    }
                }
            }
            assert forall|x: u64| #[trigger] self.askable@.to_set().contains(x) implies
                now.contains_key(x) by {
                if x != id.0 {
                    assert(old(self).askable@.to_set().contains(x));
                }
            }
        }
        id
    }

    /// A peer leaves.
    pub fn leave(&mut self, id: SubscriberId)
        requires
            old(self).wf(),
        ensures
            final(self).wf(),
            final(self).next() == old(self).next(),
            final(self).peers() == old(self).peers().remove(id.0),
            final(self).askable() == old(self).askable().remove(id.0),
    {
        let mut kept: Vec<u64> = Vec::new();
        let mut i: usize = 0;
        while i < self.askable.len()
            invariant
                i <= self.askable@.len(),
                forall|x: u64| #[trigger]
                    kept@.to_set().contains(x) <==> x != id.0 && self.askable@.take(
                        i as int,
                    ).contains(x),
            decreases self.askable@.len() - i,
        {
            let ghost before = kept@;
            let a: u64 = self.askable[i];
            assert(self.askable@.take(i + 1) =~= self.askable@.take(i as int).push(a));
            if a != id.0 {
                kept.push(a);
            }
            proof {
                let front = self.askable@.take(i as int);
                before.lemma_push_to_set_commute(a);
                front.lemma_push_to_set_commute(a);
                assert forall|x: u64| #[trigger] kept@.to_set().contains(x) <==> x != id.0
                    && self.askable@.take(i + 1).contains(x) by {
                    assert(front.push(a).to_set().contains(x) <==> front.contains(x) || x == a);
                    assert(before.to_set().contains(x) <==> x != id.0 && front.contains(x));
                }
            }
            i = i + 1;
        }
        assert(self.askable@.take(self.askable@.len() as int) =~= self.askable@);
        self.askable = kept;
        self.broker.detach_peer(id);
        proof {
            assert(self.askable() =~= old(self).askable().remove(id.0));
            assert forall|x: SubscriberId| #[trigger]
                broker::controls(self.broker.peers(), x) implies self.askable@.to_set().contains(
                x.0,
            ) by {
                assert(broker::controls(old(self).broker.peers(), x));
                assert(old(self).askable@.to_set().contains(x.0));
            }
            assert forall|x: u64| #[trigger] self.askable@.to_set().contains(x) implies
                self.broker.peers().contains_key(x) by {
                assert(old(self).askable@.to_set().contains(x));
            }
        }
    }

    /// Whether a prompt of a peer is passed on to the agent; otherwise it is
    /// answered with a refusal.
    pub fn passes_prompt(&self, from: SubscriberId) -> (r: bool)
        requires
            self.wf(),
        ensures
            r == (self.peers().contains_key(from.0) && self.peers()[from.0].steers()),
            r == (broker::steering(self.peers(), from) is Ok),
    {
        match self.broker.router().accept_steer(from) {
            Ok(()) => true,
            Err(Refused::NotPermitted) => false,
            Err(Refused::Unknown) => false,
        }
    }

    /// Whom to ask for permission: the controller, if there is one.
    pub fn permission_target(&self) -> (r: Option<SubscriberId>)
        requires
            self.wf(),
        ensures
            match r {
                Some(id) => broker::controls(self.peers(), id) && self.askable().contains(id.0),
                None => forall|id: SubscriberId| !broker::controls(self.peers(), id),
            },
            broker::permission_route(
                self.peers(),
                match r {
                    Some(id) => Route::To(id),
                    None => Route::Drop,
                },
            ),
    {
        match self.broker.router().route_permission_request() {
            Route::To(id) => Some(id),
            Route::Broadcast => None,
            Route::Drop => None,
        }
    }
}

/// The answer to a permission request.
pub open spec fn settled<T>(target: Option<SubscriberId>, reply: Option<T>) -> Option<T> {
    match target {
        Some(_) => reply,
        None => None,
    }
}

/// No one but a controller can grant permission: without one the request is
/// cancelled, whatever came back, and with one the answer is its own.
pub proof fn only_a_controller_grants<T>(id: SubscriberId, reply: T)
    ensures
        settled(None, Some(reply)) is None,
        settled(Some(id), Some(reply)) == Some(reply),
        settled::<T>(Some(id), None) is None,
{
}

/// The answer to a permission request: that of the controller, and none
/// (cancelled) where there is no controller, it is gone, or it did not answer.
pub fn permission_outcome<T>(target: Option<SubscriberId>, reply: Option<T>) -> (r: Option<T>)
    ensures
        r == settled(target, reply),
        r == (if target is Some {
            reply
        } else {
            None
        }),
{
    match target {
        Some(_) => reply,
        None => None,
    }
}

/// What happened on a peer's connection.
#[derive(Debug, Clone, Copy, PartialEq, Eq, Structural)]
pub enum PeerEvent {
    /// An update came from the agent and was sent on, or could not be.
    Update { sent: bool },
    /// Some updates were missed.
    Lagged,
    /// The agent is gone.
    Closed,
    /// A permission request was put to the peer, and answered or not.
    Asked { answered: bool },
    /// No more permission requests will come.
    NoMoreRequests,
}

/// Whether a peer's connection is served on after an event.
pub open spec fn stays(event: PeerEvent) -> bool {
    match event {
        PeerEvent::Update { sent } => sent,
        PeerEvent::Lagged => true,
        PeerEvent::Closed => false,
        PeerEvent::Asked { answered } => answered,
        PeerEvent::NoMoreRequests => true,
    }
}

/// A connection ends when something could not be sent to the peer or was not
/// answered by it, and when the agent is gone; and never otherwise.
pub proof fn connections_end_for_three_reasons(event: PeerEvent)
    ensures
        !stays(event) <==> event == (PeerEvent::Update { sent: false }) || event
            == (PeerEvent::Asked { answered: false }) || event == PeerEvent::Closed,
{
}

/// Whether a peer's connection is served on: it ends when the peer cannot be
/// reached or the agent is gone, and not because updates were missed.
pub fn serves_on(event: PeerEvent) -> (r: bool)
    ensures
        r == stays(event),
        r == (match event {
            PeerEvent::Update { sent } => sent,
            PeerEvent::Lagged => true,
            PeerEvent::Closed => false,
            PeerEvent::Asked { answered } => answered,
            PeerEvent::NoMoreRequests => true,
        }),
{
    match event {
        PeerEvent::Update { sent } => sent,
        PeerEvent::Lagged => true,
        PeerEvent::Closed => false,
        PeerEvent::Asked { answered } => answered,
        PeerEvent::NoMoreRequests => true,
    }
}

/// The characters of an optional text.
pub open spec fn text_of(t: Option<String>) -> Option<Seq<char>> {
    match t {
        Some(s) => Some(s@),
        None => None,
    }
}

/// The session id to tell a peer.
pub open spec fn told_id(published: Option<Seq<char>>, agent_gone: bool) -> Option<Seq<char>> {
    match published {
        Some(id) => Some(id),
        None => if agent_gone {
            Some("roam-shared-session"@)
        } else {
            None
        },
    }
}

/// A peer is told the id that was published wherever there is one, gone agent or
/// not; it waits while there may still be one, and no longer.
pub proof fn published_ids_are_told(id: Seq<char>, agent_gone: bool)
    ensures
        told_id(Some(id), agent_gone) == Some(id),
        told_id(None, agent_gone) is None <==> !agent_gone,
        told_id(None, true)->0.len() > 0,
{
    reveal_strlit("roam-shared-session");
}

/// The session id to tell a peer: the one that the agent's side published; a
/// stand-in if that side is gone; and none yet otherwise.
pub fn session_id_for_peer(published: Option<String>, agent_gone: bool) -> (r: Option<String>)
    ensures
        match r {
            Some(id) => told_id(text_of(published), agent_gone) == Some(id@),
            None => told_id(text_of(published), agent_gone) is None,
        },
        match published {
            Some(id) => r == Some(id),
            None => if agent_gone {
                r matches Some(id) && id@ == "roam-shared-session"@
            } else {
                r is None
            },
        },
{
    match published {
        Some(id) => Some(id),
        None => {
            if agent_gone {
                Some("roam-shared-session".to_owned())
            } else {
                None
            }
        },
    }
}

// ---------------------------------------------------------------------------
// Prompts

/// One block of a prompt.
#[derive(Debug, Clone, PartialEq, Eq)]
pub enum ContentBlock {
    Text(String),
    Other,
}

/// The texts of the text blocks, in order.
pub open spec fn block_texts(blocks: Seq<ContentBlock>) -> Seq<Seq<char>>
    decreases blocks.len(),
{
    if blocks.len() == 0 {
        Seq::empty()
    } else {
        match blocks.last() {
            ContentBlock::Text(t) => block_texts(blocks.drop_last()).push(t@),
            ContentBlock::Other => block_texts(blocks.drop_last()),
        }
    }
}

/// Texts as lines, with a newline between them.
pub open spec fn lines(list: Seq<Seq<char>>) -> Seq<char>
    decreases list.len(),
{
    if list.len() == 0 {
        Seq::empty()
    } else if list.len() == 1 {
        list[0]
    } else {
        lines(list.drop_last()) + "\n"@ + list.last()
    }
}

/// The text of a prompt: its text blocks as lines. Other blocks are left out.
pub fn prompt_text(blocks: &Vec<ContentBlock>) -> (r: String)
    ensures
        r@ == lines(block_texts(blocks@)),
{
    let mut out = String::new();
    let mut any = false;
    let mut i: usize = 0;
    assert(blocks@.take(0) =~= Seq::<ContentBlock>::empty());
    while i < blocks.len()
        invariant
            i <= blocks@.len(),
            any == (block_texts(blocks@.take(i as int)).len() > 0),
            out@ == lines(block_texts(blocks@.take(i as int))),
        decreases blocks@.len() - i,
    {
        assert(blocks@.take(i + 1).drop_last() =~= blocks@.take(i as int));
        assert(blocks@.take(i + 1).last() == blocks@[i as int]);
        match &blocks[i] {
            ContentBlock::Text(t) => {
                let ghost before = block_texts(blocks@.take(i as int));
                assert(before.push(t@).drop_last() =~= before);
                if any {
                    out.append("\n");
                }
                out.append(t.as_str());
                if !any {
                    assert(out@ =~= t@);
                }
                any = true;
            },
            ContentBlock::Other => {},
        }
        i = i + 1;
    }
    assert(blocks@.take(blocks@.len() as int) =~= blocks@);
    out
}

// ---------------------------------------------------------------------------
// What holds of sharing

/// The first text block of a prompt is its text; each further one adds a newline
/// and its own text behind what stands there, which it leaves as it is; and a
/// block that is no text adds nothing.
pub proof fn text_blocks_add_lines(blocks: Seq<ContentBlock>, t: String)
    ensures
        lines(block_texts(Seq::empty())) == Seq::<char>::empty(),
        (forall|i: int| 0 <= i < blocks.len() ==> #[trigger] blocks[i] is Other) ==> lines(
            block_texts(blocks.push(ContentBlock::Text(t))),
        ) == t@,
        (exists|i: int| 0 <= i < blocks.len() && #[trigger] blocks[i] is Text) ==> lines(
            block_texts(blocks.push(ContentBlock::Text(t))),
        ) == lines(block_texts(blocks)) + "\n"@ + t@,
        lines(block_texts(blocks.push(ContentBlock::Other))) == lines(block_texts(blocks)),
{
    let more = blocks.push(ContentBlock::Text(t));
    assert(more.drop_last() =~= blocks);
    assert(blocks.push(ContentBlock::Other).drop_last() =~= blocks);
    let texts = block_texts(blocks);
    assert(texts.push(t@).drop_last() =~= texts);
    lemma_texts_of_other_blocks(blocks);
}

proof fn lemma_texts_of_other_blocks(blocks: Seq<ContentBlock>)
    ensures
        block_texts(blocks).len() == 0 <==> forall|i: int|
            0 <= i < blocks.len() ==> #[trigger] blocks[i] is Other,
    decreases blocks.len(),
{
    if blocks.len() > 0 {
        let init = blocks.drop_last();
        lemma_texts_of_other_blocks(init);
        assert forall|i: int| 0 <= i < init.len() implies init[i] == #[trigger] blocks[i] by {}
        if blocks.last() is Other {
            if block_texts(blocks).len() == 0 {
                assert forall|i: int| 0 <= i < blocks.len() implies #[trigger] blocks[i] is Other by {
                    if i < init.len() {
                        assert(init[i] is Other);
                    }
                }
            } else {
                let i = choose|i: int| 0 <= i < init.len() && !(#[trigger] init[i] is Other);
                assert(!(blocks[i] is Other));
            }
        } else {
            assert(!(blocks[blocks.len() - 1] is Other));
        }
    }
}

/// The text of every text block stands in the text of the prompt.
pub proof fn every_text_block_is_passed_on(blocks: Seq<ContentBlock>, i: int)
    requires
        0 <= i < blocks.len(),
        blocks[i] is Text,
    ensures
        exists|n: int|
            0 <= n <= lines(block_texts(blocks)).len() - blocks[i]->Text_0@.len()
                && #[trigger] lines(block_texts(blocks)).subrange(
                n,
                n + blocks[i]->Text_0@.len(),
            ) == blocks[i]->Text_0@,
    decreases blocks.len(),
{
    let init = blocks.drop_last();
    let whole = lines(block_texts(blocks));
    let t = blocks[i]->Text_0@;
    assert(blocks =~= init.push(blocks.last()));
    if i == init.len() {
        text_blocks_add_lines(init, blocks[i]->Text_0);
        lemma_texts_of_other_blocks(init);
        let n = whole.len() - t.len();
        assert(whole.subrange(n, n + t.len()) =~= t);
    } else {
        assert(init[i] == blocks[i]);
        every_text_block_is_passed_on(init, i);
        let before = lines(block_texts(init));
        let n = choose|n: int|
            0 <= n <= before.len() - t.len() && #[trigger] before.subrange(n, n + t.len()) == t;
        match blocks.last() {
            ContentBlock::Text(last) => {
                text_blocks_add_lines(init, last);
                assert(whole.subrange(n, n + t.len()) =~= before.subrange(n, n + t.len()));
            },
            ContentBlock::Other => {
                assert(whole.subrange(n, n + t.len()) == t);
            },
        }
    }
}

/// A peer that joins may prompt unless it only observes, and only one that joins
/// with control is asked for permission. Whoever may prompt already still may.
pub proof fn scopes_decide_what_a_peer_may(
    peers: Map<u64, Role>,
    id: SubscriberId,
    scope: Scope,
    other: SubscriberId,
)
    requires
        peers.contains_key(other.0),
        other != id,
    ensures
        ({
            let now = broker::attached(peers, id, broker::role_of(scope));
            &&& now.contains_key(id.0)
            &&& now[id.0].steers() <==> scope != Scope::Observe
            &&& broker::controls(now, id) <==> scope == Scope::Control
            &&& now[other.0].steers() <==> peers[other.0].steers()
            &&& broker::controls(now, other) <==> broker::controls(peers, other) && scope
                != Scope::Control
        }),
{
}

} // verus!
