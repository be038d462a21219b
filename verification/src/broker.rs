//! Multi-client session broker.
//!
//! A goose agent speaks to exactly one client. To let several remote peers
//! watch and drive one live session, a broker stands in front of the agent and
//! serves every peer. Three rules route what passes through it: updates go to
//! all subscribers, prompts are accepted by role, and permission requests go to
//! the controller alone.
//!
//! This module holds the subscriber set, the controller slot and the routing
//! decisions. It performs no I/O.

use std::collections::HashMap;

use vstd::prelude::*;

use crate::scope::Scope;

verus! {

broadcast use vstd::std_specs::hash::group_hash_axioms;

/// Opaque id for a connected peer.
#[derive(Debug, Clone, Copy, PartialEq, Eq, Hash, Structural)]
pub struct SubscriberId(pub u64);

/// What a connected peer is allowed to do with the shared session.
#[derive(Debug, Clone, Copy, PartialEq, Eq, Structural)]
pub enum Role {
    /// May receive updates only.
    Observer,
    /// May also send prompts and steering input.
    Steerer,
    /// May do everything, and is the sole recipient of permission requests.
    Controller,
}

/// The role that a scope gives.
pub open spec fn role_of(scope: Scope) -> Role {
    match scope {
        Scope::Control => Role::Controller,
        Scope::Attach => Role::Steerer,
        Scope::Observe => Role::Observer,
    }
}

impl Role {
    /// Maps an invite scope to a broker role.
    pub fn from_scope(scope: Scope) -> (r: Role)
        ensures
            r == role_of(scope),
    {
        match scope {
            Scope::Control => Role::Controller,
            Scope::Attach => Role::Steerer,
            Scope::Observe => Role::Observer,
        }
    }

    /// Whether the role may send prompts and steering input.
    pub open spec fn steers(self) -> bool {
        self == Role::Steerer || self == Role::Controller
    }

    fn can_steer(self) -> (r: bool)
        ensures
            r == self.steers(),
    {
        match self {
            Role::Steerer | Role::Controller => true,
            Role::Observer => false,
        }
    }

    fn is_controller(self) -> (r: bool)
        ensures
            r == (self == Role::Controller),
    {
        match self {
            Role::Controller => true,
            Role::Steerer | Role::Observer => false,
        }
    }
}

/// Where a message the broker is routing should go.
#[derive(Debug, Clone, Copy, PartialEq, Eq, Structural)]
pub enum Route {
    /// To every attached subscriber.
    Broadcast,
    /// To exactly one subscriber.
    To(SubscriberId),
    /// There is no valid recipient: the broker answers with a safe default.
    Drop,
}

/// The reason an inbound peer message was refused.
#[derive(Debug, Clone, Copy, PartialEq, Eq, Structural)]
pub enum Refused {
    /// The peer's role does not permit this action.
    NotPermitted,
    /// The peer is not attached to this session.
    Unknown,
}

// ---------------------------------------------------------------------------
// Who is attached

/// Whether `id` is attached as controller.
pub open spec fn controls(peers: Map<u64, Role>, id: SubscriberId) -> bool {
    peers.contains_key(id.0) && peers[id.0] == Role::Controller
}

/// The role left to a peer when another becomes controller.
pub open spec fn demoted(role: Role) -> Role {
    if role == Role::Controller {
        Role::Steerer
    } else {
        role
    }
}

/// The peers after `id` attached with `role`: a new controller demotes the
/// previous one to steerer.
pub open spec fn attached(peers: Map<u64, Role>, id: SubscriberId, role: Role) -> Map<u64, Role> {
    if role == Role::Controller {
        peers.map_values(|r: Role| demoted(r)).insert(id.0, role)
    } else {
        peers.insert(id.0, role)
    }
}

/// Where a request goes that needs a human decision.
pub open spec fn permission_route(peers: Map<u64, Role>, route: Route) -> bool {
    match route {
        Route::To(id) => controls(peers, id),
        Route::Drop => forall|id: SubscriberId| !controls(peers, id),
        Route::Broadcast => false,
    }
}

/// Whether a message that takes a route reaches a peer.
pub open spec fn reaches(peers: Map<u64, Role>, route: Route, id: SubscriberId) -> bool {
    match route {
        Route::Broadcast => peers.contains_key(id.0),
        Route::To(only) => only == id && peers.contains_key(id.0),
        Route::Drop => false,
    }
}

/// Where an update from the agent goes.
pub open spec fn notification_route(peers: Map<u64, Role>, route: Route) -> bool {
    route == Route::Broadcast
}

/// An update reaches every peer that is attached, whatever its role, and no one
/// else; and a permission request reaches the controller and no one else.
pub proof fn updates_reach_everyone(
    peers: Map<u64, Role>,
    update: Route,
    request: Route,
    id: SubscriberId,
)
    requires
        notification_route(peers, update),
        permission_route(peers, request),
    ensures
        reaches(peers, update, id) <==> peers.contains_key(id.0),
        reaches(peers, request, id) ==> peers.contains_key(id.0) && peers[id.0] == Role::Controller,
{
}

/// Whether a prompt or steering input from a peer is accepted.
pub open spec fn steering(peers: Map<u64, Role>, from: SubscriberId) -> Result<(), Refused> {
    if !peers.contains_key(from.0) {
        Err(Refused::Unknown)
    } else if peers[from.0].steers() {
        Ok(())
    } else {
        Err(Refused::NotPermitted)
    }
}

/// A peer that attached with control or to steer may send prompts; an observer
/// may not; and a peer that is not attached, or no longer, is not known.
pub proof fn attached_peers_steer_by_scope(peers: Map<u64, Role>, id: SubscriberId, scope: Scope)
    ensures
        steering(attached(peers, id, role_of(scope)), id) is Ok <==> scope == Scope::Control
            || scope == Scope::Attach,
        scope == Scope::Observe ==> steering(attached(peers, id, role_of(scope)), id) == Err::<
            (),
            Refused,
        >(Refused::NotPermitted),
        steering(peers.remove(id.0), id) == Err::<(), Refused>(Refused::Unknown),
        steering(Map::empty(), id) == Err::<(), Refused>(Refused::Unknown),
{
}

/// Transport-neutral routing policy for one shared session: who is attached,
/// their roles, and who controls the session.
#[derive(Debug)]
pub struct Router {
    subscribers: HashMap<u64, Role>,
    controller: Option<u64>,
}

impl View for Router {
    type V = Map<u64, Role>;

    closed spec fn view(&self) -> Map<u64, Role> {
        self.subscribers@
    }
}

impl Router {
    /// Finitely many subscribers are attached. At most one is the controller,
    /// and the router knows it.
    pub closed spec fn wf(&self) -> bool {
        &&& self@.dom().finite()
        &&& self.controller matches Some(c) ==> controls(self@, SubscriberId(c))
        &&& forall|id: u64| #[trigger]
            self@.contains_key(id) && self@[id] == Role::Controller ==> self.controller == Some(id)
    }

    /// A router without subscribers.
    pub fn new() -> (r: Router)
        ensures
            r.wf(),
            r@ == Map::<u64, Role>::empty(),
            r@.dom().finite(),
            r@.len() == 0,
    {
        Router { subscribers: HashMap::new(), controller: None }
    }

    /// Attaches a peer. A controller becomes the controller and demotes any
    /// previous one to steerer.
    pub fn attach(&mut self, id: SubscriberId, role: Role)
        requires
            old(self).wf(),
        ensures
            final(self).wf(),
            final(self)@ == attached(old(self)@, id, role),
            final(self)@.dom().finite(),
            final(self)@.len() == old(self)@.len() + (if old(self)@.contains_key(id.0) {
                0int
            } else {
                1
            }),
    {
        if role.is_controller() {
            if let Some(previous) = self.controller {
                self.subscribers.insert(previous, Role::Steerer);
            }
            self.subscribers.insert(id.0, role);
            self.controller = Some(id.0);
        } else {
            self.subscribers.insert(id.0, role);
            let was_controller = match self.controller {
                Some(c) => c == id.0,
                None => false,
            };
            if was_controller {
                self.controller = None;
            }
        }
        assert(self@ == attached(old(self)@, id, role));
        proof {
            attaching_counts_once(old(self)@, id, role);
        }
    }

    /// Detaches a peer.
    pub fn detach(&mut self, id: SubscriberId)
        requires
            old(self).wf(),
        ensures
            final(self).wf(),
            final(self)@ == old(self)@.remove(id.0),
            final(self)@.dom().finite(),
            final(self)@.len() == old(self)@.len() - (if old(self)@.contains_key(id.0) {
                1int
            } else {
                0
            }),
    {
        self.subscribers.remove(&id.0);
        let was_controller = match self.controller {
            Some(c) => c == id.0,
            None => false,
        };
        if was_controller {
            self.controller = None;
        }
        assert(self@ == old(self)@.remove(id.0));
        proof {
            detaching_counts_once(old(self)@, id);
        }
    }

    /// Whether a peer is attached.
    pub fn is_attached(&self, id: SubscriberId) -> (r: bool)
        ensures
            r == self@.contains_key(id.0),
    {
        self.subscribers.contains_key(&id.0)
    }

    /// How many peers are attached.
    pub fn subscriber_count(&self) -> (r: usize)
        ensures
            r == self@.len(),
    {
        self.subscribers.len()
    }

    /// The current controller, if one is attached.
    pub fn controller(&self) -> (r: Option<SubscriberId>)
        requires
            self.wf(),
        ensures
            match r {
                Some(id) => controls(self@, id),
                None => forall|id: SubscriberId| !controls(self@, id),
            },
    {
        match self.controller {
            Some(c) => Some(SubscriberId(c)),
            None => None,
        }
    }

    /// Where an update from the agent goes: to everyone.
    pub fn route_notification(&self) -> (r: Route)
        ensures
            forall|id: SubscriberId| #[trigger] reaches(self@, r, id) <==> self@.contains_key(id.0),
            notification_route(self@, r),
            r == Route::Broadcast,
    {
        Route::Broadcast
    }

    /// Where a request that needs a human decision goes: to the controller
    /// only, and nowhere if there is none.
    pub fn route_permission_request(&self) -> (r: Route)
        requires
            self.wf(),
        ensures
            permission_route(self@, r),
    {
        match self.controller() {
            Some(id) => Route::To(id),
            None => Route::Drop,
        }
    }

    /// Whether a prompt or steering input from a peer is accepted.
    pub fn accept_steer(&self, from: SubscriberId) -> (r: Result<(), Refused>)
        ensures
            r == steering(self@, from),
            r == (if !self@.contains_key(from.0) {
                Err::<(), Refused>(Refused::Unknown)
            } else if self@[from.0].steers() {
                Ok::<(), Refused>(())
            } else {
                Err::<(), Refused>(Refused::NotPermitted)
            }),
    {
        match self.subscribers.get(&from.0) {
            None => Err(Refused::Unknown),
            Some(role) => if role.can_steer() {
                Ok(())
            } else {
                Err(Refused::NotPermitted)
            },
        }
    }
}

impl Default for Router {
    /// A router without subscribers.
    fn default() -> (r: Router)
        ensures
            r.wf(),
            r@ == Map::<u64, Role>::empty(),
            r@.dom().finite(),
            r@.len() == 0,
    {
        Router::new()
    }
}

/// At most one peer controls a session.
pub proof fn one_controller_at_most(router: Router, a: SubscriberId, b: SubscriberId)
    requires
        router.wf(),
        controls(router@, a),
        controls(router@, b),
    ensures
        a == b,
{
}

/// The last controller wins: it alone controls the session, and a previous
/// controller is demoted, not detached, and may still steer.
pub proof fn last_controller_wins(peers: Map<u64, Role>, id: SubscriberId, other: SubscriberId)
    requires
        other != id,
    ensures
        controls(attached(peers, id, Role::Controller), id),
        !controls(attached(peers, id, Role::Controller), other),
        attached(peers, id, Role::Controller).contains_key(other.0) <==> peers.contains_key(
            other.0,
        ),
        controls(peers, other) ==> attached(peers, id, Role::Controller)[other.0].steers(),
        peers.contains_key(other.0) ==> (attached(peers, id, Role::Controller)[other.0].steers()
            <==> peers[other.0].steers()),
{
}

/// Attaching as observer or steerer changes no one else's role, and attaching
/// in any role detaches no one.
pub proof fn attaching_detaches_no_one(
    peers: Map<u64, Role>,
    id: SubscriberId,
    role: Role,
    other: SubscriberId,
)
    requires
        peers.contains_key(other.0),
    ensures
        attached(peers, id, role).contains_key(other.0),
        role != Role::Controller && other != id ==> attached(peers, id, role)[other.0]
            == peers[other.0],
{
}

/// Detaching a peer that was not attached before it attached restores the
/// others: as observer or steerer exactly, as controller but for the demotion.
pub proof fn detaching_undoes_attaching(peers: Map<u64, Role>, id: SubscriberId, role: Role)
    requires
        !peers.contains_key(id.0),
    ensures
        role != Role::Controller ==> attached(peers, id, role).remove(id.0) == peers,
        role == Role::Controller ==> attached(peers, id, role).remove(id.0) == peers.map_values(
            |r: Role| demoted(r),
        ),
{
    assert(attached(peers, id, role).remove(id.0) =~= if role == Role::Controller {
        peers.map_values(|r: Role| demoted(r))
    } else {
        peers
    });
}

/// Attaching a peer counts it once: one more is attached if it was not, and as
/// many as before if it was.
pub proof fn attaching_counts_once(peers: Map<u64, Role>, id: SubscriberId, role: Role)
    requires
        peers.dom().finite(),
    ensures
        attached(peers, id, role).dom() == peers.dom().insert(id.0),
        attached(peers, id, role).dom().finite(),
        attached(peers, id, role).len() == peers.len() + (if peers.contains_key(id.0) {
            0int
        } else {
            1
        }),
{
    assert(attached(peers, id, role).dom() =~= peers.dom().insert(id.0));
    if peers.contains_key(id.0) {
        assert(peers.dom().insert(id.0) =~= peers.dom());
    }
}

/// Detaching a peer uncounts it: one fewer is attached if it was, and as many as
/// before if it was not.
pub proof fn detaching_counts_once(peers: Map<u64, Role>, id: SubscriberId)
    requires
        peers.dom().finite(),
    ensures
        peers.remove(id.0).dom() == peers.dom().remove(id.0),
        peers.remove(id.0).dom().finite(),
        peers.remove(id.0).len() == peers.len() - (if peers.contains_key(id.0) {
            1int
        } else {
            0
        }),
{
    assert(peers.remove(id.0).dom() =~= peers.dom().remove(id.0));
    if !peers.contains_key(id.0) {
        assert(peers.dom().remove(id.0) =~= peers.dom());
    }
}

/// The count of a router is that of the ids attached to it, each counted once:
/// it is the length of any list that names each attached id once and no other.
pub proof fn attached_ids_are_counted(router: Router, ids: Seq<u64>)
    requires
        router.wf(),
        ids.no_duplicates(),
        ids.to_set() == router@.dom(),
    ensures
        router@.dom().finite(),
        router@.len() == ids.len(),
{
    ids.unique_seq_to_set();
}

// ---------------------------------------------------------------------------
// The broker

/// The broker that owns one live session: a router, and the ids it gives out.
#[derive(Debug)]
pub struct SessionBroker {
    router: Router,
    next_id: u64,
}

impl SessionBroker {
    /// The peers attached, with their roles.
    pub closed spec fn peers(&self) -> Map<u64, Role> {
        self.router@
    }

    /// The id that is given out next.
    pub closed spec fn next(&self) -> u64 {
        self.next_id
    }

    /// The router holds, and every attached id was given out before.
    pub closed spec fn wf(&self) -> bool {
        &&& self.router.wf()
        &&& forall|id: u64| #[trigger] self.router@.contains_key(id) ==> id < self.next_id
    }

    /// A broker without peers.
    pub fn new() -> (r: SessionBroker)
        ensures
            r.wf(),
            r.peers() == Map::<u64, Role>::empty(),
            r.peers().dom().finite(),
            r.next() == 0,
    {
        SessionBroker { router: Router::new(), next_id: 0 }
    }

    /// The routing policy.
    pub fn router(&self) -> (r: &Router)
        requires
            self.wf(),
        ensures
            r.wf(),
            r@ == self.peers(),
    {
        &self.router
    }

    /// A fresh id for a newly accepted peer: one that was never given out.
    pub fn next_subscriber_id(&mut self) -> (r: SubscriberId)
        requires
            old(self).wf(),
            old(self).next() < u64::MAX,
        ensures
            final(self).wf(),
            r.0 == old(self).next(),
            final(self).next() == old(self).next() + 1,
            final(self).peers() == old(self).peers(),
            !old(self).peers().contains_key(r.0),
    {
        let id = SubscriberId(self.next_id);
        self.next_id = self.next_id + 1;
        id
    }

    /// Attaches an accepted peer under a fresh id, with the role of its scope.
    pub fn attach_peer(&mut self, scope: Scope) -> (r: SubscriberId)
        requires
            old(self).wf(),
            old(self).next() < u64::MAX,
        ensures
            final(self).wf(),
            r.0 == old(self).next(),
            final(self).next() == old(self).next() + 1,
            !old(self).peers().contains_key(r.0),
            final(self).peers() == attached(old(self).peers(), r, role_of(scope)),
            final(self).peers().dom().finite(),
            final(self).peers().len() == old(self).peers().len() + 1,
    {
        let id = self.next_subscriber_id();
        self.router.attach(id, Role::from_scope(scope));
        id
    }

    /// Detaches a peer. Its id is not given out again.
    pub fn detach_peer(&mut self, id: SubscriberId)
        requires
            old(self).wf(),
        ensures
            final(self).wf(),
            final(self).peers() == old(self).peers().remove(id.0),
            final(self).peers().dom().finite(),
            final(self).peers().len() == old(self).peers().len() - (if old(
                self,
            ).peers().contains_key(id.0) {
                1int
            } else {
                0
            }),
            final(self).next() == old(self).next(),
    {
        self.router.detach(id);
    }
}

impl Default for SessionBroker {
    /// A broker without peers.
    fn default() -> (r: SessionBroker)
        ensures
            r.wf(),
            r.peers() == Map::<u64, Role>::empty(),
            r.peers().dom().finite(),
            r.next() == 0,
    {
        SessionBroker::new()
    }
}

/// Every id that a broker has attached is below the one it gives out next, so a
/// fresh id is never that of an attached peer.
pub proof fn attached_ids_were_given_out(broker: SessionBroker, id: SubscriberId)
    requires
        broker.wf(),
        broker.peers().contains_key(id.0),
    ensures
        id.0 < broker.next(),
{
}

/// A permission request goes to the controller wherever there is one, and
/// nowhere otherwise.
pub proof fn permission_goes_to_the_controller(router: Router, route: Route, id: SubscriberId)
    requires
        router.wf(),
        permission_route(router@, route),
    ensures
        router@.contains_key(id.0) && router@[id.0] == Role::Controller ==> route == Route::To(id),
        (forall|x: u64| #[trigger] router@.contains_key(x) ==> router@[x] != Role::Controller)
            ==> route == Route::Drop,
        route != Route::Broadcast,
{
    if controls(router@, id) {
        if let Route::To(other) = route {
            one_controller_at_most(router, id, other);
        }
    }
}

/// What each scope gives: control makes the controller, attaching may steer, and
/// observing may do neither.
pub proof fn scopes_give_roles(scope: Scope)
    ensures
        role_of(scope) == Role::Controller <==> scope == Scope::Control,
        role_of(scope).steers() <==> scope == Scope::Control || scope == Scope::Attach,
        role_of(scope) == Role::Observer <==> scope == Scope::Observe,
        Role::Controller.steers() && Role::Steerer.steers() && !Role::Observer.steers(),
{
}

/// A peer that attaches has the role it attached with, whatever it had before.
pub proof fn attaching_gives_the_role(peers: Map<u64, Role>, id: SubscriberId, role: Role)
    ensures
        attached(peers, id, role).contains_key(id.0),
        attached(peers, id, role)[id.0] == role,
{
}

} // verus!
