//! Key-based trust: which peers a node accepts, and what each may do.
//!
//! Two nodes exchange cards, and each chooses to accept the other's key. A
//! connection is admitted only if the dialler's key was accepted; holding a
//! card grants nothing.

use vstd::prelude::*;

use crate::digits;
use crate::identity::EndpointId;
use crate::scope::Scope;
use crate::text;
use crate::text_set::{self, TextSet};

verus! {

/// A peer that is accepted: its key as text, and what it may do.
#[derive(Debug, Clone, PartialEq, Eq)]
pub struct AcceptedPeer {
    pub key: String,
    pub scope: Scope,
}

/// The scope of each key of a list; of two entries for one key the later
/// counts.
pub open spec fn scopes_of(peers: Seq<AcceptedPeer>) -> Map<Seq<char>, Scope>
    decreases peers.len(),
{
    if peers.len() == 0 {
        Map::empty()
    } else {
        scopes_of(peers.drop_last()).insert(peers.last().key@, peers.last().scope)
    }
}

/// What a connection by key comes to: the scope that the key was accepted
/// with, or a refusal.
pub open spec fn key_admission(accepted: Map<Seq<char>, Scope>, client: Seq<u8>) -> Result<
    Scope,
    Seq<char>,
> {
    if accepted.contains_key(digits::lower_hex(client)) {
        Ok(accepted[digits::lower_hex(client)])
    } else {
        Err("not_allowlisted"@)
    }
}

/// The peers that a node accepts.
#[derive(Debug, Clone)]
pub struct AcceptBook {
    pub peers: Vec<AcceptedPeer>,
}

impl View for AcceptBook {
    type V = Map<Seq<char>, Scope>;

    open spec fn view(&self) -> Map<Seq<char>, Scope> {
        scopes_of(self.peers@)
    }
}

impl AcceptBook {
    /// A book that accepts no one.
    pub fn new() -> (r: AcceptBook)
        ensures
            r@ == Map::<Seq<char>, Scope>::empty(),
    {
        AcceptBook { peers: Vec::new() }
    }

    /// Accepts connections from a key, with a scope. An earlier scope of the
    /// key is replaced.
    pub fn accept(&mut self, key: &EndpointId, scope: Scope)
        ensures
            final(self)@ == old(self)@.insert(digits::lower_hex(key@), scope),
    {
        self.revoke(key);
        let ghost kept = self.peers@;
        self.peers.push(AcceptedPeer { key: key.to_text(), scope });
        assert(self.peers@.drop_last() == kept);
        assert(self@ =~= old(self)@.insert(digits::lower_hex(key@), scope));
    }

    /// Stops accepting a key.
    pub fn revoke(&mut self, key: &EndpointId)
        ensures
            final(self)@ == old(self)@.remove(digits::lower_hex(key@)),
    {
        let name = key.to_text();
        let mut kept: Vec<AcceptedPeer> = Vec::new();
        let mut i: usize = 0;
        assert(self.peers@.take(0) == Seq::<AcceptedPeer>::empty());
        assert(scopes_of(kept@) =~= scopes_of(self.peers@.take(0)).remove(name@));
        while i < self.peers.len()
            invariant
                i <= self.peers@.len(),
                scopes_of(kept@) == scopes_of(self.peers@.take(i as int)).remove(name@),
            decreases self.peers@.len() - i,
        {
            let ghost before = kept@;
            assert(self.peers@.take(i + 1).drop_last() == self.peers@.take(i as int));
            assert(self.peers@.take(i + 1).last() == self.peers@[i as int]);
            if !text::same(self.peers[i].key.as_str(), name.as_str()) {
                kept.push(
                    AcceptedPeer { key: self.peers[i].key.clone(), scope: self.peers[i].scope },
                );
                assert(kept@.drop_last() == before);
            }
            i = i + 1;
            assert(scopes_of(kept@) =~= scopes_of(self.peers@.take(i as int)).remove(name@));
        }
        assert(self.peers@.take(self.peers@.len() as int) == self.peers@);
        self.peers = kept;
    }

    /// What a connection from `client` comes to.
    pub fn authorize(&self, client: &EndpointId) -> (r: Result<Scope, String>)
        ensures
            match r {
                Ok(scope) => key_admission(self@, client@) == Ok::<Scope, Seq<char>>(scope),
                Err(code) => key_admission(self@, client@) == Err::<Scope, Seq<char>>(code@),
            },
    {
        let name = client.to_text();
        let mut i: usize = self.peers.len();
        assert(self.peers@.take(self.peers@.len() as int) == self.peers@);
        while i > 0
            invariant
                i <= self.peers@.len(),
                name@ == digits::lower_hex(client@),
                self@.contains_key(name@) == scopes_of(self.peers@.take(i as int)).contains_key(
                    name@,
                ),
                self@[name@] == scopes_of(self.peers@.take(i as int))[name@],
            decreases i,
        {
            assert(self.peers@.take(i as int).drop_last() == self.peers@.take(i - 1));
            assert(self.peers@.take(i as int).last() == self.peers@[i - 1]);
            if text::same(self.peers[i - 1].key.as_str(), name.as_str()) {
                return Ok(self.peers[i - 1].scope);
            }
            i = i - 1;
        }
        Err("not_allowlisted".to_owned())
    }

    /// The keys that are accepted, sorted.
    pub fn accepted_keys(&self) -> (r: Vec<String>)
        ensures
            text_set::ascending(text::views(r@)),
            text::views(r@).to_set() == self@.dom(),
    {
        let mut keys = TextSet::new();
        let mut i: usize = 0;
        assert(self.peers@.take(0) == Seq::<AcceptedPeer>::empty());
        assert(keys@ =~= scopes_of(self.peers@.take(0)).dom());
        while i < self.peers.len()
            invariant
                i <= self.peers@.len(),
                keys.wf(),
                keys@ == scopes_of(self.peers@.take(i as int)).dom(),
            decreases self.peers@.len() - i,
        {
            assert(self.peers@.take(i + 1).drop_last() == self.peers@.take(i as int));
            assert(self.peers@.take(i + 1).last() == self.peers@[i as int]);
            let _ = keys.insert(self.peers[i].key.as_str());
            i = i + 1;
            assert(keys@ =~= scopes_of(self.peers@.take(i as int)).dom());
        }
        assert(self.peers@.take(self.peers@.len() as int) == self.peers@);
        keys.to_list()
    }
}

impl Default for AcceptBook {
    /// A book that accepts no one.
    fn default() -> (r: AcceptBook)
        ensures
            r@ == Map::<Seq<char>, Scope>::empty(),
    {
        AcceptBook::new()
    }
}

/// A key is admitted exactly while it is accepted: with the scope it was
/// accepted with, and not before that nor after it was revoked. What is done
/// for one key makes no difference to another.
pub proof fn acceptance_gates_by_key(
    accepted: Map<Seq<char>, Scope>,
    key: Seq<u8>,
    scope: Scope,
    other: Seq<u8>,
)
    requires
        other != key,
    ensures
        key_admission(Map::empty(), key) is Err,
        key_admission(accepted.insert(digits::lower_hex(key), scope), key) == Ok::<Scope, Seq<char>>(
            scope,
        ),
        key_admission(accepted.remove(digits::lower_hex(key)), key) is Err,
        key_admission(accepted.insert(digits::lower_hex(key), scope), other) == key_admission(
            accepted,
            other,
        ),
        key_admission(accepted.remove(digits::lower_hex(key)), other) == key_admission(
            accepted,
            other,
        ),
{
    if digits::lower_hex(other) == digits::lower_hex(key) {
        digits::lower_hex_is_injective(other, key);
    }
}

/// Each entry of a list counts, and of two for one key the later one: an entry
/// gives its key its scope, and leaves every other key as it was.
pub proof fn every_entry_counts(peers: Seq<AcceptedPeer>, peer: AcceptedPeer, other: Seq<char>)
    requires
        other != peer.key@,
    ensures
        scopes_of(Seq::empty()) == Map::<Seq<char>, Scope>::empty(),
        scopes_of(peers.push(peer)).contains_key(peer.key@),
        scopes_of(peers.push(peer))[peer.key@] == peer.scope,
        scopes_of(peers.push(peer)).contains_key(other) <==> scopes_of(peers).contains_key(other),
        scopes_of(peers).contains_key(other) ==> scopes_of(peers.push(peer))[other] == scopes_of(
            peers,
        )[other],
{
    assert(peers.push(peer).drop_last() =~= peers);
}

/// A key that no entry names is refused, and one that some entry names is not.
pub proof fn only_named_keys_are_accepted(peers: Seq<AcceptedPeer>, key: Seq<char>)
    ensures
        scopes_of(peers).contains_key(key) <==> exists|i: int|
            0 <= i < peers.len() && #[trigger] peers[i].key@ == key,
    decreases peers.len(),
{
    if peers.len() > 0 {
        let init = peers.drop_last();
        only_named_keys_are_accepted(init, key);
        assert forall|i: int| 0 <= i < init.len() implies init[i] == #[trigger] peers[i] by {}
        if scopes_of(init).contains_key(key) {
            let i = choose|i: int| 0 <= i < init.len() && #[trigger] init[i].key@ == key;
            assert(peers[i].key@ == key);
        }
        if peers.last().key@ == key {
            assert(peers[peers.len() - 1].key@ == key);
        }
        if exists|i: int| 0 <= i < peers.len() && #[trigger] peers[i].key@ == key {
            let i = choose|i: int| 0 <= i < peers.len() && #[trigger] peers[i].key@ == key;
            if i < init.len() {
                assert(init[i].key@ == key);
            }
        }
    }
}

} // verus!
