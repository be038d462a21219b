//! Local access-control state: who may connect, what is revoked, and which
//! single-use invites have already been redeemed.
//!
//! Who a peer is comes from the transport's handshake; this layer decides
//! whether the peer is authorized.

use vstd::prelude::*;

use crate::digits;
use crate::identity::EndpointId;
use crate::text;
use crate::text_set::{self, TextSet};

verus! {

/// How strictly the host admits inbound connections.
#[derive(Debug, Clone, Copy, PartialEq, Eq, Structural)]
pub enum TrustPolicy {
    /// Any peer holding a valid invite may connect.
    Bearer,
    /// Only peers whose key is on the allowlist may connect, in addition to
    /// presenting a valid invite.
    Allowlist,
}

impl Default for TrustPolicy {
    /// Any peer holding a valid invite may connect.
    fn default() -> (r: TrustPolicy)
        ensures
            r == TrustPolicy::Bearer,
    {
        TrustPolicy::Bearer
    }
}

/// Trust state that is kept between runs.
#[derive(Debug, Clone)]
pub struct TrustBook {
    pub policy: TrustPolicy,
    /// Client keys explicitly permitted under the allowlist policy.
    allowed: TextSet,
    /// Client keys that are refused regardless of invite.
    revoked_keys: TextSet,
    /// Token ids that are refused: revoked, or single-use and redeemed.
    revoked_tokens: TextSet,
}

/// Trust state as mathematical values; keys by their text.
#[verifier::ext_equal]
pub struct TrustView {
    pub policy: TrustPolicy,
    pub allowed: Set<Seq<char>>,
    pub revoked_keys: Set<Seq<char>>,
    pub revoked_tokens: Set<Seq<char>>,
}

impl TrustView {
    /// State with a policy and nothing else.
    pub open spec fn empty(policy: TrustPolicy) -> TrustView {
        TrustView {
            policy,
            allowed: Set::empty(),
            revoked_keys: Set::empty(),
            revoked_tokens: Set::empty(),
        }
    }

    /// Whether the policy admits a key.
    pub open spec fn admits(self, key: Seq<u8>) -> bool {
        self.policy == TrustPolicy::Bearer || self.allowed.contains(digits::lower_hex(key))
    }

    /// Whether a key is refused regardless of invite.
    pub open spec fn key_revoked(self, key: Seq<u8>) -> bool {
        self.revoked_keys.contains(digits::lower_hex(key))
    }

    /// The state after a key was allowed.
    pub open spec fn allowing(self, key: Seq<u8>) -> TrustView {
        TrustView { allowed: self.allowed.insert(digits::lower_hex(key)), ..self }
    }

    /// The state after a key was revoked.
    pub open spec fn revoking_key(self, key: Seq<u8>) -> TrustView {
        TrustView { revoked_keys: self.revoked_keys.insert(digits::lower_hex(key)), ..self }
    }

    /// The state after the book was read again: what was read counts, under the
    /// policy of this run. A token that was refused before stays refused, so
    /// that a redeemed invite cannot be redeemed again even where its redemption
    /// could not be written down.
    pub open spec fn reread(self, fresh: TrustView) -> TrustView {
        TrustView {
            policy: self.policy,
            revoked_tokens: fresh.revoked_tokens.union(self.revoked_tokens),
            ..fresh
        }
    }

    /// The state after a token was revoked or redeemed.
    pub open spec fn revoking_token(self, token: Seq<char>) -> TrustView {
        TrustView { revoked_tokens: self.revoked_tokens.insert(token), ..self }
    }
}

impl View for TrustBook {
    type V = TrustView;

    closed spec fn view(&self) -> TrustView {
        TrustView {
            policy: self.policy,
            allowed: self.allowed@,
            revoked_keys: self.revoked_keys@,
            revoked_tokens: self.revoked_tokens@,
        }
    }
}

/// What a trust file held: the book, something that is no book, no file at
/// all, or a failure to read it.
pub enum TrustFile<E> {
    Book(TrustBook),
    Unreadable,
    Missing,
    Failed(E),
}

/// What a trust file comes to.
pub open spec fn loads<E>(file: TrustFile<E>, r: Result<TrustBook, E>) -> bool {
    match (file, r) {
        (TrustFile::Book(book), Ok(loaded)) => loaded == book && loaded.wf(),
        (TrustFile::Unreadable, Ok(loaded)) => loaded.wf() && loaded@ == TrustView::empty(
            TrustPolicy::Bearer,
        ),
        (TrustFile::Missing, Ok(loaded)) => loaded.wf() && loaded@ == TrustView::empty(
            TrustPolicy::Bearer,
        ),
        (TrustFile::Failed(e), Err(failure)) => failure == e,
        _ => false,
    }
}

/// What was kept is loaded as it was kept; where nothing was, no key is allowed
/// or revoked and no token is refused; and only a failure to read fails.
pub proof fn what_was_kept_is_loaded<E>(
    book: TrustBook,
    kept: Result<TrustBook, E>,
    missing: Result<TrustBook, E>,
    unreadable: Result<TrustBook, E>,
    failed: Result<TrustBook, E>,
    e: E,
    name: Seq<char>,
)
    requires
        loads(TrustFile::Book(book), kept),
        loads(TrustFile::<E>::Missing, missing),
        loads(TrustFile::<E>::Unreadable, unreadable),
        loads(TrustFile::Failed(e), failed),
    ensures
        kept == Ok::<TrustBook, E>(book),
        missing is Ok,
        !missing->Ok_0@.allowed.contains(name),
        !missing->Ok_0@.revoked_keys.contains(name),
        !missing->Ok_0@.revoked_tokens.contains(name),
        missing->Ok_0@.policy is Bearer,
        unreadable is Ok,
        unreadable->Ok_0@ == missing->Ok_0@,
        failed == Err::<TrustBook, E>(e),
{
}

/// The entries of a trust book, as lists in ascending order.
#[derive(Debug, Clone)]
pub struct TrustParts {
    pub policy: TrustPolicy,
    pub allowed: Vec<String>,
    pub revoked_keys: Vec<String>,
    pub revoked_tokens: Vec<String>,
}

impl TrustParts {
    /// The state that the lists describe.
    pub open spec fn state(&self) -> TrustView {
        TrustView {
            policy: self.policy,
            allowed: text::views(self.allowed@).to_set(),
            revoked_keys: text::views(self.revoked_keys@).to_set(),
            revoked_tokens: text::views(self.revoked_tokens@).to_set(),
        }
    }
}

impl TrustBook {
    /// Each set is kept in order.
    pub closed spec fn wf(&self) -> bool {
        self.allowed.wf() && self.revoked_keys.wf() && self.revoked_tokens.wf()
    }

    /// An empty book under a policy.
    pub fn new(policy: TrustPolicy) -> (r: TrustBook)
        ensures
            r.wf(),
            r@ == TrustView::empty(policy),
    {
        TrustBook {
            policy,
            allowed: TextSet::new(),
            revoked_keys: TextSet::new(),
            revoked_tokens: TextSet::new(),
        }
    }

    /// The book with the given entries.
    pub fn from_parts(parts: &TrustParts) -> (r: TrustBook)
        ensures
            r.wf(),
            r@ == parts.state(),
    {
        TrustBook {
            policy: parts.policy,
            allowed: TextSet::from_list(&parts.allowed),
            revoked_keys: TextSet::from_list(&parts.revoked_keys),
            revoked_tokens: TextSet::from_list(&parts.revoked_tokens),
        }
    }

    /// The entries of the book, from which it can be made again.
    pub fn parts(&self) -> (r: TrustParts)
        requires
            self.wf(),
        ensures
            r.state() == self@,
            text_set::ascending(text::views(r.allowed@)),
            text_set::ascending(text::views(r.revoked_keys@)),
            text_set::ascending(text::views(r.revoked_tokens@)),
    {
        TrustParts {
            policy: self.policy,
            allowed: self.allowed.to_list(),
            revoked_keys: self.revoked_keys.to_list(),
            revoked_tokens: self.revoked_tokens.to_list(),
        }
    }

    /// Overrides the admission policy, and keeps the allow and revoke state.
    pub fn set_policy(&mut self, policy: TrustPolicy)
        requires
            old(self).wf(),
        ensures
            final(self).wf(),
            final(self)@ == (TrustView { policy, ..old(self)@ }),
    {
        self.policy = policy;
    }

    /// Takes over what was read from the book's file meanwhile. The policy stays,
    /// and so do the tokens that are refused.
    pub fn reread(&mut self, fresh: TrustBook)
        requires
            old(self).wf(),
            fresh.wf(),
        ensures
            final(self).wf(),
            final(self)@ == old(self)@.reread(fresh@),
    {
        let tokens = self.revoked_tokens.to_list();
        let ghost all = text::views(tokens@);
        let mut next = fresh;
        next.policy = self.policy;
        let mut i: usize = 0;
        assert(next.revoked_tokens@ =~= fresh@.revoked_tokens.union(all.take(0).to_set()));
        while i < tokens.len()
            invariant
                i <= tokens@.len(),
                all == text::views(tokens@),
                next.wf(),
                next.policy == self.policy,
                next.allowed@ == fresh@.allowed,
                next.revoked_keys@ == fresh@.revoked_keys,
                next.revoked_tokens@ == fresh@.revoked_tokens.union(all.take(i as int).to_set()),
            decreases tokens@.len() - i,
        {
            let _ = next.revoked_tokens.insert(tokens[i].as_str());
            proof {
                assert(all.take(i + 1) =~= all.take(i as int).push(all[i as int]));
                all.take(i as int).lemma_push_to_set_commute(all[i as int]);
                assert(next.revoked_tokens@ =~= fresh@.revoked_tokens.union(
                    all.take(i + 1).to_set(),
                ));
            }
            i = i + 1;
        }
        assert(all.take(tokens@.len() as int) =~= all);
        *self = next;
    }

    /// Puts a key on the allowlist.
    pub fn allow(&mut self, key: &EndpointId)
        requires
            old(self).wf(),
        ensures
            final(self).wf(),
            final(self)@ == old(self)@.allowing(key@),
    {
        let text = key_str(key);
        let _ = self.allowed.insert(text.as_str());
    }

    /// Refuses a key regardless of invite.
    pub fn revoke_key(&mut self, key: &EndpointId)
        requires
            old(self).wf(),
        ensures
            final(self).wf(),
            final(self)@ == old(self)@.revoking_key(key@),
    {
        let text = key_str(key);
        let _ = self.revoked_keys.insert(text.as_str());
    }

    /// Refuses a token.
    pub fn revoke_token(&mut self, token_id: &str)
        requires
            old(self).wf(),
        ensures
            final(self).wf(),
            final(self)@ == old(self)@.revoking_token(token_id@),
    {
        let _ = self.revoked_tokens.insert(token_id);
    }

    /// Whether the policy admits a key.
    pub fn is_allowed(&self, key: &EndpointId) -> (r: bool)
        requires
            self.wf(),
        ensures
            r == self@.admits(key@),
    {
        match self.policy {
            TrustPolicy::Bearer => true,
            TrustPolicy::Allowlist => {
                let text = key_str(key);
                self.allowed.contains(text.as_str())
            },
        }
    }

    /// Whether a key is refused regardless of invite.
    pub fn is_key_revoked(&self, key: &EndpointId) -> (r: bool)
        requires
            self.wf(),
        ensures
            r == self@.key_revoked(key@),
    {
        let text = key_str(key);
        self.revoked_keys.contains(text.as_str())
    }

    /// The client keys explicitly allowed, sorted.
    pub fn allowed_keys(&self) -> (r: Vec<String>)
        requires
            self.wf(),
        ensures
            text_set::ascending(text::views(r@)),
            text::views(r@).to_set() == self@.allowed,
    {
        self.allowed.to_list()
    }

    /// The client keys explicitly allowed that are not refused, sorted.
    pub fn standing_keys(&self) -> (r: Vec<String>)
        requires
            self.wf(),
        ensures
            text_set::ascending(text::views(r@)),
            text::views(r@).to_set() == self@.allowed.difference(self@.revoked_keys),
    {
        let keys = self.allowed.to_list();
        let ghost all = text::views(keys@);
        let mut standing = TextSet::new();
        let mut i: usize = 0;
        assert(standing@ =~= all.take(0).to_set().difference(self@.revoked_keys));
        while i < keys.len()
            invariant
                i <= keys@.len(),
                all == text::views(keys@),
                self.wf(),
                standing.wf(),
                standing@ == all.take(i as int).to_set().difference(self@.revoked_keys),
            decreases keys@.len() - i,
        {
            if !self.revoked_keys.contains(keys[i].as_str()) {
                let _ = standing.insert(keys[i].as_str());
            }
            proof {
                assert(all.take(i + 1) =~= all.take(i as int).push(all[i as int]));
                all.take(i as int).lemma_push_to_set_commute(all[i as int]);
                assert(standing@ =~= all.take(i + 1).to_set().difference(self@.revoked_keys));
            }
            i = i + 1;
        }
        assert(all.take(keys@.len() as int) =~= all);
        standing.to_list()
    }

    /// The client keys that are refused regardless of invite, sorted.
    pub fn revoked_key_list(&self) -> (r: Vec<String>)
        requires
            self.wf(),
        ensures
            text_set::ascending(text::views(r@)),
            text::views(r@).to_set() == self@.revoked_keys,
    {
        self.revoked_keys.to_list()
    }

    /// Whether a token is refused.
    pub fn is_token_revoked(&self, token_id: &str) -> (r: bool)
        requires
            self.wf(),
        ensures
            r == self@.revoked_tokens.contains(token_id@),
    {
        self.revoked_tokens.contains(token_id)
    }

    /// Marks a single-use token redeemed. Gives `false` if it was refused
    /// already, so that this redemption is refused too.
    pub fn redeem_single_use(&mut self, token_id: &str) -> (r: bool)
        requires
            old(self).wf(),
        ensures
            final(self).wf(),
            final(self)@ == old(self)@.revoking_token(token_id@),
            r == !old(self)@.revoked_tokens.contains(token_id@),
    {
        self.revoked_tokens.insert(token_id)
    }

    /// The book to start with, from what its file held. A missing file, or one
    /// that holds no book, gives an empty book; a failure to read is reported.
    pub fn load<E>(file: TrustFile<E>) -> (r: Result<TrustBook, E>)
        requires
            file matches TrustFile::Book(book) ==> book.wf(),
        ensures
            loads(file, r),
    {
        match file {
            TrustFile::Book(book) => Ok(book),
            TrustFile::Unreadable => Ok(TrustBook::default()),
            TrustFile::Missing => Ok(TrustBook::default()),
            TrustFile::Failed(e) => Err(e),
        }
    }
}

impl Default for TrustBook {
    /// An empty book under the bearer policy.
    fn default() -> (r: TrustBook)
        ensures
            r.wf(),
            r@ == TrustView::empty(TrustPolicy::Bearer),
    {
        TrustBook::new(TrustPolicy::Bearer)
    }
}

fn key_str(key: &EndpointId) -> (r: String)
    ensures
        r@ == digits::lower_hex(key@),
{
    key.to_text()
}

/// A single-use token redeems once: after it was redeemed, it counts as
/// refused, and redeeming it again changes nothing.
pub proof fn tokens_redeem_once(state: TrustView, token: Seq<char>)
    ensures
        state.revoking_token(token).revoked_tokens.contains(token),
        state.revoking_token(token).revoking_token(token) == state.revoking_token(token),
{
    assert(state.revoking_token(token).revoking_token(token) =~= state.revoking_token(token));
}

/// Under the bearer policy every key is admitted. Under the allowlist policy a
/// key is admitted exactly once it was allowed; allowing one key admits no
/// other.
pub proof fn the_allowlist_gates(state: TrustView, key: Seq<u8>, other: Seq<u8>)
    requires
        other != key,
    ensures
        state.policy == TrustPolicy::Bearer ==> state.admits(key),
        state.allowing(key).admits(key),
        state.allowing(key).admits(other) <==> state.admits(other),
        !TrustView::empty(TrustPolicy::Allowlist).admits(key),
{
    if digits::lower_hex(other) == digits::lower_hex(key) {
        digits::lower_hex_is_injective(other, key);
    }
}

/// Revocation is lasting: no operation on the book takes a revoked key or a
/// refused token off its list.
pub proof fn revocation_is_lasting(
    state: TrustView,
    policy: TrustPolicy,
    key: Seq<u8>,
    token: Seq<char>,
    other_key: Seq<u8>,
    other_token: Seq<char>,
)
    ensures
        state.key_revoked(key) ==> state.allowing(other_key).key_revoked(key) && state.revoking_key(
            other_key,
        ).key_revoked(key) && state.revoking_token(other_token).key_revoked(key) && (TrustView {
            policy,
            ..state
        }).key_revoked(key),
        state.revoked_tokens.contains(token) ==> state.allowing(other_key).revoked_tokens.contains(
            token,
        ) && state.revoking_key(other_key).revoked_tokens.contains(token) && state.revoking_token(
            other_token,
        ).revoked_tokens.contains(token) && (TrustView { policy, ..state }).revoked_tokens.contains(
            token,
        ),
{
}

/// Each operation changes its own list and nothing else: a key that is allowed
/// or revoked, and a token that is refused, is on that list afterwards, and
/// whatever else was or was not on a list still is or is not.
pub proof fn operations_change_one_list(
    state: TrustView,
    key: Seq<u8>,
    token: Seq<char>,
    other: Seq<u8>,
    other_token: Seq<char>,
)
    requires
        other != key,
        other_token != token,
    ensures
        state.allowing(key).allowed.contains(digits::lower_hex(key)),
        state.allowing(key).allowed.contains(digits::lower_hex(other)) <==> state.allowed.contains(
            digits::lower_hex(other),
        ),
        state.allowing(key).policy == state.policy,
        state.allowing(key).revoked_keys == state.revoked_keys,
        state.allowing(key).revoked_tokens == state.revoked_tokens,
        state.revoking_key(key).key_revoked(key),
        state.revoking_key(key).key_revoked(other) <==> state.key_revoked(other),
        state.revoking_key(key).policy == state.policy,
        state.revoking_key(key).allowed == state.allowed,
        state.revoking_key(key).revoked_tokens == state.revoked_tokens,
        state.revoking_token(token).revoked_tokens.contains(token),
        state.revoking_token(token).revoked_tokens.contains(other_token)
            <==> state.revoked_tokens.contains(other_token),
        state.revoking_token(token).policy == state.policy,
        state.revoking_token(token).allowed == state.allowed,
        state.revoking_token(token).revoked_keys == state.revoked_keys,
        state.key_revoked(key) <==> state.revoked_keys.contains(digits::lower_hex(key)),
{
    if digits::lower_hex(other) == digits::lower_hex(key) {
        digits::lower_hex_is_injective(other, key);
    }
}

/// What is read from the file counts for keys, the run keeps its policy, and a
/// token is refused if either refuses it.
pub proof fn rereading_takes_over_the_keys(known: TrustView, fresh: TrustView, token: Seq<char>)
    ensures
        known.reread(fresh).policy == known.policy,
        known.reread(fresh).allowed == fresh.allowed,
        known.reread(fresh).revoked_keys == fresh.revoked_keys,
        known.reread(fresh).revoked_tokens.contains(token) <==> known.revoked_tokens.contains(token)
            || fresh.revoked_tokens.contains(token),
{
}

/// A new book allows, revokes and refuses nothing.
pub proof fn new_books_are_empty(policy: TrustPolicy, key: Seq<char>)
    ensures
        TrustView::empty(policy).policy == policy,
        !TrustView::empty(policy).allowed.contains(key),
        !TrustView::empty(policy).revoked_keys.contains(key),
        !TrustView::empty(policy).revoked_tokens.contains(key),
{
}

} // verus!
