//! Both kinds of trust together: by invite, and by key.
//!
//! A client that shows an invite is admitted by what the trust book says of it;
//! one that shows none is admitted if its key was accepted. The books are kept
//! in one file, which is read again before each decision, so that a peer that
//! was accepted or revoked meanwhile is treated so on its next connection.

use vstd::prelude::*;

use crate::acceptance::{self, AcceptBook};
use crate::digits;
use crate::identity::EndpointId;
use crate::node::{self, ClientHello, HelloRead};
use crate::scope::Scope;
use crate::text;
use crate::text_set::{self, TextSet};
use crate::trust::{TrustBook, TrustPolicy, TrustView};

verus! {

/// Whom a node trusts: by invite, and by key.
#[derive(Debug, Clone)]
pub struct AccessBooks {
    pub trust: TrustBook,
    pub accepted: AcceptBook,
}

/// Whom a node trusts, as mathematical values.
#[verifier::ext_equal]
pub struct AccessView {
    pub trust: TrustView,
    pub accepted: Map<Seq<char>, Scope>,
}

/// A change of whom a node trusts.
#[derive(Debug, Clone, PartialEq, Eq)]
pub enum TrustChange {
    /// Nothing changes.
    Keep,
    /// Connections from this key are accepted.
    Accept(EndpointId),
    /// This key is no longer accepted.
    Revoke(EndpointId),
}

impl AccessView {
    /// What counts after the file of the books was read again. What could be
    /// read replaces what was known; otherwise that still counts.
    pub open spec fn reread(self, file: Option<AccessView>) -> AccessView {
        match file {
            Some(fresh) => AccessView {
                trust: self.trust.reread(fresh.trust),
                accepted: fresh.accepted,
            },
            None => self,
        }
    }

    /// Whom the node trusts after a change. An accepted key gets full control.
    /// A revoked key is no longer accepted, and is refused whatever invite it
    /// shows.
    pub open spec fn changed(self, change: TrustChange) -> AccessView {
        match change {
            TrustChange::Keep => self,
            TrustChange::Accept(key) => AccessView {
                accepted: self.accepted.insert(digits::lower_hex(key@), Scope::Control),
                ..self
            },
            TrustChange::Revoke(key) => AccessView {
                trust: self.trust.revoking_key(key@),
                accepted: self.accepted.remove(digits::lower_hex(key@)),
            },
        }
    }

    /// The keys that count as accepted: those accepted by key, and those pinned
    /// by pairing that are not revoked.
    pub open spec fn allowed_keys(self) -> Set<Seq<char>> {
        self.accepted.dom().union(self.trust.allowed.difference(self.trust.revoked_keys))
    }
}

impl View for AccessBooks {
    type V = AccessView;

    open spec fn view(&self) -> AccessView {
        AccessView { trust: self.trust@, accepted: self.accepted@ }
    }
}

/// What the file of the books held, if it could be read.
pub open spec fn file_view(file: Option<AccessBooks>) -> Option<AccessView> {
    match file {
        Some(books) => Some(books@),
        None => None,
    }
}

impl AccessBooks {
    /// The trust book is well formed.
    pub open spec fn wf(&self) -> bool {
        self.trust.wf()
    }

    /// Books that admit any holder of an invite, and accept no key.
    pub fn new() -> (r: AccessBooks)
        ensures
            r.wf(),
            r@.trust == TrustView::empty(TrustPolicy::Bearer),
            r@.accepted == Map::<Seq<char>, Scope>::empty(),
    {
        AccessBooks { trust: TrustBook::new(TrustPolicy::Bearer), accepted: AcceptBook::new() }
    }

    /// Takes over what the file of the books held, if it could be read.
    pub fn reread(&mut self, file: Option<AccessBooks>)
        requires
            old(self).wf(),
            file matches Some(books) ==> books.wf(),
        ensures
            final(self).wf(),
            final(self)@ == old(self)@.reread(file_view(file)),
    {
        if let Some(fresh) = file {
            self.trust.reread(fresh.trust);
            self.accepted = fresh.accepted;
        }
    }

    /// Changes whom the node trusts.
    pub fn apply(&mut self, change: &TrustChange)
        requires
            old(self).wf(),
        ensures
            final(self).wf(),
            final(self)@ == old(self)@.changed(*change),
    {
        match change {
            TrustChange::Keep => {},
            TrustChange::Accept(key) => {
                self.accepted.accept(key, Scope::Control);
            },
            TrustChange::Revoke(key) => {
                self.accepted.revoke(key);
                self.trust.revoke_key(key);
            },
        }
    }

    /// The keys that count as accepted, sorted.
    pub fn allowed_keys(&self) -> (r: Vec<String>)
        requires
            self.wf(),
        ensures
            text_set::ascending(text::views(r@)),
            text::views(r@).to_set() == self@.allowed_keys(),
    {
        let by_key = self.accepted.accepted_keys();
        let pinned = self.trust.standing_keys();
        let ghost all = text::views(pinned@);
        let mut keys = TextSet::from_list(&by_key);
        let mut i: usize = 0;
        assert(keys@ =~= self@.accepted.dom().union(all.take(0).to_set()));
        while i < pinned.len()
            invariant
                i <= pinned@.len(),
                all == text::views(pinned@),
                keys.wf(),
                keys@ == self@.accepted.dom().union(all.take(i as int).to_set()),
            decreases pinned@.len() - i,
        {
            let _ = keys.insert(pinned[i].as_str());
            proof {
                assert(all.take(i + 1) =~= all.take(i as int).push(all[i as int]));
                all.take(i as int).lemma_push_to_set_commute(all[i as int]);
                assert(keys@ =~= self@.accepted.dom().union(all.take(i + 1).to_set()));
            }
            i = i + 1;
        }
        assert(all.take(pinned@.len() as int) =~= all);
        keys.to_list()
    }
}

impl Default for AccessBooks {
    /// Books that admit any holder of an invite, and accept no key.
    fn default() -> (r: AccessBooks)
        ensures
            r.wf(),
            r@.trust == TrustView::empty(TrustPolicy::Bearer),
            r@.accepted == Map::<Seq<char>, Scope>::empty(),
    {
        AccessBooks::new()
    }
}

// ---------------------------------------------------------------------------
// Deciding on a connection

/// How a client introduced itself.
pub enum Introduction {
    /// Its hello could not be read, for this reason.
    Failed(String),
    /// What it sent is no hello, for this reason.
    Malformed(String),
    /// It shows an invite.
    Invite(ClientHello),
    /// It shows no invite and relies on its key.
    Key { label: Option<String> },
}

/// What deciding on a connection gives: the scope and the label of the client,
/// or the code of the refusal; whom the node trusts afterwards; and whether that
/// has to be written down.
pub struct Decision {
    pub outcome: Result<(Scope, Option<String>), Seq<char>>,
    pub books: AccessView,
    pub persist: bool,
}

impl Decision {
    pub open spec fn refused(code: Seq<char>, books: AccessView) -> Decision {
        Decision { outcome: Err(code), books, persist: false }
    }
}

/// The decision of the host `us` on a connection from `client`. An invite is
/// redeemed under the trust book; without one the key has to be accepted. The
/// label is handed on.
pub open spec fn decision(
    books: AccessView,
    us: Seq<u8>,
    client: Seq<u8>,
    introduction: Introduction,
    now: u64,
) -> Decision {
    match introduction {
        Introduction::Failed(reason) => Decision::refused(reason@, books),
        Introduction::Malformed(reason) => Decision::refused("bad hello: "@ + reason@, books),
        Introduction::Invite(hello) => {
            let admission = node::admission(books.trust, us, client, hello.invite, now);
            Decision {
                outcome: match admission.outcome {
                    Ok(scope) => Ok((scope, hello.label)),
                    Err(code) => Err(code),
                },
                books: AccessView { trust: admission.state, ..books },
                persist: admission.persist,
            }
        },
        Introduction::Key { label } => match acceptance::key_admission(books.accepted, client) {
            Ok(scope) => Decision { outcome: Ok((scope, label)), books, persist: false },
            Err(code) => Decision::refused(code, books),
        },
    }
}

/// Decides on a connection, by what the file of the books held when it was read
/// again just now. Changes the books where an invite is redeemed, and tells
/// whether they then have to be written down.
pub fn decide(
    books: &mut AccessBooks,
    file: Option<AccessBooks>,
    us: &EndpointId,
    client: &EndpointId,
    introduction: Introduction,
    now: u64,
) -> (r: (Result<(Scope, Option<String>), String>, bool))
    requires
        old(books).wf(),
        file matches Some(fresh) ==> fresh.wf(),
    ensures
        final(books).wf(),
        ({
            let d = decision(
                old(books)@.reread(file_view(file)),
                us@,
                client@,
                introduction,
                now,
            );
            &&& final(books)@ == d.books
            &&& r.1 == d.persist
            &&& match r.0 {
                Ok(admitted) => d.outcome == Ok::<(Scope, Option<String>), Seq<char>>(admitted),
                Err(code) => d.outcome == Err::<(Scope, Option<String>), Seq<char>>(code@),
            }
        }),
{
    books.reread(file);
    match introduction {
        Introduction::Failed(reason) => node::authorize(
            &mut books.trust,
            us,
            client,
            HelloRead::Failed(reason),
            now,
        ),
        Introduction::Malformed(reason) => node::authorize(
            &mut books.trust,
            us,
            client,
            HelloRead::Malformed(reason),
            now,
        ),
        Introduction::Invite(hello) => node::authorize(
            &mut books.trust,
            us,
            client,
            HelloRead::Hello(hello),
            now,
        ),
        Introduction::Key { label } => match books.accepted.authorize(client) {
            Ok(scope) => (Ok((scope, label)), false),
            Err(code) => (Err(code), false),
        },
    }
}

// ---------------------------------------------------------------------------
// What holds of the decisions

/// A client that shows no invite is decided on by what the file holds now,
/// whatever was known of it before.
pub proof fn keys_are_decided_on_by_the_file(
    known: AccessView,
    file: AccessView,
    us: Seq<u8>,
    client: Seq<u8>,
    label: Option<String>,
    now: u64,
)
    ensures
        decision(
            known.reread(Some(file)),
            us,
            client,
            Introduction::Key { label },
            now,
        ).outcome == (match acceptance::key_admission(file.accepted, client) {
            Ok(scope) => Ok::<(Scope, Option<String>), Seq<char>>((scope, label)),
            Err(code) => Err::<(Scope, Option<String>), Seq<char>>(code),
        }),
{
}

/// A key that is accepted in the file is admitted on its next connection, with
/// full control, whatever a running node knew of it before. What is done for one
/// key makes no difference to another.
pub proof fn acceptances_count_on_the_next_connection(
    known: AccessView,
    file: AccessView,
    us: Seq<u8>,
    client: EndpointId,
    other: Seq<u8>,
    label: Option<String>,
    now: u64,
)
    requires
        other != client@,
    ensures
        decision(
            known.reread(Some(file.changed(TrustChange::Accept(client)))),
            us,
            client@,
            Introduction::Key { label },
            now,
        ).outcome == Ok::<(Scope, Option<String>), Seq<char>>((Scope::Control, label)),
        decision(
            known.reread(Some(file.changed(TrustChange::Accept(client)))),
            us,
            other,
            Introduction::Key { label },
            now,
        ).outcome == decision(
            known.reread(Some(file)),
            us,
            other,
            Introduction::Key { label },
            now,
        ).outcome,
        file.changed(TrustChange::Accept(client)).allowed_keys() == file.allowed_keys().insert(
            digits::lower_hex(client@),
        ),
{
    acceptance::acceptance_gates_by_key(file.accepted, client@, Scope::Control, other);
    assert(file.changed(TrustChange::Accept(client)).allowed_keys() =~= file.allowed_keys().insert(
        digits::lower_hex(client@),
    ));
}

/// A key that is revoked in the file is refused on its next connection, however
/// it introduces itself and whatever a running node knew of it before; and it no
/// longer counts as accepted.
pub proof fn revocations_count_on_the_next_connection(
    known: AccessView,
    file: AccessView,
    us: Seq<u8>,
    client: EndpointId,
    introduction: Introduction,
    now: u64,
)
    ensures
        decision(
            known.reread(Some(file.changed(TrustChange::Revoke(client)))),
            us,
            client@,
            introduction,
            now,
        ).outcome is Err,
        file.changed(TrustChange::Revoke(client)).allowed_keys() == file.allowed_keys().remove(
            digits::lower_hex(client@),
        ),
{
    assert(file.changed(TrustChange::Revoke(client)).allowed_keys() =~= file.allowed_keys().remove(
        digits::lower_hex(client@),
    ));
}

/// A single-use invite that was redeemed stays redeemed, whatever the file holds
/// when it is read again.
pub proof fn redeemed_invites_stay_redeemed(
    books: AccessView,
    us: Seq<u8>,
    client: Seq<u8>,
    hello: ClientHello,
    now: u64,
    file: Option<AccessView>,
    other: Seq<u8>,
    label: Option<String>,
    later: u64,
)
    requires
        hello.invite.claims.single_use,
        decision(books, us, client, Introduction::Invite(hello), now).outcome is Ok,
    ensures
        decision(books, us, client, Introduction::Invite(hello), now).persist,
        decision(
            decision(books, us, client, Introduction::Invite(hello), now).books.reread(file),
            us,
            other,
            Introduction::Invite(ClientHello { invite: hello.invite, label }),
            later,
        ).outcome is Err,
{
}

/// A refused client leaves the books as they were, and so does one that is
/// admitted by its key; nothing is written down for either.
pub proof fn only_redeemed_invites_change_the_books(
    books: AccessView,
    us: Seq<u8>,
    client: Seq<u8>,
    introduction: Introduction,
    now: u64,
)
    requires
        decision(books, us, client, introduction, now).outcome is Err || introduction is Key,
    ensures
        decision(books, us, client, introduction, now).books == books,
        !decision(books, us, client, introduction, now).persist,
{
}

/// Reading back what was written changes nothing.
pub proof fn rereading_what_was_written_changes_nothing(books: AccessView)
    ensures
        books.reread(Some(books)) == books,
        books.reread(None) == books,
{
    assert(books.reread(Some(books)) =~= books) by {
        assert(books.trust.reread(books.trust) =~= books.trust);
    }
}

/// An admitted client keeps the label it gave, and gets the scope of the invite
/// it showed, or the one its key was accepted with. What could not be read as a
/// hello is refused, with its reason.
pub proof fn admitted_clients_keep_their_label(
    books: AccessView,
    us: Seq<u8>,
    client: Seq<u8>,
    hello: ClientHello,
    label: Option<String>,
    reason: String,
    now: u64,
)
    ensures
        decision(books, us, client, Introduction::Invite(hello), now).outcome matches Ok(granted)
            ==> granted == (hello.invite.claims.scope, hello.label),
        decision(books, us, client, Introduction::Key { label }, now).outcome matches Ok(granted)
            ==> granted.1 == label && books.accepted.contains_key(digits::lower_hex(client))
            && granted.0 == books.accepted[digits::lower_hex(client)],
        books.accepted.contains_key(digits::lower_hex(client)) ==> decision(
            books,
            us,
            client,
            Introduction::Key { label },
            now,
        ).outcome is Ok,
        decision(books, us, client, Introduction::Invite(hello), now).outcome is Ok
            <==> node::admission(books.trust, us, client, hello.invite, now).outcome is Ok,
        decision(books, us, client, Introduction::Failed(reason), now).outcome == Err::<
            (Scope, Option<String>),
            Seq<char>,
        >(reason@),
        decision(books, us, client, Introduction::Malformed(reason), now).outcome == Err::<
            (Scope, Option<String>),
            Seq<char>,
        >("bad hello: "@ + reason@),
{
}

/// Accepting or revoking one key leaves every other as it was: whether it is
/// accepted and with which scope, whether it is pinned, and whether it is
/// revoked. Keeping changes nothing.
pub proof fn changes_touch_one_key(books: AccessView, key: EndpointId, other: Seq<u8>)
    requires
        other != key@,
    ensures
        ({
            let name = digits::lower_hex(other);
            let a = books.changed(TrustChange::Accept(key));
            let b = books.changed(TrustChange::Revoke(key));
            &&& a.trust == books.trust
            &&& a.accepted.contains_key(name) <==> books.accepted.contains_key(name)
            &&& b.accepted.contains_key(name) <==> books.accepted.contains_key(name)
            &&& books.accepted.contains_key(name) ==> a.accepted[name] == books.accepted[name]
                && b.accepted[name] == books.accepted[name]
            &&& b.trust.key_revoked(other) <==> books.trust.key_revoked(other)
            &&& b.trust.allowed == books.trust.allowed
            &&& b.trust.revoked_tokens == books.trust.revoked_tokens
            &&& b.trust.policy == books.trust.policy
        }),
        books.changed(TrustChange::Keep) == books,
{
    if digits::lower_hex(other) == digits::lower_hex(key@) {
        digits::lower_hex_is_injective(other, key@);
    }
}

/// The keys that count as accepted are those accepted by key, and those pinned
/// that are not revoked; and no other.
pub proof fn allowed_keys_are_accepted_or_pinned(books: AccessView, name: Seq<char>)
    ensures
        books.accepted.contains_key(name) ==> books.allowed_keys().contains(name),
        books.trust.allowed.contains(name) && !books.trust.revoked_keys.contains(name)
            ==> books.allowed_keys().contains(name),
        books.allowed_keys().contains(name) ==> books.accepted.contains_key(name) || (
        books.trust.allowed.contains(name) && !books.trust.revoked_keys.contains(name)),
{
}

} // verus!
