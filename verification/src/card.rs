//! Connection cards: the non-secret text that one node gives another so that
//! it can find and identify it.
//!
//! A card carries the node's public key and the relays through which it is
//! reached. Possessing one grants no access.

use vstd::prelude::*;

use crate::base64url;
use crate::digits;
use crate::error::{ErrorView, RoamingError};
use crate::identity::EndpointId;
use crate::invite::{self, EndpointAddr};
use crate::lists;
use crate::relay_url;
use crate::sha256;
use crate::text;

verus! {

/// The card version that this library reads and writes.
pub const CARD_VERSION: u32 = 1;

/// The scheme in front of an encoded card.
pub const CARD_SCHEME: &'static str = "goose+roam://";

/// A shareable, non-secret card: who a node is and how to reach it.
#[derive(Debug, Clone, PartialEq, Eq)]
pub struct ConnectionCard {
    pub version: u32,
    /// The node's public key.
    pub endpoint_id: EndpointId,
    /// Relay URLs the node registers with. May be empty.
    pub relay_urls: Vec<String>,
}

// ---------------------------------------------------------------------------
// Fingerprints

/// The first six bytes of a digest as three groups of four hexadecimal digits.
pub open spec fn grouped(digest: Seq<u8>) -> Seq<char> {
    digits::lower_hex(digest.subrange(0, 2)) + "-"@ + digits::lower_hex(digest.subrange(2, 4))
        + "-"@ + digits::lower_hex(digest.subrange(4, 6))
}

/// Three groups of four lower-case hexadecimal digits, with a dash between them
/// and no other dash.
pub open spec fn is_grouped(s: Seq<char>) -> bool {
    &&& s.len() == 14
    &&& forall|i: int| 0 <= i < 14 ==> ((#[trigger] s[i]) == '-' <==> i == 4 || i == 9)
    &&& forall|i: int|
        0 <= i < 14 && i != 4 && i != 9 ==> ('0' <= #[trigger] s[i] <= '9' || 'a' <= s[i] <= 'f')
}

/// The fingerprint of a digest.
pub fn fingerprint_of(digest: &[u8; 32]) -> (r: String)
    ensures
        r@ == grouped(digest@),
        r@.len() == 14,
        is_grouped(r@),
{
    proof {
        fingerprints_are_grouped(digest@);
    }
    let a: [u8; 2] = [digest[0], digest[1]];
    let b: [u8; 2] = [digest[2], digest[3]];
    let c: [u8; 2] = [digest[4], digest[5]];
    assert(a@ == digest@.subrange(0, 2));
    assert(b@ == digest@.subrange(2, 4));
    assert(c@ == digest@.subrange(4, 6));
    let head = text::concat3(digits::hex_of(&a).as_str(), "-", digits::hex_of(&b).as_str());
    text::concat3(head.as_str(), "-", digits::hex_of(&c).as_str())
}

/// A fingerprint is 14 characters long: three groups of four lower-case
/// hexadecimal digits with a dash between them, and no other dash.
pub proof fn fingerprints_are_grouped(digest: Seq<u8>)
    requires
        digest.len() == 32,
    ensures
        is_grouped(grouped(digest)),
{
    reveal_strlit("-");
    let a = digits::lower_hex(digest.subrange(0, 2));
    let b = digits::lower_hex(digest.subrange(2, 4));
    let c = digits::lower_hex(digest.subrange(4, 6));
    let g = grouped(digest);
    assert forall|i: int| 0 <= i < 4 implies g[i] == a[i] && g[i + 5] == b[i] && g[i + 10] == c[i] by {}
    assert(g[4] == '-' && g[9] == '-');
    assert forall|i: int| 0 <= i < 14 && i != 4 && i != 9 implies ('0' <= #[trigger] g[i] <= '9' || 'a'
        <= g[i] <= 'f') by {
        if i < 4 {
            assert(g[i] == a[i]);
        } else if i < 9 {
            assert(g[(i - 5) + 5] == b[i - 5]);
        } else {
            assert(g[(i - 10) + 10] == c[i - 10]);
        }
    }
}

impl ConnectionCard {
    /// A card of the current version.
    pub fn new(endpoint_id: EndpointId, relay_urls: Vec<String>) -> (r: ConnectionCard)
        ensures
            r.version == CARD_VERSION,
            r.endpoint_id == endpoint_id,
            r.relay_urls == relay_urls,
    {
        ConnectionCard { version: CARD_VERSION, endpoint_id, relay_urls }
    }

    /// A short fingerprint of the identity, for comparison out of band. It
    /// depends on the public key alone.
    pub fn fingerprint(&self) -> (r: String)
        ensures
            r@ == grouped(sha256::sha256(self.endpoint_id@)),
            r@.len() == 14,
            is_grouped(r@),
    {
        let digest = sha256::digest(self.endpoint_id.as_bytes());
        fingerprint_of(&digest)
    }
}

// ---------------------------------------------------------------------------
// Cards as text

/// The written form of the card that a text carries: white space around the
/// text is ignored, then the scheme comes off, then base64 is decoded.
pub open spec fn card_bytes(card: Seq<char>) -> Result<Seq<u8>, ErrorView> {
    match text::after_prefix(text::trimmed(card), CARD_SCHEME@) {
        None => Err(ErrorView::Card("missing goose+roam:// scheme"@)),
        Some(body) => match base64url::base64url_bytes(body) {
            Ok(json) => Ok(json),
            Err(e) => Err(ErrorView::Card("bad base64: "@ + e)),
        },
    }
}

proof fn lemma_card_text_is_trimmed(body: Seq<char>)
    requires
        forall|i: int| 0 <= i < body.len() ==> base64url::in_alphabet(#[trigger] body[i]),
    ensures
        text::trimmed(CARD_SCHEME@ + body) == CARD_SCHEME@ + body,
{
    reveal_strlit("goose+roam://");
    let s = CARD_SCHEME@ + body;
    assert(s[0] == 'g');
    if body.len() == 0 {
        assert(s.last() == '/');
    } else {
        assert(s.last() == body[body.len() - 1]);
        assert(base64url::in_alphabet(body[body.len() - 1]));
    }
    text::trimmed_is_stable(s);
}

/// White space around a card makes no difference to what it carries.
pub proof fn white_space_around_a_card_is_ignored(
    before: Seq<char>,
    card: Seq<char>,
    after: Seq<char>,
)
    requires
        forall|i: int| 0 <= i < before.len() ==> text::white(#[trigger] before[i]),
        forall|i: int| 0 <= i < after.len() ==> text::white(#[trigger] after[i]),
    ensures
        card_bytes(before + card + after) == card_bytes(card),
{
    text::trimmed_ignores_white_around(before, card, after);
}

/// What a card comes to that reading the JSON form gave.
pub open spec fn taken_as(
    parsed: Result<ConnectionCard, String>,
    r: Result<ConnectionCard, RoamingError>,
) -> bool {
    match (r, parsed) {
        (Ok(card), Ok(given)) => card == given && given.version == CARD_VERSION,
        (Err(e), Ok(given)) => given.version != CARD_VERSION && e@ == ErrorView::Card(
            "unsupported card version "@ + digits::decimal(given.version as nat),
        ),
        (Err(e), Err(reason)) => e@ == ErrorView::Card("bad card: "@ + reason@),
        (Ok(_), Err(_)) => false,
    }
}

/// The text that carries the written form of a card.
pub fn card_text(json: &[u8]) -> (r: String)
    ensures
        r@ == invite::token_text(json@),
        invite::is_url_safe(r@),
        card_bytes(r@) == Ok::<Seq<u8>, ErrorView>(json@),
{
    let body = base64url::encode(json);
    let card = text::concat(CARD_SCHEME, body.as_str());
    proof {
        lemma_card_text_is_trimmed(body@);
        assert(CARD_SCHEME@.is_prefix_of(card@));
        assert(card@.skip(CARD_SCHEME@.len() as int) == body@);
        invite::lemma_base64url_is_url_safe(body@);
    }
    card
}

impl ConnectionCard {
    /// The text of a card, from what writing it as JSON gave.
    pub fn encode(json: Result<Vec<u8>, String>) -> (r: Result<String, RoamingError>)
        ensures
            match (r, json) {
                (Ok(card), Ok(bytes)) => card@ == invite::token_text(bytes@)
                    && invite::is_url_safe(card@) && card_bytes(card@) == Ok::<
                    Seq<u8>,
                    ErrorView,
                >(bytes@),
                (Err(e), Err(reason)) => e@ == ErrorView::Card("encode card: "@ + reason@),
                _ => false,
            },
    {
        match json {
            Ok(bytes) => Ok(card_text(bytes.as_slice())),
            Err(reason) => Err(RoamingError::Card(text::concat("encode card: ", reason.as_str()))),
        }
    }

    /// The JSON form of the card that a text carries.
    pub fn decode(card: &str) -> (r: Result<Vec<u8>, RoamingError>)
        ensures
            match r {
                Ok(json) => card_bytes(card@) == Ok::<Seq<u8>, ErrorView>(json@),
                Err(e) => card_bytes(card@) == Err::<Seq<u8>, ErrorView>(e@),
            },
    {
        match text::strip_prefix(text::trim(card), CARD_SCHEME) {
            None => Err(RoamingError::Card("missing goose+roam:// scheme".to_owned())),
            Some(body) => match base64url::decode(body) {
                Ok(json) => Ok(json),
                Err(e) => Err(RoamingError::Card(text::concat("bad base64: ", e.as_str()))),
            },
        }
    }

    /// The card that reading the JSON form gave, if it is of the current
    /// version.
    pub fn from_json(parsed: Result<ConnectionCard, String>) -> (r: Result<
        ConnectionCard,
        RoamingError,
    >)
        ensures
            taken_as(parsed, r),
    {
        match parsed {
            Ok(card) => {
                if card.version != CARD_VERSION {
                    let version = digits::decimal_of(card.version as u64);
                    return Err(
                        RoamingError::Card(
                            text::concat("unsupported card version ", version.as_str()),
                        ),
                    );
                }
                Ok(card)
            },
            Err(reason) => Err(RoamingError::Card(text::concat("bad card: ", reason.as_str()))),
        }
    }
}

// ---------------------------------------------------------------------------
// Where to dial

/// Whether a URL has the scheme of a relay: `https` or `http`.
pub open spec fn is_http(url: Seq<char>) -> bool {
    "https://"@.is_prefix_of(url) || "http://"@.is_prefix_of(url)
}

/// One relay of a card, normalised, or why it cannot be dialled.
pub open spec fn card_relay(url: Seq<char>) -> Result<Seq<char>, Seq<char>> {
    if !is_http(url) {
        Err("relay url must be http(s): "@ + url)
    } else {
        match relay_url::relay_url(url) {
            Some(relay) => Ok(relay),
            None => Err(invite::bad_relay_text(url)),
        }
    }
}

/// The relays of a card, normalised, each once; or why the first bad one cannot
/// be dialled.
pub open spec fn card_relays(urls: Seq<Seq<char>>) -> Result<Seq<Seq<char>>, Seq<char>>
    decreases urls.len(),
{
    if urls.len() == 0 {
        Ok(Seq::empty())
    } else {
        match card_relays(urls.drop_last()) {
            Err(e) => Err(e),
            Ok(list) => match card_relay(urls.last()) {
                Ok(relay) => Ok(lists::with_new(list, relay)),
                Err(e) => Err(e),
            },
        }
    }
}

proof fn lemma_bad_card_relay_stays(urls: Seq<Seq<char>>, n: int)
    requires
        0 <= n <= urls.len(),
        card_relays(urls.take(n)) is Err,
    ensures
        card_relays(urls) == card_relays(urls.take(n)),
    decreases urls.len() - n,
{
    if n == urls.len() {
        assert(urls.take(n) == urls);
    } else {
        assert(urls.take(n + 1).drop_last() == urls.take(n));
        lemma_bad_card_relay_stays(urls, n + 1);
    }
}

/// The relays of a card can be dialled exactly where each of them can, and then
/// they are the set of their normalised forms without repetition. Otherwise the
/// reason is that of the first that cannot.
pub proof fn card_relays_are_the_parsed_set(urls: Seq<Seq<char>>)
    ensures
        card_relays(urls) is Ok <==> forall|i: int|
            0 <= i < urls.len() ==> card_relay(#[trigger] urls[i]) is Ok,
        match card_relays(urls) {
            Ok(list) => list.no_duplicates() && (forall|u: Seq<char>| #[trigger]
                list.contains(u) <==> exists|i: int|
                    0 <= i < urls.len() && card_relay(#[trigger] urls[i]) == Ok::<
                        Seq<char>,
                        Seq<char>,
                    >(u)),
            Err(reason) => exists|i: int|
                0 <= i < urls.len() && card_relay(#[trigger] urls[i]) == Err::<
                    Seq<char>,
                    Seq<char>,
                >(reason) && forall|j: int| 0 <= j < i ==> card_relay(#[trigger] urls[j]) is Ok,
        },
    decreases urls.len(),
{
    if urls.len() > 0 {
        let init = urls.drop_last();
        let last = urls.last();
        card_relays_are_the_parsed_set(init);
        assert(urls[urls.len() - 1] == last);
        assert forall|i: int| 0 <= i < init.len() implies init[i] == #[trigger] urls[i] by {}
        match card_relays(init) {
            Err(reason) => {
                let i = choose|i: int|
                    0 <= i < init.len() && card_relay(#[trigger] init[i]) == Err::<
                        Seq<char>,
                        Seq<char>,
                    >(reason) && forall|j: int| 0 <= j < i ==> card_relay(#[trigger] init[j]) is Ok;
                assert(urls[i] == init[i]);
                assert forall|j: int| 0 <= j < i implies card_relay(#[trigger] urls[j]) is Ok by {
                    assert(init[j] == urls[j]);
                }
            },
            Ok(list) => {
                assert forall|j: int| 0 <= j < init.len() implies card_relay(
                    #[trigger] urls[j],
                ) is Ok by {
                    assert(init[j] == urls[j]);
                }
                if let Ok(relay) = card_relay(last) {
                    lemma_one_more_relay(urls, list, relay);
                }
            },
        }
    }
}

proof fn lemma_one_more_relay(urls: Seq<Seq<char>>, list: Seq<Seq<char>>, relay: Seq<char>)
    requires
        urls.len() > 0,
        card_relay(urls.last()) == Ok::<Seq<char>, Seq<char>>(relay),
        forall|u: Seq<char>| #[trigger]
            list.contains(u) <==> exists|i: int|
                0 <= i < urls.drop_last().len() && card_relay(#[trigger] urls.drop_last()[i])
                    == Ok::<Seq<char>, Seq<char>>(u),
    ensures
        forall|u: Seq<char>| #[trigger]
            lists::with_new(list, relay).contains(u) <==> exists|i: int|
                0 <= i < urls.len() && card_relay(#[trigger] urls[i]) == Ok::<
                    Seq<char>,
                    Seq<char>,
                >(u),
{
    let init = urls.drop_last();
    let r = lists::with_new(list, relay);
    assert forall|u: Seq<char>| #[trigger] r.contains(u) <==> exists|i: int|
        0 <= i < urls.len() && card_relay(#[trigger] urls[i]) == Ok::<Seq<char>, Seq<char>>(u) by {
        if r.contains(u) {
            if list.contains(u) {
                let i = choose|i: int|
                    0 <= i < init.len() && card_relay(#[trigger] init[i]) == Ok::<
                        Seq<char>,
                        Seq<char>,
                    >(u);
                assert(urls[i] == init[i]);
            } else {
                let k = choose|k: int| 0 <= k < r.len() && r[k] == u;
                assert(k == list.len());
                assert(urls[urls.len() - 1] == urls.last());
            }
        }
        if exists|i: int|
            0 <= i < urls.len() && card_relay(#[trigger] urls[i]) == Ok::<Seq<char>, Seq<char>>(u) {
            let i = choose|i: int|
                0 <= i < urls.len() && card_relay(#[trigger] urls[i]) == Ok::<
                    Seq<char>,
                    Seq<char>,
                >(u);
            if i < init.len() {
                assert(init[i] == urls[i]);
                assert(list.contains(u));
                let k = choose|k: int| 0 <= k < list.len() && list[k] == u;
                assert(r[k] == u);
            } else if !list.contains(relay) {
                assert(r[list.len() as int] == u);
            }
        }
    }
}

/// A card whose relays can be dialled names only `http` and `https` URLs.
pub proof fn dialable_cards_name_http_relays(urls: Seq<Seq<char>>)
    requires
        card_relays(urls) is Ok,
    ensures
        forall|i: int| 0 <= i < urls.len() ==> is_http(#[trigger] urls[i]),
        card_relays(urls)->Ok_0.no_duplicates(),
{
    card_relays_are_the_parsed_set(urls);
}

fn read_card_relay(url: &str) -> (r: Result<String, String>)
    ensures
        match r {
            Ok(relay) => card_relay(url@) == Ok::<Seq<char>, Seq<char>>(relay@),
            Err(e) => card_relay(url@) == Err::<Seq<char>, Seq<char>>(e@),
        },
{
    if !(text::starts_with(url, "https://") || text::starts_with(url, "http://")) {
        return Err(text::concat("relay url must be http(s): ", url));
    }
    match relay_url::parse_relay_url(url) {
        Some(relay) => Ok(relay),
        None => Err(text::concat("bad relay url ", url)),
    }
}

impl ConnectionCard {
    /// Whom to dial: the card's endpoint, through the card's relays. A relay
    /// that is not an `http` or `https` URL is refused.
    pub fn endpoint_addr(&self) -> (r: Result<EndpointAddr, RoamingError>)
        ensures
            match (r, card_relays(text::views(self.relay_urls@))) {
                (Ok(addr), Ok(list)) => addr.id == self.endpoint_id && text::views(addr.relays@)
                    == list,
                (Err(e), Err(reason)) => e@ == ErrorView::Card(reason),
                _ => false,
            },
    {
        let ghost all = text::views(self.relay_urls@);
        let mut relays: Vec<String> = Vec::new();
        let mut i: usize = 0;
        assert(all.take(0) == Seq::<Seq<char>>::empty());
        assert(text::views(relays@) == Seq::<Seq<char>>::empty());
        while i < self.relay_urls.len()
            invariant
                i <= self.relay_urls@.len(),
                all == text::views(self.relay_urls@),
                card_relays(all.take(i as int)) == Ok::<Seq<Seq<char>>, Seq<char>>(
                    text::views(relays@),
                ),
            decreases self.relay_urls@.len() - i,
        {
            assert(all.take(i + 1).drop_last() == all.take(i as int));
            assert(all.take(i + 1).last() == self.relay_urls@[i as int]@);
            match read_card_relay(self.relay_urls[i].as_str()) {
                Ok(relay) => {
                    lists::push_new(&mut relays, relay.as_str());
                },
                Err(reason) => {
                    proof {
                        lemma_bad_card_relay_stays(all, i + 1);
                    }
                    return Err(RoamingError::Card(reason));
                },
            }
            i = i + 1;
        }
        assert(all.take(self.relay_urls@.len() as int) == all);
        Ok(EndpointAddr { id: self.endpoint_id, relays })
    }
}

/// A fingerprint tells the first six bytes of the digest: without its dashes it
/// is those bytes in hexadecimal, in order. So two identities with the same
/// fingerprint agree in those bytes.
pub proof fn fingerprints_tell_six_bytes(digest: Seq<u8>, other: Seq<u8>)
    requires
        digest.len() == 32,
        other.len() == 32,
    ensures
        grouped(digest).take(4) + grouped(digest).subrange(5, 9) + grouped(digest).skip(10)
            == digits::lower_hex(digest.take(6)),
        grouped(digest) == grouped(other) <==> digest.take(6) == other.take(6),
{
    lemma_groups_are_hexadecimal(digest);
    lemma_groups_are_hexadecimal(other);
    if grouped(digest) == grouped(other) {
        digits::lower_hex_is_injective(digest.take(6), other.take(6));
    }
    if digest.take(6) == other.take(6) {
        assert(digest.subrange(0, 2) =~= digest.take(6).subrange(0, 2));
        assert(digest.subrange(2, 4) =~= digest.take(6).subrange(2, 4));
        assert(digest.subrange(4, 6) =~= digest.take(6).subrange(4, 6));
        assert(other.subrange(0, 2) =~= other.take(6).subrange(0, 2));
        assert(other.subrange(2, 4) =~= other.take(6).subrange(2, 4));
        assert(other.subrange(4, 6) =~= other.take(6).subrange(4, 6));
    }
}

proof fn lemma_groups_are_hexadecimal(digest: Seq<u8>)
    requires
        digest.len() == 32,
    ensures
        grouped(digest).take(4) + grouped(digest).subrange(5, 9) + grouped(digest).skip(10)
            == digits::lower_hex(digest.take(6)),
{
    reveal_strlit("-");
    let a = digits::lower_hex(digest.subrange(0, 2));
    let b = digits::lower_hex(digest.subrange(2, 4));
    let c = digits::lower_hex(digest.subrange(4, 6));
    let g = grouped(digest);
    assert(g.take(4) =~= a);
    assert(g.subrange(5, 9) =~= b);
    assert(g.skip(10) =~= c);
    assert(a + b + c =~= digits::lower_hex(digest.take(6)));
}

/// A text without the scheme carries no card, white space around it or not; and
/// what follows the scheme is what base64 makes of it.
pub proof fn cards_are_read_behind_the_scheme(card: Seq<char>, body: Seq<char>)
    requires
        forall|i: int| 0 <= i < body.len() ==> base64url::in_alphabet(#[trigger] body[i]),
    ensures
        match base64url::base64url_bytes(body) {
            Ok(json) => card_bytes("goose+roam://"@ + body) == Ok::<Seq<u8>, ErrorView>(json),
            Err(e) => card_bytes("goose+roam://"@ + body) == Err::<Seq<u8>, ErrorView>(
                ErrorView::Card("bad base64: "@ + e),
            ),
        },
        !"goose+roam://"@.is_prefix_of(text::trimmed(card)) ==> card_bytes(card) is Err,
{
    lemma_card_text_is_trimmed(body);
    assert((CARD_SCHEME@ + body).skip(CARD_SCHEME@.len() as int) =~= body);
    assert(CARD_SCHEME@.is_prefix_of(CARD_SCHEME@ + body));
}

/// A relay of a card is dialled only by `http` or `https`, and by either.
pub proof fn relays_are_dialled_by_http(rest: Seq<char>, url: Seq<char>)
    ensures
        is_http("http://"@ + rest),
        is_http("https://"@ + rest),
        is_http(url) ==> "http"@.is_prefix_of(url),
        card_relay(url) is Ok <==> is_http(url) && relay_url::relay_url(url) is Some,
        card_relay(url) matches Ok(relay) ==> relay_url::relay_url(url) == Some(relay),
{
    reveal_strlit("http");
    reveal_strlit("http://");
    reveal_strlit("https://");
    assert("http://"@.is_prefix_of("http://"@ + rest));
    assert("https://"@.is_prefix_of("https://"@ + rest));
    if "https://"@.is_prefix_of(url) {
        assert forall|i: int| 0 <= i < 4 implies "http"@[i] == url[i] by {
            assert("https://"@[i] == url[i]);
        }
    }
    if "http://"@.is_prefix_of(url) {
        assert forall|i: int| 0 <= i < 4 implies "http"@[i] == url[i] by {
            assert("http://"@[i] == url[i]);
        }
    }
}

/// A card of the first version is taken as it was read, and one of any other
/// version is refused.
pub proof fn cards_of_one_version_are_taken(
    given: ConnectionCard,
    taken: Result<ConnectionCard, RoamingError>,
    unread: Result<ConnectionCard, RoamingError>,
    reason: String,
)
    requires
        taken_as(Ok(given), taken),
        taken_as(Err(reason), unread),
    ensures
        given.version == 1 ==> taken == Ok::<ConnectionCard, RoamingError>(given),
        given.version != 1 ==> taken is Err,
        unread is Err,
{
}

} // verus!
