//! Relay URLs as the transport understands them.

use vstd::prelude::*;

verus! {

/// The normalised text of the relay URL that `text` denotes, or `None` if it
/// denotes none: what `iroh::RelayUrl` makes of the text.
pub uninterp spec fn relay_url(text: Seq<char>) -> Option<Seq<char>>;

/// `iroh::RelayUrl::from_str`, then its text. The result is the one that
/// `relay_url` names: nothing is said of which texts are URLs or of how they
/// are normalised.
#[verifier::external_body]
pub(crate) fn parse_relay_url(text: &str) -> (r: Option<String>)
    ensures
        match r {
            Some(url) => relay_url(text@) == Some(url@),
            None => relay_url(text@) is None,
        },
{
    match text.parse::<iroh::RelayUrl>() {
        Ok(url) => Some(url.to_string()),
        Err(_) => None,
    }
}

} // verus!
