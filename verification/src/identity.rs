//! Node keys: the secret half, the public half that is the endpoint id, and
//! signatures.

use vstd::prelude::*;
use vstd::string::StringExecFns;

use crate::digits;
use crate::error::{ErrorView, RoamingError};

verus! {

// ---------------------------------------------------------------------------
// What the key crate computes

/// The public key that a text denotes, or the text of the error: what
/// `iroh::PublicKey` makes of the text.
pub uninterp spec fn parsed_key(text: Seq<char>) -> Result<Seq<u8>, Seq<char>>;

/// The ed25519 public key of a secret key.
pub uninterp spec fn ed25519_public(secret: Seq<u8>) -> Seq<u8>;

/// The ed25519 signature of a message under a secret key.
pub uninterp spec fn ed25519_signature(secret: Seq<u8>, message: Seq<u8>) -> Seq<u8>;

/// Whether a signature of a message holds under a public key, by the strict
/// ed25519 check.
pub uninterp spec fn ed25519_verifies(public: Seq<u8>, message: Seq<u8>, signature: Seq<u8>) -> bool;

/// Whether 32 bytes are a public key: their hexadecimal text denotes them.
pub open spec fn is_key(bytes: Seq<u8>) -> bool {
    parsed_key(digits::lower_hex(bytes)) == Ok::<Seq<u8>, Seq<char>>(bytes)
}

/// Whether the first half of a signature is a point other than the neutral
/// one, whose encoding is a one followed by zeros. The strict check refuses
/// the neutral point, which signing gives only for a message whose nonce is
/// zero.
pub open spec fn nonce_is_regular(signature: Seq<u8>) -> bool {
    !(signature[0] == 1 && forall|i: int| 1 <= i < 32 ==> signature[i] == 0)
}

/// `iroh::PublicKey::from_str`: a key in hexadecimal or base32. The result is
/// the one that `parsed_key` names; a key that it gives is itself denoted by
/// its hexadecimal text, which is how the crate displays a key.
#[verifier::external_body]
fn parse_key(text: &str) -> (r: Result<[u8; 32], String>)
    ensures
        match r {
            Ok(key) => parsed_key(text@) == Ok::<Seq<u8>, Seq<char>>(key@) && is_key(key@),
            Err(e) => parsed_key(text@) == Err::<Seq<u8>, Seq<char>>(e@),
        },
{
    match text.parse::<iroh::PublicKey>() {
        Ok(key) => Ok(*key.as_bytes()),
        Err(e) => Err(e.to_string()),
    }
}

/// `iroh::PublicKey::from_bytes`: whether the bytes are a point of the curve,
/// which is what parsing their hexadecimal text asks too.
#[verifier::external_body]
fn check_key(bytes: &[u8; 32]) -> (r: bool)
    ensures
        r == is_key(bytes@),
{
    iroh::PublicKey::from_bytes(bytes).is_ok()
}

/// `iroh::SecretKey::generate`: 32 random bytes. Nothing is said of them.
#[verifier::external_body]
fn random_secret() -> (r: [u8; 32]) {
    iroh::SecretKey::generate().to_bytes()
}

/// `iroh::SecretKey::public`: the public key, which `ed25519_public` names. It
/// is a point of the curve.
#[verifier::external_body]
fn public_of(secret: &[u8; 32]) -> (r: [u8; 32])
    ensures
        r@ == ed25519_public(secret@),
        is_key(r@),
{
    *iroh::SecretKey::from_bytes(secret).public().as_bytes()
}

/// `iroh::SecretKey::sign`: the signature, which `ed25519_signature` names. It
/// holds under the public key of the same secret, unless its first half is the
/// neutral point.
#[verifier::external_body]
fn sign_message(secret: &[u8; 32], message: &[u8]) -> (r: [u8; 64])
    ensures
        r@ == ed25519_signature(secret@, message@),
        nonce_is_regular(r@) ==> ed25519_verifies(ed25519_public(secret@), message@, r@),
{
    iroh::SecretKey::from_bytes(secret).sign(message).to_bytes()
}

/// `iroh::PublicKey::verify`: whether the signature holds, which
/// `ed25519_verifies` names. Bytes that are no key verify nothing.
#[verifier::external_body]
fn verify_message(public: &[u8; 32], message: &[u8], signature: &[u8; 64]) -> (r: bool)
    ensures
        r == ed25519_verifies(public@, message@, signature@),
{
    match iroh::PublicKey::from_bytes(public) {
        Ok(key) => key.verify(message, &iroh::Signature::from_bytes(signature)).is_ok(),
        Err(_) => false,
    }
}

// ---------------------------------------------------------------------------
// Keys

/// A node's public key, which is also its endpoint id.
#[derive(Debug, Clone, Copy, PartialEq, Eq)]
pub struct EndpointId {
    bytes: [u8; 32],
}

impl View for EndpointId {
    type V = Seq<u8>;

    closed spec fn view(&self) -> Seq<u8> {
        self.bytes@
    }
}

/// An endpoint id holds 32 bytes, and two with the same bytes are the same.
pub broadcast proof fn endpoint_id_is_its_bytes(a: EndpointId, b: EndpointId)
    ensures
        #[trigger] a@.len() == 32,
        #[trigger] b@.len() == 32,
        a@ == b@ ==> a == b,
{
    if a@ == b@ {
        assert forall|i: int| 0 <= i < 32 implies a.bytes[i] == b.bytes[i] by {
            assert(a.bytes@[i] == b.bytes@[i]);
        }
        assert(a.bytes =~= b.bytes);
    }
}

impl EndpointId {
    /// The key with these bytes, if they are one.
    pub fn from_bytes(bytes: &[u8; 32]) -> (r: Option<EndpointId>)
        ensures
            match r {
                Some(id) => is_key(bytes@) && id@ == bytes@,
                None => !is_key(bytes@),
            },
    {
        if check_key(bytes) {
            Some(EndpointId { bytes: *bytes })
        } else {
            None
        }
    }

    /// The bytes of the key.
    pub fn as_bytes(&self) -> (r: &[u8; 32])
        ensures
            r@ == self@,
    {
        &self.bytes
    }

    /// The key as it is shown: 64 hexadecimal digits in lower case.
    pub fn to_text(&self) -> (r: String)
        ensures
            r@ == digits::lower_hex(self@),
    {
        digits::hex_of(&self.bytes)
    }

    /// Whether two keys are the same.
    pub fn same(&self, other: &EndpointId) -> (r: bool)
        ensures
            r == (self@ == other@),
    {
        let mut i: usize = 0;
        while i < 32
            invariant
                i <= 32,
                forall|j: int| 0 <= j < i ==> self.bytes@[j] == other.bytes@[j],
            decreases 32 - i,
        {
            if self.bytes[i] != other.bytes[i] {
                assert(self@[i as int] != other@[i as int]);
                return false;
            }
            i = i + 1;
        }
        assert(self@ =~= other@);
        true
    }

    /// Whether `signature` is this key's signature of `message`.
    pub fn verify(&self, message: &[u8], signature: &Signature) -> (r: bool)
        ensures
            r == ed25519_verifies(self@, message@, signature@),
    {
        verify_message(&self.bytes, message, &signature.bytes)
    }
}

/// A node's secret key.
#[derive(Clone, Copy, PartialEq, Eq)]
pub struct SecretKey {
    bytes: [u8; 32],
}

impl View for SecretKey {
    type V = Seq<u8>;

    closed spec fn view(&self) -> Seq<u8> {
        self.bytes@
    }
}

/// A secret key holds 32 bytes.
pub proof fn secret_keys_hold_32_bytes(key: SecretKey)
    ensures
        key@.len() == 32,
{
}

impl SecretKey {
    /// A new random key.
    pub fn generate() -> (r: SecretKey)
        ensures
            r@.len() == 32,
    {
        SecretKey { bytes: random_secret() }
    }

    /// The key with these bytes.
    pub fn from_bytes(bytes: &[u8; 32]) -> (r: SecretKey)
        ensures
            r@ == bytes@,
    {
        SecretKey { bytes: *bytes }
    }

    /// The bytes of the key.
    pub fn to_bytes(&self) -> (r: [u8; 32])
        ensures
            r@ == self@,
    {
        self.bytes
    }

    /// The public half.
    pub fn public(&self) -> (r: EndpointId)
        ensures
            r@ == ed25519_public(self@),
            is_key(r@),
    {
        EndpointId { bytes: public_of(&self.bytes) }
    }

    /// The signature of a message, which holds under the public half unless
    /// its nonce is not regular.
    pub fn sign(&self, message: &[u8]) -> (r: Signature)
        ensures
            r@ == ed25519_signature(self@, message@),
            nonce_is_regular(r@) ==> ed25519_verifies(ed25519_public(self@), message@, r@),
    {
        Signature { bytes: sign_message(&self.bytes, message) }
    }
}

/// An ed25519 signature.
#[derive(Debug, Clone, Copy, PartialEq, Eq)]
pub struct Signature {
    bytes: [u8; 64],
}

impl View for Signature {
    type V = Seq<u8>;

    closed spec fn view(&self) -> Seq<u8> {
        self.bytes@
    }
}

impl Signature {
    /// The signature with these bytes.
    pub fn from_bytes(bytes: &[u8; 64]) -> (r: Signature)
        ensures
            r@ == bytes@,
    {
        Signature { bytes: *bytes }
    }

    /// The bytes of the signature.
    pub fn to_bytes(&self) -> (r: [u8; 64])
        ensures
            r@ == self@,
    {
        self.bytes
    }
}

// ---------------------------------------------------------------------------
// Endpoint ids as text

/// What parsing an endpoint id gives, from what the key crate makes of it.
pub open spec fn endpoint_id_result(
    text: Seq<char>,
    parsed: Result<Seq<u8>, Seq<char>>,
) -> Result<Seq<u8>, ErrorView> {
    match parsed {
        Ok(key) => Ok(key),
        Err(e) => Err(ErrorView::Identity("invalid endpoint id `"@ + text + "`: "@ + e)),
    }
}

/// The error for a text that is no endpoint id.
pub fn bad_endpoint_id(text: &str, reason: &str) -> (r: RoamingError)
    ensures
        r@ == ErrorView::Identity("invalid endpoint id `"@ + text@ + "`: "@ + reason@),
{
    let mut msg = "invalid endpoint id `".to_owned();
    msg.append(text);
    msg.append("`: ");
    msg.append(reason);
    RoamingError::Identity(msg)
}

/// Parses an endpoint id from its text.
pub fn parse_endpoint_id(s: &str) -> (r: Result<EndpointId, RoamingError>)
    ensures
        match r {
            Ok(id) => endpoint_id_result(s@, parsed_key(s@)) == Ok::<Seq<u8>, ErrorView>(id@)
                && is_key(id@),
            Err(e) => endpoint_id_result(s@, parsed_key(s@)) == Err::<Seq<u8>, ErrorView>(e@),
        },
{
    match parse_key(s) {
        Ok(bytes) => Ok(EndpointId { bytes }),
        Err(e) => Err(bad_endpoint_id(s, e.as_str())),
    }
}

/// An endpoint id parses back from the text that shows it.
pub proof fn endpoint_id_text_parses_back(id: EndpointId)
    requires
        is_key(id@),
    ensures
        endpoint_id_result(
            digits::lower_hex(id@),
            parsed_key(digits::lower_hex(id@)),
        ) == Ok::<Seq<u8>, ErrorView>(id@),
{
}

/// A key that the text stands for is taken as it is, and a text that stands for
/// none is named in the error, with the reason.
pub proof fn bad_endpoint_ids_are_named(text: Seq<char>, key: Seq<u8>, reason: Seq<char>)
    ensures
        endpoint_id_result(text, Ok(key)) == Ok::<Seq<u8>, ErrorView>(key),
        endpoint_id_result(text, Err(reason)) is Err,
        endpoint_id_result(text, Err(reason))->Err_0 is Identity,
        ({
            let m = endpoint_id_result(text, Err(reason))->Err_0->Identity_0;
            m.len() == 24 + text.len() + reason.len() && m.subrange(21, 21int + text.len()) == text
                && m.skip(24int + text.len()) == reason
        }),
{
    reveal_strlit("invalid endpoint id `");
    reveal_strlit("`: ");
    let m = endpoint_id_result(text, Err(reason))->Err_0->Identity_0;
    assert(m.subrange(21, 21int + text.len()) =~= text);
    assert(m.skip(24int + text.len()) =~= reason);
}

} // verus!
