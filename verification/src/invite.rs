//! Signed invites.
//!
//! An invite carries what a client needs to find and connect to a host (its
//! endpoint id and relay URLs), together with a capability, a validity window,
//! and a signature by the host's key. The signature covers canonical bytes, so
//! it does not depend on how the invite is written down.

use vstd::prelude::*;
use vstd::string::StringExecFns;

use crate::base64url;
use crate::digits;
use crate::error::{ErrorView, RoamingError};
use crate::identity::{self, EndpointId, SecretKey, Signature};
use crate::lists;
use crate::relay_url;
use crate::scope::Scope;
use crate::text;

verus! {

/// Separates invite signatures from those of any other protocol.
pub const TOKEN_DOMAIN: &'static str = "goose-roaming-invite-v1";

/// The invite version that this library reads and writes.
pub const TOKEN_VERSION: u32 = 1;

/// The scheme in front of an encoded invite or card.
pub const SCHEME: &'static str = "goose+roam://";

/// The signed body of an invite. All fields are covered by the signature.
#[derive(Debug, Clone)]
pub struct InviteClaims {
    pub version: u32,
    /// The issuing host, which is also whom to connect to.
    pub audience: EndpointId,
    /// Relay URLs where the host can be reached.
    pub relay_urls: Vec<String>,
    /// Capability granted by this invite.
    pub scope: Scope,
    /// Only these client keys may redeem the invite; empty means anyone who
    /// holds it.
    pub allowed_client_keys: Vec<EndpointId>,
    /// Unique token id, for revocation.
    pub token_id: String,
    /// Not-before, unix milliseconds.
    pub not_before_ms: u64,
    /// Expiry, unix milliseconds.
    pub expires_at_ms: u64,
    /// Whether the invite may be redeemed only once.
    pub single_use: bool,
}

/// An invite body as mathematical values.
pub struct ClaimsView {
    pub version: u32,
    pub audience: Seq<u8>,
    pub relay_urls: Seq<Seq<char>>,
    pub scope: Scope,
    pub allowed_client_keys: Seq<Seq<u8>>,
    pub token_id: Seq<char>,
    pub not_before_ms: u64,
    pub expires_at_ms: u64,
    pub single_use: bool,
}

/// The bytes of each key of a list.
pub open spec fn key_views(keys: Seq<EndpointId>) -> Seq<Seq<u8>> {
    keys.map_values(|k: EndpointId| k@)
}

impl View for InviteClaims {
    type V = ClaimsView;

    open spec fn view(&self) -> ClaimsView {
        ClaimsView {
            version: self.version,
            audience: self.audience@,
            relay_urls: text::views(self.relay_urls@),
            scope: self.scope,
            allowed_client_keys: key_views(self.allowed_client_keys@),
            token_id: self.token_id@,
            not_before_ms: self.not_before_ms,
            expires_at_ms: self.expires_at_ms,
            single_use: self.single_use,
        }
    }
}

/// A signed invite: claims and a detached signature over their canonical bytes.
#[derive(Debug, Clone)]
pub struct SignedInvite {
    pub claims: InviteClaims,
    pub signature: Signature,
}

// ---------------------------------------------------------------------------
// Canonical bytes

/// The number that stands for a scope in the canonical bytes.
pub open spec fn scope_number(scope: Scope) -> u32 {
    match scope {
        Scope::Control => 1,
        Scope::Attach => 2,
        Scope::Observe => 3,
    }
}

/// A 32-bit number as four bytes, the least significant first.
pub open spec fn le32(v: u32) -> Seq<u8> {
    seq![
        (v as int % 256) as u8,
        (v as int / 256 % 256) as u8,
        (v as int / 65536 % 256) as u8,
        (v as int / 16777216) as u8,
    ]
}

/// A 64-bit number as eight bytes, the least significant first.
pub open spec fn le64(v: u64) -> Seq<u8> {
    le32((v as int % 0x1_0000_0000) as u32) + le32((v as int / 0x1_0000_0000) as u32)
}

/// A length as 32 bits; a longer one loses its upper bits.
pub open spec fn len32(n: nat) -> u32 {
    (n % 0x1_0000_0000) as u32
}

/// Bytes behind their length.
pub open spec fn field(bytes: Seq<u8>) -> Seq<u8> {
    le32(len32(bytes.len())) + bytes
}

/// Each of a list of byte strings behind its length, in order.
pub open spec fn fields(list: Seq<Seq<u8>>) -> Seq<u8>
    decreases list.len(),
{
    if list.len() == 0 {
        Seq::empty()
    } else {
        field(list[0]) + fields(list.skip(1))
    }
}

/// A list of byte strings behind its length.
pub open spec fn counted(list: Seq<Seq<u8>>) -> Seq<u8> {
    le32(len32(list.len())) + fields(list)
}

/// The bytes of each text of a list.
pub open spec fn utf8_views(list: Seq<Seq<char>>) -> Seq<Seq<u8>> {
    list.map_values(|t: Seq<char>| vstd::utf8::encode_utf8(t))
}

/// The canonical bytes of an invite body: what its signature covers.
pub open spec fn canonical(c: ClaimsView) -> Seq<u8> {
    field(vstd::utf8::encode_utf8(TOKEN_DOMAIN@)) + (le32(c.version) + (field(c.audience) + (counted(
        utf8_views(c.relay_urls),
    ) + (le32(scope_number(c.scope)) + (counted(c.allowed_client_keys) + (field(
        vstd::utf8::encode_utf8(c.token_id),
    ) + (le64(c.not_before_ms) + (le64(c.expires_at_ms) + seq![
        if c.single_use {
            1u8
        } else {
            0u8
        },
    ]))))))))
}

/// Whether every length in an invite body fits in 32 bits, and every key has
/// 32 bytes.
pub open spec fn lengths_fit(c: ClaimsView) -> bool {
    &&& c.audience.len() == 32
    &&& c.relay_urls.len() < 0x1_0000_0000
    &&& forall|i: int|
        0 <= i < c.relay_urls.len() ==> vstd::utf8::encode_utf8(#[trigger] c.relay_urls[i]).len()
            < 0x1_0000_0000
    &&& c.allowed_client_keys.len() < 0x1_0000_0000
    &&& forall|i: int|
        0 <= i < c.allowed_client_keys.len() ==> (#[trigger] c.allowed_client_keys[i]).len() == 32
    &&& vstd::utf8::encode_utf8(c.token_id).len() < 0x1_0000_0000
}

proof fn lemma_split_same_len(a: Seq<u8>, p: Seq<u8>, b: Seq<u8>, q: Seq<u8>)
    requires
        a + p == b + q,
        a.len() == b.len(),
    ensures
        a == b,
        p == q,
{
    assert(a == (a + p).take(a.len() as int));
    assert(b == (b + q).take(a.len() as int));
    assert(p == (a + p).skip(a.len() as int));
    assert(q == (b + q).skip(a.len() as int));
}

/// The four bytes of a number, weighted by their places, sum up to it.
pub proof fn lemma_le32_sum(v: u32)
    ensures
        v == le32(v)[0] + 256 * le32(v)[1] + 65536 * le32(v)[2] + 16777216 * le32(v)[3],
{
    assert(v == (v % 256) + 256 * (v / 256 % 256) + 65536 * (v / 65536 % 256) + 16777216 * (v
        / 16777216)) by (bit_vector);
}

proof fn lemma_le32_injective(x: u32, y: u32)
    requires
        le32(x) == le32(y),
    ensures
        x == y,
{
    lemma_le32_sum(x);
    lemma_le32_sum(y);
}

proof fn lemma_le64_injective(x: u64, y: u64)
    requires
        le64(x) == le64(y),
    ensures
        x == y,
{
    let xl = (x as int % 0x1_0000_0000) as u32;
    let xh = (x as int / 0x1_0000_0000) as u32;
    let yl = (y as int % 0x1_0000_0000) as u32;
    let yh = (y as int / 0x1_0000_0000) as u32;
    lemma_split_same_len(le32(xl), le32(xh), le32(yl), le32(yh));
    lemma_le32_injective(xl, yl);
    lemma_le32_injective(xh, yh);
}

proof fn lemma_field_splits(a: Seq<u8>, p: Seq<u8>, b: Seq<u8>, q: Seq<u8>)
    requires
        field(a) + p == field(b) + q,
        a.len() < 0x1_0000_0000,
        b.len() < 0x1_0000_0000,
    ensures
        a == b,
        p == q,
{
    let la = le32(len32(a.len()));
    let lb = le32(len32(b.len()));
    assert(field(a) + p == la + (a + p));
    assert(field(b) + q == lb + (b + q));
    lemma_split_same_len(la, a + p, lb, b + q);
    lemma_le32_injective(len32(a.len()), len32(b.len()));
    lemma_split_same_len(a, p, b, q);
}

proof fn lemma_fields_split(a: Seq<Seq<u8>>, p: Seq<u8>, b: Seq<Seq<u8>>, q: Seq<u8>)
    requires
        fields(a) + p == fields(b) + q,
        a.len() == b.len(),
        forall|i: int| 0 <= i < a.len() ==> (#[trigger] a[i]).len() < 0x1_0000_0000,
        forall|i: int| 0 <= i < b.len() ==> (#[trigger] b[i]).len() < 0x1_0000_0000,
    ensures
        a == b,
        p == q,
    decreases a.len(),
{
    if a.len() == 0 {
        assert(a =~= b);
        assert(fields(a) + p =~= p);
        assert(fields(b) + q =~= q);
    } else {
        assert(fields(a) + p =~= field(a[0]) + (fields(a.skip(1)) + p));
        assert(fields(b) + q =~= field(b[0]) + (fields(b.skip(1)) + q));
        lemma_field_splits(a[0], fields(a.skip(1)) + p, b[0], fields(b.skip(1)) + q);
        lemma_fields_split(a.skip(1), p, b.skip(1), q);
        assert(a =~= seq![a[0]] + a.skip(1));
        assert(b =~= seq![b[0]] + b.skip(1));
    }
}

proof fn lemma_counted_splits(a: Seq<Seq<u8>>, p: Seq<u8>, b: Seq<Seq<u8>>, q: Seq<u8>)
    requires
        counted(a) + p == counted(b) + q,
        a.len() < 0x1_0000_0000,
        b.len() < 0x1_0000_0000,
        forall|i: int| 0 <= i < a.len() ==> (#[trigger] a[i]).len() < 0x1_0000_0000,
        forall|i: int| 0 <= i < b.len() ==> (#[trigger] b[i]).len() < 0x1_0000_0000,
    ensures
        a == b,
        p == q,
{
    let la = le32(len32(a.len()));
    let lb = le32(len32(b.len()));
    assert(counted(a) + p == la + (fields(a) + p));
    assert(counted(b) + q == lb + (fields(b) + q));
    lemma_split_same_len(la, fields(a) + p, lb, fields(b) + q);
    lemma_le32_injective(len32(a.len()), len32(b.len()));
    lemma_fields_split(a, p, b, q);
}

proof fn lemma_utf8_injective(a: Seq<char>, b: Seq<char>)
    requires
        vstd::utf8::encode_utf8(a) == vstd::utf8::encode_utf8(b),
    ensures
        a == b,
{
    vstd::utf8::encode_utf8_decode_utf8(a);
    vstd::utf8::encode_utf8_decode_utf8(b);
}

proof fn lemma_utf8_views_injective(a: Seq<Seq<char>>, b: Seq<Seq<char>>)
    requires
        utf8_views(a) == utf8_views(b),
    ensures
        a == b,
{
    assert(utf8_views(a).len() == a.len() && utf8_views(b).len() == b.len());
    assert forall|i: int| 0 <= i < a.len() implies a[i] == b[i] by {
        assert(utf8_views(a)[i] == vstd::utf8::encode_utf8(a[i]));
        assert(utf8_views(b)[i] == vstd::utf8::encode_utf8(b[i]));
        lemma_utf8_injective(a[i], b[i]);
    }
    assert(a =~= b);
}

/// The canonical bytes from the token id on.
spec fn canonical_token(c: ClaimsView) -> Seq<u8> {
    field(vstd::utf8::encode_utf8(c.token_id)) + (le64(c.not_before_ms) + (le64(c.expires_at_ms)
        + seq![
        if c.single_use {
            1u8
        } else {
            0u8
        },
    ]))
}

/// The canonical bytes from the scope on.
spec fn canonical_grant(c: ClaimsView) -> Seq<u8> {
    le32(scope_number(c.scope)) + (counted(c.allowed_client_keys) + canonical_token(c))
}

#[verifier::spinoff_prover]
proof fn lemma_token_bytes_determine(a: ClaimsView, b: ClaimsView)
    requires
        lengths_fit(a),
        lengths_fit(b),
        canonical_token(a) == canonical_token(b),
    ensures
        a.token_id == b.token_id,
        a.not_before_ms == b.not_before_ms,
        a.expires_at_ms == b.expires_at_ms,
        a.single_use == b.single_use,
{
    let sa = seq![if a.single_use { 1u8 } else { 0u8 }];
    let sb = seq![if b.single_use { 1u8 } else { 0u8 }];
    let ea = le64(a.expires_at_ms) + sa;
    let eb = le64(b.expires_at_ms) + sb;
    lemma_field_splits(
        vstd::utf8::encode_utf8(a.token_id),
        le64(a.not_before_ms) + ea,
        vstd::utf8::encode_utf8(b.token_id),
        le64(b.not_before_ms) + eb,
    );
    lemma_utf8_injective(a.token_id, b.token_id);
    lemma_split_same_len(le64(a.not_before_ms), ea, le64(b.not_before_ms), eb);
    lemma_le64_injective(a.not_before_ms, b.not_before_ms);
    lemma_split_same_len(le64(a.expires_at_ms), sa, le64(b.expires_at_ms), sb);
    lemma_le64_injective(a.expires_at_ms, b.expires_at_ms);
    assert(sa[0] == sb[0]);
}

#[verifier::spinoff_prover]
proof fn lemma_grant_bytes_determine(a: ClaimsView, b: ClaimsView)
    requires
        lengths_fit(a),
        lengths_fit(b),
        canonical_grant(a) == canonical_grant(b),
    ensures
        a.scope == b.scope,
        a.allowed_client_keys == b.allowed_client_keys,
        canonical_token(a) == canonical_token(b),
{
    lemma_split_same_len(
        le32(scope_number(a.scope)),
        counted(a.allowed_client_keys) + canonical_token(a),
        le32(scope_number(b.scope)),
        counted(b.allowed_client_keys) + canonical_token(b),
    );
    lemma_le32_injective(scope_number(a.scope), scope_number(b.scope));
    lemma_counted_splits(
        a.allowed_client_keys,
        canonical_token(a),
        b.allowed_client_keys,
        canonical_token(b),
    );
}

#[verifier::spinoff_prover]
proof fn lemma_head_bytes_determine(a: ClaimsView, b: ClaimsView)
    requires
        lengths_fit(a),
        lengths_fit(b),
        canonical(a) == canonical(b),
    ensures
        a.version == b.version,
        a.audience == b.audience,
        a.relay_urls == b.relay_urls,
        canonical_grant(a) == canonical_grant(b),
{
    let d = vstd::utf8::encode_utf8(TOKEN_DOMAIN@);
    let ra = counted(utf8_views(a.relay_urls)) + canonical_grant(a);
    let rb = counted(utf8_views(b.relay_urls)) + canonical_grant(b);
    let wa = field(a.audience) + ra;
    let wb = field(b.audience) + rb;
    lemma_split_same_len(field(d), le32(a.version) + wa, field(d), le32(b.version) + wb);
    lemma_split_same_len(le32(a.version), wa, le32(b.version), wb);
    lemma_le32_injective(a.version, b.version);
    lemma_field_splits(a.audience, ra, b.audience, rb);
    lemma_counted_splits(
        utf8_views(a.relay_urls),
        canonical_grant(a),
        utf8_views(b.relay_urls),
        canonical_grant(b),
    );
    lemma_utf8_views_injective(a.relay_urls, b.relay_urls);
}

/// The canonical bytes determine the invite body: two bodies with the same
/// canonical bytes agree in every field. A signature over them thus covers
/// every field, and no field can be changed without changing what is signed.
pub proof fn canonical_bytes_determine_the_claims(a: ClaimsView, b: ClaimsView)
    requires
        lengths_fit(a),
        lengths_fit(b),
        canonical(a) == canonical(b),
    ensures
        a == b,
{
    lemma_head_bytes_determine(a, b);
    lemma_grant_bytes_determine(a, b);
    lemma_token_bytes_determine(a, b);
}

/// The number that stands for a scope.
pub fn scope_tag(scope: Scope) -> (r: u32)
    ensures
        r == scope_number(scope),
{
    match scope {
        Scope::Control => 1,
        Scope::Attach => 2,
        Scope::Observe => 3,
    }
}

/// Appends a 32-bit number.
pub fn write_u32(buf: &mut Vec<u8>, v: u32)
    ensures
        final(buf)@ == old(buf)@ + le32(v),
{
    buf.push((v % 256) as u8);
    buf.push((v / 256 % 256) as u8);
    buf.push((v / 65536 % 256) as u8);
    buf.push((v / 16777216) as u8);
    assert(buf@ == old(buf)@ + le32(v));
}

/// Appends a 64-bit number.
pub fn write_u64(buf: &mut Vec<u8>, v: u64)
    ensures
        final(buf)@ == old(buf)@ + le64(v),
{
    write_u32(buf, (v % 0x1_0000_0000) as u32);
    write_u32(buf, (v / 0x1_0000_0000) as u32);
    assert(buf@ == old(buf)@ + le64(v));
}

/// Appends a length in 32 bits.
fn write_len(buf: &mut Vec<u8>, n: usize)
    ensures
        final(buf)@ == old(buf)@ + le32(len32(n as nat)),
{
    let wide: u64 = n as u64;
    write_u32(buf, (wide % 0x1_0000_0000) as u32);
}

/// Appends bytes behind their length.
pub fn write_field(buf: &mut Vec<u8>, bytes: &[u8])
    ensures
        final(buf)@ == old(buf)@ + field(bytes@),
{
    write_len(buf, bytes.len());
    let ghost start = buf@;
    let mut i: usize = 0;
    assert(start + bytes@.take(0) == start);
    while i < bytes.len()
        invariant
            i <= bytes@.len(),
            buf@ == start + bytes@.take(i as int),
        decreases bytes@.len() - i,
    {
        buf.push(bytes[i]);
        assert(bytes@.take(i + 1) == bytes@.take(i as int).push(bytes@[i as int]));
        assert(start + bytes@.take(i + 1) == (start + bytes@.take(i as int)).push(
            bytes@[i as int],
        ));
        i = i + 1;
    }
    assert(bytes@.take(bytes@.len() as int) == bytes@);
    assert(buf@ == old(buf)@ + field(bytes@));
}

proof fn lemma_fields_push(list: Seq<Seq<u8>>, x: Seq<u8>)
    ensures
        fields(list.push(x)) == fields(list) + field(x),
    decreases list.len(),
{
    if list.len() == 0 {
        assert(list.push(x).skip(1) == Seq::<Seq<u8>>::empty());
        assert(fields(list.push(x)) == field(x) + fields(Seq::<Seq<u8>>::empty()));
        assert(fields(list) + field(x) == field(x));
        assert(field(x) + Seq::<u8>::empty() == field(x));
    } else {
        lemma_fields_push(list.skip(1), x);
        assert(list.push(x).skip(1) == list.skip(1).push(x));
        assert(fields(list.push(x)) == field(list[0]) + (fields(list.skip(1)) + field(x)));
        assert(fields(list) + field(x) == field(list[0]) + (fields(list.skip(1)) + field(x)));
    }
}

fn write_texts(buf: &mut Vec<u8>, list: &Vec<String>)
    ensures
        final(buf)@ == old(buf)@ + counted(utf8_views(text::views(list@))),
{
    write_len(buf, list.len());
    let ghost start = buf@;
    let ghost all = utf8_views(text::views(list@));
    let mut i: usize = 0;
    assert(all.take(0) == Seq::<Seq<u8>>::empty());
    assert(start + Seq::<u8>::empty() == start);
    while i < list.len()
        invariant
            i <= list@.len(),
            all == utf8_views(text::views(list@)),
            buf@ == start + fields(all.take(i as int)),
        decreases list@.len() - i,
    {
        let ghost before = buf@;
        write_field(buf, list[i].as_str().as_bytes());
        proof {
            assert(all[i as int] == vstd::utf8::encode_utf8(list@[i as int]@));
            assert(all.take(i + 1) == all.take(i as int).push(all[i as int]));
            lemma_fields_push(all.take(i as int), all[i as int]);
            assert(start + (fields(all.take(i as int)) + field(all[i as int])) == before + field(
                all[i as int],
            ));
        }
        i = i + 1;
    }
    assert(all.take(list@.len() as int) == all);
    assert(buf@ == old(buf)@ + counted(all));
}

fn write_keys(buf: &mut Vec<u8>, list: &Vec<EndpointId>)
    ensures
        final(buf)@ == old(buf)@ + counted(key_views(list@)),
{
    write_len(buf, list.len());
    let ghost start = buf@;
    let ghost all = key_views(list@);
    let mut i: usize = 0;
    assert(all.take(0) == Seq::<Seq<u8>>::empty());
    assert(start + Seq::<u8>::empty() == start);
    while i < list.len()
        invariant
            i <= list@.len(),
            all == key_views(list@),
            buf@ == start + fields(all.take(i as int)),
        decreases list@.len() - i,
    {
        let ghost before = buf@;
        write_field(buf, list[i].as_bytes());
        proof {
            assert(all[i as int] == list@[i as int]@);
            assert(all.take(i + 1) == all.take(i as int).push(all[i as int]));
            lemma_fields_push(all.take(i as int), all[i as int]);
            assert(start + (fields(all.take(i as int)) + field(all[i as int])) == before + field(
                all[i as int],
            ));
        }
        i = i + 1;
    }
    assert(all.take(list@.len() as int) == all);
    assert(buf@ == old(buf)@ + counted(all));
}

proof fn lemma_regroup(
    x1: Seq<u8>,
    x2: Seq<u8>,
    x3: Seq<u8>,
    x4: Seq<u8>,
    x5: Seq<u8>,
    x6: Seq<u8>,
    x7: Seq<u8>,
    x8: Seq<u8>,
    x9: Seq<u8>,
    x10: Seq<u8>,
)
    ensures
        x1 + x2 + x3 + x4 + x5 + x6 + x7 + x8 + x9 + x10 == x1 + (x2 + (x3 + (x4 + (x5 + (x6 + (x7
            + (x8 + (x9 + x10)))))))),
{
    let t9 = x9 + x10;
    let t8 = x8 + t9;
    let t7 = x7 + t8;
    let t6 = x6 + t7;
    let t5 = x5 + t6;
    let t4 = x4 + t5;
    let t3 = x3 + t4;
    let h2 = x1 + x2;
    let h3 = h2 + x3;
    let h4 = h3 + x4;
    let h5 = h4 + x5;
    let h6 = h5 + x6;
    let h7 = h6 + x7;
    let h8 = h7 + x8;
    vstd::seq_lib::lemma_concat_associative(h8, x9, x10);
    vstd::seq_lib::lemma_concat_associative(h7, x8, t9);
    vstd::seq_lib::lemma_concat_associative(h6, x7, t8);
    vstd::seq_lib::lemma_concat_associative(h5, x6, t7);
    vstd::seq_lib::lemma_concat_associative(h4, x5, t6);
    vstd::seq_lib::lemma_concat_associative(h3, x4, t5);
    vstd::seq_lib::lemma_concat_associative(h2, x3, t4);
    vstd::seq_lib::lemma_concat_associative(x1, x2, t3);
}

impl InviteClaims {
    /// Canonical, length-prefixed, domain-separated bytes for signing.
    pub fn canonical_bytes(&self) -> (r: Vec<u8>)
        ensures
            r@ == canonical(self@),
    {
        let mut buf: Vec<u8> = Vec::new();
        write_field(&mut buf, TOKEN_DOMAIN.as_bytes());
        assert(buf@ == field(vstd::utf8::encode_utf8(TOKEN_DOMAIN@)));
        write_u32(&mut buf, self.version);
        write_field(&mut buf, self.audience.as_bytes());
        write_texts(&mut buf, &self.relay_urls);
        write_u32(&mut buf, scope_tag(self.scope));
        write_keys(&mut buf, &self.allowed_client_keys);
        write_field(&mut buf, self.token_id.as_str().as_bytes());
        write_u64(&mut buf, self.not_before_ms);
        write_u64(&mut buf, self.expires_at_ms);
        let last: u8 = if self.single_use {
            1u8
        } else {
            0u8
        };
        let ghost before = buf@;
        buf.push(last);
        proof {
            let c = self@;
            assert(buf@ == before + seq![last]);
            lemma_regroup(
                field(vstd::utf8::encode_utf8(TOKEN_DOMAIN@)),
                le32(c.version),
                field(c.audience),
                counted(utf8_views(c.relay_urls)),
                le32(scope_number(c.scope)),
                counted(c.allowed_client_keys),
                field(vstd::utf8::encode_utf8(c.token_id)),
                le64(c.not_before_ms),
                le64(c.expires_at_ms),
                seq![last],
            );
        }
        buf
    }
}

// ---------------------------------------------------------------------------
// Signing and checking

/// What checking an invite at a time gives, from whether its signature holds:
/// the version first, then the signature, then the validity window.
pub open spec fn verdict(c: ClaimsView, signature_holds: bool, now_ms: u64) -> Result<(), ErrorView> {
    if c.version != TOKEN_VERSION {
        Err(ErrorView::Invite("unsupported invite version "@ + digits::decimal(c.version as nat)))
    } else if !signature_holds {
        Err(ErrorView::Invite("bad signature"@))
    } else if now_ms < c.not_before_ms {
        Err(ErrorView::Invite("invite not yet valid"@))
    } else if now_ms >= c.expires_at_ms {
        Err(ErrorView::Invite("invite expired"@))
    } else {
        Ok(())
    }
}

/// Whether `client` may redeem an invite for these keys: an empty list means
/// anyone.
pub open spec fn permits(allowed: Seq<Seq<u8>>, client: Seq<u8>) -> bool {
    allowed.len() == 0 || allowed.contains(client)
}

/// Whether `keys` holds `key`.
pub fn contains_key(keys: &Vec<EndpointId>, key: &EndpointId) -> (r: bool)
    ensures
        r == key_views(keys@).contains(key@),
{
    let mut i: usize = 0;
    while i < keys.len()
        invariant
            i <= keys@.len(),
            forall|j: int| 0 <= j < i ==> key_views(keys@)[j] != key@,
        decreases keys@.len() - i,
    {
        if keys[i].same(key) {
            assert(key_views(keys@)[i as int] == key@);
            return true;
        }
        i = i + 1;
    }
    false
}

impl SignedInvite {
    /// Whether the signature of the canonical bytes holds under the audience's
    /// key.
    pub open spec fn signature_holds(&self) -> bool {
        identity::ed25519_verifies(self.claims@.audience, canonical(self.claims@), self.signature@)
    }

    /// What checking the invite at `now_ms` gives.
    pub open spec fn verdict(&self, now_ms: u64) -> Result<(), ErrorView> {
        verdict(self.claims@, self.signature_holds(), now_ms)
    }

    /// Mints a signed invite from the host's secret key.
    pub fn sign(secret: &SecretKey, claims: InviteClaims) -> (r: SignedInvite)
        ensures
            r.claims == claims,
            r.signature@ == identity::ed25519_signature(secret@, canonical(claims@)),
            claims@.audience == identity::ed25519_public(secret@) && identity::nonce_is_regular(
                r.signature@,
            ) ==> r.signature_holds(),
    {
        let bytes = claims.canonical_bytes();
        let signature = secret.sign(bytes.as_slice());
        SignedInvite { claims, signature }
    }

    /// Checks the version, the signature and the validity window at `now_ms`.
    pub fn verify(&self, now_ms: u64) -> (r: Result<(), RoamingError>)
        ensures
            match r {
                Ok(()) => self.verdict(now_ms) is Ok,
                Err(e) => self.verdict(now_ms) == Err::<(), ErrorView>(e@),
            },
    {
        let bytes = self.claims.canonical_bytes();
        let holds = self.claims.audience.verify(bytes.as_slice(), &self.signature);
        verify_claims(&self.claims, holds, now_ms)
    }

    /// Whether `client` is permitted to redeem this invite, apart from
    /// single-use bookkeeping.
    pub fn permits_client(&self, client: &EndpointId) -> (r: bool)
        ensures
            r == permits(self.claims@.allowed_client_keys, client@),
            self.claims.allowed_client_keys@.len() == 0 ==> r,
            forall|i: int|
                0 <= i < self.claims.allowed_client_keys@.len()
                    && #[trigger] self.claims.allowed_client_keys@[i]@ == client@ ==> r,
            r && self.claims.allowed_client_keys@.len() > 0 ==> exists|i: int|
                0 <= i < self.claims.allowed_client_keys@.len()
                    && #[trigger] self.claims.allowed_client_keys@[i]@ == client@,
    {
        proof {
            let keys = self.claims.allowed_client_keys@;
            assert forall|i: int| 0 <= i < keys.len() && #[trigger] keys[i]@ == client@ implies
                key_views(keys).contains(client@) by {
                assert(key_views(keys)[i] == client@);
            }
            if key_views(keys).contains(client@) {
                let k = choose|k: int|
                    0 <= k < key_views(keys).len() && key_views(keys)[k] == client@;
                assert(keys[k]@ == client@);
            }
        }
        self.claims.allowed_client_keys.len() == 0 || contains_key(
            &self.claims.allowed_client_keys,
            client,
        )
    }
}

/// Checks an invite body at `now_ms`, given whether its signature holds.
pub fn verify_claims(claims: &InviteClaims, signature_holds: bool, now_ms: u64) -> (r: Result<
    (),
    RoamingError,
>)
    ensures
        match r {
            Ok(()) => verdict(claims@, signature_holds, now_ms) is Ok,
            Err(e) => verdict(claims@, signature_holds, now_ms) == Err::<(), ErrorView>(e@),
        },
{
    if claims.version != TOKEN_VERSION {
        let version = digits::decimal_of(claims.version as u64);
        return Err(
            RoamingError::Invite(text::concat("unsupported invite version ", version.as_str())),
        );
    }
    if !signature_holds {
        return Err(RoamingError::Invite("bad signature".to_owned()));
    }
    if now_ms < claims.not_before_ms {
        return Err(RoamingError::Invite("invite not yet valid".to_owned()));
    }
    if now_ms >= claims.expires_at_ms {
        return Err(RoamingError::Invite("invite expired".to_owned()));
    }
    Ok(())
}

/// An invite of the current version whose signature holds is good from its
/// not-before time until it expires, and at no other time.
pub proof fn signed_invites_hold_in_their_window(invite: SignedInvite, now_ms: u64)
    requires
        invite.claims.version == TOKEN_VERSION,
        invite.signature_holds(),
    ensures
        invite.verdict(now_ms) is Ok <==> invite.claims.not_before_ms <= now_ms
            < invite.claims.expires_at_ms,
{
}

/// Every key on the list of an invite may redeem it, wherever on the list it
/// stands; a key that stands nowhere on a list that is not empty may not; and
/// without a list anyone may.
pub proof fn each_listed_key_may_redeem(allowed: Seq<Seq<u8>>, client: Seq<u8>)
    ensures
        forall|i: int| 0 <= i < allowed.len() ==> permits(allowed, #[trigger] allowed[i]),
        allowed.len() > 0 && (forall|i: int| 0 <= i < allowed.len() ==> #[trigger] allowed[i]
            != client) ==> !permits(allowed, client),
        allowed.len() == 0 ==> permits(allowed, client),
{
}

/// Allowing one more key takes the right from no key that is on the list, and
/// gives it to that key alone.
pub proof fn allowing_a_key_keeps_the_others(
    allowed: Seq<Seq<u8>>,
    key: Seq<u8>,
    other: Seq<u8>,
)
    requires
        allowed.len() > 0,
        other != key,
    ensures
        permits(allowed.push(key), key),
        permits(allowed.push(key), other) <==> permits(allowed, other),
{
    let more = allowed.push(key);
    assert(more[allowed.len() as int] == key);
    if allowed.contains(other) {
        let k = choose|k: int| 0 <= k < allowed.len() && allowed[k] == other;
        assert(more[k] == other);
    }
    if more.contains(other) {
        let k = choose|k: int| 0 <= k < more.len() && more[k] == other;
        assert(allowed[k] == other);
    }
}

/// An invite holds only where it is of the current version, its signature holds
/// and the time is within its window; and at every such moment it does.
pub proof fn only_signed_invites_hold(
    c: ClaimsView,
    signature_holds: bool,
    now_ms: u64,
)
    ensures
        verdict(c, signature_holds, now_ms) is Ok <==> {
            &&& c.version == 1
            &&& signature_holds
            &&& c.not_before_ms <= now_ms
            &&& now_ms < c.expires_at_ms
        },
        c.version == 1 && !signature_holds ==> verdict(c, signature_holds, now_ms) == Err::<
            (),
            ErrorView,
        >(ErrorView::Invite("bad signature"@)),
{
}

/// The eight bytes of a number, weighted by their places, sum up to it: the
/// least significant stands first.
pub proof fn le64_sums_up(v: u64)
    ensures
        le64(v).len() == 8,
        v == le64(v)[0] + 0x100 * le64(v)[1] + 0x1_0000 * le64(v)[2] + 0x100_0000 * le64(v)[3]
            + 0x1_0000_0000 * le64(v)[4] + 0x100_0000_0000 * le64(v)[5] + 0x1_0000_0000_0000 * le64(
            v,
        )[6] + 0x100_0000_0000_0000 * le64(v)[7],
{
    let lo = (v as int % 0x1_0000_0000) as u32;
    let hi = (v as int / 0x1_0000_0000) as u32;
    lemma_le32_sum(lo);
    lemma_le32_sum(hi);
    assert(v == lo + 0x1_0000_0000 * hi);
}

/// A length-prefixed byte string is its length in four bytes and then itself,
/// and a list of them is its length and then each in order.
#[verifier::spinoff_prover]
pub proof fn fields_stand_behind_their_lengths(bytes: Seq<u8>, list: Seq<Seq<u8>>)
    requires
        bytes.len() < 0x1_0000_0000,
    ensures
        field(bytes).len() == 4 + bytes.len(),
        field(bytes).skip(4) == bytes,
        field(bytes)[0] + 0x100 * field(bytes)[1] + 0x1_0000 * field(bytes)[2] + 0x100_0000 * field(
            bytes,
        )[3] == bytes.len(),
        counted(list).take(4) == le32(len32(list.len())),
        counted(list.push(bytes)).skip(4) == counted(list).skip(4) + field(bytes),
{
    let n = len32(bytes.len());
    lemma_le32_sum(n);
    lemma_behind_a_number(n, bytes);
    lemma_behind_a_number(len32(list.len()), fields(list));
    lemma_behind_a_number(len32(list.push(bytes).len()), fields(list.push(bytes)));
    lemma_fields_push(list, bytes);
    assert(field(bytes)[0] == le32(n)[0]);
    assert(field(bytes)[1] == le32(n)[1]);
    assert(field(bytes)[2] == le32(n)[2]);
    assert(field(bytes)[3] == le32(n)[3]);
}

proof fn lemma_behind_a_number(n: u32, rest: Seq<u8>)
    ensures
        le32(n).len() == 4,
        (le32(n) + rest).len() == 4 + rest.len(),
        (le32(n) + rest).take(4) == le32(n),
        (le32(n) + rest).skip(4) == rest,
{
    let s = le32(n) + rest;
    assert(s.take(4) =~= le32(n));
    assert(s.skip(4) =~= rest);
}

/// The canonical bytes end with the validity window and the single-use mark: the
/// not-before time and the expiry in eight bytes each, and one byte that is one
/// for a single-use invite and zero otherwise.
#[verifier::spinoff_prover]
pub proof fn canonical_bytes_end_with_the_window(c: ClaimsView)
    ensures
        canonical(c).len() >= 17,
        canonical(c).last() == (if c.single_use {
            1u8
        } else {
            0u8
        }),
        canonical(c).subrange(canonical(c).len() - 9, canonical(c).len() - 1) == le64(
            c.expires_at_ms,
        ),
        canonical(c).subrange(canonical(c).len() - 17, canonical(c).len() - 9) == le64(
            c.not_before_ms,
        ),
{
    let s = seq![if c.single_use { 1u8 } else { 0u8 }];
    let tail = le64(c.not_before_ms) + (le64(c.expires_at_ms) + s);
    let front = field(vstd::utf8::encode_utf8(TOKEN_DOMAIN@)) + (le32(c.version) + (field(
        c.audience,
    ) + (counted(utf8_views(c.relay_urls)) + (le32(scope_number(c.scope)) + (counted(
        c.allowed_client_keys,
    ) + field(vstd::utf8::encode_utf8(c.token_id)))))));
    assert(canonical(c) =~= front + tail);
    assert(tail.len() == 17);
    assert(canonical(c).last() == s[0]);
    assert(canonical(c).subrange(canonical(c).len() - 9, canonical(c).len() - 1) =~= le64(
        c.expires_at_ms,
    ));
    assert(canonical(c).subrange(canonical(c).len() - 17, canonical(c).len() - 9) =~= le64(
        c.not_before_ms,
    ));
}

// ---------------------------------------------------------------------------
// Where to dial

/// Whom to dial: an endpoint and the relays through which it is reached, each
/// relay once.
#[derive(Debug, Clone)]
pub struct EndpointAddr {
    pub id: EndpointId,
    pub relays: Vec<String>,
}

/// The relay URLs of a list, normalised, each once; or the first that is none.
pub open spec fn relays_of(urls: Seq<Seq<char>>) -> Result<Seq<Seq<char>>, Seq<char>>
    decreases urls.len(),
{
    if urls.len() == 0 {
        Ok(Seq::empty())
    } else {
        match relays_of(urls.drop_last()) {
            Err(bad) => Err(bad),
            Ok(list) => match relay_url::relay_url(urls.last()) {
                Some(url) => Ok(lists::with_new(list, url)),
                None => Err(urls.last()),
            },
        }
    }
}

/// Reading a list of relay URLs succeeds exactly where each entry is one, and
/// then gives the set of their normalised forms without repetition.
pub proof fn relays_are_the_parsed_set(urls: Seq<Seq<char>>)
    ensures
        relays_of(urls) is Ok <==> forall|i: int|
            0 <= i < urls.len() ==> relay_url::relay_url(#[trigger] urls[i]) is Some,
        match relays_of(urls) {
            Ok(list) => list.no_duplicates() && (forall|u: Seq<char>| #[trigger]
                list.contains(u) <==> exists|i: int|
                    0 <= i < urls.len() && relay_url::relay_url(#[trigger] urls[i]) == Some(u)),
            Err(bad) => urls.contains(bad) && relay_url::relay_url(bad) is None,
        },
    decreases urls.len(),
{
    if urls.len() > 0 {
        let init = urls.drop_last();
        let last = urls.last();
        relays_are_the_parsed_set(init);
        assert(urls[urls.len() - 1] == last);
        assert forall|i: int| 0 <= i < init.len() implies init[i] == #[trigger] urls[i] by {}
        match relays_of(init) {
            Ok(list) => {
                match relay_url::relay_url(last) {
                    Some(url) => {
                        let r = lists::with_new(list, url);
                        assert forall|u: Seq<char>| #[trigger] r.contains(u) <==> exists|i: int|
                            0 <= i < urls.len() && relay_url::relay_url(#[trigger] urls[i]) == Some(
                                u,
                            ) by {
                            if r.contains(u) {
                                if list.contains(u) {
                                    let i = choose|i: int|
                                        0 <= i < init.len() && relay_url::relay_url(
                                            #[trigger] init[i],
                                        ) == Some(u);
                                    assert(urls[i] == init[i]);
                                } else {
                                    let k = choose|k: int| 0 <= k < r.len() && r[k] == u;
                                    assert(k == list.len());
                                }
                            }
                            if exists|i: int|
                                0 <= i < urls.len() && relay_url::relay_url(#[trigger] urls[i])
                                    == Some(u) {
                                let i = choose|i: int|
                                    0 <= i < urls.len() && relay_url::relay_url(#[trigger] urls[i])
                                        == Some(u);
                                if i < init.len() {
                                    assert(init[i] == urls[i]);
                                    assert(list.contains(u));
                                    let k = choose|k: int| 0 <= k < list.len() && list[k] == u;
                                    assert(r[k] == u);
                                } else if !list.contains(url) {
                                    assert(r[list.len() as int] == u);
                                }
                            }
                        }
                    },
                    None => {},
                }
            },
            Err(bad) => {
                let k = choose|k: int| 0 <= k < init.len() && init[k] == bad;
                assert(urls[k] == bad);
            },
        }
    }
}

/// Reads a list of relay URLs, or gives the first that is none.
pub fn read_relays(urls: &Vec<String>) -> (r: Result<Vec<String>, String>)
    ensures
        match r {
            Ok(list) => relays_of(text::views(urls@)) == Ok::<Seq<Seq<char>>, Seq<char>>(
                text::views(list@),
            ),
            Err(bad) => relays_of(text::views(urls@)) == Err::<Seq<Seq<char>>, Seq<char>>(bad@),
        },
{
    let ghost all = text::views(urls@);
    let mut out: Vec<String> = Vec::new();
    let mut i: usize = 0;
    assert(all.take(0) == Seq::<Seq<char>>::empty());
    assert(text::views(out@) == Seq::<Seq<char>>::empty());
    while i < urls.len()
        invariant
            i <= urls@.len(),
            all == text::views(urls@),
            relays_of(all.take(i as int)) == Ok::<Seq<Seq<char>>, Seq<char>>(text::views(out@)),
        decreases urls@.len() - i,
    {
        assert(all.take(i + 1).drop_last() == all.take(i as int));
        assert(all.take(i + 1).last() == urls@[i as int]@);
        match relay_url::parse_relay_url(urls[i].as_str()) {
            Some(url) => {
                lists::push_new(&mut out, url.as_str());
            },
            None => {
                proof {
                    lemma_bad_relay_stays(all, i + 1);
                }
                return Err(urls[i].clone());
            },
        }
        i = i + 1;
    }
    assert(all.take(urls@.len() as int) == all);
    Ok(out)
}

proof fn lemma_bad_relay_stays(urls: Seq<Seq<char>>, n: int)
    requires
        0 <= n <= urls.len(),
        relays_of(urls.take(n)) is Err,
    ensures
        relays_of(urls) == relays_of(urls.take(n)),
    decreases urls.len() - n,
{
    if n == urls.len() {
        assert(urls.take(n) == urls);
    } else {
        assert(urls.take(n + 1).drop_last() == urls.take(n));
        lemma_bad_relay_stays(urls, n + 1);
    }
}

/// The error for a text that is no relay URL.
pub open spec fn bad_relay_text(url: Seq<char>) -> Seq<char> {
    "bad relay url "@ + url
}

impl SignedInvite {
    /// Whom a client should dial: the audience, through the invite's relays.
    pub fn endpoint_addr(&self) -> (r: Result<EndpointAddr, RoamingError>)
        ensures
            match (r, relays_of(self.claims@.relay_urls)) {
                (Ok(addr), Ok(list)) => addr.id == self.claims.audience && text::views(addr.relays@)
                    == list,
                (Err(e), Err(bad)) => e@ == ErrorView::Invite(bad_relay_text(bad)),
                _ => false,
            },
    {
        match read_relays(&self.claims.relay_urls) {
            Ok(relays) => Ok(EndpointAddr { id: self.claims.audience, relays }),
            Err(bad) => Err(RoamingError::Invite(text::concat("bad relay url ", bad.as_str()))),
        }
    }
}

// ---------------------------------------------------------------------------
// Invites as text

/// The text of an invite or card whose written form is `json`.
pub open spec fn token_text(json: Seq<u8>) -> Seq<char> {
    SCHEME@ + base64url::base64url_text(json)
}

/// Whether a text can stand in a URL as it is: it begins with the scheme, and
/// every character behind that is of the URL-safe alphabet.
pub open spec fn is_url_safe(token: Seq<char>) -> bool {
    &&& SCHEME@.is_prefix_of(token)
    &&& forall|i: int|
        SCHEME@.len() <= i < token.len() ==> base64url::in_alphabet(#[trigger] token[i])
}

/// Characters of the URL-safe alphabet behind the scheme are safe in a URL.
pub proof fn lemma_base64url_is_url_safe(body: Seq<char>)
    requires
        forall|i: int| 0 <= i < body.len() ==> base64url::in_alphabet(#[trigger] body[i]),
    ensures
        is_url_safe(SCHEME@ + body),
{
    let token = SCHEME@ + body;
    assert(SCHEME@.is_prefix_of(token));
    assert forall|i: int| SCHEME@.len() <= i < token.len() implies base64url::in_alphabet(
        #[trigger] token[i],
    ) by {
        assert(token[i] == body[i - SCHEME@.len()]);
    }
}

/// The written form of an invite, from its text and from what base64 makes of
/// what follows the scheme.
pub open spec fn token_bytes(token: Seq<char>) -> Result<Seq<u8>, ErrorView> {
    match text::after_prefix(token, SCHEME@) {
        None => Err(ErrorView::Invite("missing goose+roam:// scheme"@)),
        Some(body) => match base64url::base64url_bytes(body) {
            Ok(json) => Ok(json),
            Err(_) => Err(ErrorView::Invite("invalid base64"@)),
        },
    }
}

impl SignedInvite {
    /// The token of an invite, from what writing it as JSON gave.
    pub fn encode(json: Result<Vec<u8>, String>) -> (r: Result<String, RoamingError>)
        ensures
            match (r, json) {
                (Ok(token), Ok(bytes)) => token@ == token_text(bytes@) && is_url_safe(token@)
                    && token_bytes(token@) == Ok::<Seq<u8>, ErrorView>(bytes@),
                (Err(e), Err(reason)) => e@ == ErrorView::Invite("encode failed: "@ + reason@),
                _ => false,
            },
    {
        match json {
            Ok(bytes) => {
                let body = base64url::encode(bytes.as_slice());
                let token = text::concat(SCHEME, body.as_str());
                proof {
                    assert(SCHEME@.is_prefix_of(token@));
                    assert(token@.skip(SCHEME@.len() as int) == body@);
                    lemma_base64url_is_url_safe(body@);
                }
                Ok(token)
            },
            Err(reason) => Err(
                RoamingError::Invite(text::concat("encode failed: ", reason.as_str())),
            ),
        }
    }

    /// The JSON form of the invite that a token carries.
    pub fn decode(token: &str) -> (r: Result<Vec<u8>, RoamingError>)
        ensures
            match r {
                Ok(json) => token_bytes(token@) == Ok::<Seq<u8>, ErrorView>(json@),
                Err(e) => token_bytes(token@) == Err::<Seq<u8>, ErrorView>(e@),
            },
    {
        match text::strip_prefix(token, SCHEME) {
            None => Err(RoamingError::Invite("missing goose+roam:// scheme".to_owned())),
            Some(body) => match base64url::decode(body) {
                Ok(json) => Ok(json),
                Err(_) => Err(RoamingError::Invite("invalid base64".to_owned())),
            },
        }
    }

    /// The invite that reading the JSON form gave.
    pub fn from_json(parsed: Result<SignedInvite, String>) -> (r: Result<SignedInvite, RoamingError>)
        ensures
            match (r, parsed) {
                (Ok(invite), Ok(given)) => invite == given,
                (Err(e), Err(reason)) => e@ == ErrorView::Invite(
                    "invalid invite json: "@ + reason@,
                ),
                _ => false,
            },
    {
        match parsed {
            Ok(invite) => Ok(invite),
            Err(reason) => Err(
                RoamingError::Invite(text::concat("invalid invite json: ", reason.as_str())),
            ),
        }
    }
}

/// A signature in the JSON form of an invite.
pub fn signature_text(signature: &Signature) -> (r: String)
    ensures
        r@ == base64url::base64url_text(signature@),
        signature_of_text(r@) == Ok::<Seq<u8>, Seq<char>>(signature@),
{
    let bytes = signature.to_bytes();
    proof {
        assert(bytes@.len() == 64);
    }
    base64url::encode(&bytes)
}

/// The 64 bytes of a signature in the JSON form of an invite.
pub open spec fn signature_of_text(s: Seq<char>) -> Result<Seq<u8>, Seq<char>> {
    match base64url::base64url_bytes(s) {
        Err(e) => Err(e),
        Ok(bytes) => if bytes.len() != 64 {
            Err("signature must be 64 bytes"@)
        } else {
            Ok(bytes)
        },
    }
}

/// Reads a signature in the JSON form of an invite.
pub fn parse_signature(s: &str) -> (r: Result<Signature, String>)
    ensures
        match r {
            Ok(signature) => signature_of_text(s@) == Ok::<Seq<u8>, Seq<char>>(signature@),
            Err(e) => signature_of_text(s@) == Err::<Seq<u8>, Seq<char>>(e@),
        },
{
    match base64url::decode(s) {
        Err(e) => Err(e),
        Ok(bytes) => signature_from(bytes.as_slice()),
    }
}

/// The signature with these bytes, if there are 64 of them.
pub fn signature_from(bytes: &[u8]) -> (r: Result<Signature, String>)
    ensures
        match r {
            Ok(signature) => bytes@.len() == 64 && signature@ == bytes@,
            Err(e) => bytes@.len() != 64 && e@ == "signature must be 64 bytes"@,
        },
{
    if bytes.len() != 64 {
        return Err("signature must be 64 bytes".to_owned());
    }
    let mut array: [u8; 64] = [0u8; 64];
    let mut i: usize = 0;
    while i < 64
        invariant
            i <= 64,
            bytes@.len() == 64,
            forall|j: int| 0 <= j < i ==> array@[j] == bytes@[j],
        decreases 64 - i,
    {
        array[i] = bytes[i];
        i = i + 1;
    }
    assert(array@ == bytes@);
    Ok(Signature::from_bytes(&array))
}

/// A token without the scheme carries no invite; and what follows the scheme is
/// what base64 makes of it.
pub proof fn tokens_are_read_behind_the_scheme(token: Seq<char>, body: Seq<char>)
    ensures
        match base64url::base64url_bytes(body) {
            Ok(json) => token_bytes("goose+roam://"@ + body) == Ok::<Seq<u8>, ErrorView>(json),
            Err(_) => token_bytes("goose+roam://"@ + body) is Err,
        },
        !"goose+roam://"@.is_prefix_of(token) ==> token_bytes(token) is Err,
{
    assert((SCHEME@ + body).skip(SCHEME@.len() as int) =~= body);
    assert(SCHEME@.is_prefix_of(SCHEME@ + body));
}

/// A signature is read exactly where base64 makes 64 bytes of its text, and then
/// it is those bytes.
pub proof fn signatures_have_64_bytes(s: Seq<char>)
    ensures
        signature_of_text(s) is Ok <==> base64url::base64url_bytes(s) is Ok
            && base64url::base64url_bytes(s)->Ok_0.len() == 64,
        signature_of_text(s) matches Ok(bytes) ==> base64url::base64url_bytes(s) == Ok::<
            Seq<u8>,
            Seq<char>,
        >(bytes),
{
}

/// Scopes are numbered one to three, control first and observing last.
pub proof fn scopes_are_numbered(scope: Scope)
    ensures
        1 <= scope_number(scope) <= 3,
        scope_number(scope) == 1 <==> scope == Scope::Control,
        scope_number(scope) == 3 <==> scope == Scope::Observe,
{
}

/// The canonical bytes begin with the domain, the version and the host that the
/// invite is for, in this order.
#[verifier::spinoff_prover]
pub proof fn canonical_bytes_begin_with_the_host(c: ClaimsView)
    ensures
        (field(vstd::utf8::encode_utf8(TOKEN_DOMAIN@)) + le32(c.version) + field(
            c.audience,
        )).is_prefix_of(canonical(c)),
{
    let head = field(vstd::utf8::encode_utf8(TOKEN_DOMAIN@)) + le32(c.version) + field(c.audience);
    let rest = counted(utf8_views(c.relay_urls)) + canonical_grant(c);
    assert(canonical(c) =~= head + rest);
    assert(head.is_prefix_of(head + rest));
}

/// An invite that does not hold says why: which version it has, that it is not
/// yet valid before its window, and that it has expired after it.
pub proof fn invites_say_why_they_do_not_hold(c: ClaimsView, now_ms: u64)
    ensures
        c.version != 1 ==> verdict(c, true, now_ms) == Err::<(), ErrorView>(
            ErrorView::Invite("unsupported invite version "@ + digits::decimal(c.version as nat)),
        ),
        c.version == 1 && now_ms < c.not_before_ms ==> verdict(c, true, now_ms) == Err::<
            (),
            ErrorView,
        >(ErrorView::Invite("invite not yet valid"@)),
        c.version == 1 && c.not_before_ms <= now_ms && c.expires_at_ms <= now_ms ==> verdict(
            c,
            true,
            now_ms,
        ) == Err::<(), ErrorView>(ErrorView::Invite("invite expired"@)),
{
}

} // verus!
