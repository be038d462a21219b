//! Numbers and bytes written as digits.

use vstd::prelude::*;
use vstd::string::StringExecFns;

verus! {

/// The character of a decimal or hexadecimal digit, in lower case.
pub open spec fn digit(d: int) -> char {
    if d < 10 {
        ('0' as int + d) as char
    } else {
        ('a' as int + (d - 10)) as char
    }
}

/// `n` in decimal, without leading zeros.
pub open spec fn decimal(n: nat) -> Seq<char>
    decreases n,
{
    if n < 10 {
        seq![digit(n as int)]
    } else {
        decimal(n / 10).push(digit((n % 10) as int))
    }
}

/// Each byte as two hexadecimal digits, in lower case.
pub open spec fn lower_hex(bytes: Seq<u8>) -> Seq<char> {
    Seq::new(
        2 * bytes.len(),
        |i: int| digit(if i % 2 == 0 { bytes[i / 2] as int / 16 } else { bytes[i / 2] as int % 16 }),
    )
}

/// The character of a digit below sixteen.
pub fn digit_char(d: u8) -> (r: char)
    requires
        d < 16,
    ensures
        r == digit(d as int),
{
    if d < 10 {
        (48 + d) as char
    } else {
        (97 + (d - 10)) as char
    }
}

/// `n` in decimal.
pub fn decimal_of(n: u64) -> (r: String)
    ensures
        r@ == decimal(n as nat),
    decreases n,
{
    if n < 10 {
        let mut s = String::new();
        s.push(digit_char(n as u8));
        assert(s@ == seq![digit(n as int)]);
        s
    } else {
        let mut s = decimal_of(n / 10);
        s.push(digit_char((n % 10) as u8));
        s
    }
}

/// Each byte as two hexadecimal digits, in lower case.
pub fn hex_of(bytes: &[u8]) -> (r: String)
    ensures
        r@ == lower_hex(bytes@),
{
    let mut out = String::new();
    let mut i: usize = 0;
    assert(lower_hex(bytes@.take(0)) == Seq::<char>::empty());
    while i < bytes.len()
        invariant
            i <= bytes@.len(),
            out@ == lower_hex(bytes@.take(i as int)),
        decreases bytes@.len() - i,
    {
        let b: u8 = bytes[i];
        out.push(digit_char(b / 16));
        out.push(digit_char(b % 16));
        assert(lower_hex(bytes@.take(i + 1)) == lower_hex(bytes@.take(i as int)).push(
            digit(b as int / 16),
        ).push(digit(b as int % 16)));
        i = i + 1;
    }
    assert(bytes@.take(bytes@.len() as int) == bytes@);
    out
}

/// Two byte sequences with the same hexadecimal text are the same.
pub proof fn lower_hex_is_injective(a: Seq<u8>, b: Seq<u8>)
    requires
        lower_hex(a) == lower_hex(b),
    ensures
        a == b,
{
    assert(lower_hex(a).len() == 2 * a.len() && lower_hex(b).len() == 2 * b.len());
    assert(a.len() == b.len());
    assert forall|k: int| 0 <= k < a.len() implies a[k] == b[k] by {
        assert((2 * k) / 2 == k && (2 * k + 1) / 2 == k);
        assert(lower_hex(a)[2 * k] == digit(a[k] as int / 16));
        assert(lower_hex(b)[2 * k] == digit(b[k] as int / 16));
        assert(lower_hex(a)[2 * k + 1] == digit(a[k] as int % 16));
        assert(lower_hex(b)[2 * k + 1] == digit(b[k] as int % 16));
        lemma_digit_injective(a[k] as int / 16, b[k] as int / 16);
        lemma_digit_injective(a[k] as int % 16, b[k] as int % 16);
    }
    assert(a =~= b);
}

proof fn lemma_digit_injective(x: int, y: int)
    requires
        0 <= x < 16,
        0 <= y < 16,
        digit(x) == digit(y),
    ensures
        x == y,
{
    assert(digit(x) as int == if x < 10 { 48 + x } else { 97 + (x - 10) });
    assert(digit(y) as int == if y < 10 { 48 + y } else { 97 + (y - 10) });
}

// ---------------------------------------------------------------------------
// Keys in hexadecimal

/// The value of a hexadecimal digit in either case.
pub open spec fn hex_value(b: u8) -> Option<int> {
    if 48 <= b <= 57 {
        Some(b - 48)
    } else if 97 <= b <= 102 {
        Some(b - 97 + 10)
    } else if 65 <= b <= 70 {
        Some(b - 65 + 10)
    } else {
        None
    }
}

/// Whether two bytes are UTF-8 on their own: two ASCII characters, or one
/// character of two bytes.
pub open spec fn pair_is_utf8(a: u8, b: u8) -> bool {
    ||| a < 0x80 && b < 0x80
    ||| 0xc2 <= a <= 0xdf && 0x80 <= b <= 0xbf
}

/// Whether a byte is an ASCII hexadecimal digit, in either case.
pub open spec fn is_hex_digit(b: u8) -> bool {
    hex_value(b) is Some
}

/// Whether some bytes are 64 ASCII hexadecimal digits.
pub open spec fn is_hex_key(text: Seq<u8>) -> bool {
    text.len() == 64 && forall|i: int| 0 <= i < text.len() ==> is_hex_digit(#[trigger] text[i])
}

/// A character in lower case where it is an ASCII letter, and as it is
/// otherwise.
pub open spec fn ascii_lower(c: char) -> char {
    if 'A' <= c <= 'Z' {
        (c as int + 32) as char
    } else {
        c
    }
}

/// A text with its ASCII letters in lower case.
pub open spec fn ascii_lower_text(text: Seq<char>) -> Seq<char> {
    text.map_values(|c: char| ascii_lower(c))
}

/// The byte that two hexadecimal digits stand for.
pub open spec fn pair_value(a: u8, b: u8) -> Result<u8, Seq<char>> {
    if !pair_is_utf8(a, b) {
        Err("secret not utf-8"@)
    } else if !is_hex_digit(a) || !is_hex_digit(b) {
        Err("secret has invalid hex"@)
    } else {
        Ok((16 * hex_value(a)->0 + hex_value(b)->0) as u8)
    }
}

/// The bytes that the pairs of `text` stand for, or the error of the first
/// pair that stands for none.
pub open spec fn pairs_value(text: Seq<u8>) -> Result<Seq<u8>, Seq<char>>
    decreases text.len(),
{
    if text.len() < 2 {
        Ok(Seq::empty())
    } else {
        match pairs_value(text.take(text.len() - 2)) {
            Err(e) => Err(e),
            Ok(head) => match pair_value(text[text.len() - 2], text.last()) {
                Err(e) => Err(e),
                Ok(b) => Ok(head.push(b)),
            },
        }
    }
}

/// The 32 bytes that a key of 64 hexadecimal digits stands for, given as the
/// bytes of the text.
pub open spec fn key_value(text: Seq<u8>) -> Result<Seq<u8>, Seq<char>> {
    if text.len() != 64 {
        Err("secret must be 64 hex chars, got "@ + decimal(text.len()))
    } else {
        pairs_value(text)
    }
}

fn hex_digit_value(b: u8) -> (r: Option<u8>)
    ensures
        match r {
            Some(v) => hex_value(b) == Some(v as int) && v < 16,
            None => hex_value(b) is None,
        },
{
    if 48 <= b && b <= 57 {
        Some(b - 48)
    } else if 97 <= b && b <= 102 {
        Some(b - 97 + 10)
    } else if 65 <= b && b <= 70 {
        Some(b - 65 + 10)
    } else {
        None
    }
}

fn decode_pair(a: u8, b: u8) -> (r: Result<u8, String>)
    ensures
        match r {
            Ok(v) => pair_value(a, b) == Ok::<u8, Seq<char>>(v),
            Err(e) => pair_value(a, b) == Err::<u8, Seq<char>>(e@),
        },
{
    let utf8 = (a < 0x80 && b < 0x80) || (0xc2 <= a && a <= 0xdf && 0x80 <= b && b <= 0xbf);
    if !utf8 {
        return Err("secret not utf-8".to_owned());
    }
    match (hex_digit_value(a), hex_digit_value(b)) {
        (Some(hi), Some(lo)) => {
            assert(16 * hi + lo < 256);
            Ok(16 * hi + lo)
        },
        _ => Err("secret has invalid hex".to_owned()),
    }
}

/// A key of 32 bytes as 64 hexadecimal digits.
pub fn encode_hex_key(bytes: &[u8; 32]) -> (r: String)
    ensures
        r@ == lower_hex(bytes@),
{
    hex_of(bytes)
}

/// Reads a key of 64 hexadecimal digits. The length is that of the text in
/// UTF-8, and the first pair that is wrong gives the error.
pub fn decode_hex_key(hex: &str) -> (r: Result<[u8; 32], String>)
    ensures
        match r {
            Ok(key) => key_value(vstd::utf8::encode_utf8(hex@)) == Ok::<Seq<u8>, Seq<char>>(key@),
            Err(e) => key_value(vstd::utf8::encode_utf8(hex@)) == Err::<Seq<u8>, Seq<char>>(e@),
        },
        r is Ok <==> is_hex_key(vstd::utf8::encode_utf8(hex@)),
        r matches Ok(key) ==> lower_hex(key@) == ascii_lower_text(hex@),
{
    proof {
        keys_are_64_hexadecimal_digits(hex@);
    }
    let text = hex.as_bytes();
    if text.len() != 64 {
        let n: u64 = text.len() as u64;
        let mut msg = "secret must be 64 hex chars, got ".to_owned();
        msg.append(decimal_of(n).as_str());
        return Err(msg);
    }
    let mut key: [u8; 32] = [0u8; 32];
    let mut i: usize = 0;
    assert(key@.take(0) == Seq::<u8>::empty());
    while i < 32
        invariant
            i <= 32,
            text@.len() == 64,
            text@ == vstd::utf8::encode_utf8(hex@),
            pairs_value(text@.take(2 * i)) == Ok::<Seq<u8>, Seq<char>>(key@.take(i as int)),
        decreases 32 - i,
    {
        let ghost next = text@.take(2 * i + 2);
        assert(next.take(next.len() - 2) == text@.take(2 * i));
        match decode_pair(text[2 * i], text[2 * i + 1]) {
            Ok(b) => {
                let ghost before = key@;
                key[i] = b;
                assert(key@.take(i + 1) == before.take(i as int).push(b));
            },
            Err(e) => {
                proof {
                    assert(pairs_value(next) == Err::<Seq<u8>, Seq<char>>(e@));
                    lemma_error_stays(text@, 2 * i + 2);
                }
                return Err(e);
            },
        }
        i = i + 1;
    }
    assert(text@.take(64) == text@);
    assert(key@.take(32) == key@);
    Ok(key)
}

/// An error among the first `n` bytes, an even number, is that of the whole.
proof fn lemma_error_stays(text: Seq<u8>, n: int)
    requires
        0 <= n <= text.len(),
        n % 2 == 0,
        text.len() % 2 == 0,
        pairs_value(text.take(n)) is Err,
    ensures
        pairs_value(text) == pairs_value(text.take(n)),
    decreases text.len() - n,
{
    if n == text.len() {
        assert(text.take(n) == text);
    } else {
        let next = text.take(n + 2);
        assert(next.take(next.len() - 2) == text.take(n));
        lemma_error_stays(text, n + 2);
    }
}

/// A text stands for a key exactly where it is 64 ASCII hexadecimal digits, in
/// either case; and the key written back is the text in lower case.
pub proof fn keys_are_64_hexadecimal_digits(text: Seq<char>)
    ensures
        key_value(vstd::utf8::encode_utf8(text)) is Ok <==> is_hex_key(
            vstd::utf8::encode_utf8(text),
        ),
        key_value(vstd::utf8::encode_utf8(text)) matches Ok(key) ==> key.len() == 32 && lower_hex(
            key,
        ) == ascii_lower_text(text),
{
    let bytes = vstd::utf8::encode_utf8(text);
    if bytes.len() == 64 {
        lemma_pairs_are_digits(bytes);
        if pairs_value(bytes) is Ok {
            let key = pairs_value(bytes)->Ok_0;
            lemma_ascii_bytes_are_the_text(text);
            let hex = lower_hex(key);
            let lower = ascii_lower_text(text);
            assert forall|i: int| 0 <= i < hex.len() implies hex[i] == lower[i] by {
                let k = i / 2;
                assert(bytes[i] == text[i] as u8);
                if i % 2 == 0 {
                    assert(i == 2 * k);
                } else {
                    assert(i == 2 * k + 1);
                }
                assert(16 * hex_value(bytes[2 * k])->0 + hex_value(bytes[2 * k + 1])->0 == key[k]);
                lemma_digit_is_lower_case(bytes[i]);
            }
            assert(hex =~= lower);
        }
    }
}

proof fn lemma_digit_is_lower_case(b: u8)
    requires
        is_hex_digit(b),
    ensures
        digit(hex_value(b)->0) == ascii_lower(b as char),
{
}

/// Pairs stand for bytes exactly where all of them are digits, and then each
/// byte is the number that its two digits write.
proof fn lemma_pairs_are_digits(text: Seq<u8>)
    requires
        text.len() % 2 == 0,
    ensures
        pairs_value(text) is Ok <==> forall|i: int|
            0 <= i < text.len() ==> is_hex_digit(#[trigger] text[i]),
        pairs_value(text) matches Ok(key) ==> {
            &&& 2 * key.len() == text.len()
            &&& forall|k: int|
                0 <= k < key.len() ==> #[trigger] key[k] == 16 * hex_value(text[2 * k])->0
                    + hex_value(text[2 * k + 1])->0
        },
    decreases text.len(),
{
    if text.len() > 0 {
        let n = text.len() - 2;
        let init = text.take(n);
        lemma_pairs_are_digits(init);
        assert forall|i: int| 0 <= i < n implies init[i] == #[trigger] text[i] by {}
        if forall|i: int| 0 <= i < text.len() ==> is_hex_digit(#[trigger] text[i]) {
            assert forall|i: int| 0 <= i < n implies is_hex_digit(#[trigger] init[i]) by {
                assert(is_hex_digit(text[i]));
            }
            assert(is_hex_digit(text[n]) && is_hex_digit(text[n + 1]));
        }
        if pairs_value(text) is Ok {
            assert forall|i: int| 0 <= i < text.len() implies is_hex_digit(#[trigger] text[i]) by {
                if i < n {
                    assert(is_hex_digit(init[i]));
                }
            }
        }
    }
}

/// Where the bytes of a text are ASCII, they are its characters.
proof fn lemma_ascii_bytes_are_the_text(text: Seq<char>)
    requires
        forall|i: int|
            0 <= i < vstd::utf8::encode_utf8(text).len() ==> (
            #[trigger] vstd::utf8::encode_utf8(text)[i]) < 128,
    ensures
        text.len() == vstd::utf8::encode_utf8(text).len(),
        forall|i: int|
            0 <= i < text.len() ==> vstd::utf8::encode_utf8(text)[i] == #[trigger] text[i] as u8,
        forall|i: int| 0 <= i < text.len() ==> (#[trigger] text[i] as int) < 128,
{
    let bytes = vstd::utf8::encode_utf8(text);
    let chars = bytes.map_values(|b: u8| b as char);
    vstd::utf8::is_ascii_chars_encode_utf8(chars);
    assert(vstd::utf8::encode_utf8(chars) =~= bytes);
    vstd::utf8::encode_utf8_decode_utf8(chars);
    vstd::utf8::encode_utf8_decode_utf8(text);
    assert(chars == text);
}

/// A key written as hexadecimal digits reads back as the same key.
pub proof fn hex_key_round_trips(key: Seq<u8>)
    requires
        key.len() == 32,
    ensures
        key_value(vstd::utf8::encode_utf8(lower_hex(key))) == Ok::<Seq<u8>, Seq<char>>(key),
{
    let text = lower_hex(key);
    assert forall|i: int| 0 <= i < text.len() implies 0 <= text[i] as nat && (#[trigger] text[i]
        as nat) < 128 by {}
    vstd::utf8::is_ascii_chars_encode_utf8(text);
    let bytes = vstd::utf8::encode_utf8(text);
    assert(bytes.len() == 64);
    assert(bytes.take(64) == bytes);
    assert(key.take(32) == key);
    lemma_pairs_of_hex(key, bytes, 32);
}

proof fn lemma_pairs_of_hex(key: Seq<u8>, bytes: Seq<u8>, n: int)
    requires
        0 <= n <= key.len(),
        bytes.len() == 2 * key.len(),
        forall|i: int| 0 <= i < bytes.len() ==> bytes[i] == #[trigger] lower_hex(key)[i] as u8,
    ensures
        pairs_value(bytes.take(2 * n)) == Ok::<Seq<u8>, Seq<char>>(key.take(n)),
    decreases n,
{
    if n > 0 {
        lemma_pairs_of_hex(key, bytes, n - 1);
        let t = bytes.take(2 * n);
        assert(t.take(t.len() - 2) == bytes.take(2 * (n - 1)));
        let k = n - 1;
        assert((2 * k) / 2 == k && (2 * k + 1) / 2 == k);
        assert(bytes[2 * k] == lower_hex(key)[2 * k] as u8);
        assert(bytes[2 * k + 1] == lower_hex(key)[2 * k + 1] as u8);
        assert(t.last() == bytes[2 * k + 1]);
        assert(key.take(n) == key.take(n - 1).push(key[k]));
    } else {
        assert(key.take(0) == Seq::<u8>::empty());
    }
}

/// Each byte is written as two characters, `0` to `9` and `a` to `f`, that count
/// sixteen times and once.
pub proof fn lower_hex_counts_in_sixteens(bytes: Seq<u8>, k: int)
    requires
        0 <= k < bytes.len(),
    ensures
        lower_hex(bytes).len() == 2 * bytes.len(),
        ({
            let hi = lower_hex(bytes)[2 * k];
            let lo = lower_hex(bytes)[2 * k + 1];
            let high = if '0' <= hi <= '9' {
                hi as int - '0' as int
            } else {
                hi as int - 'a' as int + 10
            };
            let low = if '0' <= lo <= '9' {
                lo as int - '0' as int
            } else {
                lo as int - 'a' as int + 10
            };
            &&& '0' <= hi <= '9' || 'a' <= hi <= 'f'
            &&& '0' <= lo <= '9' || 'a' <= lo <= 'f'
            &&& bytes[k] == 16 * high + low
        }),
{
    assert((2 * k) / 2 == k && (2 * k + 1) / 2 == k);
}

/// A number in decimal has no leading zero, unless it is zero.
pub proof fn decimal_has_no_leading_zero(n: nat)
    ensures
        decimal(n).len() > 0,
        n == 0 ==> decimal(n) == seq!['0'],
        n > 0 ==> decimal(n)[0] != '0',
    decreases n,
{
    if n >= 10 {
        decimal_has_no_leading_zero(n / 10);
        assert(decimal(n)[0] == decimal(n / 10)[0]);
    } else {
        assert(digit(n as int) as int == 48 + n);
    }
}

} // verus!
