//! Text operations over the characters of a string.
//!
//! Strings are viewed as sequences of characters. Each operation states its
//! result over that view.

use vstd::prelude::*;
use vstd::string::{StrSliceExecFns, StringExecFns};

verus! {

/// `String::push`: appends one character.
pub assume_specification[ String::push ](s: &mut String, ch: char)
    ensures
        final(s)@ == old(s)@.push(ch),
;

/// The characters of a string, in order.
pub fn chars_of(s: &str) -> (r: Vec<char>)
    ensures
        r@ == s@,
{
    let mut out: Vec<char> = Vec::new();
    for c in it: s.chars()
        invariant
            it.seq() == s@,
            out@ == s@.take(it.index()),
    {
        out.push(c);
        assert(s@.take(it.index() + 1) == s@.take(it.index()).push(c));
    }
    assert(s@.take(s@.len() as int) == s@);
    out
}

/// The string made of the characters `cs[from..to]`.
pub fn string_of(cs: &Vec<char>, from: usize, to: usize) -> (r: String)
    requires
        from <= to <= cs@.len(),
    ensures
        r@ == cs@.subrange(from as int, to as int),
{
    let mut out = String::new();
    let mut i: usize = from;
    while i < to
        invariant
            from <= i <= to <= cs@.len(),
            out@ == cs@.subrange(from as int, i as int),
        decreases to - i,
    {
        out.push(cs[i]);
        i = i + 1;
        assert(cs@.subrange(from as int, i as int) == cs@.subrange(from as int, i - 1).push(
            cs@[i - 1],
        ));
    }
    out
}

/// `a` followed by `b`.
pub fn concat(a: &str, b: &str) -> (r: String)
    ensures
        r@ == a@ + b@,
{
    let mut out = a.to_owned();
    out.append(b);
    out
}

/// `a`, then `b`, then `c`.
pub fn concat3(a: &str, b: &str, c: &str) -> (r: String)
    ensures
        r@ == a@ + b@ + c@,
{
    let mut out = a.to_owned();
    out.append(b);
    out.append(c);
    out
}

/// Whether two strings hold the same characters.
pub fn same(a: &str, b: &str) -> (r: bool)
    ensures
        r == (a@ == b@),
{
    let x = a.to_owned();
    let y = b.to_owned();
    x == y
}

// ---------------------------------------------------------------------------
// White space

/// Whether `c` has the Unicode `White_Space` property.
pub open spec fn white(c: char) -> bool {
    ||| 0x09 <= c as u32 <= 0x0d
    ||| c as u32 == 0x20
    ||| c as u32 == 0x85
    ||| c as u32 == 0xa0
    ||| c as u32 == 0x1680
    ||| 0x2000 <= c as u32 <= 0x200a
    ||| c as u32 == 0x2028
    ||| c as u32 == 0x2029
    ||| c as u32 == 0x202f
    ||| c as u32 == 0x205f
    ||| c as u32 == 0x3000
}

/// `s` without its leading white space.
pub open spec fn trimmed_start(s: Seq<char>) -> Seq<char>
    decreases s.len(),
{
    if s.len() > 0 && white(s[0]) {
        trimmed_start(s.skip(1))
    } else {
        s
    }
}

/// `s` without its trailing white space.
pub open spec fn trimmed_end(s: Seq<char>) -> Seq<char>
    decreases s.len(),
{
    if s.len() > 0 && white(s.last()) {
        trimmed_end(s.drop_last())
    } else {
        s
    }
}

/// `s` without its leading and trailing white space.
pub open spec fn trimmed(s: Seq<char>) -> Seq<char> {
    trimmed_end(trimmed_start(s))
}

/// Whether `c` has the Unicode `White_Space` property.
pub fn is_white(c: char) -> (r: bool)
    ensures
        r == white(c),
{
    let u: u32 = c as u32;
    (0x09 <= u && u <= 0x0d) || u == 0x20 || u == 0x85 || u == 0xa0 || u == 0x1680 || (0x2000 <= u
        && u <= 0x200a) || u == 0x2028 || u == 0x2029 || u == 0x202f || u == 0x205f || u == 0x3000
}

/// Trimming a text whose ends are not white leaves it as it is.
pub proof fn trimmed_is_stable(s: Seq<char>)
    requires
        s.len() > 0 ==> !white(s[0]) && !white(s.last()),
    ensures
        trimmed(s) == s,
{
}

/// What trimming leaves begins and ends with a character that is not white,
/// and it is a stretch of the given text.
pub proof fn trimmed_ends(s: Seq<char>)
    ensures
        trimmed(s).len() > 0 ==> !white(trimmed(s)[0]) && !white(trimmed(s).last()),
        trimmed(s).len() <= s.len(),
        forall|c: char| trimmed(s).contains(c) ==> s.contains(c),
{
    lemma_trimmed_start(s);
    lemma_trimmed_end(trimmed_start(s));
    let t = trimmed_start(s);
    let r = trimmed(s);
    assert forall|c: char| r.contains(c) implies s.contains(c) by {
        let i = choose|i: int| 0 <= i < r.len() && r[i] == c;
        assert(t[i] == c);
        assert(s[s.len() - t.len() + i] == c);
    }
}

proof fn lemma_trimmed_start(s: Seq<char>)
    ensures
        trimmed_start(s).len() <= s.len(),
        trimmed_start(s) == s.skip(s.len() - trimmed_start(s).len()),
        trimmed_start(s).len() > 0 ==> !white(trimmed_start(s)[0]),
        forall|i: int| 0 <= i < s.len() - trimmed_start(s).len() ==> white(#[trigger] s[i]),
    decreases s.len(),
{
    if s.len() > 0 && white(s[0]) {
        let rest = s.skip(1);
        lemma_trimmed_start(rest);
        let n = trimmed_start(rest).len();
        assert(s.skip(s.len() - n) == rest.skip(rest.len() - n));
        assert forall|i: int| 0 <= i < s.len() - n implies white(#[trigger] s[i]) by {
            if i > 0 {
                assert(white(rest[i - 1]));
            }
        }
    } else {
        assert(s.skip(0) == s);
    }
}

proof fn lemma_trimmed_end(s: Seq<char>)
    ensures
        trimmed_end(s).len() <= s.len(),
        trimmed_end(s) == s.take(trimmed_end(s).len() as int),
        trimmed_end(s).len() > 0 ==> !white(trimmed_end(s).last()),
    decreases s.len(),
{
    if s.len() > 0 && white(s.last()) {
        let rest = s.drop_last();
        lemma_trimmed_end(rest);
        assert(s.take(trimmed_end(rest).len() as int) == rest.take(
            trimmed_end(rest).len() as int,
        ));
    } else {
        assert(s.take(s.len() as int) == s);
    }
}

/// White space around a text makes no difference to what trimming leaves.
pub proof fn trimmed_ignores_white_around(before: Seq<char>, s: Seq<char>, after: Seq<char>)
    requires
        forall|i: int| 0 <= i < before.len() ==> white(#[trigger] before[i]),
        forall|i: int| 0 <= i < after.len() ==> white(#[trigger] after[i]),
    ensures
        trimmed(before + s + after) == trimmed(s),
{
    lemma_white_front(before, s + after);
    assert(before + s + after == before + (s + after));
    lemma_trimmed_start(s);
    let t = trimmed_start(s);
    if t.len() > 0 {
        lemma_white_front(s.take(s.len() - t.len()), t + after);
        assert(s.take(s.len() - t.len()) + (t + after) == s + after);
        assert((t + after)[0] == t[0]);
        lemma_white_back(t, after);
    } else {
        lemma_white_front(s + after, Seq::empty());
        assert(s + after + Seq::<char>::empty() == s + after);
    }
}

proof fn lemma_white_front(before: Seq<char>, s: Seq<char>)
    requires
        forall|i: int| 0 <= i < before.len() ==> white(#[trigger] before[i]),
    ensures
        trimmed_start(before + s) == trimmed_start(s),
    decreases before.len(),
{
    if before.len() == 0 {
        assert(before + s == s);
    } else {
        assert((before + s)[0] == before[0]);
        assert((before + s).skip(1) == before.skip(1) + s);
        lemma_white_front(before.skip(1), s);
    }
}

proof fn lemma_white_back(s: Seq<char>, after: Seq<char>)
    requires
        forall|i: int| 0 <= i < after.len() ==> white(#[trigger] after[i]),
    ensures
        trimmed_end(s + after) == trimmed_end(s),
    decreases after.len(),
{
    if after.len() == 0 {
        assert(s + after == s);
    } else {
        assert((s + after).last() == after.last());
        assert((s + after).drop_last() == s + after.drop_last());
        lemma_white_back(s, after.drop_last());
    }
}

/// `s` without its leading and trailing white space.
pub fn trim<'a>(s: &'a str) -> (r: &'a str)
    ensures
        r@ == trimmed(s@),
{
    let cs = chars_of(s);
    let mut from: usize = 0;
    assert(cs@.skip(0) == cs@);
    while from < cs.len() && is_white(cs[from])
        invariant
            from <= cs@.len(),
            trimmed_start(cs@) == trimmed_start(cs@.skip(from as int)),
        decreases cs@.len() - from,
    {
        assert(cs@.skip(from as int).skip(1) == cs@.skip(from + 1));
        from = from + 1;
    }
    let mut to: usize = cs.len();
    let ghost t = cs@.skip(from as int);
    assert(trimmed_start(cs@) == t);
    assert(cs@.subrange(from as int, to as int) == t);
    while to > from && is_white(cs[to - 1])
        invariant
            from <= to <= cs@.len(),
            trimmed_end(t) == trimmed_end(cs@.subrange(from as int, to as int)),
        decreases to,
    {
        let ghost u = cs@.subrange(from as int, to as int);
        assert(u.last() == cs@[to - 1]);
        assert(u.drop_last() == cs@.subrange(from as int, to - 1));
        to = to - 1;
    }
    assert(to > from ==> cs@.subrange(from as int, to as int).last() == cs@[to - 1]);
    s.substring_char(from, to)
}

// ---------------------------------------------------------------------------
// Searching

/// Whether `pat` stands in `s` at position `i`.
pub open spec fn occurs_at(s: Seq<char>, pat: Seq<char>, i: int) -> bool {
    0 <= i && i + pat.len() <= s.len() && s.subrange(i, i + pat.len()) == pat
}

/// The first position at or after `from` where `pat` stands in `s`.
pub open spec fn find_from(s: Seq<char>, pat: Seq<char>, from: int) -> Option<int>
    decreases s.len() + 1 - from,
{
    if from < 0 || from + pat.len() > s.len() {
        None
    } else if occurs_at(s, pat, from) {
        Some(from)
    } else {
        find_from(s, pat, from + 1)
    }
}

/// The first position where `pat` stands in `s`.
pub open spec fn find(s: Seq<char>, pat: Seq<char>) -> Option<int> {
    find_from(s, pat, 0)
}

/// The last position of `c` in `s`.
pub open spec fn rfind(s: Seq<char>, c: char) -> Option<int>
    decreases s.len(),
{
    if s.len() == 0 {
        None
    } else if s.last() == c {
        Some(s.len() - 1)
    } else {
        rfind(s.drop_last(), c)
    }
}

/// `find_from` gives the least position at which the pattern occurs.
pub proof fn find_from_is_least(s: Seq<char>, pat: Seq<char>, from: int)
    requires
        0 <= from,
    ensures
        match find_from(s, pat, from) {
            Some(i) => from <= i && occurs_at(s, pat, i) && forall|j: int|
                from <= j < i ==> !#[trigger] occurs_at(s, pat, j),
            None => forall|j: int| from <= j ==> !#[trigger] occurs_at(s, pat, j),
        },
    decreases s.len() + 1 - from,
{
    if from + pat.len() <= s.len() && !occurs_at(s, pat, from) {
        find_from_is_least(s, pat, from + 1);
    }
}

/// A position that holds the pattern, with none before it, is the one found.
pub proof fn find_is(s: Seq<char>, pat: Seq<char>, i: int)
    requires
        occurs_at(s, pat, i),
        forall|j: int| 0 <= j < i ==> !#[trigger] occurs_at(s, pat, j),
    ensures
        find(s, pat) == Some(i),
{
    find_from_is_least(s, pat, 0);
}

/// `rfind` gives the greatest position that holds the character.
pub proof fn rfind_is_greatest(s: Seq<char>, c: char)
    ensures
        match rfind(s, c) {
            Some(i) => 0 <= i < s.len() && s[i] == c && forall|j: int|
                i < j < s.len() ==> #[trigger] s[j] != c,
            None => !s.contains(c),
        },
    decreases s.len(),
{
    if s.len() > 0 && s.last() != c {
        rfind_is_greatest(s.drop_last(), c);
        match rfind(s.drop_last(), c) {
            Some(i) => {
                assert forall|j: int| i < j < s.len() implies #[trigger] s[j] != c by {
                    if j < s.len() - 1 {
                        assert(s.drop_last()[j] != c);
                    }
                }
            },
            None => {
                if s.contains(c) {
                    let k = choose|k: int| 0 <= k < s.len() && s[k] == c;
                    assert(s.drop_last()[k] == c);
                }
            },
        }
    }
}

fn matches_at(cs: &Vec<char>, pat: &Vec<char>, at: usize) -> (r: bool)
    requires
        at + pat@.len() <= cs@.len(),
    ensures
        r == occurs_at(cs@, pat@, at as int),
{
    let n = cs.len();
    let mut k: usize = 0;
    while k < pat.len()
        invariant
            k <= pat@.len(),
            at + pat@.len() <= cs@.len(),
            n == cs@.len(),
            forall|j: int| 0 <= j < k ==> cs@[at + j] == pat@[j],
        decreases pat@.len() - k,
    {
        if cs[at + k] != pat[k] {
            assert(cs@.subrange(at as int, at + pat@.len())[k as int] != pat@[k as int]);
            return false;
        }
        k = k + 1;
    }
    assert(cs@.subrange(at as int, at + pat@.len()) == pat@);
    true
}

/// The first position of `pat` in `s`, counted in characters.
pub fn find_str(s: &str, pat: &str) -> (r: Option<usize>)
    ensures
        match r {
            Some(i) => find(s@, pat@) == Some(i as int),
            None => find(s@, pat@) is None,
        },
        r is Some ==> r->0 + pat@.len() <= s@.len(),
{
    let cs = chars_of(s);
    let ps = chars_of(pat);
    if ps.len() > cs.len() {
        return None;
    }
    let last: usize = cs.len() - ps.len();
    let mut i: usize = 0;
    while i <= last
        invariant
            i <= last + 1,
            last == cs@.len() - ps@.len(),
            cs@ == s@,
            ps@ == pat@,
            find(cs@, ps@) == find_from(cs@, ps@, i as int),
        decreases last + 1 - i,
    {
        if matches_at(&cs, &ps, i) {
            return Some(i);
        }
        if i == last {
            return None;
        }
        i = i + 1;
    }
    None
}

/// Whether `s` contains `pat`.
pub fn contains(s: &str, pat: &str) -> (r: bool)
    ensures
        r == (find(s@, pat@) is Some),
{
    find_str(s, pat).is_some()
}

/// Whether `s` begins with `p`.
pub fn starts_with(s: &str, p: &str) -> (r: bool)
    ensures
        r == p@.is_prefix_of(s@),
{
    let cs = chars_of(s);
    let ps = chars_of(p);
    if ps.len() > cs.len() {
        return false;
    }
    let r = matches_at(&cs, &ps, 0);
    r
}

/// What follows `p` in `s`, if `s` begins with `p`.
pub open spec fn after_prefix(s: Seq<char>, p: Seq<char>) -> Option<Seq<char>> {
    if p.is_prefix_of(s) {
        Some(s.skip(p.len() as int))
    } else {
        None
    }
}

/// What follows `p` in `s`, if `s` begins with `p`.
pub fn strip_prefix<'a>(s: &'a str, p: &str) -> (r: Option<&'a str>)
    ensures
        match r {
            Some(t) => after_prefix(s@, p@) == Some(t@),
            None => after_prefix(s@, p@) is None,
        },
{
    if starts_with(s, p) {
        let r = s.substring_char(p.unicode_len(), s.unicode_len());
        assert(r@ == s@.skip(p@.len() as int));
        Some(r)
    } else {
        None
    }
}

/// The texts before and after the first `sep` in `s`.
pub open spec fn halves(s: Seq<char>, sep: Seq<char>) -> Option<(Seq<char>, Seq<char>)> {
    match find(s, sep) {
        Some(i) => Some((s.take(i), s.skip(i + sep.len()))),
        None => None,
    }
}

/// The texts before and after the last `sep` in `s`.
pub open spec fn rhalves(s: Seq<char>, sep: char) -> Option<(Seq<char>, Seq<char>)> {
    match rfind(s, sep) {
        Some(i) => Some((s.take(i), s.skip(i + 1))),
        None => None,
    }
}

/// Splits `s` at the first `sep`.
pub fn split_once<'a>(s: &'a str, sep: &str) -> (r: Option<(&'a str, &'a str)>)
    ensures
        match r {
            Some((a, b)) => halves(s@, sep@) == Some((a@, b@)),
            None => halves(s@, sep@) is None,
        },
{
    match find_str(s, sep) {
        Some(i) => {
            let n = s.unicode_len();
            let a = s.substring_char(0, i);
            let b = s.substring_char(i + sep.unicode_len(), n);
            assert(a@ == s@.take(i as int));
            assert(b@ == s@.skip(i + sep@.len()));
            Some((a, b))
        },
        None => None,
    }
}

/// Splits `s` at the last `sep`.
pub fn rsplit_once<'a>(s: &'a str, sep: char) -> (r: Option<(&'a str, &'a str)>)
    ensures
        match r {
            Some((a, b)) => rhalves(s@, sep) == Some((a@, b@)),
            None => rhalves(s@, sep) is None,
        },
{
    let cs = chars_of(s);
    let mut i: usize = cs.len();
    assert(cs@.take(cs@.len() as int) == cs@);
    while i > 0
        invariant
            i <= cs@.len(),
            cs@ == s@,
            rfind(s@, sep) == rfind(s@.take(i as int), sep),
        decreases i,
    {
        assert(s@.take(i as int).last() == s@[i - 1]);
        assert(s@.take(i as int).drop_last() == s@.take(i - 1));
        if cs[i - 1] == sep {
            let a = s.substring_char(0, i - 1);
            let b = s.substring_char(i, cs.len());
            assert(a@ == s@.take(i - 1));
            assert(b@ == s@.skip(i as int));
            return Some((a, b));
        }
        i = i - 1;
    }
    None
}

/// The pieces of `s` between the separators, in order. A text without a
/// separator is one piece.
pub open spec fn pieces(s: Seq<char>, sep: char) -> Seq<Seq<char>>
    decreases s.len(),
{
    match rfind(s, sep) {
        Some(i) => if 0 <= i < s.len() {
            pieces(s.take(i), sep).push(s.skip(i + 1))
        } else {
            seq![s]
        },
        None => seq![s],
    }
}

/// The views of a list of strings.
pub open spec fn views(v: Seq<String>) -> Seq<Seq<char>> {
    v.map_values(|x: String| x@)
}

/// Splits `s` at every `sep`.
pub fn split(s: &str, sep: char) -> (r: Vec<String>)
    ensures
        views(r@) == pieces(s@, sep),
    decreases s@.len(),
{
    proof {
        rfind_is_greatest(s@, sep);
    }
    match rsplit_once(s, sep) {
        Some((a, b)) => {
            let mut out = split(a, sep);
            let ghost before = out@;
            out.push(b.to_owned());
            assert(views(out@) == views(before).push(b@));
            out
        },
        None => {
            let mut out: Vec<String> = Vec::new();
            out.push(s.to_owned());
            assert(views(out@) == seq![s@]);
            out
        },
    }
}

/// The pieces of `s` trimmed, without those that are blank, in order.
pub open spec fn listed(parts: Seq<Seq<char>>) -> Seq<Seq<char>> {
    parts.map_values(|p: Seq<char>| trimmed(p)).filter(|p: Seq<char>| p.len() > 0)
}

/// Trims each entry and drops those that are blank.
pub fn trim_all(parts: &Vec<String>) -> (r: Vec<String>)
    ensures
        views(r@) == listed(views(parts@)),
{
    let mut out: Vec<String> = Vec::new();
    let mut i: usize = 0;
    let ghost all = views(parts@).map_values(|p: Seq<char>| trimmed(p));
    let ghost keep = |p: Seq<char>| p.len() > 0;
    proof {
        reveal(Seq::filter);
        assert(all.take(0) == Seq::<Seq<char>>::empty());
        assert(views(out@) == Seq::<Seq<char>>::empty());
    }
    while i < parts.len()
        invariant
            i <= parts@.len(),
            all == views(parts@).map_values(|p: Seq<char>| trimmed(p)),
            keep == (|p: Seq<char>| p.len() > 0),
            views(out@) == all.take(i as int).filter(keep),
        decreases parts@.len() - i,
    {
        let t = trim(parts[i].as_str());
        let ghost before = out@;
        proof {
            assert(all[i as int] == t@);
            assert(all.take(i + 1) == all.take(i as int).push(t@));
            all.take(i as int).lemma_filter_push(t@, keep);
        }
        if !t.is_empty() {
            out.push(t.to_owned());
            assert(views(out@) == views(before).push(t@));
        }
        i = i + 1;
    }
    assert(all.take(parts@.len() as int) == all);
    out
}

// ---------------------------------------------------------------------------
// What holds of trimming and splitting

/// Trimming takes white space off both ends and nothing else: a text is what
/// trimming leaves of it, with white space alone before and behind that. Nothing
/// is left exactly of a text that is all white.
pub proof fn trimming_takes_white_space_alone(s: Seq<char>)
    ensures
        exists|n: int|
            0 <= n <= s.len() - trimmed(s).len() && #[trigger] s.subrange(
                n,
                n + trimmed(s).len(),
            ) == trimmed(s) && (forall|i: int| 0 <= i < n ==> white(#[trigger] s[i])) && (
            forall|i: int| n + trimmed(s).len() <= i < s.len() ==> white(#[trigger] s[i])),
        trimmed(s).len() == 0 <==> forall|i: int| 0 <= i < s.len() ==> white(#[trigger] s[i]),
{
    lemma_trimmed_start(s);
    let t = trimmed_start(s);
    lemma_trimmed_end(t);
    lemma_trimmed_end_is_white(t);
    let r = trimmed(s);
    let n = s.len() - t.len();
    assert(s.subrange(n, n + r.len()) =~= r);
    assert forall|i: int| n + r.len() <= i < s.len() implies white(#[trigger] s[i]) by {
        assert(t[i - n] == s[i]);
    }
    if r.len() > 0 {
        trimmed_ends(s);
        assert(s[n] == r[0]);
        assert(!white(s[n]));
    }
}

proof fn lemma_trimmed_end_is_white(s: Seq<char>)
    ensures
        forall|i: int| trimmed_end(s).len() <= i < s.len() ==> white(#[trigger] s[i]),
    decreases s.len(),
{
    if s.len() > 0 && white(s.last()) {
        let rest = s.drop_last();
        lemma_trimmed_end_is_white(rest);
        assert forall|i: int| trimmed_end(s).len() <= i < s.len() implies white(#[trigger] s[i]) by {
            if i < rest.len() {
                assert(rest[i] == s[i]);
            }
        }
    }
}

/// Of the ASCII characters, the space and the control characters from tab to
/// carriage return are white, and no other.
pub proof fn ascii_white_space(c: char)
    requires
        c as u32 <= 0x7f,
    ensures
        white(c) <==> c == ' ' || c == '\t' || c == '\n' || c == '\x0b' || c == '\x0c' || c == '\r',
{
}

/// What follows a beginning is all that follows it; and a text that does not
/// begin so has nothing that follows.
pub proof fn beginnings_are_taken_off(s: Seq<char>, p: Seq<char>, t: Seq<char>)
    ensures
        after_prefix(p + t, p) == Some(t),
        after_prefix(s, p) matches Some(rest) ==> s == p + rest,
        after_prefix(s, p) is None ==> forall|rest: Seq<char>| s != #[trigger] (p + rest),
{
    assert((p + t).skip(p.len() as int) =~= t);
    assert(p.is_prefix_of(p + t));
    if p.is_prefix_of(s) {
        assert(s =~= p + s.skip(p.len() as int));
    } else {
        assert forall|rest: Seq<char>| s != #[trigger] (p + rest) by {
            if s == p + rest {
                assert(p.is_prefix_of(s));
            }
        }
    }
}

/// A text is split at the first place where the separator stands: the two halves
/// and the separator between them make it up, and the separator stands nowhere
/// before. A text that is not split does not hold the separator.
pub proof fn halves_make_up_the_text(s: Seq<char>, sep: Seq<char>)
    ensures
        match halves(s, sep) {
            Some((a, b)) => s == a + sep + b && forall|j: int|
                0 <= j < a.len() ==> #[trigger] s.subrange(j, j + sep.len()) != sep,
            None => forall|j: int|
                0 <= j <= s.len() - sep.len() ==> #[trigger] s.subrange(j, j + sep.len()) != sep,
        },
{
    find_from_is_least(s, sep, 0);
    match find(s, sep) {
        Some(i) => {
            assert(occurs_at(s, sep, i));
            assert(s.subrange(i, i + sep.len()) == sep);
            assert(s =~= s.take(i) + sep + s.skip(i + sep.len())) by {
                assert forall|k: int| i <= k < i + sep.len() implies s[k] == sep[k - i] by {
                    assert(s.subrange(i, i + sep.len())[k - i] == s[k]);
                }
            }
            assert forall|j: int| 0 <= j < i implies #[trigger] s.subrange(j, j + sep.len()) != sep by {
                assert(!occurs_at(s, sep, j));
            }
        },
        None => {
            assert forall|j: int| 0 <= j <= s.len() - sep.len() implies #[trigger] s.subrange(
                j,
                j + sep.len(),
            ) != sep by {
                assert(!occurs_at(s, sep, j));
            }
        },
    }
}

/// A text is split at the last separator: the two halves and the separator make
/// it up, and the second half holds none.
pub proof fn last_halves_make_up_the_text(s: Seq<char>, sep: char)
    ensures
        match rhalves(s, sep) {
            Some((a, b)) => s == a + seq![sep] + b && !b.contains(sep),
            None => !s.contains(sep),
        },
{
    rfind_is_greatest(s, sep);
    if let Some(i) = rfind(s, sep) {
        assert(s =~= s.take(i) + seq![sep] + s.skip(i + 1));
        let b = s.skip(i + 1);
        if b.contains(sep) {
            let k = choose|k: int| 0 <= k < b.len() && b[k] == sep;
            assert(s[i + 1 + k] == sep);
        }
    }
}

/// Splitting a text at every separator: a text without one is a single piece,
/// and the pieces of two texts with a separator between them are those of the
/// first and then those of the second.
pub proof fn pieces_stand_between_separators(a: Seq<char>, b: Seq<char>, sep: char)
    ensures
        !a.contains(sep) ==> pieces(a, sep) == seq![a],
        pieces(a + seq![sep] + b, sep) == pieces(a, sep) + pieces(b, sep),
    decreases b.len(),
{
    let s = a + seq![sep] + b;
    rfind_is_greatest(a, sep);
    rfind_is_greatest(b, sep);
    rfind_is_greatest(s, sep);
    assert(s[a.len() as int] == sep);
    let at = rfind(s, sep)->0;
    match rfind(b, sep) {
        None => {
            if at > a.len() {
                assert(b[at - a.len() - 1] == s[at]);
            }
            assert(at == a.len());
            assert(s.take(at) =~= a);
            assert(s.skip(at + 1) =~= b);
            assert(pieces(a, sep).push(b) =~= pieces(a, sep) + seq![b]);
        },
        Some(i) => {
            let j = a.len() + 1 + i;
            assert(s[j] == b[i]);
            if at > j {
                assert(b[at - a.len() - 1] == s[at]);
            }
            assert(at == j);
            pieces_stand_between_separators(a, b.take(i), sep);
            assert(s.take(at) =~= a + seq![sep] + b.take(i));
            assert(s.skip(at + 1) =~= b.skip(i + 1));
            assert((pieces(a, sep) + pieces(b.take(i), sep)).push(b.skip(i + 1)) =~= pieces(a, sep)
                + pieces(b.take(i), sep).push(b.skip(i + 1)));
        },
    }
}

/// Each entry of a list counts, trimmed, and in its place; one that is all white
/// is left out, and nothing else is.
pub proof fn listing_keeps_what_is_not_blank(parts: Seq<Seq<char>>, p: Seq<char>)
    ensures
        listed(Seq::empty()) == Seq::<Seq<char>>::empty(),
        listed(parts.push(p)) == (if forall|i: int| 0 <= i < p.len() ==> white(#[trigger] p[i]) {
            listed(parts)
        } else {
            listed(parts).push(trimmed(p))
        }),
{
    reveal(Seq::filter);
    let trim = |x: Seq<char>| trimmed(x);
    let keep = |x: Seq<char>| x.len() > 0;
    assert(Seq::<Seq<char>>::empty().map_values(trim) =~= Seq::<Seq<char>>::empty());
    assert(parts.push(p).map_values(trim) =~= parts.map_values(trim).push(trimmed(p)));
    parts.map_values(trim).lemma_filter_push(trimmed(p), keep);
    trimming_takes_white_space_alone(p);
}

/// What counts of two lists is what counts of the first and then what counts of
/// the second.
pub proof fn lists_follow_one_another(a: Seq<Seq<char>>, b: Seq<Seq<char>>)
    ensures
        listed(a + b) == listed(a) + listed(b),
    decreases b.len(),
{
    if b.len() == 0 {
        assert(a + b =~= a);
        listing_keeps_what_is_not_blank(b, Seq::empty());
        assert(b =~= Seq::<Seq<char>>::empty());
        assert(listed(a) + listed(b) =~= listed(a));
    } else {
        let init = b.drop_last();
        lists_follow_one_another(a, init);
        listing_keeps_what_is_not_blank(a + init, b.last());
        listing_keeps_what_is_not_blank(init, b.last());
        assert(a + b =~= (a + init).push(b.last()));
        assert(b =~= init.push(b.last()));
        assert((listed(a) + listed(init)).push(trimmed(b.last())) =~= listed(
            a,
        ) + listed(init).push(trimmed(b.last())));
    }
}

/// Beyond ASCII, the next-line character, the no-break space, the Ogham space,
/// the spaces from en quad to hair space, the line and paragraph separators, the
/// narrow no-break space, the mathematical space and the ideographic space are
/// white, and no other.
pub proof fn wider_white_space(c: char)
    requires
        c as u32 > 0x7f,
    ensures
        white(c) <==> c == '\u{85}' || c == '\u{a0}' || c == '\u{1680}' || '\u{2000}' <= c
            <= '\u{200a}' || c == '\u{2028}' || c == '\u{2029}' || c == '\u{202f}' || c
            == '\u{205f}' || c == '\u{3000}',
{
}

} // verus!
