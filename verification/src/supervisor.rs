//! Keeping the connection to a federated peer up.

use vstd::prelude::*;

verus! {

// ---------------------------------------------------------------------------
// Reconnecting

/// The shortest wait between two attempts, in seconds.
pub const RECONNECT_MIN: u64 = 2;

/// The longest wait between two attempts, in seconds.
pub const RECONNECT_MAX: u64 = 60;

/// How long to wait before the next attempt, after the connection ended with
/// the wait standing at `backoff`: a clean end starts over.
pub open spec fn wait_after(backoff: u64, clean: bool) -> u64 {
    if clean {
        RECONNECT_MIN
    } else {
        backoff
    }
}

/// Where the wait stands afterwards: doubled, up to the longest.
pub open spec fn doubled(wait: u64) -> u64 {
    if 2 * wait <= RECONNECT_MAX {
        (2 * wait) as u64
    } else {
        RECONNECT_MAX
    }
}

/// How long to wait after a connection ended, and where the wait stands
/// afterwards.
pub fn reconnect(backoff: u64, clean: bool) -> (r: (u64, u64))
    requires
        backoff <= RECONNECT_MAX,
    ensures
        r.0 == wait_after(backoff, clean),
        r.1 == doubled(wait_after(backoff, clean)),
{
    let wait: u64 = if clean {
        RECONNECT_MIN
    } else {
        backoff
    };
    let twice: u64 = wait * 2;
    let next: u64 = if twice <= RECONNECT_MAX {
        twice
    } else {
        RECONNECT_MAX
    };
    (wait, next)
}

/// A peer that is down is tried again and again without spinning: every wait
/// lies between the shortest and the longest, and the waits do not shrink while
/// attempts fail.
pub proof fn waits_stay_in_bounds(backoff: u64, clean: bool)
    requires
        RECONNECT_MIN <= backoff <= RECONNECT_MAX,
    ensures
        RECONNECT_MIN <= wait_after(backoff, clean) <= RECONNECT_MAX,
        RECONNECT_MIN <= doubled(wait_after(backoff, clean)) <= RECONNECT_MAX,
        !clean ==> doubled(wait_after(backoff, clean)) >= backoff,
{
}

/// The connection to one peer: whether it is up, and where the wait stands.
#[derive(Debug, Clone, Copy)]
pub struct Link {
    pub online: bool,
    pub backoff: u64,
}

impl Link {
    /// The wait stands between the shortest and the longest.
    pub open spec fn wf(&self) -> bool {
        RECONNECT_MIN <= self.backoff <= RECONNECT_MAX
    }

    /// A peer that was not reached yet.
    pub fn new() -> (r: Link)
        ensures
            r == (Link { online: false, backoff: RECONNECT_MIN }),
            r.wf(),
    {
        Link { online: false, backoff: RECONNECT_MIN }
    }

    /// The peer answered the initialisation. Calls go through from now on.
    pub fn connected(&mut self)
        requires
            old(self).wf(),
        ensures
            *final(self) == (Link { online: true, ..*old(self) }),
            *final(self) == up(*old(self)),
            final(self).wf(),
    {
        self.online = true;
    }

    /// The connection ended. The peer is offline, and the next attempt comes
    /// after as many seconds as are returned.
    pub fn ended(&mut self, clean: bool) -> (r: u64)
        requires
            old(self).wf(),
        ensures
            r == wait_after(old(self).backoff, clean),
            *final(self) == (Link {
                online: false,
                backoff: doubled(wait_after(old(self).backoff, clean)),
            }),
            *final(self) == down(*old(self), clean),
            final(self).wf(),
    {
        let (wait, next) = reconnect(self.backoff, clean);
        self.online = false;
        self.backoff = next;
        wait
    }
}

/// Where the wait stands after the connection failed `n` times in a row.
pub open spec fn backed_off(n: nat) -> u64
    decreases n,
{
    if n == 0 {
        RECONNECT_MIN
    } else {
        doubled(wait_after(backed_off((n - 1) as nat), false))
    }
}

/// From the fifth failure in a row on, the longest wait is kept.
pub proof fn waits_reach_the_longest(n: nat)
    requires
        n >= 5,
    ensures
        backed_off(n) == RECONNECT_MAX,
    decreases n,
{
    if n == 5 {
        reveal_with_fuel(backed_off, 6);
    } else {
        waits_reach_the_longest((n - 1) as nat);
    }
}

// ---------------------------------------------------------------------------
// Diagnostic output

/// The longest line that is kept together.
pub const MAX_LINE_LEN: usize = 4096;

/// Lines that were completed, and the line that was begun.
pub struct LinesView {
    pub lines: Seq<Seq<u8>>,
    pub begun: Seq<u8>,
}

/// What one more byte does: a newline ends the line, and a line that is full
/// is ended before the byte is added. Empty lines are not counted.
pub open spec fn fed_byte(state: LinesView, b: u8) -> LinesView {
    if b == 10 || state.begun.len() >= MAX_LINE_LEN {
        LinesView {
            lines: if state.begun.len() > 0 {
                state.lines.push(state.begun)
            } else {
                state.lines
            },
            begun: if b != 10 {
                seq![b]
            } else {
                Seq::empty()
            },
        }
    } else {
        LinesView { lines: state.lines, begun: state.begun.push(b) }
    }
}

/// What more bytes do, one after the other.
pub open spec fn fed(state: LinesView, bytes: Seq<u8>) -> LinesView
    decreases bytes.len(),
{
    if bytes.len() == 0 {
        state
    } else {
        fed_byte(fed(state, bytes.drop_last()), bytes.last())
    }
}

/// The contents of a list of lines.
pub open spec fn line_views(lines: Seq<Vec<u8>>) -> Seq<Seq<u8>> {
    lines.map_values(|l: Vec<u8>| l@)
}

/// Splits a stream of bytes into lines of bounded length.
#[derive(Debug)]
pub struct LineSplitter {
    line: Vec<u8>,
}

impl LineSplitter {
    /// The line that was begun.
    pub closed spec fn begun(&self) -> Seq<u8> {
        self.line@
    }

    /// A splitter at the start of a line.
    pub fn new() -> (r: LineSplitter)
        ensures
            r.begun() == Seq::<u8>::empty(),
    {
        LineSplitter { line: Vec::new() }
    }

    /// Takes more bytes, and gives the lines that they complete.
    pub fn feed(&mut self, chunk: &[u8]) -> (r: Vec<Vec<u8>>)
        ensures
            fed(LinesView { lines: Seq::empty(), begun: old(self).begun() }, chunk@) == (LinesView {
                lines: line_views(r@),
                begun: final(self).begun(),
            }),
    {
        let ghost start = LinesView { lines: Seq::empty(), begun: self.line@ };
        let mut out: Vec<Vec<u8>> = Vec::new();
        let mut i: usize = 0;
        assert(chunk@.take(0) =~= Seq::<u8>::empty());
        assert(line_views(out@) =~= Seq::<Seq<u8>>::empty());
        while i < chunk.len()
            invariant
                i <= chunk@.len(),
                fed(start, chunk@.take(i as int)) == (LinesView {
                    lines: line_views(out@),
                    begun: self.line@,
                }),
            decreases chunk@.len() - i,
        {
            let b: u8 = chunk[i];
            let ghost before = out@;
            assert(chunk@.take(i + 1).drop_last() =~= chunk@.take(i as int));
            assert(chunk@.take(i + 1).last() == b);
            if b == 10 || self.line.len() >= MAX_LINE_LEN {
                let mut done: Vec<u8> = Vec::new();
                std::mem::swap(&mut done, &mut self.line);
                if done.len() > 0 {
                    let ghost ended = done@;
                    out.push(done);
                    assert(line_views(out@) =~= line_views(before).push(ended));
                }
                if b != 10 {
                    self.line.push(b);
                }
                assert(b != 10 ==> self.line@ =~= seq![b]);
                assert(b == 10 ==> self.line@ =~= Seq::<u8>::empty());
            } else {
                self.line.push(b);
            }
            i = i + 1;
        }
        assert(chunk@.take(chunk@.len() as int) =~= chunk@);
        out
    }

    /// The last line, at the end of the stream, if there is one.
    pub fn finish(self) -> (r: Option<Vec<u8>>)
        ensures
            match r {
                Some(line) => line@ == self.begun() && line@.len() > 0,
                None => self.begun().len() == 0,
            },
    {
        if self.line.len() > 0 {
            Some(self.line)
        } else {
            None
        }
    }
}

/// The bytes of a list of lines, one after the other.
pub open spec fn joined(lines: Seq<Seq<u8>>) -> Seq<u8>
    decreases lines.len(),
{
    if lines.len() == 0 {
        Seq::empty()
    } else {
        joined(lines.drop_last()) + lines.last()
    }
}

/// Bytes without the newlines among them.
pub open spec fn without_newlines(bytes: Seq<u8>) -> Seq<u8> {
    bytes.filter(|b: u8| b != 10)
}

/// However long a line is, what is kept of it is bounded; no line that is given
/// out is empty or holds a newline.
pub proof fn lines_are_bounded(bytes: Seq<u8>)
    ensures
        fed(LinesView { lines: Seq::empty(), begun: Seq::empty() }, bytes).begun.len()
            <= MAX_LINE_LEN,
        forall|i: int|
            0 <= i < fed(
                LinesView { lines: Seq::empty(), begun: Seq::empty() },
                bytes,
            ).lines.len() ==> 0 < (#[trigger] fed(
                LinesView { lines: Seq::empty(), begun: Seq::empty() },
                bytes,
            ).lines[i]).len() <= MAX_LINE_LEN && !fed(
                LinesView { lines: Seq::empty(), begun: Seq::empty() },
                bytes,
            ).lines[i].contains(10u8),
{
    lemma_bounded(bytes);
}

proof fn lemma_bounded(bytes: Seq<u8>)
    ensures
        ({
            let s = fed(LinesView { lines: Seq::empty(), begun: Seq::empty() }, bytes);
            &&& s.begun.len() <= MAX_LINE_LEN
            &&& !s.begun.contains(10u8)
            &&& forall|i: int|
                0 <= i < s.lines.len() ==> 0 < (#[trigger] s.lines[i]).len() <= MAX_LINE_LEN
                    && !s.lines[i].contains(10u8)
        }),
    decreases bytes.len(),
{
    if bytes.len() > 0 {
        lemma_bounded(bytes.drop_last());
        let start = LinesView { lines: Seq::empty(), begun: Seq::empty() };
        let s = fed(start, bytes.drop_last());
        let b = bytes.last();
        let t = fed_byte(s, b);
        assert forall|k: int| 0 <= k < t.begun.len() implies t.begun[k] != 10 by {
            if k < s.begun.len() && b != 10 && s.begun.len() < MAX_LINE_LEN {
                assert(t.begun[k] == s.begun[k]);
                assert(s.begun.contains(s.begun[k]));
            }
        }
    }
}

/// Splitting loses nothing but newlines: the lines, with the one that was
/// begun, hold the bytes of the stream in order.
pub proof fn splitting_keeps_the_bytes(bytes: Seq<u8>)
    ensures
        joined(fed(LinesView { lines: Seq::empty(), begun: Seq::empty() }, bytes).lines) + fed(
            LinesView { lines: Seq::empty(), begun: Seq::empty() },
            bytes,
        ).begun == without_newlines(bytes),
    decreases bytes.len(),
{
    reveal(Seq::filter);
    let start = LinesView { lines: Seq::empty(), begun: Seq::empty() };
    if bytes.len() == 0 {
        assert(joined(Seq::<Seq<u8>>::empty()) + Seq::<u8>::empty() =~= Seq::<u8>::empty());
    } else {
        let init = bytes.drop_last();
        splitting_keeps_the_bytes(init);
        let s = fed(start, init);
        let b = bytes.last();
        let t = fed_byte(s, b);
        if b == 10 || s.begun.len() >= MAX_LINE_LEN {
            if s.begun.len() > 0 {
                assert(t.lines.drop_last() =~= s.lines);
                assert(t.lines.last() == s.begun);
            } else {
                assert(joined(s.lines) + s.begun =~= joined(s.lines));
            }
            assert(joined(t.lines) =~= joined(s.lines) + s.begun);
            if b != 10 {
                assert(joined(t.lines) + t.begun =~= (joined(s.lines) + s.begun).push(b));
            } else {
                assert(joined(t.lines) + t.begun =~= joined(s.lines) + s.begun);
            }
        } else {
            assert(joined(t.lines) + t.begun =~= (joined(s.lines) + s.begun).push(b));
        }
    }
}

// ---------------------------------------------------------------------------
// What holds of waiting and of lines

/// The first wait is two seconds. Each failure in a row doubles the next one
/// until that would exceed a minute, and a minute it stays; a clean end starts
/// over.
pub proof fn waits_double_up_to_a_minute(n: nat, backoff: u64)
    ensures
        backed_off(0) == 2,
        backed_off(n) <= 30 ==> backed_off(n + 1) == 2 * backed_off(n),
        backed_off(n) > 30 ==> backed_off(n + 1) == 60,
        wait_after(backoff, true) == 2,
        doubled(wait_after(backoff, true)) == 4,
        wait_after(backoff, false) == backoff,
{
}

/// How the bytes come in makes no difference: two chunks give what both in one
/// would.
pub proof fn chunks_make_no_difference(state: LinesView, a: Seq<u8>, b: Seq<u8>)
    ensures
        fed(fed(state, a), b) == fed(state, a + b),
    decreases b.len(),
{
    if b.len() == 0 {
        assert(a + b =~= a);
    } else {
        chunks_make_no_difference(state, a, b.drop_last());
        assert((a + b).drop_last() =~= a + b.drop_last());
    }
}

/// Bytes without a newline, while they fit, lengthen the line that was begun and
/// end none.
pub proof fn short_lines_stay_together(state: LinesView, bytes: Seq<u8>)
    requires
        !bytes.contains(10u8),
        state.begun.len() + bytes.len() <= 4096,
    ensures
        fed(state, bytes).lines == state.lines,
        fed(state, bytes).begun == state.begun + bytes,
    decreases bytes.len(),
{
    if bytes.len() == 0 {
        assert(state.begun + bytes =~= state.begun);
    } else {
        let init = bytes.drop_last();
        assert(bytes.contains(bytes.last()));
        assert forall|k: int| 0 <= k < init.len() implies init[k] != 10 by {
            assert(bytes.contains(bytes[k]));
        }
        short_lines_stay_together(state, init);
        assert(state.begun + bytes =~= (state.begun + init).push(bytes.last()));
    }
}

/// A line of up to 4096 bytes is given out whole once its newline comes, and an
/// empty one is not given out; a longer one is given out in stretches of 4096.
pub proof fn lines_are_given_out_whole(line: Seq<u8>, more: u8)
    requires
        !line.contains(10u8),
        line.len() <= 4096,
        more != 10,
    ensures
        ({
            let start = LinesView { lines: Seq::empty(), begun: Seq::empty() };
            let done = fed(start, line.push(10));
            &&& done.begun.len() == 0
            &&& line.len() > 0 ==> done.lines == seq![line]
            &&& line.len() == 0 ==> done.lines.len() == 0
            &&& line.len() == 4096 ==> fed(start, line.push(more)).lines == seq![line]
            &&& line.len() == 4096 ==> fed(start, line.push(more)).begun == seq![more]
        }),
{
    let start = LinesView { lines: Seq::empty(), begun: Seq::empty() };
    short_lines_stay_together(start, line);
    assert(start.begun + line =~= line);
    assert(line.push(10).drop_last() =~= line);
    assert(line.push(more).drop_last() =~= line);
    assert(Seq::<Seq<u8>>::empty().push(line) =~= seq![line]);
}

/// The link after the peer answered.
pub open spec fn up(link: Link) -> Link {
    Link { online: true, ..link }
}

/// The link after the connection ended.
pub open spec fn down(link: Link, clean: bool) -> Link {
    Link { online: false, backoff: doubled(wait_after(link.backoff, clean)) }
}

/// A peer is online from when it answered until its connection ended, however it
/// ended and whatever came before; and answering does not change how long to
/// wait next.
pub proof fn links_are_online_while_connected(link: Link, clean: bool)
    ensures
        up(link).online,
        up(link).backoff == link.backoff,
        !down(link, clean).online,
        !down(up(link), clean).online,
        link.wf() ==> up(link).wf() && down(link, clean).wf(),
{
}

} // verus!
