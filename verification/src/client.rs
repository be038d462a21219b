//! The terminal client onto a remote agent.
//!
//! The host runs the agent; this side sends prompts, shows what comes back, and
//! answers permission requests.

use vstd::prelude::*;
use vstd::string::StringExecFns;

use crate::digits;
use crate::text;

verus! {

/// The working directory that a client names where the protocol wants one. The
/// host imposes its own, and learns nothing of the client's.
pub const PLACEHOLDER_CWD: &'static str = "/";

// ---------------------------------------------------------------------------
// Prompts

/// What a line that the user typed asks for.
#[derive(Debug, Clone, PartialEq, Eq)]
pub enum PromptStep {
    /// The session ends.
    End,
    /// Nothing: the line is blank.
    Skip,
    /// This prompt is sent.
    Send(String),
}

/// What a line asks for, as mathematical values.
pub enum PromptView {
    End,
    Skip,
    Send(Seq<char>),
}

impl View for PromptStep {
    type V = PromptView;

    open spec fn view(&self) -> PromptView {
        match self {
            PromptStep::End => PromptView::End,
            PromptStep::Skip => PromptView::Skip,
            PromptStep::Send(p) => PromptView::Send(p@),
        }
    }
}

/// What the next line asks for.
pub open spec fn asked_for(line: Option<Seq<char>>) -> PromptView {
    match line {
        None => PromptView::End,
        Some(l) => {
            let t = text::trimmed(l);
            if t.len() == 0 {
                PromptView::Skip
            } else if t == "/quit"@ || t == "/exit"@ {
                PromptView::End
            } else {
                PromptView::Send(t)
            }
        },
    }
}

/// What the next line asks for; `None` is the end of the input. Blank lines are
/// skipped, and `/quit` and `/exit` end the session.
pub fn next_prompt(line: Option<&str>) -> (r: PromptStep)
    ensures
        r@ == asked_for(
            match line {
                Some(l) => Some(l@),
                None => None,
            },
        ),
        match line {
            None => r is End,
            Some(l) => {
                let t = text::trimmed(l@);
                if t.len() == 0 {
                    r is Skip
                } else if t == "/quit"@ || t == "/exit"@ {
                    r is End
                } else {
                    r matches PromptStep::Send(p) && p@ == t
                }
            },
        },
{
    match line {
        None => PromptStep::End,
        Some(l) => {
            let t = text::trim(l);
            if t.is_empty() {
                PromptStep::Skip
            } else if text::same(t, "/quit") || text::same(t, "/exit") {
                PromptStep::End
            } else {
                PromptStep::Send(t.to_owned())
            }
        },
    }
}

// ---------------------------------------------------------------------------
// Permissions

/// The number that a sequence of decimal digits stands for.
pub open spec fn digits_value(s: Seq<char>) -> nat
    decreases s.len(),
{
    if s.len() == 0 {
        0
    } else {
        10 * digits_value(s.drop_last()) + (s.last() as u32 - '0' as u32) as nat
    }
}

/// Whether a text is a sequence of decimal digits, and not empty.
pub open spec fn is_number(s: Seq<char>) -> bool {
    s.len() > 0 && forall|i: int| 0 <= i < s.len() ==> '0' <= #[trigger] s[i] <= '9'
}

/// The number that a text stands for: decimal digits, with an optional `+` in
/// front, if it fits.
pub open spec fn number(s: Seq<char>) -> Option<nat> {
    let d = if s.len() > 1 && s[0] == '+' {
        s.skip(1)
    } else {
        s
    };
    if is_number(d) && digits_value(d) <= usize::MAX {
        Some(digits_value(d))
    } else {
        None
    }
}

proof fn lemma_digits_value_grows(s: Seq<char>, n: int)
    requires
        0 <= n <= s.len(),
    ensures
        digits_value(s.take(n)) <= digits_value(s),
    decreases s.len() - n,
{
    if n == s.len() {
        assert(s.take(n) =~= s);
    } else {
        lemma_digits_value_grows(s, n + 1);
        assert(s.take(n + 1).drop_last() =~= s.take(n));
    }
}

/// Reads a number.
pub fn parse_number(s: &str) -> (r: Option<usize>)
    ensures
        match r {
            Some(n) => number(s@) == Some(n as nat),
            None => number(s@) is None,
        },
{
    let cs = text::chars_of(s);
    let start: usize = if cs.len() > 1 && cs[0] == '+' {
        1
    } else {
        0
    };
    let ghost d = cs@.skip(start as int);
    assert(cs@.skip(0) =~= cs@);
    if cs.len() == 0 {
        return None;
    }
    let mut value: usize = 0;
    let mut i: usize = start;
    assert(d.take(0) =~= Seq::<char>::empty());
    while i < cs.len()
        invariant
            start <= i <= cs@.len(),
            start <= 1,
            cs@.len() > start,
            cs@ == s@,
            d == cs@.skip(start as int),
            d == (if s@.len() > 1 && s@[0] == '+' {
                s@.skip(1)
            } else {
                s@
            }),
            forall|j: int| 0 <= j < i - start ==> '0' <= #[trigger] d[j] <= '9',
            value == digits_value(d.take(i - start)),
        decreases cs@.len() - i,
    {
        let c = cs[i];
        let ghost k = i - start;
        assert(d[k] == c);
        if !('0' <= c && c <= '9') {
            return None;
        }
        assert(d.take(k + 1).drop_last() =~= d.take(k));
        assert(d.take(k + 1).last() == c);
        let digit: usize = (c as u32 - 48) as usize;
        proof {
            lemma_digits_value_grows(d, k + 1);
        }
        if value > (usize::MAX - digit) / 10 {
            assert(10 * value + digit > usize::MAX);
            return None;
        }
        value = 10 * value + digit;
        i = i + 1;
    }
    assert(d.take(d.len() as int) =~= d);
    Some(value)
}

/// Which of `count` options an answer picks: counted from one, the first where
/// the answer is missing or no number, the last where it is too large. Without
/// options nothing is picked.
pub open spec fn picked(answer: Option<Seq<char>>, count: nat) -> Option<int> {
    let choice = match answer {
        Some(a) => match number(text::trimmed(a)) {
            Some(n) => n,
            None => 1,
        },
        None => 1,
    };
    if count == 0 {
        None
    } else if choice == 0 {
        Some(0)
    } else if choice > count {
        Some(count - 1)
    } else {
        Some(choice - 1)
    }
}

/// Which of `count` options an answer picks.
pub fn pick_option(answer: Option<&str>, count: usize) -> (r: Option<usize>)
    ensures
        match r {
            Some(i) => picked(
                match answer {
                    Some(a) => Some(a@),
                    None => None,
                },
                count as nat,
            ) == Some(i as int) && i < count,
            None => count == 0,
        },
{
    let choice: usize = match answer {
        Some(a) => match parse_number(text::trim(a)) {
            Some(n) => n,
            None => 1,
        },
        None => 1,
    };
    if count == 0 {
        return None;
    }
    let index: usize = if choice == 0 {
        0
    } else {
        choice - 1
    };
    if index > count - 1 {
        Some(count - 1)
    } else {
        Some(index)
    }
}

/// The line that offers an option: its number, counted from one, and its name.
pub open spec fn offer(index: int, name: Seq<char>) -> Seq<char> {
    "   "@ + digits::decimal((index + 1) as nat) + ") "@ + name
}

/// The line that offers an option: its number and its name.
pub fn option_line(index: usize, name: &str) -> (r: String)
    requires
        index < usize::MAX,
    ensures
        r@ == offer(index as int, name@),
        r@ == "   "@ + digits::decimal((index + 1) as nat) + ") "@ + name@,
{
    let number = digits::decimal_of((index + 1) as u64);
    let mut line = text::concat3("   ", number.as_str(), ") ");
    line.append(name);
    line
}

// ---------------------------------------------------------------------------
// Updates

/// What an agent reports while it works. Content that is not text is `None`.
#[derive(Debug, Clone, PartialEq, Eq)]
pub enum Update {
    Message(Option<String>),
    Thought(Option<String>),
    ToolCall { title: String },
    ToolStatus { status: Option<String> },
    Other,
}

/// What is shown of an update.
#[derive(Debug, Clone, PartialEq, Eq)]
pub enum Shown {
    /// On the standard output, as it is.
    Output(String),
    /// Beside the output, as it is.
    Aside(String),
    /// Beside the output, as a line.
    Line(String),
    Nothing,
}

/// What is shown of an update, as mathematical values.
pub enum ShownView {
    Output(Seq<char>),
    Aside(Seq<char>),
    Line(Seq<char>),
    Nothing,
}

impl View for Shown {
    type V = ShownView;

    open spec fn view(&self) -> ShownView {
        match self {
            Shown::Output(s) => ShownView::Output(s@),
            Shown::Aside(s) => ShownView::Aside(s@),
            Shown::Line(s) => ShownView::Line(s@),
            Shown::Nothing => ShownView::Nothing,
        }
    }
}

/// What is shown of an update.
pub open spec fn rendered(update: Update) -> ShownView {
    match update {
        Update::Message(Some(t)) => ShownView::Output(t@),
        Update::Thought(Some(t)) => ShownView::Aside("\x1b[2m"@ + t@ + "\x1b[0m"@),
        Update::ToolCall { title } => ShownView::Line("\n🔧 "@ + title@),
        Update::ToolStatus { status: Some(t) } => ShownView::Line("   ["@ + t@ + "]"@),
        _ => ShownView::Nothing,
    }
}

/// What is shown of an update: messages as they come, thoughts dimmed, tools by
/// title and status.
pub fn render_update(update: &Update) -> (r: Shown)
    ensures
        r@ == rendered(*update),
        match *update {
            Update::Message(Some(t)) => r matches Shown::Output(s) && s@ == t@,
            Update::Thought(Some(t)) => r matches Shown::Aside(s) && s@ == "\x1b[2m"@ + t@
                + "\x1b[0m"@,
            Update::ToolCall { title } => r matches Shown::Line(s) && s@ == "\n🔧 "@ + title@,
            Update::ToolStatus { status: Some(t) } => r matches Shown::Line(s) && s@ == "   ["@ + t@
                + "]"@,
            _ => r is Nothing,
        },
{
    match update {
        Update::Message(Some(t)) => Shown::Output(t.clone()),
        Update::Thought(Some(t)) => Shown::Aside(
            text::concat3("\x1b[2m", t.as_str(), "\x1b[0m"),
        ),
        Update::ToolCall { title } => Shown::Line(text::concat("\n🔧 ", title.as_str())),
        Update::ToolStatus { status: Some(t) } => Shown::Line(
            text::concat3("   [", t.as_str(), "]"),
        ),
        _ => Shown::Nothing,
    }
}

/// The text of a message, and none of any other update.
pub open spec fn message_text(update: Update) -> Seq<char> {
    match update {
        Update::Message(Some(t)) => t@,
        _ => Seq::empty(),
    }
}

/// The messages of a list of updates, one after the other.
pub open spec fn reply_text(updates: Seq<Update>) -> Seq<char>
    decreases updates.len(),
{
    if updates.len() == 0 {
        Seq::empty()
    } else {
        reply_text(updates.drop_last()) + message_text(updates.last())
    }
}

/// Adds what an update contributes to the reply of a delegated task: the text
/// of messages, and nothing else.
pub fn collect(reply: &mut String, update: &Update)
    ensures
        final(reply)@ == old(reply)@ + message_text(*update),
        match *update {
            Update::Message(Some(t)) => final(reply)@ == old(reply)@ + t@,
            _ => final(reply)@ == old(reply)@,
        },
{
    match update {
        Update::Message(Some(t)) => {
            reply.append(t.as_str());
        },
        _ => {
            assert(reply@ + Seq::<char>::empty() =~= reply@);
        },
    }
}

/// The reply of a delegated task is the text of its messages in order: each
/// update adds its part at the end.
pub proof fn replies_grow_by_messages(updates: Seq<Update>, update: Update)
    ensures
        reply_text(updates.push(update)) == reply_text(updates) + message_text(update),
{
    assert(updates.push(update).drop_last() =~= updates);
}

/// A message chunk adds exactly its text to the reply, every character of it and
/// white space included; any other update adds nothing.
pub proof fn message_chunks_are_kept_whole(updates: Seq<Update>, chunk: String, other: Update)
    requires
        !(other matches Update::Message(Some(_))),
    ensures
        reply_text(Seq::empty()) == Seq::<char>::empty(),
        reply_text(updates.push(Update::Message(Some(chunk)))) == reply_text(updates) + chunk@,
        reply_text(updates.push(Update::Message(Some(chunk)))).len() == reply_text(updates).len()
            + chunk@.len(),
        reply_text(updates.push(other)) == reply_text(updates),
{
    replies_grow_by_messages(updates, Update::Message(Some(chunk)));
    replies_grow_by_messages(updates, other);
    assert(reply_text(updates) + Seq::<char>::empty() =~= reply_text(updates));
}

/// The reply of two runs of updates is that of the first and then that of the
/// second: it does not matter how the updates come in.
pub proof fn replies_follow_one_another(a: Seq<Update>, b: Seq<Update>)
    ensures
        reply_text(a + b) == reply_text(a) + reply_text(b),
    decreases b.len(),
{
    if b.len() == 0 {
        assert(a + b =~= a);
        assert(reply_text(a) + reply_text(b) =~= reply_text(a));
    } else {
        replies_follow_one_another(a, b.drop_last());
        assert((a + b).drop_last() =~= a + b.drop_last());
        assert(reply_text(a + b) =~= reply_text(a) + reply_text(b));
    }
}

/// Each digit of a number counts ten times what it would count one place to the
/// right, so that a number written in decimal reads back as itself.
pub proof fn decimal_numbers_read_back(n: nat)
    ensures
        is_number(digits::decimal(n)),
        digits_value(digits::decimal(n)) == n,
        n <= usize::MAX ==> number(digits::decimal(n)) == Some(n),
        n > usize::MAX ==> number(digits::decimal(n)) is None,
        n <= usize::MAX ==> number(seq!['+'] + digits::decimal(n)) == Some(n),
    decreases n,
{
    let s = digits::decimal(n);
    reveal_with_fuel(digits_value, 2);
    assert(digits::digit((n % 10) as int) as u32 - '0' as u32 == n % 10);
    if n < 10 {
        assert(s.drop_last() =~= Seq::<char>::empty());
        assert(s.last() == digits::digit(n as int));
    } else {
        decimal_numbers_read_back(n / 10);
        assert(s.drop_last() =~= digits::decimal(n / 10));
        assert(s.last() == digits::digit((n % 10) as int));
        assert forall|i: int| 0 <= i < s.len() implies '0' <= #[trigger] s[i] <= '9' by {
            if i < s.len() - 1 {
                assert(digits::decimal(n / 10)[i] == s[i]);
            }
        }
    }
    assert('0' <= s[0] <= '9');
    assert((seq!['+'] + s).skip(1) =~= s);
}

/// A text with a character that is no digit is no number, but for a `+` in front.
pub proof fn numbers_are_made_of_digits(s: Seq<char>, i: int)
    requires
        0 <= i < s.len(),
        !('0' <= s[i] <= '9'),
        i > 0 || s[i] != '+' || s.len() == 1,
    ensures
        number(s) is None,
{
    if s.len() > 1 && s[0] == '+' {
        assert(s.skip(1)[i - 1] == s[i]);
    }
}

/// An answer picks the option under whose number it is offered, white space
/// around it or not. A number beyond the options picks the last, and zero and
/// what is no number pick the first.
pub proof fn answers_pick_the_offered_option(
    n: nat,
    count: nat,
    front: Seq<char>,
    back: Seq<char>,
    answer: Seq<char>,
)
    requires
        count > 0,
        count <= usize::MAX,
        n <= usize::MAX,
        forall|i: int| 0 <= i < front.len() ==> text::white(#[trigger] front[i]),
        forall|i: int| 0 <= i < back.len() ==> text::white(#[trigger] back[i]),
    ensures
        1 <= n <= count ==> picked(Some(front + digits::decimal(n) + back), count) == Some(n - 1),
        n > count ==> picked(Some(front + digits::decimal(n) + back), count) == Some(count - 1),
        n == 0 ==> picked(Some(front + digits::decimal(n) + back), count) == Some(0int),
        number(text::trimmed(answer)) is None ==> picked(Some(answer), count) == Some(0int),
        picked(None, count) == Some(0int),
        picked(Some(answer), 0) is None,
{
    let s = digits::decimal(n);
    decimal_numbers_read_back(n);
    text::trimmed_ignores_white_around(front, s, back);
    assert('0' <= s[0] <= '9');
    assert('0' <= s[s.len() - 1] <= '9');
    text::trimmed_is_stable(s);
}

/// A line is sent without the white space around it and is otherwise sent as it
/// was typed; a line that is all white is skipped; the end of the input, `/quit`
/// and `/exit` end the session, white space around them or not.
pub proof fn lines_are_sent_as_typed(front: Seq<char>, prompt: Seq<char>, back: Seq<char>)
    requires
        forall|i: int| 0 <= i < front.len() ==> text::white(#[trigger] front[i]),
        forall|i: int| 0 <= i < back.len() ==> text::white(#[trigger] back[i]),
        prompt.len() > 0 ==> !text::white(prompt[0]) && !text::white(prompt.last()),
    ensures
        prompt.len() > 0 && prompt != "/quit"@ && prompt != "/exit"@ ==> asked_for(
            Some(front + prompt + back),
        ) == PromptView::Send(prompt),
        prompt.len() == 0 ==> asked_for(Some(front + prompt + back)) == PromptView::Skip,
        prompt == "/quit"@ || prompt == "/exit"@ ==> asked_for(Some(front + prompt + back))
            == PromptView::End,
        asked_for(None) == PromptView::End,
{
    reveal_strlit("/quit");
    reveal_strlit("/exit");
    text::trimmed_ignores_white_around(front, prompt, back);
    text::trimmed_is_stable(prompt);
}

/// What is shown of each update: messages go to the output, with every character
/// of them, and nothing else does; what is shown of a thought, of a tool call
/// and of a status holds its text whole; and updates without a text show
/// nothing.
pub proof fn updates_are_shown_whole(update: Update)
    ensures
        rendered(update) matches ShownView::Output(s) ==> s == message_text(update),
        message_text(update).len() > 0 ==> rendered(update) == ShownView::Output(
            message_text(update),
        ),
        rendered(update) is Output <==> update is Message && update->Message_0 is Some,
        rendered(update) is Aside <==> update is Thought && update->Thought_0 is Some,
        update matches Update::Thought(Some(t)) ==> rendered(update)->Aside_0.subrange(
            4,
            4int + t@.len(),
        ) == t@,
        update matches Update::ToolCall { title } ==> rendered(update) is Line
            && rendered(update)->Line_0.len() == 3 + title@.len() && rendered(
            update,
        )->Line_0.skip(3) == title@,
        update matches Update::ToolStatus { status: Some(t) } ==> rendered(update) is Line
            && rendered(update)->Line_0.len() == 5 + t@.len() && rendered(update)->Line_0.subrange(
            4,
            4int + t@.len(),
        ) == t@,
        update is Other ==> rendered(update) is Nothing,
{
    reveal_strlit("\x1b[2m");
    reveal_strlit("\x1b[0m");
    reveal_strlit("\n🔧 ");
    reveal_strlit("   [");
    reveal_strlit("]");
    match update {
        Update::Thought(Some(t)) => {
            assert(rendered(update)->Aside_0.subrange(4, 4int + t@.len()) =~= t@);
        },
        Update::ToolCall { title } => {
            assert(rendered(update)->Line_0.skip(3) =~= title@);
        },
        Update::ToolStatus { status: Some(t) } => {
            assert(rendered(update)->Line_0.subrange(4, 4int + t@.len()) =~= t@);
        },
        _ => {},
    }
}

/// An option is offered under the number that picks it, and its name ends the
/// line.
pub proof fn options_are_offered_under_their_numbers(index: nat, count: nat, name: Seq<char>)
    requires
        index < count <= usize::MAX,
    ensures
        ({
            let number = digits::decimal(index + 1);
            let line = offer(index as int, name);
            &&& line.len() == 5 + number.len() + name.len()
            &&& line.subrange(3, 3int + number.len()) == number
            &&& line.skip(5int + number.len()) == name
            &&& picked(Some(number), count) == Some(index as int)
        }),
{
    reveal_strlit("   ");
    reveal_strlit(") ");
    let number = digits::decimal(index + 1);
    let line = offer(index as int, name);
    assert(line.subrange(3, 3int + number.len()) =~= number);
    assert(line.skip(5int + number.len()) =~= name);
    answers_pick_the_offered_option(
        index + 1,
        count,
        Seq::empty(),
        Seq::empty(),
        Seq::empty(),
    );
    assert(Seq::<char>::empty() + number + Seq::<char>::empty() =~= number);
}

} // verus!
