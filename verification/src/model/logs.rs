//! A container's output: cut into lines, cleaned of terminal control, kept up
//! to a limit, and coloured where it is JSON.

use std::collections::VecDeque;

use vstd::prelude::*;

use crate::engine::{LogChunk, LogStream};
use crate::text;
use crate::text::{chars_of, is_whitespace, trim};

verus! {

/// How many lines a log view keeps.
pub const MAX_RETAINED_LINES: usize = 5000;

/// One line of output.
#[derive(Debug, Clone, PartialEq, Eq)]
pub struct LogLine {
    pub stream: LogStream,
    pub text: String,
}

/// The value of a [`LogLine`].
#[verifier::ext_equal]
pub struct LineView {
    pub stream: LogStream,
    pub text: Seq<char>,
}

impl DeepView for LogLine {
    type V = LineView;

    open spec fn deep_view(&self) -> LineView {
        LineView { stream: self.stream, text: self.text@ }
    }
}

/// What a chunk added to a transcript, and how many lines fell off its front.
#[derive(Debug, Clone, PartialEq, Eq, Default)]
pub struct Appended {
    pub lines: Vec<LogLine>,
    pub dropped: usize,
}

// -------------------------------------------------------------------- cleaning

/// What `String::from_utf8_lossy` makes of some bytes.
pub uninterp spec fn lossy_text(bytes: Seq<u8>) -> Seq<char>;

/// Calls `String::from_utf8_lossy`. Bytes that are UTF-8 give the text that they
/// encode; what stands for the others only has a name.
#[verifier::external_body]
pub(crate) fn decode_lossy(bytes: &[u8]) -> (text: String)
    ensures
        text@ == lossy_text(bytes@),
        vstd::utf8::valid_utf8(bytes@) ==> text@ == vstd::utf8::decode_utf8(bytes@),
{
    String::from_utf8_lossy(bytes).into_owned()
}

/// The text that some bytes stand for: what they encode where they are UTF-8, and what
/// `String::from_utf8_lossy` makes of them where they are not.
pub open spec fn text_in(bytes: Seq<u8>) -> Seq<char> {
    if vstd::utf8::valid_utf8(bytes) {
        vstd::utf8::decode_utf8(bytes)
    } else {
        lossy_text(bytes)
    }
}

/// The text that some bytes stand for.
pub(crate) fn decoded(bytes: &[u8]) -> (text: String)
    ensures
        text@ == text_in(bytes@),
        text@ == lossy_text(bytes@),
{
    decode_lossy(bytes)
}

/// The UTF-8 bytes of a text stand for that text.
pub proof fn law_text_is_read_back(text: Seq<char>)
    ensures
        text_in(vstd::utf8::encode_utf8(text)) == text,
{
    vstd::utf8::encode_utf8_valid_utf8(text);
    vstd::utf8::encode_utf8_decode_utf8(text);
}

/// The character that begins a terminal control sequence.
pub const ESCAPE: char = '\u{1b}';

/// What follows the parameters of a control sequence: everything behind the
/// first character between `@` and `~`.
pub open spec fn after_control(text: Seq<char>) -> Seq<char>
    decreases text.len(),
{
    if text.len() == 0 {
        text
    } else if '\u{40}' <= text[0] <= '\u{7e}' {
        text.skip(1)
    } else {
        after_control(text.skip(1))
    }
}

/// What follows an operating system command: everything behind the first bell,
/// or behind the first escape and the character after it.
pub open spec fn after_command(text: Seq<char>) -> Seq<char>
    decreases text.len(),
{
    if text.len() == 0 {
        text
    } else if text[0] == '\u{7}' {
        text.skip(1)
    } else if text[0] == ESCAPE {
        if text.len() == 1 {
            Seq::empty()
        } else {
            text.skip(2)
        }
    } else {
        after_command(text.skip(1))
    }
}

/// What follows a sequence is no longer than what was there.
pub proof fn lemma_after_shrinks(text: Seq<char>)
    ensures
        after_control(text).len() <= text.len(),
        after_command(text).len() <= text.len(),
    decreases text.len(),
{
    if text.len() > 0 {
        lemma_after_shrinks(text.skip(1));
    }
}

/// What follows the escape sequence that `text` begins with.
pub open spec fn after_escape(text: Seq<char>) -> Seq<char> {
    if text.len() <= 1 {
        Seq::empty()
    } else if text[1] == '[' {
        after_control(text.skip(2))
    } else if text[1] == ']' {
        after_command(text.skip(2))
    } else {
        text.skip(2)
    }
}

/// A text without its terminal control sequences.
pub open spec fn stripped(text: Seq<char>) -> Seq<char>
    decreases text.len(),
{
    if text.len() == 0 {
        Seq::empty()
    } else if text[0] != ESCAPE {
        seq![text[0]] + stripped(text.skip(1))
    } else {
        proof {
            lemma_after_shrinks(text.skip(2));
        }
        stripped(after_escape(text))
    }
}

/// No control sequence survives, and stripping again changes nothing.
pub proof fn law_stripping_is_final(text: Seq<char>)
    ensures
        !stripped(text).contains(ESCAPE),
        stripped(stripped(text)) == stripped(text),
{
    lemma_stripped_is_clean(text);
    lemma_clean_is_kept(stripped(text));
}

proof fn lemma_stripped_is_clean(text: Seq<char>)
    ensures
        !stripped(text).contains(ESCAPE),
    decreases text.len(),
{
    if text.len() > 0 {
        if text[0] != ESCAPE {
            lemma_stripped_is_clean(text.skip(1));
            let rest = stripped(text.skip(1));
            assert forall|i: int| 0 <= i < stripped(text).len() implies stripped(text)[i]
                != ESCAPE by {
                if i > 0 {
                    assert(rest[i - 1] == stripped(text)[i]);
                    assert(rest.contains(rest[i - 1]));
                }
            }
        } else {
            lemma_after_shrinks(text.skip(2));
            lemma_stripped_is_clean(after_escape(text));
        }
    }
}

proof fn lemma_clean_is_kept(text: Seq<char>)
    requires
        !text.contains(ESCAPE),
    ensures
        stripped(text) == text,
    decreases text.len(),
{
    if text.len() > 0 {
        assert(text.contains(text[0]));
        assert forall|i: int| 0 <= i < text.skip(1).len() implies text.skip(1)[i] != ESCAPE by {
            assert(text.contains(text[i + 1]));
        }
        lemma_clean_is_kept(text.skip(1));
        assert(stripped(text) =~= text);
    } else {
        assert(stripped(text) =~= text);
    }
}

proof fn lemma_stripped_behind(front: Seq<char>, text: Seq<char>)
    requires
        !front.contains(ESCAPE),
    ensures
        stripped(front + text) == front + stripped(text),
    decreases front.len(),
{
    if front.len() > 0 {
        let rest = front.skip(1);
        assert(front.contains(front[0]));
        assert forall|i: int| 0 <= i < rest.len() implies rest[i] != ESCAPE by {
            assert(front.contains(front[i + 1]));
        }
        lemma_stripped_behind(rest, text);
        assert((front + text).skip(1) =~= rest + text);
        assert(seq![front[0]] + (rest + stripped(text)) =~= front + stripped(text));
    } else {
        assert(front + text =~= text);
        assert(front + stripped(text) =~= stripped(text));
    }
}

proof fn lemma_after_control_of(parameters: Seq<char>, end: char, rest: Seq<char>)
    requires
        forall|i: int|
            0 <= i < parameters.len() ==> !('\u{40}' <= #[trigger] parameters[i] <= '\u{7e}'),
        '\u{40}' <= end <= '\u{7e}',
    ensures
        after_control(parameters + (seq![end] + rest)) == rest,
    decreases parameters.len(),
{
    let all = parameters + (seq![end] + rest);
    if parameters.len() > 0 {
        assert(all.skip(1) =~= parameters.skip(1) + (seq![end] + rest));
        lemma_after_control_of(parameters.skip(1), end, rest);
    } else {
        assert(all.skip(1) =~= rest);
    }
}

proof fn lemma_after_command_of(title: Seq<char>, end: Seq<char>, rest: Seq<char>)
    requires
        !title.contains('\u{7}'),
        !title.contains(ESCAPE),
        end == seq!['\u{7}'] || end == seq![ESCAPE, '\\'],
    ensures
        after_command(title + (end + rest)) == rest,
    decreases title.len(),
{
    let all = title + (end + rest);
    if title.len() > 0 {
        let less = title.skip(1);
        assert(title.contains(title[0]));
        assert forall|i: int| 0 <= i < less.len() implies less[i] != '\u{7}' && less[i]
            != ESCAPE by {
            assert(title.contains(title[i + 1]));
        }
        assert(all.skip(1) =~= less + (end + rest));
        lemma_after_command_of(less, end, rest);
    } else {
        assert(all.skip(end.len() as int) =~= rest);
    }
}

/// A colour or a movement of the cursor leaves nothing behind: what stands before it and
/// what comes of the text after it stand side by side. So does a window title, whichever
/// way it ends, and an escape of two characters.
pub proof fn law_control_sequences_vanish(
    before: Seq<char>,
    parameters: Seq<char>,
    end: char,
    title: Seq<char>,
    short: char,
    rest: Seq<char>,
)
    requires
        !before.contains('\u{1b}'),
        forall|i: int|
            0 <= i < parameters.len() ==> !('@' <= #[trigger] parameters[i] <= '~'),
        '@' <= end <= '~',
        !title.contains('\u{7}'),
        !title.contains('\u{1b}'),
        short != '[',
        short != ']',
    ensures
        stripped(before + (seq!['\u{1b}', '['] + (parameters + (seq![end] + rest)))) == before
            + stripped(rest),
        stripped(before + (seq!['\u{1b}', ']'] + (title + (seq!['\u{7}'] + rest)))) == before
            + stripped(rest),
        stripped(before + (seq!['\u{1b}', ']'] + (title + (seq!['\u{1b}', '\\'] + rest))))
            == before + stripped(rest),
        stripped(before + (seq!['\u{1b}', short] + rest)) == before + stripped(rest),
{
    let colour = parameters + (seq![end] + rest);
    let first = seq![ESCAPE, '['] + colour;
    assert(first.skip(2) =~= colour);
    lemma_after_control_of(parameters, end, rest);
    lemma_stripped_behind(before, first);
    let bell = seq!['\u{7}'];
    let second = seq![ESCAPE, ']'] + (title + (bell + rest));
    assert(second.skip(2) =~= title + (bell + rest));
    lemma_after_command_of(title, bell, rest);
    lemma_stripped_behind(before, second);
    let string_end = seq![ESCAPE, '\\'];
    let third = seq![ESCAPE, ']'] + (title + (string_end + rest));
    assert(third.skip(2) =~= title + (string_end + rest));
    lemma_after_command_of(title, string_end, rest);
    lemma_stripped_behind(before, third);
    let fourth = seq![ESCAPE, short] + rest;
    assert(fourth.skip(2) =~= rest);
    lemma_stripped_behind(before, fourth);
}

/// Removes terminal control sequences, which a log view would show as noise.
#[must_use]
pub fn strip_ansi(text: &str) -> (plain: String)
    ensures
        plain@ == stripped(text@),
{
    let chars = chars_of(text);
    let ghost all = chars@;
    let mut plain = String::new();
    let mut i: usize = 0;
    proof {
        assert(all.skip(0) =~= all);
        assert(Seq::<char>::empty() + stripped(all) =~= stripped(all));
    }
    while i < chars.len()
        invariant
            i <= chars@.len(),
            all == chars@,
            plain@ + stripped(all.skip(i as int)) == stripped(all),
        decreases chars@.len() - i,
    {
        let ghost rest = all.skip(i as int);
        if chars[i] != ESCAPE {
            proof {
                assert(rest.skip(1) =~= all.skip(i + 1));
                assert(plain@ + (seq![rest[0]] + stripped(rest.skip(1))) =~= plain@.push(rest[0])
                    + stripped(rest.skip(1)));
            }
            plain.push(chars[i]);
            i += 1;
            continue;
        }
        if chars.len() - i <= 1 {
            proof {
                assert(after_escape(rest) =~= all.skip(all.len() as int));
            }
            i = chars.len();
            continue;
        }
        proof {
            assert(rest.skip(2) =~= all.skip(i + 2));
        }
        let kind = chars[i + 1];
        let ghost entered = i;
        i += 2;
        if kind == '[' {
            proof {
                assert(after_control(rest.skip(2)) == after_control(all.skip(i as int)));
            }
            let ghost goal = after_control(all.skip(i as int));
            let mut found = false;
            while i < chars.len() && !found
                invariant
                    entered < i <= chars@.len(),
                    all == chars@,
                    !found ==> after_control(all.skip(i as int)) == goal,
                    found ==> all.skip(i as int) == goal,
                decreases chars@.len() - i,
            {
                assert(all.skip(i as int).skip(1) =~= all.skip(i + 1));
                if '\u{40}' <= chars[i] && chars[i] <= '\u{7e}' {
                    found = true;
                }
                i += 1;
            }
            assert(all.skip(i as int) =~= goal);
        } else if kind == ']' {
            let ghost goal = after_command(all.skip(i as int));
            let mut found = false;
            while i < chars.len() && !found
                invariant
                    entered < i <= chars@.len(),
                    all == chars@,
                    !found ==> after_command(all.skip(i as int)) == goal,
                    found ==> all.skip(i as int) == goal,
                decreases chars@.len() - i,
            {
                assert(all.skip(i as int).skip(1) =~= all.skip(i + 1));
                if chars[i] == '\u{7}' {
                    found = true;
                    i += 1;
                } else if chars[i] == ESCAPE {
                    found = true;
                    if chars.len() - i <= 1 {
                        i = chars.len();
                        assert(all.skip(i as int) =~= goal);
                    } else {
                        assert(all.skip(i as int).skip(2) =~= all.skip(i + 2));
                        i += 2;
                    }
                } else {
                    i += 1;
                }
            }
            assert(all.skip(i as int) =~= goal);
        }
    }
    proof {
        assert(stripped(all.skip(i as int)) =~= Seq::<char>::empty());
        assert(plain@ =~= stripped(all));
    }
    plain
}

/// A text as it is shown: without a final carriage return and without terminal
/// control.
pub open spec fn cleaned(text: Seq<char>) -> Seq<char> {
    if text.len() > 0 && text.last() == '\r' {
        stripped(text.drop_last())
    } else {
        stripped(text)
    }
}

/// A decoded line as it is shown: without a final carriage return and without
/// terminal control.
#[must_use]
pub fn clean_text(text: &str) -> (plain: String)
    ensures
        plain@ == cleaned(text@),
{
    let n: usize = text.unicode_len();
    if n > 0 && text.get_char(n - 1) == '\r' {
        assert(text@.drop_last() =~= text@.subrange(0, n - 1));
        strip_ansi(text.substring_char(0, n - 1))
    } else {
        strip_ansi(text)
    }
}

/// The bytes of a line as it is shown.
pub open spec fn clean_line(bytes: Seq<u8>) -> Seq<char> {
    cleaned(text_in(bytes))
}

fn clean(bytes: &[u8]) -> (plain: String)
    ensures
        plain@ == clean_line(bytes@),
{
    let text = decoded(bytes);
    clean_text(text.as_str())
}

// ---------------------------------------------------------------------- lines

/// How many bytes stand before the first line feed: all of them when there is
/// none.
pub open spec fn line_end(bytes: Seq<u8>) -> nat
    decreases bytes.len(),
{
    if bytes.len() == 0 || bytes[0] == 10 {
        0
    } else {
        1 + line_end(bytes.skip(1))
    }
}

proof fn lemma_line_end(bytes: Seq<u8>)
    ensures
        line_end(bytes) <= bytes.len(),
        line_end(bytes) < bytes.len() ==> bytes[line_end(bytes) as int] == 10,
        forall|i: int| 0 <= i < line_end(bytes) ==> #[trigger] bytes[i] != 10,
    decreases bytes.len(),
{
    if bytes.len() > 0 && bytes[0] != 10 {
        lemma_line_end(bytes.skip(1));
        assert forall|i: int| 0 <= i < line_end(bytes) implies #[trigger] bytes[i] != 10 by {
            if i > 0 {
                assert(bytes.skip(1)[i - 1] == bytes[i]);
            }
        }
    }
}

proof fn lemma_line_end_is(bytes: Seq<u8>, at: int)
    requires
        0 <= at <= bytes.len(),
        at < bytes.len() ==> bytes[at] == 10,
        forall|i: int| 0 <= i < at ==> #[trigger] bytes[i] != 10,
    ensures
        line_end(bytes) == at,
{
    lemma_line_end(bytes);
    if line_end(bytes) < at {
        assert(bytes[line_end(bytes) as int] != 10);
    }
}

/// The complete lines, each without its line feed.
pub open spec fn complete_lines(bytes: Seq<u8>) -> Seq<Seq<u8>>
    decreases bytes.len(),
{
    let end = line_end(bytes) as int;
    if end < bytes.len() {
        seq![bytes.take(end)] + complete_lines(bytes.skip(end + 1))
    } else {
        Seq::empty()
    }
}

/// What stands behind the last line feed.
pub open spec fn remainder(bytes: Seq<u8>) -> Seq<u8>
    decreases bytes.len(),
{
    let end = line_end(bytes) as int;
    if end < bytes.len() {
        remainder(bytes.skip(end + 1))
    } else {
        bytes
    }
}

/// Cutting bytes into lines does not depend on where they were cut into chunks.
proof fn lemma_lines_extend(bytes: Seq<u8>, more: Seq<u8>)
    ensures
        complete_lines(bytes + more) == complete_lines(bytes) + complete_lines(
            remainder(bytes) + more,
        ),
        remainder(bytes + more) == remainder(remainder(bytes) + more),
    decreases bytes.len(),
{
    lemma_line_end(bytes);
    let end = line_end(bytes) as int;
    if end < bytes.len() {
        let whole = bytes + more;
        assert forall|i: int| 0 <= i < end implies #[trigger] whole[i] != 10 by {
            assert(whole[i] == bytes[i]);
        }
        lemma_line_end_is(whole, end);
        assert(whole.take(end) =~= bytes.take(end));
        assert(whole.skip(end + 1) =~= bytes.skip(end + 1) + more);
        lemma_lines_extend(bytes.skip(end + 1), more);
        assert(complete_lines(whole) =~= complete_lines(bytes) + complete_lines(
            remainder(bytes) + more,
        ));
    } else {
        assert(complete_lines(bytes) + complete_lines(bytes + more) =~= complete_lines(
            bytes + more,
        ));
    }
}

/// Some cleaned lines of one stream.
pub open spec fn lines_of(stream: LogStream, lines: Seq<Seq<u8>>) -> Seq<LineView> {
    lines.map_values(|line: Seq<u8>| LineView { stream, text: clean_line(line) })
}

/// The last `capacity` of some lines.
pub open spec fn latest(lines: Seq<LineView>, capacity: nat) -> Seq<LineView> {
    if lines.len() > capacity {
        lines.skip(lines.len() - capacity)
    } else {
        lines
    }
}

/// How many of some lines are too many.
pub open spec fn excess(lines: Seq<LineView>, capacity: nat) -> nat {
    if lines.len() > capacity {
        (lines.len() - capacity) as nat
    } else {
        0
    }
}

/// The value of a [`Transcript`].
#[verifier::ext_equal]
pub struct TranscriptView {
    pub lines: Seq<LineView>,
    pub partial_stdout: Seq<u8>,
    pub partial_stderr: Seq<u8>,
    pub capacity: nat,
}

impl TranscriptView {
    /// What stands behind the last line feed of a stream.
    pub open spec fn partial(self, stream: LogStream) -> Seq<u8> {
        match stream {
            LogStream::Stdout => self.partial_stdout,
            LogStream::Stderr => self.partial_stderr,
        }
    }

    /// The transcript with another beginning of a line on a stream.
    pub open spec fn with_partial(self, stream: LogStream, bytes: Seq<u8>) -> TranscriptView {
        match stream {
            LogStream::Stdout => TranscriptView { partial_stdout: bytes, ..self },
            LogStream::Stderr => TranscriptView { partial_stderr: bytes, ..self },
        }
    }

    /// The transcript with more lines, and without as many from its front as are
    /// too many.
    pub open spec fn with_lines(self, more: Seq<LineView>) -> TranscriptView {
        TranscriptView { lines: latest(self.lines + more, self.capacity), ..self }
    }

    /// The lines that a chunk completes.
    pub open spec fn completed(self, stream: LogStream, bytes: Seq<u8>) -> Seq<LineView> {
        lines_of(stream, complete_lines(self.partial(stream) + bytes))
    }

    /// The transcript after a chunk.
    pub open spec fn pushed(self, stream: LogStream, bytes: Seq<u8>) -> TranscriptView {
        self.with_partial(stream, remainder(self.partial(stream) + bytes)).with_lines(
            self.completed(stream, bytes),
        )
    }

    /// The lines that the end of the output completes.
    pub open spec fn unfinished(self) -> Seq<LineView> {
        ending(LogStream::Stdout, self.partial_stdout) + ending(
            LogStream::Stderr,
            self.partial_stderr,
        )
    }

    /// The transcript after the end of the output.
    pub open spec fn finished(self) -> TranscriptView {
        (TranscriptView {
            partial_stdout: Seq::empty(),
            partial_stderr: Seq::empty(),
            ..self
        }).with_lines(self.unfinished())
    }
}

/// The line that the end of the output makes of an unfinished one, unless
/// nothing of it is left to show.
pub open spec fn ending(stream: LogStream, bytes: Seq<u8>) -> Seq<LineView> {
    if bytes.len() > 0 && clean_line(bytes).len() > 0 {
        seq![LineView { stream, text: clean_line(bytes) }]
    } else {
        Seq::empty()
    }
}

/// A container's output as lines: the two streams apart until a line is
/// complete, and no more lines than the transcript was made for.
#[derive(Debug, Clone)]
pub struct Transcript {
    lines: VecDeque<LogLine>,
    partial_stdout: Vec<u8>,
    partial_stderr: Vec<u8>,
    capacity: usize,
}

impl View for Transcript {
    type V = TranscriptView;

    closed spec fn view(&self) -> TranscriptView {
        TranscriptView {
            lines: self.lines@.map_values(|line: LogLine| line.deep_view()),
            partial_stdout: self.partial_stdout@,
            partial_stderr: self.partial_stderr@,
            capacity: self.capacity as nat,
        }
    }
}

/// The values of some lines.
pub open spec fn line_views(lines: Seq<LogLine>) -> Seq<LineView> {
    lines.map_values(|line: LogLine| line.deep_view())
}

impl Default for Transcript {
    fn default() -> (transcript: Self)
        ensures
            transcript@ == (TranscriptView {
                lines: Seq::empty(),
                partial_stdout: Seq::empty(),
                partial_stderr: Seq::empty(),
                capacity: MAX_RETAINED_LINES as nat,
            }),
    {
        Self::new(MAX_RETAINED_LINES)
    }
}

impl Transcript {
    /// An empty transcript that keeps `capacity` lines, and at least one.
    #[must_use]
    pub fn new(capacity: usize) -> (transcript: Self)
        ensures
            transcript@ == (TranscriptView {
                lines: Seq::empty(),
                partial_stdout: Seq::empty(),
                partial_stderr: Seq::empty(),
                capacity: if capacity == 0 {
                    1
                } else {
                    capacity as nat
                },
            }),
    {
        let transcript = Self {
            lines: VecDeque::new(),
            partial_stdout: Vec::new(),
            partial_stderr: Vec::new(),
            capacity: if capacity == 0 {
                1
            } else {
                capacity
            },
        };
        assert(transcript@.lines =~= Seq::<LineView>::empty());
        transcript
    }

    /// The lines that are kept, the oldest first.
    #[must_use]
    pub fn lines(&self) -> (lines: &VecDeque<LogLine>)
        ensures
            line_views(lines@) == self@.lines,
    {
        &self.lines
    }

    /// Whether nothing has come yet, not even the beginning of a line.
    #[must_use]
    pub fn is_empty(&self) -> (empty: bool)
        ensures
            empty == (self@.lines.len() == 0 && self@.partial_stdout.len() == 0
                && self@.partial_stderr.len() == 0),
    {
        self.lines.len() == 0 && self.partial_stdout.len() == 0 && self.partial_stderr.len() == 0
    }

    /// Absorbs a chunk, which may end anywhere, and reports the lines that it
    /// completed and how many were dropped to make room for them.
    pub fn push(&mut self, chunk: &LogChunk) -> (appended: Appended)
        ensures
            final(self)@ == old(self)@.pushed(chunk.stream, chunk.bytes@),
            line_views(appended.lines@) == old(self)@.completed(chunk.stream, chunk.bytes@),
            appended.dropped == excess(
                old(self)@.lines + old(self)@.completed(chunk.stream, chunk.bytes@),
                old(self)@.capacity,
            ),
    {
        let ghost before = self@;
        let mut partial: Vec<u8> = Vec::new();
        match chunk.stream {
            LogStream::Stdout => {
                std::mem::swap(&mut partial, &mut self.partial_stdout);
            },
            LogStream::Stderr => {
                std::mem::swap(&mut partial, &mut self.partial_stderr);
            },
        }
        let ghost start = partial@;
        let mut n: usize = 0;
        while n < chunk.bytes.len()
            invariant
                n <= chunk.bytes@.len(),
                partial@ == start + chunk.bytes@.take(n as int),
            decreases chunk.bytes@.len() - n,
        {
            partial.push(chunk.bytes[n]);
            n += 1;
            assert(partial@ =~= start + chunk.bytes@.take(n as int));
        }
        let ghost buffer = start + chunk.bytes@;
        assert(partial@ =~= buffer);
        let mut completed: Vec<LogLine> = Vec::new();
        let mut from: usize = 0;
        let mut at: usize = 0;
        let ghost all = lines_of(chunk.stream, complete_lines(buffer));
        proof {
            assert(buffer.skip(0) =~= buffer);
            assert(line_views(completed@) + all =~= all);
        }
        while at < partial.len()
            invariant
                from <= at <= partial@.len(),
                partial@ == buffer,
                forall|i: int| from <= i < at ==> #[trigger] buffer[i] != 10,
                remainder(buffer) == remainder(buffer.skip(from as int)),
                all == lines_of(chunk.stream, complete_lines(buffer)),
                line_views(completed@) + lines_of(
                    chunk.stream,
                    complete_lines(buffer.skip(from as int)),
                ) == all,
            decreases partial@.len() - at,
        {
            if partial[at] == 10 {
                let ghost rest = buffer.skip(from as int);
                proof {
                    assert forall|i: int| 0 <= i < at - from implies #[trigger] rest[i] != 10 by {
                        assert(rest[i] == buffer[from + i]);
                    }
                    lemma_line_end_is(rest, at - from);
                    assert(rest.take(at - from) =~= buffer.subrange(from as int, at as int));
                    assert(rest.skip(at - from + 1) =~= buffer.skip(at + 1));
                }
                let text = clean(vstd::slice::slice_subrange(partial.as_slice(), from, at));
                let line = LogLine { stream: chunk.stream, text };
                let ghost shown = line.deep_view();
                let ghost had = line_views(completed@);
                completed.push(line);
                proof {
                    assert(line_views(completed@) =~= had.push(shown));
                    let later = lines_of(chunk.stream, complete_lines(buffer.skip(at + 1)));
                    assert(lines_of(chunk.stream, complete_lines(rest)) =~= seq![shown] + later);
                    assert(had.push(shown) + later =~= had + (seq![shown] + later));
                }
                from = at + 1;
            }
            at += 1;
        }
        proof {
            let rest = buffer.skip(from as int);
            assert forall|i: int| 0 <= i < rest.len() implies #[trigger] rest[i] != 10 by {
                assert(rest[i] == buffer[from + i]);
            }
            lemma_line_end_is(rest, rest.len() as int);
            assert(lines_of(chunk.stream, complete_lines(rest)) =~= Seq::<LineView>::empty());
            assert(line_views(completed@) =~= all);
            assert(remainder(buffer) == rest);
        }
        let mut left: Vec<u8> = Vec::new();
        let mut k: usize = from;
        while k < partial.len()
            invariant
                from <= k <= partial@.len(),
                left@ == partial@.subrange(from as int, k as int),
            decreases partial@.len() - k,
        {
            left.push(partial[k]);
            k += 1;
            assert(left@ =~= partial@.subrange(from as int, k as int));
        }
        assert(left@ =~= remainder(buffer));
        match chunk.stream {
            LogStream::Stdout => {
                self.partial_stdout = left;
            },
            LogStream::Stderr => {
                self.partial_stderr = left;
            },
        }
        assert(self@.lines == before.lines);
        self.append(completed)
    }

    /// Completes what is left when the output has ended. A remainder of which
    /// nothing would show is no line.
    pub fn finish(&mut self) -> (appended: Appended)
        ensures
            final(self)@ == old(self)@.finished(),
            line_views(appended.lines@) == old(self)@.unfinished(),
            appended.dropped == excess(
                old(self)@.lines + old(self)@.unfinished(),
                old(self)@.capacity,
            ),
    {
        let ghost before = self@;
        let mut completed: Vec<LogLine> = Vec::new();
        if self.partial_stdout.len() > 0 {
            let text = clean(self.partial_stdout.as_slice());
            self.partial_stdout = Vec::new();
            if !text.as_str().is_empty() {
                completed.push(LogLine { stream: LogStream::Stdout, text });
            }
        }
        assert(line_views(completed@) =~= ending(LogStream::Stdout, before.partial_stdout));
        if self.partial_stderr.len() > 0 {
            let text = clean(self.partial_stderr.as_slice());
            self.partial_stderr = Vec::new();
            if !text.as_str().is_empty() {
                completed.push(LogLine { stream: LogStream::Stderr, text });
            }
        }
        proof {
            assert(line_views(completed@) =~= before.unfinished());
            assert(self@.partial_stdout =~= Seq::<u8>::empty());
            assert(self@.partial_stderr =~= Seq::<u8>::empty());
        }
        self.append(completed)
    }

    fn append(&mut self, lines: Vec<LogLine>) -> (appended: Appended)
        ensures
            final(self)@ == old(self)@.with_lines(line_views(lines@)),
            appended.lines == lines,
            appended.dropped == excess(
                old(self)@.lines + line_views(lines@),
                old(self)@.capacity,
            ),
    {
        let ghost before = self@;
        let mut i: usize = 0;
        while i < lines.len()
            invariant
                i <= lines@.len(),
                self@ == (TranscriptView {
                    lines: before.lines + line_views(lines@).take(i as int),
                    ..before
                }),
            decreases lines@.len() - i,
        {
            let line = LogLine { stream: lines[i].stream, text: lines[i].text.clone() };
            let ghost had = self.lines@;
            self.lines.push_back(line);
            proof {
                assert(self.lines@ == had.push(line));
                assert(line_views(self.lines@) =~= line_views(had).push(line.deep_view()));
                assert(line.deep_view() == line_views(lines@)[i as int]);
            }
            i += 1;
            assert(self@.lines =~= before.lines + line_views(lines@).take(i as int));
        }
        let ghost full = before.lines + line_views(lines@);
        assert(self@.lines =~= full);
        let dropped: usize = if self.lines.len() > self.capacity {
            self.lines.len() - self.capacity
        } else {
            0
        };
        let mut gone: usize = 0;
        assert(self@.lines =~= full.skip(0));
        while gone < dropped
            invariant
                gone <= dropped <= full.len(),
                self@ == (TranscriptView { lines: full.skip(gone as int), ..before }),
            decreases dropped - gone,
        {
            let ghost had = self.lines@;
            let _ = self.lines.pop_front();
            proof {
                assert(line_views(had) == full.skip(gone as int));
                assert(had.len() > 0);
                assert(self.lines@ =~= had.skip(1));
                assert(line_views(self.lines@) =~= line_views(had).skip(1));
            }
            gone += 1;
            assert(self@.lines =~= full.skip(gone as int));
        }
        assert(self@.lines =~= latest(full, before.capacity));
        Appended { lines, dropped }
    }
}

/// Pushing two chunks of one stream leaves what pushing them joined leaves, and
/// completes the same lines.
pub proof fn law_chunks_may_be_cut_anywhere(
    transcript: TranscriptView,
    stream: LogStream,
    first: Seq<u8>,
    second: Seq<u8>,
)
    ensures
        transcript.pushed(stream, first).pushed(stream, second) == transcript.pushed(
            stream,
            first + second,
        ),
        transcript.completed(stream, first) + transcript.pushed(stream, first).completed(
            stream,
            second,
        ) == transcript.completed(stream, first + second),
{
    let start = transcript.partial(stream);
    let once = transcript.pushed(stream, first);
    let buffer = start + first;
    assert(start + (first + second) =~= buffer + second);
    lemma_lines_extend(buffer, second);
    assert(once.partial(stream) == remainder(buffer));
    let a = lines_of(stream, complete_lines(buffer));
    let b = lines_of(stream, complete_lines(remainder(buffer) + second));
    let ab = lines_of(stream, complete_lines(buffer + second));
    assert(ab =~= a + b);
    let cap = transcript.capacity;
    let old = transcript.lines;
    assert(latest(latest(old + a, cap) + b, cap) =~= latest(old + (a + b), cap));
    assert(once.pushed(stream, second).lines =~= transcript.pushed(stream, first + second).lines);
    assert(once.pushed(stream, second).partial(stream) == transcript.pushed(
        stream,
        first + second,
    ).partial(stream));
}

/// A chunk of one stream leaves the beginning of the other's line alone.
pub proof fn law_streams_stay_apart(transcript: TranscriptView, bytes: Seq<u8>)
    ensures
        transcript.pushed(LogStream::Stdout, bytes).partial_stderr == transcript.partial_stderr,
        transcript.pushed(LogStream::Stderr, bytes).partial_stdout == transcript.partial_stdout,
{
}

// ------------------------------------------------------------------ highlighting

/// What a stretch of a JSON line is.
#[derive(Debug, Clone, Copy, PartialEq, Eq)]
pub enum Token {
    Key,
    Text,
    Number,
    Literal,
    Punctuation,
}

/// A stretch of a line, in characters.
#[derive(Debug, Clone, Copy, PartialEq, Eq)]
pub struct Span {
    pub start: usize,
    pub end: usize,
    pub token: Token,
}

/// Whether `serde_json` can read a text as one JSON value.
pub uninterp spec fn parses_as_json(text: Seq<char>) -> bool;

/// Calls `serde_json::from_str` for a `serde_json::Value` and tells whether it
/// succeeded. Which texts it reads only has a name.
#[verifier::external_body]
pub(crate) fn is_json(text: &str) -> (valid: bool)
    ensures
        valid == parses_as_json(text@),
{
    serde_json::from_str::<serde_json::Value>(text).is_ok()
}

/// Where a string that begins before `at` ends: behind its closing quote, or
/// with the line. A backslash takes the character after it along.
pub open spec fn string_end(line: Seq<char>, at: int) -> int
    decreases line.len() - at,
{
    if at >= line.len() {
        line.len() as int
    } else if line[at] == '\\' {
        if at + 2 >= line.len() {
            line.len() as int
        } else {
            string_end(line, at + 2)
        }
    } else if line[at] == '"' {
        at + 1
    } else {
        string_end(line, at + 1)
    }
}

/// Whether the first character from `at` on that is not white space is a colon.
pub open spec fn colon_follows(line: Seq<char>, at: int) -> bool
    decreases line.len() - at,
{
    if at >= line.len() {
        false
    } else if text::is_space(line[at]) {
        colon_follows(line, at + 1)
    } else {
        line[at] == ':'
    }
}

/// Whether a character can stand in a number.
pub open spec fn numeric_char(c: char) -> bool {
    c == '-' || c == '+' || c == '.' || c == 'e' || c == 'E' || '0' <= c <= '9'
}

/// Whether a character is a letter of ASCII.
pub open spec fn ascii_letter(c: char) -> bool {
    'a' <= c <= 'z' || 'A' <= c <= 'Z'
}

/// Where the characters of a number end.
pub open spec fn number_end(line: Seq<char>, at: int) -> int
    decreases line.len() - at,
{
    if at < line.len() && numeric_char(line[at]) {
        number_end(line, at + 1)
    } else {
        at
    }
}

/// Where the letters of a word end.
pub open spec fn word_end(line: Seq<char>, at: int) -> int
    decreases line.len() - at,
{
    if at < line.len() && ascii_letter(line[at]) {
        word_end(line, at + 1)
    } else {
        at
    }
}

/// Whether a character is JSON's punctuation.
pub open spec fn punctuation(c: char) -> bool {
    c == '{' || c == '}' || c == '[' || c == ']' || c == ':' || c == ','
}

/// The stretches end where they begin or behind it, and within the line.
pub proof fn lemma_ends(line: Seq<char>, at: int)
    requires
        0 <= at,
    ensures
        at <= line.len() ==> at <= string_end(line, at) <= line.len(),
        at > line.len() ==> string_end(line, at) == line.len(),
        at <= number_end(line, at),
        at <= word_end(line, at),
        at <= line.len() ==> number_end(line, at) <= line.len(),
        at <= line.len() ==> word_end(line, at) <= line.len(),
    decreases line.len() - at,
{
    if at < line.len() {
        lemma_ends(line, at + 1);
        if line[at] == '\\' && at + 2 < line.len() {
            lemma_ends(line, at + 2);
        }
    }
}

/// A stretch of a line.
pub open spec fn span(start: int, end: int, token: Token) -> Span {
    Span { start: start as usize, end: end as usize, token }
}

/// The stretches of a line from `at` on.
pub open spec fn spans_from(line: Seq<char>, at: int) -> Seq<Span>
    decreases line.len() - at,
    when 0 <= at
{
    proof {
        lemma_ends(line, at + 1);
    }
    if at >= line.len() {
        Seq::empty()
    } else if line[at] == '"' {
        let end = string_end(line, at + 1);
        seq![
            span(
                at,
                end,
                if colon_follows(line, end) {
                    Token::Key
                } else {
                    Token::Text
                },
            ),
        ] + spans_from(line, end)
    } else if punctuation(line[at]) {
        seq![span(at, at + 1, Token::Punctuation)] + spans_from(line, at + 1)
    } else if line[at] == '-' || '0' <= line[at] <= '9' {
        seq![span(at, number_end(line, at), Token::Number)] + spans_from(
            line,
            number_end(line, at),
        )
    } else if line[at] == 't' || line[at] == 'f' || line[at] == 'n' {
        seq![span(at, word_end(line, at), Token::Literal)] + spans_from(line, word_end(line, at))
    } else {
        spans_from(line, at + 1)
    }
}

/// The stretches of a line that is known to be JSON, by what they are.
#[must_use]
pub fn scan(line: &str) -> (spans: Vec<Span>)
    ensures
        spans@ == spans_from(line@, 0),
{
    let chars = chars_of(line);
    let ghost all = chars@;
    let len: usize = chars.len();
    let mut spans: Vec<Span> = Vec::new();
    let mut index: usize = 0;
    assert(spans@ + spans_from(all, 0) =~= spans_from(all, 0));
    while index < len
        invariant
            index <= len,
            len == chars@.len(),
            all == chars@,
            spans@ + spans_from(all, index as int) == spans_from(all, 0),
        decreases len - index,
    {
        let c = chars[index];
        let ghost at = index as int;
        let ghost had = spans@;
        proof {
            lemma_ends(all, at);
            lemma_ends(all, at + 1);
        }
        let start: usize = index;
        if c == '"' {
            index += 1;
            let mut closed = false;
            while index < len && !closed
                invariant
                    start < index <= len,
                    len == chars@.len(),
                    all == chars@,
                    !closed ==> string_end(all, at + 1) == string_end(all, index as int),
                    closed ==> string_end(all, at + 1) == index,
                decreases len - index,
            {
                if chars[index] == '\\' {
                    if len - index <= 2 {
                        index = len;
                    } else {
                        index += 2;
                    }
                } else {
                    if chars[index] == '"' {
                        closed = true;
                    }
                    index += 1;
                }
            }
            assert(index == string_end(all, at + 1));
            let mut ahead: usize = index;
            while ahead < len && is_whitespace(chars[ahead])
                invariant
                    index <= ahead <= len,
                    len == chars@.len(),
                    all == chars@,
                    colon_follows(all, index as int) == colon_follows(all, ahead as int),
                decreases len - ahead,
            {
                ahead += 1;
            }
            let key = ahead < len && chars[ahead] == ':';
            spans.push(
                Span {
                    start,
                    end: index,
                    token: if key {
                        Token::Key
                    } else {
                        Token::Text
                    },
                },
            );
        } else if c == '{' || c == '}' || c == '[' || c == ']' || c == ':' || c == ',' {
            index += 1;
            spans.push(Span { start, end: index, token: Token::Punctuation });
        } else if c == '-' || ('0' <= c && c <= '9') {
            assert(number_end(all, at) == number_end(all, at + 1));
            index += 1;
            while index < len && (chars[index] == '-' || chars[index] == '+' || chars[index] == '.'
                || chars[index] == 'e' || chars[index] == 'E' || ('0' <= chars[index]
                && chars[index] <= '9'))
                invariant
                    start < index <= len,
                    len == chars@.len(),
                    all == chars@,
                    number_end(all, at) == number_end(all, index as int),
                decreases len - index,
            {
                index += 1;
            }
            spans.push(Span { start, end: index, token: Token::Number });
        } else if c == 't' || c == 'f' || c == 'n' {
            assert(word_end(all, at) == word_end(all, at + 1));
            index += 1;
            while index < len && (('a' <= chars[index] && chars[index] <= 'z') || ('A'
                <= chars[index] && chars[index] <= 'Z'))
                invariant
                    start < index <= len,
                    len == chars@.len(),
                    all == chars@,
                    word_end(all, at) == word_end(all, index as int),
                decreases len - index,
            {
                index += 1;
            }
            spans.push(Span { start, end: index, token: Token::Literal });
        } else {
            index += 1;
        }
        proof {
            let rest = spans_from(all, index as int);
            if spans@.len() > had.len() {
                assert(spans@ == had.push(spans@.last()));
                assert(had + (seq![spans@.last()] + rest) =~= spans@ + rest);
            }
        }
    }
    assert(spans@ =~= spans_from(all, 0));
    spans
}

/// Whether a line looks like a JSON object.
pub open spec fn braced(text: Seq<char>) -> bool {
    text.len() > 0 && text[0] == '{' && text.last() == '}'
}

/// The stretches of a line, given whether it is JSON without the white space at
/// its ends.
pub open spec fn highlighted(line: Seq<char>, valid: bool) -> Seq<Span> {
    if braced(text::trimmed(line)) && valid {
        spans_from(line, 0)
    } else {
        Seq::empty()
    }
}

/// The stretches of a line, given whether it is JSON without the white space at
/// its ends.
#[must_use]
pub fn highlight_as(line: &str, valid: bool) -> (spans: Vec<Span>)
    ensures
        spans@ == highlighted(line@, valid),
{
    if is_braced(trim(line)) && valid {
        scan(line)
    } else {
        Vec::new()
    }
}

fn is_braced(text: &str) -> (yes: bool)
    ensures
        yes == braced(text@),
{
    let n: usize = text.unicode_len();
    n > 0 && text.get_char(0) == '{' && text.get_char(n - 1) == '}'
}

/// The stretches of a line that is a JSON object, so that a structured log is
/// readable at a glance. Any other line has none.
#[must_use]
pub fn highlight(line: &str) -> (spans: Vec<Span>)
    ensures
        spans@ == highlighted(line@, parses_as_json(text::trimmed(line@))),
{
    let inner = trim(line);
    if !is_braced(inner) {
        return Vec::new();
    }
    highlight_as(line, is_json(inner))
}

/// Whether stretches follow each other, none empty, from `from` on and within
/// `len` characters.
pub open spec fn in_sequence(spans: Seq<Span>, from: int, len: int) -> bool {
    &&& forall|i: int|
        0 <= i < spans.len() ==> from <= (#[trigger] spans[i]).start < spans[i].end <= len
    &&& forall|i: int, j: int|
        0 <= i < j < spans.len() ==> (#[trigger] spans[i]).end <= (#[trigger] spans[j]).start
}

proof fn lemma_in_sequence(line: Seq<char>, at: int)
    requires
        0 <= at <= line.len(),
        line.len() <= usize::MAX,
    ensures
        in_sequence(spans_from(line, at), at, line.len() as int),
    decreases line.len() - at,
{
    if at < line.len() {
        lemma_ends(line, at);
        lemma_ends(line, at + 1);
        let next = if line[at] == '"' {
            string_end(line, at + 1)
        } else if punctuation(line[at]) {
            at + 1
        } else if line[at] == '-' || '0' <= line[at] <= '9' {
            number_end(line, at)
        } else if line[at] == 't' || line[at] == 'f' || line[at] == 'n' {
            word_end(line, at)
        } else {
            at + 1
        };
        assert(at < next) by {
            assert(number_end(line, at) == number_end(line, at + 1) || !numeric_char(line[at]));
            assert(word_end(line, at) == word_end(line, at + 1) || !ascii_letter(line[at]));
        }
        lemma_in_sequence(line, next);
        let rest = spans_from(line, next);
        let all = spans_from(line, at);
        if all.len() > rest.len() {
            assert(all =~= seq![all[0]] + rest);
            assert forall|i: int| 0 <= i < all.len() implies at <= (#[trigger] all[i]).start
                < all[i].end <= line.len() by {
                if i > 0 {
                    assert(all[i] == rest[i - 1]);
                }
            }
            assert forall|i: int, j: int| 0 <= i < j < all.len() implies (#[trigger] all[i]).end
                <= (#[trigger] all[j]).start by {
                assert(all[j] == rest[j - 1]);
                if i > 0 {
                    assert(all[i] == rest[i - 1]);
                }
            }
        }
    }
}

/// The stretches of a line lie within it, none is empty, and none overlaps
/// another or comes before it.
pub proof fn law_spans_do_not_overlap(line: Seq<char>, valid: bool)
    requires
        line.len() <= usize::MAX,
    ensures
        in_sequence(highlighted(line, valid), 0, line.len() as int),
{
    lemma_in_sequence(line, 0);
}

proof fn lemma_scalar_bytes(scalar: u32)
    by (bit_vector)
    ensures
        scalar <= 0x7f ==> (scalar & 0x7f) as u8 == scalar,
        0xC0u8 | ((scalar >> 6) & 0x1F) as u8 >= 0x80,
        0xE0u8 | ((scalar >> 12) & 0x0F) as u8 >= 0x80,
        0xF0u8 | ((scalar >> 18) & 0x7) as u8 >= 0x80,
        0x80u8 | (scalar & 0x3F) as u8 >= 0x80,
        0x80u8 | ((scalar >> 6) & 0x3F) as u8 >= 0x80,
        0x80u8 | ((scalar >> 12) & 0x3F) as u8 >= 0x80,
{
}

/// A byte below 128 stands among the UTF-8 bytes of a text only where the text has the
/// character of that number.
pub proof fn lemma_plain_bytes(text: Seq<char>, byte: u8)
    requires
        byte < 128,
        !text.contains(byte as char),
    ensures
        !vstd::utf8::encode_utf8(text).contains(byte),
    decreases text.len(),
{
    if text.len() > 0 {
        let rest = text.drop_first();
        assert forall|i: int| 0 <= i < rest.len() implies #[trigger] rest[i] != byte as char by {
            assert(rest[i] == text[i + 1]);
        }
        lemma_plain_bytes(rest, byte);
        vstd::utf8::char_is_scalar(text[0]);
        vstd::utf8::char_u32_cast(text[0], text[0] as u32);
        assert(text.contains(text[0]));
        assert(text[0] as u32 != byte);
        lemma_scalar_bytes(text[0] as u32);
        let first = vstd::utf8::encode_scalar(text[0] as u32);
        let later = vstd::utf8::encode_utf8(rest);
        assert forall|i: int| 0 <= i < (first + later).len() implies (first + later)[i] != byte by {
            if i >= first.len() {
                assert(later.contains(later[i - first.len()]));
            }
        }
    }
}

/// A line of plain text, however long, is shown as it was written; a carriage return
/// behind it makes no difference; and its bytes with a line feed behind them complete
/// exactly that line, on the stream that they came on.
pub proof fn law_plain_lines_are_shown_as_written(
    transcript: TranscriptView,
    stream: LogStream,
    text: Seq<char>,
)
    requires
        !text.contains('\u{1b}'),
        !text.contains('\n'),
        text.len() > 0 ==> text.last() != '\r',
        transcript.partial(stream).len() == 0,
    ensures
        cleaned(text) == text,
        cleaned(text.push('\r')) == text,
        transcript.completed(stream, vstd::utf8::encode_utf8(text).push(10)) == seq![
            LineView { stream, text },
        ],
        transcript.completed(stream, vstd::utf8::encode_utf8(text.push('\r')).push(10)) == seq![
            LineView { stream, text },
        ],
        transcript.pushed(stream, vstd::utf8::encode_utf8(text).push(10)).partial(stream).len()
            == 0,
        transcript.capacity > 0 ==> transcript.pushed(
            stream,
            vstd::utf8::encode_utf8(text).push(10),
        ).lines.last() == (LineView { stream, text }),
        transcript.pushed(stream, vstd::utf8::encode_utf8(text)).lines == latest(
            transcript.lines,
            transcript.capacity,
        ),
        ending(stream, vstd::utf8::encode_utf8(text)) == (if text.len() > 0 {
            seq![LineView { stream, text }]
        } else {
            Seq::empty()
        }),
{
    lemma_clean_is_kept(text);
    assert(text.push('\r').drop_last() =~= text);
    let returned = text.push('\r');
    assert(10u8 as char == '\n');
    assert forall|i: int| 0 <= i < returned.len() implies #[trigger] returned[i] != '\n' by {
        if i < text.len() {
            assert(text.contains(returned[i]));
        }
    }
    lemma_plain_bytes(text, 10);
    lemma_plain_bytes(returned, 10);
    lemma_one_line(transcript, stream, text);
    lemma_one_line(transcript, stream, returned);
    let bytes = vstd::utf8::encode_utf8(text);
    assert(transcript.partial(stream) + bytes =~= bytes);
    assert forall|i: int| 0 <= i < bytes.len() implies #[trigger] bytes[i] != 10 by {
        assert(bytes.contains(bytes[i]));
    }
    lemma_line_end_is(bytes, bytes.len() as int);
    assert(lines_of(stream, complete_lines(bytes)) =~= Seq::<LineView>::empty());
    assert(transcript.lines + Seq::<LineView>::empty() =~= transcript.lines);
    law_text_is_read_back(text);
    if text.len() > 0 {
        vstd::utf8::char_is_scalar(text[0]);
        assert(bytes.len() > 0);
    }
}

proof fn lemma_one_line(transcript: TranscriptView, stream: LogStream, text: Seq<char>)
    requires
        transcript.partial(stream).len() == 0,
        !vstd::utf8::encode_utf8(text).contains(10),
    ensures
        transcript.completed(stream, vstd::utf8::encode_utf8(text).push(10)) == seq![
            LineView { stream, text: cleaned(text) },
        ],
        transcript.pushed(stream, vstd::utf8::encode_utf8(text).push(10)).partial(stream).len()
            == 0,
{
    let bytes = vstd::utf8::encode_utf8(text);
    let line = bytes.push(10);
    assert(transcript.partial(stream) + line =~= line);
    assert forall|i: int| 0 <= i < bytes.len() implies #[trigger] line[i] != 10 by {
        assert(bytes.contains(bytes[i]));
    }
    lemma_line_end_is(line, bytes.len() as int);
    assert(line.take(bytes.len() as int) =~= bytes);
    assert(line.skip(bytes.len() as int + 1) =~= Seq::<u8>::empty());
    assert(remainder(line.skip(bytes.len() as int + 1)).len() == 0);
    assert(remainder(line).len() == 0);
    law_text_is_read_back(text);
    assert(complete_lines(line.skip(bytes.len() as int + 1)) =~= Seq::<Seq<u8>>::empty());
    assert(lines_of(stream, complete_lines(line)) =~= seq![
        LineView { stream, text: cleaned(text) },
    ]);
}

/// A transcript never holds more lines than it was made for, and what it holds are the
/// latest ones.
pub proof fn law_transcript_is_bounded(
    transcript: TranscriptView,
    stream: LogStream,
    bytes: Seq<u8>,
)
    ensures
        transcript.pushed(stream, bytes).lines.len() <= transcript.capacity,
        transcript.finished().lines.len() <= transcript.capacity,
        transcript.pushed(stream, bytes).lines.is_suffix_of(
            transcript.lines + transcript.completed(stream, bytes),
        ),
        transcript.finished().lines.is_suffix_of(transcript.lines + transcript.unfinished()),
{
}

/// A transcript that has been finished has nothing left to finish.
pub proof fn law_finishing_is_final(transcript: TranscriptView)
    requires
        transcript.lines.len() <= transcript.capacity,
    ensures
        transcript.finished().finished() == transcript.finished(),
{
    let once = transcript.finished();
    assert(once.unfinished() =~= Seq::<LineView>::empty());
    assert(once.lines + once.unfinished() =~= once.lines);
}

/// A string in quotes is one stretch from quote to quote: a key where a colon follows it,
/// with or without white space between, and a text where none does.
pub proof fn law_strings_are_marked_from_quote_to_quote(
    line: Seq<char>,
    at: int,
    end: int,
    colon: int,
)
    requires
        0 <= at,
        at + 1 < end <= line.len() <= usize::MAX,
        line[at] == '"',
        line[end - 1] == '"',
        forall|i: int|
            at < i < end - 1 ==> #[trigger] line[i] != '"' && line[i] != '\\',
    ensures
        spans_from(line, at)[0].start == at,
        spans_from(line, at)[0].end == end,
        spans_from(line, at).skip(1) == spans_from(line, end),
        end <= colon < line.len() && line[colon] == ':' && (forall|i: int|
            end <= i < colon ==> text::is_space(#[trigger] line[i])) ==> spans_from(
            line,
            at,
        )[0].token == Token::Key,
        end <= colon < line.len() && line[colon] != ':' && !text::is_space(line[colon]) && (forall|
            i: int,
        | end <= i < colon ==> text::is_space(#[trigger] line[i])) ==> spans_from(line, at)[0].token
            == Token::Text,
        (forall|i: int| end <= i < line.len() ==> text::is_space(#[trigger] line[i]))
            ==> spans_from(line, at)[0].token == Token::Text,
{
    lemma_string_ends(line, at + 1, end);
    if end <= colon < line.len() && (forall|i: int|
        end <= i < colon ==> text::is_space(#[trigger] line[i])) {
        if !text::is_space(line[colon]) {
            lemma_colon_follows(line, end, colon);
        }
    }
    if forall|i: int| end <= i < line.len() ==> text::is_space(#[trigger] line[i]) {
        lemma_colon_follows(line, end, line.len() as int);
    }
    assert(spans_from(line, at).skip(1) =~= spans_from(line, end));
}

proof fn lemma_string_ends(line: Seq<char>, at: int, end: int)
    requires
        0 <= at < end <= line.len(),
        line[end - 1] == '"',
        forall|i: int| at <= i < end - 1 ==> #[trigger] line[i] != '"' && line[i] != '\\',
    ensures
        string_end(line, at) == end,
    decreases end - at,
{
    if at < end - 1 {
        assert(line[at] != '"' && line[at] != '\\');
        lemma_string_ends(line, at + 1, end);
    }
}

proof fn lemma_colon_follows(line: Seq<char>, at: int, stop: int)
    requires
        0 <= at <= stop <= line.len(),
        forall|i: int| at <= i < stop ==> text::is_space(#[trigger] line[i]),
        stop < line.len() ==> !text::is_space(line[stop]),
    ensures
        colon_follows(line, at) == (stop < line.len() && line[stop] == ':'),
    decreases stop - at,
{
    if at < stop {
        assert(text::is_space(line[at]));
        lemma_colon_follows(line, at + 1, stop);
    }
}

/// A quote behind a backslash does not end a string, and neither does any other character
/// behind one.
pub proof fn law_escaped_characters_stay_in_the_string(line: Seq<char>, at: int, slash: int)
    requires
        0 <= at < slash,
        slash + 2 < line.len(),
        line[slash] == '\\',
        forall|i: int| at < i < slash ==> #[trigger] line[i] != '"' && line[i] != '\\',
    ensures
        string_end(line, at + 1) == string_end(line, slash + 2),
        string_end(line, at + 1) >= slash + 2,
    decreases slash - at,
{
    lemma_ends(line, slash + 2);
    if at + 1 < slash {
        law_escaped_characters_stay_in_the_string(line, at + 1, slash);
        assert(line[at + 1] != '"' && line[at + 1] != '\\');
    }
}

/// A number is one stretch, with its sign, its fraction and its exponent.
pub proof fn law_numbers_are_marked_whole(line: Seq<char>, at: int, end: int)
    requires
        0 <= at < end <= line.len() <= usize::MAX,
        line[at] == '-' || '0' <= line[at] <= '9',
        forall|i: int|
            at <= i < end ==> '0' <= #[trigger] line[i] <= '9' || line[i] == '.' || line[i] == '-'
                || line[i] == '+' || line[i] == 'e' || line[i] == 'E',
        end < line.len() ==> !('0' <= line[end] <= '9' || line[end] == '.' || line[end] == '-'
            || line[end] == '+' || line[end] == 'e' || line[end] == 'E'),
    ensures
        spans_from(line, at) == seq![
            Span { start: at as usize, end: end as usize, token: Token::Number },
        ] + spans_from(line, end),
{
    lemma_number_ends(line, at, end);
}

proof fn lemma_number_ends(line: Seq<char>, at: int, end: int)
    requires
        0 <= at <= end <= line.len(),
        forall|i: int| at <= i < end ==> numeric_char(#[trigger] line[i]),
        end < line.len() ==> !numeric_char(line[end]),
    ensures
        number_end(line, at) == end,
    decreases end - at,
{
    if at < end {
        assert(numeric_char(line[at]));
        lemma_number_ends(line, at + 1, end);
    }
}

/// `true`, `false` and `null` are literals, each of them one stretch.
pub proof fn law_literals_are_marked_whole(line: Seq<char>, at: int, end: int)
    requires
        0 <= at < end <= line.len() <= usize::MAX,
        line.subrange(at, end) == "true"@ || line.subrange(at, end) == "false"@ || line.subrange(
            at,
            end,
        ) == "null"@,
        end < line.len() ==> !('a' <= line[end] <= 'z' || 'A' <= line[end] <= 'Z'),
    ensures
        spans_from(line, at) == seq![
            Span { start: at as usize, end: end as usize, token: Token::Literal },
        ] + spans_from(line, end),
{
    reveal_strlit("true");
    reveal_strlit("false");
    reveal_strlit("null");
    let word = line.subrange(at, end);
    assert(word[0] == line[at]);
    assert("true"@ =~= seq!['t', 'r', 'u', 'e']);
    assert("false"@ =~= seq!['f', 'a', 'l', 's', 'e']);
    assert("null"@ =~= seq!['n', 'u', 'l', 'l']);
    assert forall|i: int| 0 <= i < word.len() implies ascii_letter(#[trigger] word[i]) by {
        assert(i == 0 || i == 1 || i == 2 || i == 3 || i == 4);
    }
    assert forall|i: int| at <= i < end implies ascii_letter(#[trigger] line[i]) by {
        assert(word[i - at] == line[i]);
        assert(ascii_letter(word[i - at]));
    }
    lemma_word_ends(line, at, end);
}

proof fn lemma_word_ends(line: Seq<char>, at: int, end: int)
    requires
        0 <= at <= end <= line.len(),
        forall|i: int| at <= i < end ==> ascii_letter(#[trigger] line[i]),
        end < line.len() ==> !ascii_letter(line[end]),
    ensures
        word_end(line, at) == end,
    decreases end - at,
{
    if at < end {
        assert(ascii_letter(line[at]));
        lemma_word_ends(line, at + 1, end);
    }
}

/// Each bracket, brace, colon and comma is a stretch of its own, and white space is none.
pub proof fn law_punctuation_is_marked_by_itself(line: Seq<char>, at: int)
    requires
        0 <= at < line.len() <= usize::MAX,
    ensures
        line[at] == '{' || line[at] == '}' || line[at] == '[' || line[at] == ']' || line[at] == ':'
            || line[at] == ',' ==> spans_from(line, at) == seq![
            Span { start: at as usize, end: (at + 1) as usize, token: Token::Punctuation },
        ] + spans_from(line, at + 1),
        line[at] == ' ' || line[at] == '\t' ==> spans_from(line, at) == spans_from(line, at + 1),
        spans_from(line, line.len() as int).len() == 0,
{
}

/// Only a line that is a JSON object, whatever white space is around it, is marked up.
pub proof fn law_only_objects_are_marked_up(
    before: Seq<char>,
    inner: Seq<char>,
    after: Seq<char>,
    line: Seq<char>,
)
    requires
        forall|i: int| 0 <= i < before.len() ==> text::is_space(#[trigger] before[i]),
        forall|i: int| 0 <= i < after.len() ==> text::is_space(#[trigger] after[i]),
    ensures
        ({
            let object = before + (seq!['{'] + inner + seq!['}']) + after;
            &&& highlighted(object, true) == spans_from(object, 0)
            &&& highlighted(object, false).len() == 0
        }),
        line.len() > 0 && line[0] != '{' && !text::is_space(line[0]) ==> highlighted(
            line,
            true,
        ).len() == 0,
{
    let middle = seq!['{'] + inner + seq!['}'];
    assert(middle[0] == '{' && middle.last() == '}');
    text::law_trimming_takes_off_white_space_alone(before, middle, after);
    if line.len() > 0 && line[0] != '{' && !text::is_space(line[0]) {
        assert(text::trimmed_start(line) == line);
        lemma_end_keeps_start(line);
    }
}

proof fn lemma_end_keeps_start(line: Seq<char>)
    requires
        line.len() > 0,
        !text::is_space(line[0]),
    ensures
        text::trimmed_end(line).len() > 0,
        text::trimmed_end(line)[0] == line[0],
    decreases line.len(),
{
    if text::is_space(line.last()) {
        assert(line.drop_last()[0] == line[0]);
        lemma_end_keeps_start(line.drop_last());
    }
}

/// The end of the output completes what was begun: on the one stream and then on the other,
/// behind all lines that are there, and nothing is lost where there is room.
pub proof fn law_the_end_completes_what_was_begun(
    transcript: TranscriptView,
    out: Seq<char>,
    err: Seq<char>,
    stream: LogStream,
    bytes: Seq<u8>,
)
    requires
        !out.contains('\u{1b}'),
        !err.contains('\u{1b}'),
        !out.contains('\n'),
        !err.contains('\n'),
        out.len() > 0 && out.last() != '\r',
        err.len() > 0 && err.last() != '\r',
        transcript.partial_stdout == vstd::utf8::encode_utf8(out),
        transcript.partial_stderr == vstd::utf8::encode_utf8(err),
    ensures
        transcript.lines.len() + 2 <= transcript.capacity ==> transcript.finished().lines
            == transcript.lines + seq![
            LineView { stream: LogStream::Stdout, text: out },
            LineView { stream: LogStream::Stderr, text: err },
        ],
        transcript.finished().partial_stdout.len() == 0,
        transcript.finished().partial_stderr.len() == 0,
        transcript.lines.len() + transcript.completed(stream, bytes).len() <= transcript.capacity
            ==> transcript.pushed(stream, bytes).lines == transcript.lines + transcript.completed(
            stream,
            bytes,
        ),
{
    let bare = TranscriptView {
        partial_stdout: Seq::empty(),
        partial_stderr: Seq::empty(),
        ..transcript
    };
    law_plain_lines_are_shown_as_written(bare, LogStream::Stdout, out);
    law_plain_lines_are_shown_as_written(bare, LogStream::Stderr, err);
    let more = seq![
        LineView { stream: LogStream::Stdout, text: out },
        LineView { stream: LogStream::Stderr, text: err },
    ];
    assert(transcript.unfinished() =~= more);
}

/// What falls off the front is what there is no room for: every line is kept or counted as
/// dropped, the oldest first.
pub proof fn law_every_line_is_kept_or_dropped(
    transcript: TranscriptView,
    stream: LogStream,
    bytes: Seq<u8>,
)
    ensures
        ({
            let all = transcript.lines + transcript.completed(stream, bytes);
            let dropped = excess(all, transcript.capacity);
            let kept = transcript.pushed(stream, bytes).lines;
            &&& kept.len() + dropped == all.len()
            &&& kept == all.skip(dropped as int)
            &&& dropped > 0 ==> kept.len() == transcript.capacity
        }),
{
    let all = transcript.lines + transcript.completed(stream, bytes);
    assert(all.skip(0) =~= all);
}

} // verus!
