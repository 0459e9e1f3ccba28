//! A Dockerfile, as far as an image's history still tells it.

use vstd::prelude::*;

use crate::engine;
use crate::engine::{total, HistoryEntry, HistoryView};
use crate::lists;
use crate::lists::{put, slice_of};
use crate::model::format::bytes;
use crate::text;
use crate::text::{
    count_text, find_str, join, replace, same, skip_chars, split_once, starts_with, strip_prefix,
    strip_suffix, take_chars, trim, trim_digits, word_len,
};

verus! {

/// One reconstructed line.
#[derive(Debug, Clone, PartialEq, Eq)]
pub struct Instruction {
    /// `FROM`, `RUN`, `COPY`, and so on. Empty for a comment carried through verbatim.
    pub keyword: String,
    pub argument: String,
}

/// The value of an [`Instruction`].
#[verifier::ext_equal]
pub struct InstructionView {
    pub keyword: Seq<char>,
    pub argument: Seq<char>,
}

impl DeepView for Instruction {
    type V = InstructionView;

    open spec fn deep_view(&self) -> InstructionView {
        InstructionView { keyword: self.keyword@, argument: self.argument@ }
    }
}

/// A line as it stands in a Dockerfile.
pub open spec fn instruction_text(instruction: InstructionView) -> Seq<char> {
    if instruction.keyword.len() == 0 {
        instruction.argument
    } else if instruction.argument.len() == 0 {
        instruction.keyword
    } else {
        instruction.keyword + " "@ + instruction.argument
    }
}

impl Instruction {
    /// Whether this is a comment carried through verbatim.
    #[must_use]
    pub fn is_comment(&self) -> (yes: bool)
        ensures
            yes == (self.keyword@.len() == 0),
    {
        self.keyword.as_str().is_empty()
    }

    /// The line as it stands in a Dockerfile.
    #[must_use]
    pub fn render(&self) -> (text: String)
        ensures
            text@ == instruction_text(self.deep_view()),
    {
        if self.is_comment() {
            self.argument.clone()
        } else if self.argument.as_str().is_empty() {
            self.keyword.clone()
        } else {
            self.keyword.clone().concat(" ").concat(self.argument.as_str())
        }
    }
}

/// A Dockerfile that was put together again.
#[derive(Debug, Clone, PartialEq, Eq, Default)]
pub struct Reconstruction {
    pub instructions: Vec<Instruction>,
    /// What the `FROM` line resolved to, when a local base was identified.
    pub base: Option<String>,
    /// Everything the reader needs to distrust, in the order of how much it matters.
    pub caveats: Vec<String>,
}

/// The value of a [`Reconstruction`].
#[verifier::ext_equal]
pub struct ReconstructionView {
    pub instructions: Seq<InstructionView>,
    pub base: Option<Seq<char>>,
    pub caveats: Seq<Seq<char>>,
}

impl DeepView for Reconstruction {
    type V = ReconstructionView;

    open spec fn deep_view(&self) -> ReconstructionView {
        ReconstructionView {
            instructions: self.instructions.deep_view(),
            base: self.base.deep_view(),
            caveats: self.caveats.deep_view(),
        }
    }
}

/// The lines of a reconstruction: its caveats as comments, a blank line, and its
/// instructions.
pub open spec fn rendered_lines(reconstruction: ReconstructionView) -> Seq<Seq<char>> {
    reconstruction.caveats.map_values(|caveat: Seq<char>| "# "@ + caveat) + (
    if reconstruction.caveats.len() == 0 {
        Seq::empty()
    } else {
        seq![Seq::<char>::empty()]
    }) + reconstruction.instructions.map_values(|i: InstructionView| instruction_text(i))
}

impl Reconstruction {
    /// The whole thing as Dockerfile text, caveats included as leading comments.
    #[must_use]
    pub fn render(&self) -> (text: String)
        ensures
            text@ == text::joined(rendered_lines(self.deep_view()), "\n"@),
    {
        let ghost notes = self.caveats.deep_view().map_values(
            |caveat: Seq<char>| "# "@ + caveat,
        );
        let mut lines: Vec<String> = Vec::new();
        let mut i: usize = 0;
        while i < self.caveats.len()
            invariant
                i <= self.caveats@.len(),
                notes == self.caveats.deep_view().map_values(|caveat: Seq<char>| "# "@ + caveat),
                lines.deep_view() == notes.take(i as int),
            decreases self.caveats@.len() - i,
        {
            put(&mut lines, "# ".to_owned().concat(self.caveats[i].as_str()));
            i += 1;
            assert(lines.deep_view() =~= notes.take(i as int));
        }
        assert(lines.deep_view() =~= notes);
        assert(lines.deep_view().len() == lines@.len());
        if lines.len() > 0 {
            put(&mut lines, String::new());
        }
        let ghost head = lines.deep_view();
        let ghost tail = self.instructions.deep_view().map_values(
            |i: InstructionView| instruction_text(i),
        );
        let mut n: usize = 0;
        assert(head =~= head + tail.take(0));
        while n < self.instructions.len()
            invariant
                n <= self.instructions@.len(),
                tail == self.instructions.deep_view().map_values(
                    |i: InstructionView| instruction_text(i),
                ),
                lines.deep_view() == head + tail.take(n as int),
            decreases self.instructions@.len() - n,
        {
            put(&mut lines, self.instructions[n].render());
            n += 1;
            assert(lines.deep_view() =~= head + tail.take(n as int));
        }
        assert(lines.deep_view() =~= rendered_lines(self.deep_view()));
        join(slice_of(&lines), "\n")
    }
}

// --------------------------------------------------------------------- parsing

/// The words that begin an instruction.
pub open spec fn keywords() -> Seq<Seq<char>> {
    seq![
        "ADD"@,
        "ARG"@,
        "CMD"@,
        "COPY"@,
        "ENTRYPOINT"@,
        "ENV"@,
        "EXPOSE"@,
        "FROM"@,
        "HEALTHCHECK"@,
        "LABEL"@,
        "MAINTAINER"@,
        "ONBUILD"@,
        "RUN"@,
        "SHELL"@,
        "STOPSIGNAL"@,
        "USER"@,
        "VOLUME"@,
        "WORKDIR"@,
    ]
}

/// The instruction set, so an unrecognised leading word is reported rather than
/// presented as though it were a Dockerfile keyword.
fn is_instruction(word: &str) -> (yes: bool)
    ensures
        yes == keywords().contains(word@),
{
    let words: [&str; 18] = [
        "ADD",
        "ARG",
        "CMD",
        "COPY",
        "ENTRYPOINT",
        "ENV",
        "EXPOSE",
        "FROM",
        "HEALTHCHECK",
        "LABEL",
        "MAINTAINER",
        "ONBUILD",
        "RUN",
        "SHELL",
        "STOPSIGNAL",
        "USER",
        "VOLUME",
        "WORKDIR",
    ];
    assert forall|k: int| 0 <= k < 18 implies words@[k]@ == #[trigger] keywords()[k] by {}
    let mut i: usize = 0;
    while i < 18
        invariant
            i <= 18,
            words@.len() == 18,
            forall|k: int| 0 <= k < 18 ==> words@[k]@ == #[trigger] keywords()[k],
            forall|k: int| 0 <= k < i ==> #[trigger] keywords()[k] != word@,
        decreases 18 - i,
    {
        if same(words[i], word) {
            assert(keywords()[i as int] == word@);
            return true;
        }
        i += 1;
    }
    false
}

/// A shell command as an instruction.
pub open spec fn run_view(command: Seq<char>) -> InstructionView {
    InstructionView { keyword: "RUN"@, argument: text::trimmed(command) }
}

fn run(command: &str) -> (instruction: Instruction)
    ensures
        instruction.deep_view() == run_view(command@),
{
    Instruction { keyword: "RUN".to_owned(), argument: trim(command).to_owned() }
}

/// What the shell ran, behind the build arguments that stand before it.
pub open spec fn behind_build_args(text: Seq<char>) -> Option<Seq<char>> {
    match text::without_prefix(text, "|"@) {
        Some(rest) => match text::find_in(text::without_digits(rest), "/bin/sh -c "@) {
            Some(at) => Some(text::without_digits(rest).skip((at + "/bin/sh -c "@.len()) as int)),
            None => None,
        },
        None => None,
    }
}

/// Strip a `|N ARG=value ...` prefix, returning what the shell actually ran.
fn strip_build_args(text: &str) -> (command: Option<&str>)
    ensures
        command.deep_view() == behind_build_args(text@),
{
    match strip_prefix(text, "|") {
        Some(rest) => {
            let rest = trim_digits(rest);
            match find_str(rest, "/bin/sh -c ") {
                Some(at) => {
                    let n: usize = "/bin/sh -c ".unicode_len();
                    Some(skip_chars(rest, at + n))
                },
                None => None,
            }
        },
        None => None,
    }
}

/// A Go string slice as the JSON that a Dockerfile needs.
pub open spec fn with_commas(argument: Seq<char>) -> Seq<char> {
    if "["@.is_prefix_of(argument) && "]"@.is_suffix_of(argument) {
        text::replaced(argument, "\" \""@, "\", \""@)
    } else {
        argument
    }
}

/// `["node" "index.js"]` is Go's rendering of a string slice; the JSON form a Dockerfile
/// needs has commas.
fn restore_commas(argument: &str) -> (text: String)
    ensures
        text@ == with_commas(argument@),
{
    if starts_with(argument, "[") && strip_suffix(argument, "]").is_some() {
        proof {
            reveal_strlit("\" \"");
        }
        return replace(argument, "\" \"", "\", \"");
    }
    argument.to_owned()
}

/// What stands between brackets.
pub open spec fn between(text: Seq<char>, open: Seq<char>, close: Seq<char>) -> Option<Seq<char>> {
    match text::without_prefix(text, open) {
        Some(rest) => text::without_suffix(rest, close),
        None => None,
    }
}

/// A bracketed list without its brackets.
pub open spec fn unbracketed(argument: Seq<char>) -> Seq<char> {
    match between(argument, "["@, "]"@) {
        Some(inner) => text::trimmed(inner),
        None => text::trimmed(argument),
    }
}

fn unbracket(argument: &str) -> (text: &str)
    ensures
        text@ == unbracketed(argument@),
{
    match strip_prefix(argument, "[") {
        Some(rest) => match strip_suffix(rest, "]") {
            Some(inner) => trim(inner),
            None => trim(argument),
        },
        None => trim(argument),
    }
}

/// The value of a field in Go's rendering of a struct.
pub open spec fn field_text(text: Seq<char>, field: Seq<char>) -> Option<Seq<char>> {
    match text::find_in(text, field) {
        Some(at) => {
            let rest = text.skip((at + field.len()) as int);
            Some(rest.take(text::word_length(rest, Some('}')) as int))
        },
        None => None,
    }
}

fn field_value<'a>(text: &'a str, field: &str) -> (value: Option<&'a str>)
    ensures
        value.deep_view() == field_text(text@, field@),
{
    match find_str(text, field) {
        Some(at) => {
            let rest = skip_chars(text, at + field.unicode_len());
            let end: usize = word_len(rest, Some('}'));
            Some(take_chars(rest, end))
        },
        None => None,
    }
}

/// A flag for a field that has a value other than zero.
pub open spec fn flag_text(text: Seq<char>, field: Seq<char>, flag: Seq<char>) -> Seq<Seq<char>> {
    match field_text(text, field) {
        Some(value) => if value != "0s"@ && value != "0"@ {
            seq![flag + "="@ + value]
        } else {
            Seq::empty()
        },
        None => Seq::empty(),
    }
}

/// The flags of a health check.
pub open spec fn flags_text(text: Seq<char>) -> Seq<Seq<char>> {
    flag_text(text, "Interval:"@, "--interval"@) + flag_text(text, "Timeout:"@, "--timeout"@)
        + flag_text(text, "StartPeriod:"@, "--start-period"@) + flag_text(
        text,
        "Retries:"@,
        "--retries"@,
    )
}

/// The command of a health check.
pub open spec fn check_command(test: Seq<char>) -> Seq<char> {
    match text::split_once_at(test, ' ') {
        Some((kind, rest)) => if kind == "CMD-SHELL"@ || kind == "CMD"@ {
            "CMD "@ + rest
        } else {
            "CMD "@ + test
        },
        None => "CMD "@ + test,
    }
}

/// A health check put together from the test and from what stands behind it.
pub open spec fn check_text(test: Seq<char>, rest: Seq<char>) -> Seq<char> {
    let flags = flags_text(rest);
    if flags.len() == 0 {
        check_command(test)
    } else {
        text::joined(flags, " "@) + " "@ + check_command(test)
    }
}

/// A health check as a Dockerfile writes it.
pub open spec fn healthcheck_text(argument: Seq<char>) -> Seq<char> {
    match between(argument, "{"@, "}"@) {
        Some(body) => match text::find_in(body, "Test:["@) {
            Some(at) => {
                let after = body.skip((at + "Test:["@.len()) as int);
                match text::split_once_at(after, ']') {
                    Some((test, _)) => check_text(test, after.skip(test.len() as int)),
                    None => argument,
                }
            },
            None => argument,
        },
        None => argument,
    }
}

fn push_flag(flags: &mut Vec<String>, text: &str, field: &str, flag: &str)
    ensures
        final(flags).deep_view() == old(flags).deep_view() + flag_text(text@, field@, flag@),
{
    let ghost before = flags.deep_view();
    if let Some(value) = field_value(text, field) {
        if !same(value, "0s") && !same(value, "0") {
            put(flags, flag.to_owned().concat("=").concat(value));
        }
    }
    assert(flags.deep_view() =~= before + flag_text(text@, field@, flag@));
}

fn check_of(test: &str, rest: &str) -> (text: String)
    ensures
        text@ == check_text(test@, rest@),
{
    let mut flags: Vec<String> = Vec::new();
    assert(flags.deep_view() =~= Seq::<Seq<char>>::empty());
    push_flag(&mut flags, rest, "Interval:", "--interval");
    push_flag(&mut flags, rest, "Timeout:", "--timeout");
    push_flag(&mut flags, rest, "StartPeriod:", "--start-period");
    push_flag(&mut flags, rest, "Retries:", "--retries");
    assert(flags.deep_view() =~= flags_text(rest@));
    assert(flags.deep_view().len() == flags@.len());
    let command = match split_once(test, ' ') {
        Some((kind, command)) => if same(kind, "CMD-SHELL") || same(kind, "CMD") {
            "CMD ".to_owned().concat(command)
        } else {
            "CMD ".to_owned().concat(test)
        },
        None => "CMD ".to_owned().concat(test),
    };
    if flags.len() == 0 {
        command
    } else {
        join(slice_of(&flags), " ").concat(" ").concat(command.as_str())
    }
}

/// Turn Go's struct rendering back into flags and a command.
///
/// `{Test:[CMD-SHELL curl -f localhost] Interval:15s Timeout:3s Retries:3}` becomes
/// `--interval=15s --timeout=3s --retries=3 CMD curl -f localhost`. A shape we do not
/// recognise is returned untouched rather than mangled.
fn healthcheck(argument: &str) -> (text: String)
    ensures
        text@ == healthcheck_text(argument@),
{
    let body = match strip_prefix(argument, "{") {
        Some(rest) => match strip_suffix(rest, "}") {
            Some(body) => body,
            None => {
                return argument.to_owned();
            },
        },
        None => {
            return argument.to_owned();
        },
    };
    let at: usize = match find_str(body, "Test:[") {
        Some(at) => at,
        None => {
            return argument.to_owned();
        },
    };
    let after = skip_chars(body, at + "Test:[".unicode_len());
    match split_once(after, ']') {
        Some((test, _)) => {
            proof {
                text::lemma_find(after@, ']');
            }
            check_of(test, skip_chars(after, test.unicode_len()))
        },
        None => argument.to_owned(),
    }
}

/// The argument of an instruction as a Dockerfile writes it.
#[verifier::opaque]
pub open spec fn argument_text(keyword: Seq<char>, argument: Seq<char>) -> Seq<char> {
    if keyword == "RUN"@ {
        match text::without_prefix(argument, "/bin/sh -c "@) {
            Some(rest) => text::trimmed(rest),
            None => text::trimmed(argument),
        }
    } else if keyword == "CMD"@ || keyword == "ENTRYPOINT"@ {
        with_commas(argument)
    } else if keyword == "EXPOSE"@ || keyword == "VOLUME"@ {
        unbracketed(argument)
    } else if keyword == "HEALTHCHECK"@ {
        healthcheck_text(argument)
    } else {
        argument
    }
}

/// Undo the daemon's rendering of an instruction's argument.
///
/// The history records what the builder held in memory, printed with Go's default
/// formatting. That is not Dockerfile syntax: string slices lose their commas, `EXPOSE`
/// and `VOLUME` arrive as bracketed lists, and `HEALTHCHECK` as a struct. All four were
/// found on real images rather than imagined.
fn normalise(keyword: &str, argument: &str) -> (text: String)
    ensures
        text@ == argument_text(keyword@, argument@),
{
    reveal(argument_text);
    if same(keyword, "RUN") {
        match strip_prefix(argument, "/bin/sh -c ") {
            Some(rest) => trim(rest).to_owned(),
            None => trim(argument).to_owned(),
        }
    } else if same(keyword, "CMD") || same(keyword, "ENTRYPOINT") {
        restore_commas(argument)
    } else if same(keyword, "EXPOSE") || same(keyword, "VOLUME") {
        unbracket(argument).to_owned()
    } else if same(keyword, "HEALTHCHECK") {
        healthcheck(argument)
    } else {
        argument.to_owned()
    }
}

/// What follows a word and the white space character behind it.
pub open spec fn after_word(text: Seq<char>, word: Seq<char>) -> Seq<char> {
    if word.len() < text.len() {
        text.skip((word.len() + 1) as int)
    } else {
        Seq::empty()
    }
}

/// A recorded instruction.
pub open spec fn keyword_view(text: Seq<char>) -> InstructionView {
    let keyword = text.take(text::word_length(text, None) as int);
    if keyword.len() == 0 {
        InstructionView { keyword: Seq::empty(), argument: Seq::empty() }
    } else if !keywords().contains(keyword) {
        InstructionView { keyword: Seq::empty(), argument: "# "@ + text }
    } else {
        InstructionView {
            keyword,
            argument: argument_text(keyword, text::trimmed(after_word(text, keyword))),
        }
    }
}

/// Split `CMD ["x"]` into its keyword and argument. Anything that does not look like an
/// instruction becomes a comment rather than being guessed at.
fn keyword_form(text: &str) -> (instruction: Instruction)
    ensures
        instruction.deep_view() == keyword_view(text@),
{
    let n: usize = word_len(text, None);
    let keyword = take_chars(text, n);
    if n == 0 {
        return Instruction { keyword: String::new(), argument: String::new() };
    }
    if !is_instruction(keyword) {
        return Instruction { keyword: String::new(), argument: "# ".to_owned().concat(text) };
    }
    let rest = if n < text.unicode_len() {
        skip_chars(text, n + 1)
    } else {
        skip_chars(text, n)
    };
    assert(rest@ =~= after_word(text@, keyword@));
    Instruction { keyword: keyword.to_owned(), argument: normalise(keyword, trim(rest)) }
}

/// An instruction, and whether build arguments were baked into it.
pub struct Parsed {
    pub instruction: Instruction,
    pub baked_args: bool,
}

/// A recorded command without the note of the builder that ran it.
pub open spec fn recorded(created_by: Seq<char>) -> Seq<char> {
    match text::without_suffix(created_by, " # buildkit"@) {
        Some(rest) => text::trimmed(rest),
        None => text::trimmed(created_by),
    }
}

/// The instruction that a recorded command came from.
pub open spec fn parsed_view(created_by: Seq<char>) -> InstructionView {
    let text = recorded(created_by);
    match behind_build_args(text) {
        Some(rest) => run_view(rest),
        None => match text::without_prefix(text, "/bin/sh -c #(nop) "@) {
            Some(rest) => keyword_view(text::trimmed(rest)),
            None => match text::without_prefix(text, "/bin/sh -c #(nop)"@) {
                Some(rest) => keyword_view(text::trimmed(rest)),
                None => match text::without_prefix(text, "/bin/sh -c "@) {
                    Some(rest) => run_view(rest),
                    None => if "#"@.is_prefix_of(text) {
                        InstructionView { keyword: Seq::empty(), argument: text }
                    } else {
                        keyword_view(text)
                    },
                },
            },
        },
    }
}

/// Whether build arguments were baked into a recorded command.
pub open spec fn baked(created_by: Seq<char>) -> bool {
    behind_build_args(recorded(created_by)) is Some
}

/// Turn one recorded command back into an instruction.
#[must_use]
pub fn parse(created_by: &str) -> (parsed: Parsed)
    ensures
        parsed.instruction.deep_view() == parsed_view(created_by@),
        parsed.baked_args == baked(created_by@),
{
    let text = match strip_suffix(created_by, " # buildkit") {
        Some(rest) => trim(rest),
        None => trim(created_by),
    };
    if let Some(rest) = strip_build_args(text) {
        return Parsed { instruction: run(rest), baked_args: true };
    }
    if let Some(rest) = strip_prefix(text, "/bin/sh -c #(nop) ") {
        return Parsed { instruction: keyword_form(trim(rest)), baked_args: false };
    }
    if let Some(rest) = strip_prefix(text, "/bin/sh -c #(nop)") {
        return Parsed { instruction: keyword_form(trim(rest)), baked_args: false };
    }
    if let Some(rest) = strip_prefix(text, "/bin/sh -c ") {
        return Parsed { instruction: run(rest), baked_args: false };
    }
    if starts_with(text, "#") {
        return Parsed {
            instruction: Instruction { keyword: String::new(), argument: text.to_owned() },
            baked_args: false,
        };
    }
    Parsed { instruction: keyword_form(text), baked_args: false }
}

// -------------------------------------------------------------- reconstruction

/// What every reconstruction says of itself.
pub const DISCLAIMER: &'static str =
    "Reconstructed from this image's build history. It is not the original Dockerfile, and will not necessarily rebuild an identical image.";

/// Said when there is no base to name.
pub const NO_BASE: &'static str =
    "No local image matches this one's lower layers, so the FROM line could not be recovered. The instructions below may include the base image's own.";

/// Said when files were copied.
pub const COPIED: &'static str =
    "A COPY or ADD in a multi-stage build records the path inside the stage it copied from, not the stage's name. Those paths will not exist in your build context.";

/// Said when build arguments were used.
pub const BAKED: &'static str =
    "Build arguments are recorded with their values substituted in. The ARG declarations themselves are gone.";

/// Said when there is only one step.
pub const SQUASHED: &'static str =
    "This image has a single history entry, which usually means it was squashed or imported. Its individual instructions no longer exist.";

/// How many of the steps are the image's own: those above its base, and all of
/// them when that leaves none.
pub open spec fn own_steps(
    history: Seq<HistoryView>,
    has_base: bool,
    base_history: Seq<HistoryView>,
) -> nat {
    if has_base && history.len() > base_history.len() {
        (history.len() - base_history.len()) as nat
    } else {
        history.len()
    }
}

/// The image's own recorded commands, the oldest first.
pub open spec fn own_commands(
    history: Seq<HistoryView>,
    has_base: bool,
    base_history: Seq<HistoryView>,
) -> Seq<Seq<char>> {
    let own = own_steps(history, has_base, base_history);
    Seq::new(own, |i: int| history[own - 1 - i].created_by)
}

/// Whether an instruction shows anything.
pub open spec fn visible(instruction: InstructionView) -> bool {
    text::trimmed(instruction_text(instruction)).len() > 0
}

/// Whether an instruction copies files.
pub open spec fn copies(instruction: InstructionView) -> bool {
    instruction.keyword == "COPY"@ || instruction.keyword == "ADD"@
}

/// Whether any of some commands copies files.
pub open spec fn any_copies(commands: Seq<Seq<char>>) -> bool {
    exists|i: int| 0 <= i < commands.len() && copies(parsed_view(#[trigger] commands[i]))
}

/// Whether any of some commands has build arguments baked into it.
pub open spec fn any_baked(commands: Seq<Seq<char>>) -> bool {
    exists|i: int| 0 <= i < commands.len() && baked(#[trigger] commands[i])
}

/// The instructions of some commands that show anything.
pub open spec fn visible_instructions(commands: Seq<Seq<char>>) -> Seq<InstructionView> {
    commands.map_values(|c: Seq<char>| parsed_view(c)).filter(|i: InstructionView| visible(i))
}

/// What a reader has to distrust.
pub open spec fn caveats_text(
    history: Seq<HistoryView>,
    has_base: bool,
    commands: Seq<Seq<char>>,
) -> Seq<Seq<char>> {
    seq![DISCLAIMER@] + (if has_base {
        Seq::empty()
    } else {
        seq![NO_BASE@]
    }) + (if any_copies(commands) {
        seq![COPIED@]
    } else {
        Seq::empty()
    }) + (if any_baked(commands) {
        seq![BAKED@]
    } else {
        Seq::empty()
    }) + (if history.len() == 1 {
        seq![SQUASHED@]
    } else {
        Seq::empty()
    })
}

/// The line that names the base, when it is known.
pub open spec fn from_line(base: Option<Seq<char>>) -> Seq<InstructionView> {
    match base {
        Some(name) => seq![InstructionView { keyword: "FROM"@, argument: name }],
        None => Seq::empty(),
    }
}

/// A Dockerfile from an image's history.
pub open spec fn reconstruction(
    history: Seq<HistoryView>,
    base: Option<Seq<char>>,
    base_history: Seq<HistoryView>,
) -> ReconstructionView {
    let commands = own_commands(history, base is Some, base_history);
    ReconstructionView {
        instructions: from_line(base) + visible_instructions(commands),
        base,
        caveats: caveats_text(history, base is Some, commands),
    }
}

/// Rebuild a Dockerfile.
///
/// `history` and `base_history` arrive newest-first, as the daemon reports them.
/// `base` names the image the layer-prefix analysis identified, if any.
#[must_use]
pub fn reconstruct(history: &[HistoryEntry], base: Option<&str>, base_history: &[HistoryEntry]) -> (
    rebuilt: Reconstruction)
    ensures
        rebuilt.deep_view() == reconstruction(
            history.deep_view(),
            base.deep_view(),
            base_history.deep_view(),
        ),
{
    let ghost steps = history.deep_view();
    let ghost commands = own_commands(steps, base is Some, base_history.deep_view());
    let ghost p = |i: InstructionView| visible(i);
    let ghost f = |c: Seq<char>| parsed_view(c);
    let mut caveats: Vec<String> = Vec::new();
    put(&mut caveats, DISCLAIMER.to_owned());
    let own: usize = if base.is_some() && history.len() > base_history.len() {
        history.len() - base_history.len()
    } else {
        history.len()
    };
    let mut instructions: Vec<Instruction> = Vec::new();
    match base {
        Some(name) => {
            put(
                &mut instructions,
                Instruction { keyword: "FROM".to_owned(), argument: name.to_owned() },
            );
        },
        None => {
            put(&mut caveats, NO_BASE.to_owned());
        },
    }
    assert(instructions.deep_view() =~= from_line(base.deep_view()));
    let ghost head = instructions.deep_view();
    let ghost all = commands.map_values(f);
    let mut baked_args = false;
    let mut copied = false;
    let mut i: usize = 0;
    proof {
        lists::lemma_filter_ends(all, p);
        assert(head =~= head + all.take(0).filter(p));
    }
    while i < own
        invariant
            i <= own,
            own == commands.len(),
            own <= history@.len(),
            steps == history.deep_view(),
            commands == Seq::new(own as nat, |i: int| steps[own - 1 - i].created_by),
            p == (|i: InstructionView| visible(i)),
            f == (|c: Seq<char>| parsed_view(c)),
            all == commands.map_values(f),
            instructions.deep_view() == head + all.take(i as int).filter(p),
            baked_args == any_baked(commands.take(i as int)),
            copied == any_copies(commands.take(i as int)),
        decreases own - i,
    {
        let parsed = parse(history[own - 1 - i].created_by.as_str());
        let ghost command = commands[i as int];
        let ghost had = instructions.deep_view();
        proof {
            lists::lemma_filter_step(all, p, i as int);
            assert(all[i as int] == parsed.instruction.deep_view());
            let before = commands.take(i as int);
            let after = commands.take(i + 1);
            assert(after =~= before.push(command));
            if any_baked(before) {
                let k = choose|k: int| 0 <= k < before.len() && baked(#[trigger] before[k]);
                assert(baked(after[k]));
            }
            if any_copies(before) {
                let k = choose|k: int|
                    0 <= k < before.len() && copies(parsed_view(#[trigger] before[k]));
                assert(copies(parsed_view(after[k])));
            }
            if any_baked(after) {
                let k = choose|k: int| 0 <= k < after.len() && baked(#[trigger] after[k]);
                if k < before.len() {
                    assert(baked(before[k]));
                }
            }
            if any_copies(after) {
                let k = choose|k: int|
                    0 <= k < after.len() && copies(parsed_view(#[trigger] after[k]));
                if k < before.len() {
                    assert(copies(parsed_view(before[k])));
                }
            }
            assert(after[i as int] == command);
        }
        if parsed.baked_args {
            baked_args = true;
        }
        if same(parsed.instruction.keyword.as_str(), "COPY") || same(
            parsed.instruction.keyword.as_str(),
            "ADD",
        ) {
            copied = true;
        }
        let shown = parsed.instruction.render();
        if !trim(shown.as_str()).is_empty() {
            put(&mut instructions, parsed.instruction);
        }
        i += 1;
        assert(instructions.deep_view() =~= head + all.take(i as int).filter(p));
    }
    proof {
        lists::lemma_filter_ends(all, p);
        assert(commands.take(i as int) =~= commands);
    }
    if copied {
        put(&mut caveats, COPIED.to_owned());
    }
    if baked_args {
        put(&mut caveats, BAKED.to_owned());
    }
    if history.len() == 1 {
        put(&mut caveats, SQUASHED.to_owned());
    }
    assert(caveats.deep_view() =~= caveats_text(steps, base is Some, commands));
    Reconstruction {
        instructions,
        base: match base {
            Some(name) => Some(name.to_owned()),
            None => None,
        },
        caveats,
    }
}

/// The instructions that are not comments.
pub open spec fn effective(instructions: Seq<InstructionView>) -> nat {
    instructions.filter(|i: InstructionView| i.keyword.len() > 0).len()
}

/// The sizes of some steps.
pub open spec fn step_sizes(history: Seq<HistoryView>) -> Seq<i64> {
    history.map_values(|entry: HistoryView| entry.size)
}

/// A one-line summary for the detail pane's group heading.
#[must_use]
pub fn summary(reconstruction: &Reconstruction, history: &[HistoryEntry]) -> (text: String)
    requires
        engine::sum_fits(step_sizes(history.deep_view())),
    ensures
        text@ == text::decimal(effective(reconstruction.deep_view().instructions)) + " instructions, "@
            + crate::model::format::bytes_text(engine::sum(step_sizes(history.deep_view()))),
{
    let mut sizes: Vec<i64> = Vec::new();
    let mut i: usize = 0;
    while i < history.len()
        invariant
            i <= history@.len(),
            sizes@ == step_sizes(history.deep_view()).take(i as int),
        decreases history@.len() - i,
    {
        sizes.push(history[i].size);
        i += 1;
        assert(sizes@ =~= step_sizes(history.deep_view()).take(i as int));
    }
    assert(sizes@ =~= step_sizes(history.deep_view()));
    let ghost all = reconstruction.instructions.deep_view();
    let ghost p = |i: InstructionView| i.keyword.len() > 0;
    let mut count: usize = 0;
    let mut n: usize = 0;
    proof {
        lists::lemma_filter_ends(all, p);
    }
    while n < reconstruction.instructions.len()
        invariant
            n <= reconstruction.instructions@.len(),
            all == reconstruction.instructions.deep_view(),
            p == (|i: InstructionView| i.keyword.len() > 0),
            count == all.take(n as int).filter(p).len(),
            count <= n,
        decreases reconstruction.instructions@.len() - n,
    {
        proof {
            lists::lemma_filter_step(all, p, n as int);
        }
        if !reconstruction.instructions[n].is_comment() {
            count += 1;
        }
        n += 1;
    }
    proof {
        lists::lemma_filter_ends(all, p);
    }
    count_text(count).concat(" instructions, ").concat(bytes(total(&sizes)).as_str())
}

/// Every reconstruction says first that it is one; it begins with `FROM` when
/// the base is known, and says that the base is missing when it is not.
pub proof fn law_reconstruction_is_honest(
    history: Seq<HistoryView>,
    base: Option<Seq<char>>,
    base_history: Seq<HistoryView>,
)
    ensures
        reconstruction(history, base, base_history).caveats.len() > 0,
        reconstruction(history, base, base_history).caveats[0] == DISCLAIMER@,
        reconstruction(history, base, base_history).base == base,
        base matches Some(name) ==> reconstruction(history, base, base_history).instructions.len()
            > 0 && reconstruction(history, base, base_history).instructions[0] == (
        InstructionView { keyword: "FROM"@, argument: name }),
        base is None ==> reconstruction(history, base, base_history).caveats[1] == NO_BASE@,
{
}

/// Whether an instruction is what one of some commands recorded.
pub open spec fn recorded_by(instruction: InstructionView, commands: Seq<Seq<char>>) -> bool {
    exists|k: int| 0 <= k < commands.len() && parsed_view(#[trigger] commands[k]) == instruction
}

/// Beyond the `FROM` line there is at most one instruction for each of the
/// image's own steps, and each shows something and is what one of those steps
/// recorded.
pub proof fn law_nothing_is_invented(
    history: Seq<HistoryView>,
    base: Option<Seq<char>>,
    base_history: Seq<HistoryView>,
    index: int,
)
    requires
        from_line(base).len() <= index < reconstruction(
            history,
            base,
            base_history,
        ).instructions.len(),
    ensures
        reconstruction(history, base, base_history).instructions.len() <= from_line(base).len()
            + own_steps(history, base is Some, base_history),
        visible(reconstruction(history, base, base_history).instructions[index]),
        recorded_by(
            reconstruction(history, base, base_history).instructions[index],
            own_commands(history, base is Some, base_history),
        ),
{
    let commands = own_commands(history, base is Some, base_history);
    let all = commands.map_values(|c: Seq<char>| parsed_view(c));
    let p = |i: InstructionView| visible(i);
    lists::lemma_filter_keeps(all, p);
    let instruction = reconstruction(history, base, base_history).instructions[index];
    assert(instruction == all.filter(p)[index - from_line(base).len()]);
    assert(all.filter(p).contains(instruction));
    let k = choose|k: int| 0 <= k < all.len() && all[k] == instruction;
    assert(parsed_view(commands[k]) == instruction);
}

// ------------------------------------------------------------ laws of single steps

/// The instructions whose argument the history keeps as it was written.
pub open spec fn kept_verbatim(keyword: Seq<char>) -> bool {
    ||| keyword == "ADD"@
    ||| keyword == "ARG"@
    ||| keyword == "COPY"@
    ||| keyword == "ENV"@
    ||| keyword == "FROM"@
    ||| keyword == "LABEL"@
    ||| keyword == "MAINTAINER"@
    ||| keyword == "ONBUILD"@
    ||| keyword == "SHELL"@
    ||| keyword == "STOPSIGNAL"@
    ||| keyword == "USER"@
    ||| keyword == "WORKDIR"@
}

/// Whether a text shows something, with no white space at its ends.
pub open spec fn bare(text: Seq<char>) -> bool {
    text.len() > 0 && !text::is_space(text[0]) && !text::is_space(text.last())
}

/// Whether a text is a word of capital letters.
spec fn capitals(word: Seq<char>) -> bool {
    word.len() > 0 && forall|i: int| 0 <= i < word.len() ==> 'A' <= #[trigger] word[i] <= 'Z'
}

proof fn lemma_keyword_letters(index: int)
    requires
        0 <= index < 18,
    ensures
        capitals(keywords()[index]),
{
    reveal_strlit("ADD");
    reveal_strlit("ARG");
    reveal_strlit("CMD");
    reveal_strlit("COPY");
    reveal_strlit("ENTRYPOINT");
    reveal_strlit("ENV");
    reveal_strlit("EXPOSE");
    reveal_strlit("FROM");
    reveal_strlit("HEALTHCHECK");
    reveal_strlit("LABEL");
    reveal_strlit("MAINTAINER");
    reveal_strlit("ONBUILD");
    reveal_strlit("RUN");
    reveal_strlit("SHELL");
    reveal_strlit("STOPSIGNAL");
    reveal_strlit("USER");
    reveal_strlit("VOLUME");
    reveal_strlit("WORKDIR");
}

/// The keywords that have a rule of their own.
spec fn has_own_rule(keyword: Seq<char>) -> bool {
    keyword == "RUN"@ || keyword == "CMD"@ || keyword == "ENTRYPOINT"@ || keyword == "EXPOSE"@
        || keyword == "VOLUME"@ || keyword == "HEALTHCHECK"@
}

proof fn lemma_verbatim_keyword(keyword: Seq<char>)
    requires
        kept_verbatim(keyword),
    ensures
        keywords().contains(keyword),
        !has_own_rule(keyword),
        capitals(keyword),
{
    let all = keywords();
    assert(all[0] == "ADD"@ && all[1] == "ARG"@ && all[3] == "COPY"@ && all[5] == "ENV"@ && all[7]
        == "FROM"@ && all[9] == "LABEL"@ && all[10] == "MAINTAINER"@ && all[11] == "ONBUILD"@
        && all[13] == "SHELL"@ && all[14] == "STOPSIGNAL"@ && all[15] == "USER"@ && all[17]
        == "WORKDIR"@);
    let index = choose|index: int| 0 <= index < 18 && all[index] == keyword;
    lemma_keyword_letters(index);
    lemma_verbatim_has_no_rule(keyword);
}

proof fn lemma_verbatim_has_no_rule(keyword: Seq<char>)
    requires
        kept_verbatim(keyword),
    ensures
        !has_own_rule(keyword),
{
    reveal_strlit("ADD");
    reveal_strlit("ARG");
    reveal_strlit("CMD");
    reveal_strlit("COPY");
    reveal_strlit("ENTRYPOINT");
    reveal_strlit("ENV");
    reveal_strlit("EXPOSE");
    reveal_strlit("FROM");
    reveal_strlit("HEALTHCHECK");
    reveal_strlit("LABEL");
    reveal_strlit("MAINTAINER");
    reveal_strlit("ONBUILD");
    reveal_strlit("RUN");
    reveal_strlit("SHELL");
    reveal_strlit("STOPSIGNAL");
    reveal_strlit("USER");
    reveal_strlit("VOLUME");
    reveal_strlit("WORKDIR");
    assert("RUN"@[0] == 'R' && "CMD"@[0] == 'C' && "ENTRYPOINT"@[0] == 'E');
    assert("ADD"@[0] == 'A' && "ARG"@[0] == 'A' && "ENV"@[0] == 'E');
    assert("MAINTAINER"@[0] == 'M' && "STOPSIGNAL"@[0] == 'S');
    assert("RUN"@.len() == 3 && "CMD"@.len() == 3 && "ENTRYPOINT"@.len() == 10);
    assert("EXPOSE"@.len() == 6 && "VOLUME"@.len() == 6 && "HEALTHCHECK"@.len() == 11);
    assert("ADD"@.len() == 3 && "ARG"@.len() == 3 && "ENV"@.len() == 3 && "COPY"@.len() == 4);
    assert("FROM"@.len() == 4 && "USER"@.len() == 4 && "LABEL"@.len() == 5 && "SHELL"@.len() == 5);
    assert("ONBUILD"@.len() == 7 && "WORKDIR"@.len() == 7);
    assert("MAINTAINER"@.len() == 10 && "STOPSIGNAL"@.len() == 10);
}

proof fn lemma_bare_is_trimmed(text: Seq<char>)
    requires
        bare(text),
    ensures
        text::trimmed(text) == text,
{
    assert(text::trimmed_start(text) == text);
}

proof fn lemma_recorded(text: Seq<char>)
    requires
        bare(text),
    ensures
        recorded(text + " # buildkit"@) == text,
        !" # buildkit"@.is_suffix_of(text) ==> recorded(text) == text,
{
    let note = " # buildkit"@;
    lemma_bare_is_trimmed(text);
    let whole = text + note;
    assert(whole.subrange(text.len() as int, whole.len() as int) =~= note);
    assert(note.is_suffix_of(whole));
    assert(whole.take(whole.len() - note.len()) =~= text);
}

proof fn lemma_begins_with_capital(created_by: Seq<char>)
    requires
        recorded(created_by).len() > 0,
        'A' <= recorded(created_by)[0] <= 'Z',
    ensures
        parsed_view(created_by) == keyword_view(recorded(created_by)),
        !baked(created_by),
{
    let text = recorded(created_by);
    reveal_strlit("|");
    reveal_strlit("/bin/sh -c #(nop) ");
    reveal_strlit("/bin/sh -c #(nop)");
    reveal_strlit("/bin/sh -c ");
    reveal_strlit("#");
    if "|"@.is_prefix_of(text) {
        assert(text.subrange(0, 1)[0] == "|"@[0]);
    }
    if "/bin/sh -c #(nop) "@.is_prefix_of(text) {
        assert(text.subrange(0, 18)[0] == "/bin/sh -c #(nop) "@[0]);
    }
    if "/bin/sh -c #(nop)"@.is_prefix_of(text) {
        assert(text.subrange(0, 17)[0] == "/bin/sh -c #(nop)"@[0]);
    }
    if "/bin/sh -c "@.is_prefix_of(text) {
        assert(text.subrange(0, 11)[0] == "/bin/sh -c "@[0]);
    }
    if "#"@.is_prefix_of(text) {
        assert(text.subrange(0, 1)[0] == "#"@[0]);
    }
}

#[verifier::rlimit(60)]
#[verifier::spinoff_prover]
proof fn lemma_keyword_and_argument(keyword: Seq<char>, argument: Seq<char>)
    requires
        keywords().contains(keyword),
        capitals(keyword),
        bare(argument),
    ensures
        keyword_view(keyword + seq![' '] + argument) == (InstructionView {
            keyword,
            argument: argument_text(keyword, argument),
        }),
        bare(keyword + seq![' '] + argument),
{
    let whole = keyword + seq![' '] + argument;
    let behind = seq![' '] + argument;
    assert(whole =~= keyword + behind);
    lemma_capitals_are_no_space(keyword);
    assert(text::word_length(whole, None) == keyword.len()) by {
        text::lemma_word_length(keyword, behind, None);
    }
    assert(whole.take(keyword.len() as int) =~= keyword);
    assert(after_word(whole, keyword) =~= argument);
    assert(text::trimmed(argument) == argument) by {
        lemma_bare_is_trimmed(argument);
    }
    assert(whole[0] == keyword[0]);
    assert(whole.last() == argument.last());
}

proof fn lemma_capitals_are_no_space(word: Seq<char>)
    requires
        capitals(word),
    ensures
        forall|i: int| 0 <= i < word.len() ==> !text::is_space(#[trigger] word[i]),
{
    assert forall|i: int| 0 <= i < word.len() implies !text::is_space(#[trigger] word[i]) by {
        assert('A' <= word[i] <= 'Z');
    }
}

proof fn lemma_step(keyword: Seq<char>, argument: Seq<char>)
    requires
        keywords().contains(keyword),
        capitals(keyword),
        bare(argument),
    ensures
        parsed_view(keyword + seq![' '] + argument + " # buildkit"@) == (InstructionView {
            keyword,
            argument: argument_text(keyword, argument),
        }),
        !" # buildkit"@.is_suffix_of(keyword + seq![' '] + argument) ==> parsed_view(
            keyword + seq![' '] + argument,
        ) == (InstructionView { keyword, argument: argument_text(keyword, argument) }),
        !baked(keyword + seq![' '] + argument + " # buildkit"@),
{
    let whole = keyword + seq![' '] + argument;
    lemma_keyword_and_argument(keyword, argument);
    lemma_recorded(whole);
    assert(whole[0] == keyword[0]);
    lemma_begins_with_capital(whole + " # buildkit"@);
    if !" # buildkit"@.is_suffix_of(whole) {
        lemma_begins_with_capital(whole);
    }
}

/// A step that the history keeps as it was written comes out as it was written, whole, with
/// or without the builder's note behind it.
pub proof fn law_verbatim_steps_come_out_as_written(keyword: Seq<char>, argument: Seq<char>)
    requires
        kept_verbatim(keyword),
        bare(argument),
    ensures
        instruction_text(parsed_view(keyword + seq![' '] + argument + " # buildkit"@)) == keyword
            + seq![' '] + argument,
        !" # buildkit"@.is_suffix_of(keyword + seq![' '] + argument) ==> instruction_text(
            parsed_view(keyword + seq![' '] + argument),
        ) == keyword + seq![' '] + argument,
{
    lemma_verbatim_keyword(keyword);
    lemma_step(keyword, argument);
    reveal(argument_text);
    reveal_strlit(" ");
    assert(" "@ =~= seq![' ']);
}

/// What the shell ran comes out as the command of a `RUN` line, whichever builder recorded
/// it: with the shell alone before it, behind the word `RUN`, or behind the build arguments
/// that were baked in, which is said of it and of no other.
pub proof fn law_shell_steps_come_out_as_run_lines(
    command: Seq<char>,
    count: nat,
    arguments: Seq<char>,
)
    requires
        bare(command),
        !"#(nop)"@.is_prefix_of(command),
        !"# buildkit"@.is_suffix_of(command),
        !"/bin/sh -c "@.is_prefix_of(command),
        !arguments.contains('/'),
        arguments.len() > 0 ==> arguments[0] == ' ',
    ensures
        instruction_text(parsed_view("/bin/sh -c "@ + command)) == "RUN "@ + command,
        instruction_text(parsed_view("/bin/sh -c "@ + command + " # buildkit"@)) == "RUN "@ + command,
        instruction_text(parsed_view("RUN /bin/sh -c "@ + command + " # buildkit"@)) == "RUN "@
            + command,
        instruction_text(parsed_view("RUN "@ + command + " # buildkit"@)) == "RUN "@ + command,
        instruction_text(
            parsed_view("|"@ + text::decimal(count) + arguments + "/bin/sh -c "@ + command),
        ) == "RUN "@ + command,
        instruction_text(
            parsed_view(
                "|"@ + text::decimal(count) + arguments + "/bin/sh -c "@ + command + " # buildkit"@,
            ),
        ) == "RUN "@ + command,
        baked("|"@ + text::decimal(count) + arguments + "/bin/sh -c "@ + command),
        !baked("/bin/sh -c "@ + command),
        !baked("RUN /bin/sh -c "@ + command + " # buildkit"@),
{
    lemma_plain_shell_step(command);
    lemma_run_step(command);
    lemma_baked_step(command, count, arguments);
}

proof fn lemma_run_text(command: Seq<char>)
    requires
        command.len() > 0,
    ensures
        instruction_text(InstructionView { keyword: "RUN"@, argument: command }) == "RUN "@ + command,
{
    reveal_strlit("RUN");
    reveal_strlit("RUN ");
    reveal_strlit(" ");
    assert("RUN"@ + " "@ + command =~= "RUN "@ + command);
}

proof fn lemma_no_note(front: Seq<char>, command: Seq<char>)
    requires
        bare(command),
        !"# buildkit"@.is_suffix_of(command),
        front.len() > 0,
        !front.contains('#'),
        !text::is_space(front[0]),
    ensures
        !" # buildkit"@.is_suffix_of(front + command),
        bare(front + command),
{
    reveal_strlit(" # buildkit");
    reveal_strlit("# buildkit");
    let note = " # buildkit"@;
    let whole = front + command;
    assert(whole.last() == command.last());
    if note.is_suffix_of(whole) {
        let from = whole.len() - 11;
        assert forall|i: int| 0 <= i < 11 implies whole[from + i] == note[i] by {
            assert(whole.subrange(from, whole.len() as int)[i] == note[i]);
        }
        assert(note[1] == '#' && note[0] == ' ');
        assert(whole[from + 1] == '#');
        if from + 1 < front.len() {
            assert(front[from + 1] == '#');
            assert(front.contains('#'));
        }
        assert(from + 1 >= front.len());
        let end = command.subrange(command.len() - 10, command.len() as int);
        assert forall|i: int| 0 <= i < 10 implies end[i] == "# buildkit"@[i] by {
            assert(end[i] == whole[from + 1 + i]);
            assert(whole[from + (i + 1)] == note[i + 1]);
            assert(note[i + 1] == "# buildkit"@[i]);
        }
        assert(end =~= "# buildkit"@);
    }
}

proof fn lemma_plain_shell_step(command: Seq<char>)
    requires
        bare(command),
        !"#(nop)"@.is_prefix_of(command),
        !"# buildkit"@.is_suffix_of(command),
    ensures
        instruction_text(parsed_view("/bin/sh -c "@ + command)) == "RUN "@ + command,
        instruction_text(parsed_view("/bin/sh -c "@ + command + " # buildkit"@)) == "RUN "@ + command,
        !baked("/bin/sh -c "@ + command),
{
    reveal_strlit("/bin/sh -c ");
    reveal_strlit("/bin/sh -c #(nop)");
    reveal_strlit("/bin/sh -c #(nop) ");
    reveal_strlit("#(nop)");
    reveal_strlit("|");
    let shell = "/bin/sh -c "@;
    let whole = shell + command;
    assert(whole[0] == '/' && whole.last() == command.last());
    assert(bare(whole));
    lemma_recorded(whole);
    assert(recorded(whole) == whole) by {
        lemma_shell_has_no_note(command);
    }
    if "|"@.is_prefix_of(whole) {
        assert(whole.subrange(0, 1)[0] == "|"@[0]);
    }
    if "/bin/sh -c #(nop)"@.is_prefix_of(whole) {
        lemma_nop_behind_shell(command, "/bin/sh -c #(nop)"@);
    }
    if "/bin/sh -c #(nop) "@.is_prefix_of(whole) {
        lemma_nop_behind_shell(command, "/bin/sh -c #(nop) "@);
    }
    assert(shell.is_prefix_of(whole));
    assert(whole.skip(11) =~= command);
    lemma_bare_is_trimmed(command);
    lemma_run_text(command);
}

proof fn lemma_shell_has_no_note(command: Seq<char>)
    requires
        bare(command),
        !"# buildkit"@.is_suffix_of(command),
    ensures
        !" # buildkit"@.is_suffix_of("/bin/sh -c "@ + command),
{
    reveal_strlit("/bin/sh -c ");
    let shell = "/bin/sh -c "@;
    assert forall|i: int| 0 <= i < shell.len() implies shell[i] != '#' by {}
    lemma_no_note(shell, command);
}

proof fn lemma_nop_behind_shell(command: Seq<char>, nop: Seq<char>)
    requires
        nop == "/bin/sh -c #(nop)"@ || nop == "/bin/sh -c #(nop) "@,
        nop.is_prefix_of("/bin/sh -c "@ + command),
    ensures
        "#(nop)"@.is_prefix_of(command),
{
    reveal_strlit("/bin/sh -c ");
    reveal_strlit("/bin/sh -c #(nop)");
    reveal_strlit("/bin/sh -c #(nop) ");
    reveal_strlit("#(nop)");
    let whole = "/bin/sh -c "@ + command;
    assert forall|i: int| 0 <= i < 6 implies command[i] == "#(nop)"@[i] by {
        assert(whole[11 + i] == command[i]);
        assert(whole.subrange(0, nop.len() as int)[11 + i] == nop[11 + i]);
    }
    assert(command.subrange(0, 6) =~= "#(nop)"@);
}

proof fn lemma_run_step(command: Seq<char>)
    requires
        bare(command),
        !"# buildkit"@.is_suffix_of(command),
        !"/bin/sh -c "@.is_prefix_of(command),
    ensures
        instruction_text(parsed_view("RUN /bin/sh -c "@ + command + " # buildkit"@)) == "RUN "@
            + command,
        instruction_text(parsed_view("RUN "@ + command + " # buildkit"@)) == "RUN "@ + command,
        !baked("RUN /bin/sh -c "@ + command + " # buildkit"@),
{
    reveal_strlit("RUN");
    reveal_strlit("RUN ");
    reveal_strlit("/bin/sh -c ");
    reveal_strlit("RUN /bin/sh -c ");
    let run = "RUN"@;
    let shell = "/bin/sh -c "@;
    assert(keywords()[12] == run);
    lemma_keyword_letters(12);
    let behind = shell + command;
    assert(behind.last() == command.last() && behind[0] == '/');
    lemma_step(run, behind);
    assert(run + seq![' '] + behind =~= "RUN /bin/sh -c "@ + command);
    assert(shell.is_prefix_of(behind));
    assert(behind.skip(11) =~= command);
    lemma_bare_is_trimmed(command);
    lemma_run_text(command);
    lemma_step(run, command);
    reveal(argument_text);
    assert(run + seq![' '] + command =~= "RUN "@ + command);
}

proof fn lemma_without_digits(digits: Seq<char>, rest: Seq<char>)
    requires
        forall|i: int| 0 <= i < digits.len() ==> text::is_digit(#[trigger] digits[i]),
        rest.len() > 0 ==> !text::is_digit(rest[0]),
    ensures
        text::without_digits(digits + rest) == rest,
    decreases digits.len(),
{
    if digits.len() > 0 {
        assert((digits + rest).skip(1) =~= digits.skip(1) + rest);
        lemma_without_digits(digits.skip(1), rest);
    } else {
        assert(digits + rest =~= rest);
    }
}

proof fn lemma_baked_step(command: Seq<char>, count: nat, arguments: Seq<char>)
    requires
        bare(command),
        !"# buildkit"@.is_suffix_of(command),
        !arguments.contains('/'),
        arguments.len() > 0 ==> arguments[0] == ' ',
    ensures
        instruction_text(
            parsed_view("|"@ + text::decimal(count) + arguments + "/bin/sh -c "@ + command),
        ) == "RUN "@ + command,
        instruction_text(
            parsed_view(
                "|"@ + text::decimal(count) + arguments + "/bin/sh -c "@ + command + " # buildkit"@,
            ),
        ) == "RUN "@ + command,
        baked("|"@ + text::decimal(count) + arguments + "/bin/sh -c "@ + command),
{
    reveal_strlit("|");
    reveal_strlit("/bin/sh -c ");
    let shell = "/bin/sh -c "@;
    let digits = text::decimal(count);
    let whole = "|"@ + digits + arguments + shell + command;
    assert forall|i: int| 0 <= i < digits.len() implies text::is_digit(#[trigger] digits[i]) by {
        text::law_decimal_is_read_back(count);
    }
    assert(whole[0] == '|' && whole.last() == command.last());
    lemma_recorded(whole);
    assert(!" # buildkit"@.is_suffix_of(whole)) by {
        reveal_strlit(" # buildkit");
        let note = " # buildkit"@;
        lemma_shell_has_no_note(command);
        let end = shell + command;
        if note.is_suffix_of(whole) {
            assert(end.len() >= 12);
            assert(whole.subrange(whole.len() - 11, whole.len() as int) =~= end.subrange(
                end.len() - 11,
                end.len() as int,
            ));
        }
    }
    lemma_behind_build_args(digits, arguments, command);
    assert(whole =~= "|"@ + digits + (arguments + shell + command));
    lemma_bare_is_trimmed(command);
    lemma_run_text(command);
}

proof fn lemma_behind_build_args(digits: Seq<char>, arguments: Seq<char>, command: Seq<char>)
    requires
        forall|i: int| 0 <= i < digits.len() ==> text::is_digit(#[trigger] digits[i]),
        !arguments.contains('/'),
        arguments.len() > 0 ==> arguments[0] == ' ',
    ensures
        behind_build_args("|"@ + digits + (arguments + "/bin/sh -c "@ + command)) == Some(command),
{
    reveal_strlit("|");
    reveal_strlit("/bin/sh -c ");
    let shell = "/bin/sh -c "@;
    let tail = arguments + shell + command;
    let whole = "|"@ + digits + tail;
    assert("|"@.is_prefix_of(whole));
    assert(whole.skip(1) =~= digits + tail);
    assert(tail[0] == ' ' || tail[0] == '/') by {
        if arguments.len() > 0 {
            assert(tail[0] == arguments[0]);
        } else {
            assert(tail[0] == shell[0]);
        }
    }
    lemma_without_digits(digits, tail);
    assert(shell[0] == '/');
    text::lemma_find_in(arguments, shell, command);
    assert(tail.skip((arguments.len() + shell.len()) as int) =~= command);
}

/// What the older builder recorded behind its own mark is the instruction that it is
/// without the mark, whatever white space stands between.
#[verifier::rlimit(40)]
pub proof fn law_marked_steps_are_the_steps_behind_the_mark(space: Seq<char>, step: Seq<char>)
    requires
        forall|i: int| 0 <= i < space.len() ==> text::is_space(#[trigger] space[i]),
        bare(step),
        'A' <= step[0] <= 'Z',
        !" # buildkit"@.is_suffix_of(step),
    ensures
        parsed_view("/bin/sh -c #(nop) "@ + space + step) == parsed_view(step),
{
    reveal_strlit("|");
    reveal_strlit("/bin/sh -c #(nop) ");
    reveal_strlit(" # buildkit");
    let mark = "/bin/sh -c #(nop) "@;
    let note = " # buildkit"@;
    let whole = mark + space + step;
    assert(whole[0] == '/' && whole.last() == step.last());
    lemma_recorded(whole);
    lemma_recorded(step);
    if note.is_suffix_of(whole) {
        let from = whole.len() - 11;
        assert forall|i: int| 0 <= i < 11 implies whole[from + i] == note[i] by {
            assert(whole.subrange(from, whole.len() as int)[i] == note[i]);
        }
        if step.len() >= 11 {
            assert(step.subrange(step.len() - 11, step.len() as int) =~= note);
        } else {
            let at = whole.len() - step.len();
            assert(whole[at as int] == step[0]);
            assert(note[at - from] == step[0]);
        }
    }
    if "|"@.is_prefix_of(whole) {
        assert(whole.subrange(0, 1)[0] == "|"@[0]);
    }
    assert(mark.is_prefix_of(whole));
    assert(whole.skip(18) =~= space + step);
    text::law_trimming_takes_off_white_space_alone(space, step, Seq::empty());
    assert(space + step + Seq::<char>::empty() =~= space + step);
    lemma_begins_with_capital(step);
}

/// Ports and volumes come out of the brackets that the builder printed them in.
#[verifier::rlimit(40)]
pub proof fn law_bracketed_lists_lose_their_brackets(keyword: Seq<char>, inner: Seq<char>)
    requires
        keyword == "EXPOSE"@ || keyword == "VOLUME"@,
        bare(inner),
    ensures
        instruction_text(
            parsed_view(keyword + seq![' '] + (seq!['['] + inner + seq![']']) + " # buildkit"@),
        ) == keyword + seq![' '] + inner,
        inner[0] != '[' ==> instruction_text(
            parsed_view(keyword + seq![' '] + inner + " # buildkit"@),
        ) == keyword + seq![' '] + inner,
{
    assert(keywords()[6] == "EXPOSE"@ && keywords()[16] == "VOLUME"@);
    lemma_keyword_letters(6);
    lemma_keyword_letters(16);
    let argument = seq!['['] + inner + seq![']'];
    lemma_step(keyword, argument);
    lemma_step(keyword, inner);
    lemma_brackets_are_taken_off(keyword, inner);
    reveal_strlit(" ");
    assert(" "@ =~= seq![' ']);
}

proof fn lemma_brackets_are_taken_off(keyword: Seq<char>, inner: Seq<char>)
    requires
        keyword == "EXPOSE"@ || keyword == "VOLUME"@,
        bare(inner),
    ensures
        argument_text(keyword, seq!['['] + inner + seq![']']) == inner,
        inner[0] != '[' ==> argument_text(keyword, inner) == inner,
{
    reveal(argument_text);
    reveal_strlit("[");
    reveal_strlit("]");
    reveal_strlit("EXPOSE");
    reveal_strlit("VOLUME");
    reveal_strlit("RUN");
    reveal_strlit("CMD");
    reveal_strlit("ENTRYPOINT");
    assert(keyword.len() == 6);
    assert("RUN"@.len() == 3 && "CMD"@.len() == 3 && "ENTRYPOINT"@.len() == 10);
    lemma_bare_is_trimmed(inner);
    let argument = seq!['['] + inner + seq![']'];
    assert(argument.subrange(0, 1) =~= "["@);
    let rest = argument.skip(1);
    assert(rest =~= inner.push(']'));
    assert(rest.subrange(rest.len() - 1, rest.len() as int) =~= "]"@);
    assert(rest.take(rest.len() - 1) =~= inner);
    if "["@.is_prefix_of(inner) {
        assert(inner.subrange(0, 1)[0] == "["@[0]);
    }
}

/// A text between double quotes.
pub open spec fn quoted(item: Seq<char>) -> Seq<char> {
    seq!['"'] + item + seq!['"']
}

/// Some items between double quotes, with something between neighbours.
pub open spec fn quoted_list(items: Seq<Seq<char>>, between: Seq<char>) -> Seq<char>
    decreases items.len(),
{
    if items.len() == 0 {
        Seq::empty()
    } else if items.len() == 1 {
        quoted(items[0])
    } else {
        quoted(items[0]) + between + quoted_list(items.skip(1), between)
    }
}

/// Whether no item holds a quote or is a single space, which could be taken for the gap
/// between two.
pub open spec fn plain_items(items: Seq<Seq<char>>) -> bool {
    forall|i: int|
        0 <= i < items.len() ==> !(#[trigger] items[i]).contains('"') && items[i] != seq![' ']
}

proof fn lemma_replaced_keeps(front: Seq<char>, rest: Seq<char>, from: Seq<char>, to: Seq<char>)
    requires
        from.len() > 0,
        !front.contains(from[0]),
    ensures
        text::replaced(front + rest, from, to) == front + text::replaced(rest, from, to),
    decreases front.len(),
{
    let all = front + rest;
    if front.len() > 0 {
        assert(front.contains(front[0]));
        if from.is_prefix_of(all) {
            assert(all.subrange(0, from.len() as int)[0] == from[0]);
        }
        let less = front.skip(1);
        assert forall|i: int| 0 <= i < less.len() implies less[i] != from[0] by {
            assert(front.contains(front[i + 1]));
        }
        assert(all.skip(1) =~= less + rest);
        lemma_replaced_keeps(less, rest, from, to);
        assert(seq![front[0]] + (less + text::replaced(rest, from, to)) =~= front + text::replaced(
            rest,
            from,
            to,
        ));
    } else {
        assert(all =~= rest);
        assert(front + text::replaced(rest, from, to) =~= text::replaced(rest, from, to));
    }
}

proof fn lemma_gap(rest: Seq<char>)
    ensures
        "\" \""@ =~= seq!['"', ' ', '"'],
        "\", \""@ =~= seq!['"', ',', ' ', '"'],
        text::replaced(seq!['"', ' ', '"'] + rest, "\" \""@, "\", \""@) == seq!['"', ',', ' ', '"']
            + text::replaced(rest, "\" \""@, "\", \""@),
{
    reveal_strlit("\" \"");
    reveal_strlit("\", \"");
    let from = "\" \""@;
    assert(from =~= seq!['"', ' ', '"']);
    assert("\", \""@ =~= seq!['"', ',', ' ', '"']);
    let all = seq!['"', ' ', '"'] + rest;
    assert(all.subrange(0, 3) =~= from);
    assert(from.is_prefix_of(all));
    assert(all.skip(3) =~= rest);
}

/// Behind the quote that opens an item, the item, what closes it, and the rest of the list
/// are rewritten with commas.
proof fn lemma_commas(items: Seq<Seq<char>>)
    requires
        items.len() > 0,
        plain_items(items),
    ensures
        text::replaced(
            quoted_list(items, seq![' ']).skip(1) + seq![']'],
            "\" \""@,
            "\", \""@,
        ) == quoted_list(items, seq![',', ' ']).skip(1) + seq![']'],
    decreases items.len(),
{
    let from = "\" \""@;
    let to = "\", \""@;
    let item = items[0];
    lemma_gap(Seq::empty());
    if items.len() == 1 {
        let closing = seq!['"', ']'];
        let whole = quoted_list(items, seq![' ']).skip(1) + seq![']'];
        assert(whole =~= item + closing);
        assert(quoted_list(items, seq![',', ' ']).skip(1) + seq![']'] =~= item + closing);
        lemma_replaced_keeps(item, closing, from, to);
        if from.is_prefix_of(closing) {
            assert(closing.subrange(0, 3).len() == 3);
        }
        let end = closing.skip(1);
        assert(end =~= seq![']']);
        if from.is_prefix_of(end) {
            assert(end.subrange(0, 3).len() == 3);
        }
        assert(end.skip(1) =~= Seq::<char>::empty());
        assert(text::replaced(end.skip(1), from, to) =~= Seq::<char>::empty());
        assert(text::replaced(end, from, to) =~= end);
        assert(text::replaced(closing, from, to) =~= closing);
    } else {
        let rest = items.skip(1);
        assert(plain_items(rest)) by {
            assert forall|i: int| 0 <= i < rest.len() implies !(#[trigger] rest[i]).contains('"')
                && rest[i] != seq![' '] by {
                assert(rest[i] == items[i + 1]);
            }
        }
        lemma_commas(rest);
        let later = quoted_list(rest, seq![' ']);
        let wanted = quoted_list(rest, seq![',', ' ']);
        lemma_list_opens(rest, seq![' ']);
        lemma_list_opens(rest, seq![',', ' ']);
        let tail = later.skip(1) + seq![']'];
        let whole = quoted_list(items, seq![' ']).skip(1) + seq![']'];
        assert(whole =~= item + (seq!['"', ' ', '"'] + tail));
        lemma_replaced_keeps(item, seq!['"', ' ', '"'] + tail, from, to);
        lemma_gap(tail);
        assert(item + (seq!['"', ',', ' ', '"'] + (wanted.skip(1) + seq![']'])) =~= quoted_list(
            items,
            seq![',', ' '],
        ).skip(1) + seq![']']);
    }
}

proof fn lemma_list_opens(items: Seq<Seq<char>>, between: Seq<char>)
    requires
        items.len() > 0,
    ensures
        quoted_list(items, between).len() >= 2,
        quoted_list(items, between)[0] == '"',
{
}

/// A command that the builder printed as a list without commas gets its commas back,
/// item by item, and a command in one string stays as it is.
pub proof fn law_listed_commands_get_their_commas_back(
    keyword: Seq<char>,
    items: Seq<Seq<char>>,
    command: Seq<char>,
)
    requires
        keyword == "CMD"@ || keyword == "ENTRYPOINT"@,
        items.len() > 0,
        plain_items(items),
        bare(command),
        command[0] != '[',
    ensures
        instruction_text(
            parsed_view(
                keyword + seq![' '] + (seq!['['] + quoted_list(items, seq![' ']) + seq![']'])
                    + " # buildkit"@,
            ),
        ) == keyword + seq![' '] + (seq!['['] + quoted_list(items, seq![',', ' ']) + seq![']']),
        instruction_text(parsed_view(keyword + seq![' '] + command + " # buildkit"@)) == keyword
            + seq![' '] + command,
{
    reveal_strlit("[");
    reveal_strlit(" ");
    reveal_strlit("RUN");
    reveal_strlit("CMD");
    reveal_strlit("ENTRYPOINT");
    assert("RUN"@[0] == 'R' && "CMD"@[0] == 'C' && "ENTRYPOINT"@[0] == 'E');
    assert(keywords()[2] == "CMD"@ && keywords()[4] == "ENTRYPOINT"@);
    lemma_keyword_letters(2);
    lemma_keyword_letters(4);
    let argument = seq!['['] + quoted_list(items, seq![' ']) + seq![']'];
    let wanted = seq!['['] + quoted_list(items, seq![',', ' ']) + seq![']'];
    lemma_step(keyword, argument);
    lemma_step(keyword, command);
    if "["@.is_prefix_of(command) {
        assert(command.subrange(0, 1)[0] == "["@[0]);
    }
    lemma_list_gets_commas(items);
    assert(argument_text(keyword, argument) == wanted) by {
        reveal(argument_text);
    }
    assert(argument_text(keyword, command) == command) by {
        reveal(argument_text);
    }
    assert(" "@ =~= seq![' ']);
}

proof fn lemma_list_gets_commas(items: Seq<Seq<char>>)
    requires
        items.len() > 0,
        plain_items(items),
    ensures
        with_commas(seq!['['] + quoted_list(items, seq![' ']) + seq![']']) == seq!['[']
            + quoted_list(items, seq![',', ' ']) + seq![']'],
{
    reveal_strlit("[");
    reveal_strlit("]");
    let list = quoted_list(items, seq![' ']);
    let wanted = quoted_list(items, seq![',', ' ']);
    let argument = seq!['['] + list + seq![']'];
    assert(argument.subrange(0, 1) =~= "["@);
    assert(argument.subrange(argument.len() - 1, argument.len() as int) =~= "]"@);
    assert("["@.is_prefix_of(argument) && "]"@.is_suffix_of(argument));
    lemma_list_opens(items, seq![' ']);
    lemma_list_opens(items, seq![',', ' ']);
    lemma_commas(items);
    lemma_gap(Seq::empty());
    let from = "\" \""@;
    let to = "\", \""@;
    let tail = list.skip(1) + seq![']'];
    let opened = seq!['"'] + tail;
    assert(argument =~= seq!['['] + opened);
    lemma_replaced_keeps(seq!['['], opened, from, to);
    lemma_first_item_is_no_gap(items, tail);
    assert(!from.is_prefix_of(opened)) by {
        if from.is_prefix_of(opened) {
            assert(opened.subrange(0, 3)[1] == from[1]);
            assert(opened.subrange(0, 3)[2] == from[2]);
            assert(opened[1] == tail[0] && opened[2] == tail[1]);
        }
    }
    assert(opened.skip(1) =~= tail);
    assert(text::replaced(opened, from, to) == seq!['"'] + text::replaced(tail, from, to));
    assert(seq!['['] + (seq!['"'] + (wanted.skip(1) + seq![']'])) =~= seq!['['] + wanted + seq![
        ']',
    ]);
}

proof fn lemma_first_item_is_no_gap(items: Seq<Seq<char>>, tail: Seq<char>)
    requires
        items.len() > 0,
        plain_items(items),
        tail == quoted_list(items, seq![' ']).skip(1) + seq![']'],
    ensures
        !(tail[0] == ' ' && tail[1] == '"'),
{
    let item = items[0];
    let list = quoted_list(items, seq![' ']);
    assert(list[0] == '"');
    assert(list.len() >= item.len() + 2);
    assert(list[item.len() as int + 1] == '"');
    if item.len() == 0 {
        assert(tail[0] == list[1]);
    } else {
        assert(list[1] == item[0]);
        assert(tail[0] == list[1]);
        if item.len() == 1 {
            if item[0] == ' ' {
                assert(item =~= seq![' ']);
            }
        } else {
            assert(list[2] == item[1]);
            assert(tail[1] == list[2]);
            assert(item.contains(item[1]));
        }
    }
}

/// A comment is carried through as it is, and a text that begins with no known instruction
/// is kept behind a comment mark rather than passed off as one.
#[verifier::rlimit(60)]
#[verifier::spinoff_prover]
pub proof fn law_what_is_no_instruction_becomes_a_comment(
    text: Seq<char>,
    word: Seq<char>,
    rest: Seq<char>,
)
    requires
        bare(text),
        text[0] == '#',
        !" # buildkit"@.is_suffix_of(text),
        bare(word),
        'A' <= word[0] <= 'Z',
        forall|i: int| 0 <= i < word.len() ==> !text::is_space(#[trigger] word[i]),
        !kept_verbatim(word),
        word != "RUN"@ && word != "CMD"@ && word != "ENTRYPOINT"@ && word != "EXPOSE"@ && word
            != "VOLUME"@ && word != "HEALTHCHECK"@,
        bare(rest),
    ensures
        instruction_text(parsed_view(text)) == text,
        instruction_text(parsed_view(word + seq![' '] + rest + " # buildkit"@)) == seq!['#', ' ']
            + word + seq![' '] + rest,
        parsed_view(text).keyword.len() == 0,
{
    lemma_recorded(text);
    reveal_strlit("|");
    reveal_strlit("/bin/sh -c #(nop) ");
    reveal_strlit("/bin/sh -c #(nop)");
    reveal_strlit("/bin/sh -c ");
    reveal_strlit("#");
    reveal_strlit("# ");
    assert(text.subrange(0, 1) =~= "#"@);
    if "|"@.is_prefix_of(text) {
        assert(text.subrange(0, 1)[0] == "|"@[0]);
    }
    if "/bin/sh -c #(nop) "@.is_prefix_of(text) {
        assert(text.subrange(0, 18)[0] == "/bin/sh -c #(nop) "@[0]);
    }
    if "/bin/sh -c #(nop)"@.is_prefix_of(text) {
        assert(text.subrange(0, 17)[0] == "/bin/sh -c #(nop)"@[0]);
    }
    if "/bin/sh -c "@.is_prefix_of(text) {
        assert(text.subrange(0, 11)[0] == "/bin/sh -c "@[0]);
    }
    let whole = word + seq![' '] + rest;
    assert(whole[0] == word[0] && whole.last() == rest.last());
    lemma_recorded(whole);
    lemma_begins_with_capital(whole + " # buildkit"@);
    assert(whole =~= word + (seq![' '] + rest));
    text::lemma_word_length(word, seq![' '] + rest, None);
    assert(whole.take(word.len() as int) =~= word);
    if keywords().contains(word) {
        let at = choose|at: int| 0 <= at < 18 && keywords()[at] == word;
        assert(kept_verbatim(keywords()[at]) || has_own_rule(keywords()[at]));
    }
    assert("# "@ + whole =~= seq!['#', ' '] + word + seq![' '] + rest);
}

// ---------------------------------------------------------- laws of whole histories

/// The history is told from its oldest step on: a newer step adds its line behind all the
/// others, and a step of which nothing would show adds none.
pub proof fn law_a_newer_step_adds_its_line_at_the_end(
    newest: HistoryView,
    history: Seq<HistoryView>,
)
    ensures
        ({
            let before = reconstruction(history, None, Seq::empty()).instructions;
            let after = reconstruction(seq![newest] + history, None, Seq::empty()).instructions;
            let line = parsed_view(newest.created_by);
            after == (if text::trimmed(instruction_text(line)).len() > 0 {
                before.push(line)
            } else {
                before
            })
        }),
        reconstruction(Seq::empty(), None, Seq::empty()).instructions.len() == 0,
{
    reveal(Seq::filter);
    let whole = seq![newest] + history;
    let old = own_commands(history, false, Seq::empty());
    let new = own_commands(whole, false, Seq::empty());
    assert(new =~= old.push(newest.created_by));
    let f = |c: Seq<char>| parsed_view(c);
    let p = |i: InstructionView| visible(i);
    assert(new.map_values(f) =~= old.map_values(f).push(f(newest.created_by)));
    assert(new.map_values(f).drop_last() =~= old.map_values(f));
    let none = from_line(None);
    assert(none + visible_instructions(old) =~= visible_instructions(old));
    assert(none + visible_instructions(new) =~= visible_instructions(new));
    let empty = own_commands(Seq::empty(), false, Seq::empty());
    assert(empty.map_values(f) =~= Seq::<InstructionView>::empty());
}

/// Over a known base only the image's own steps are told, behind the line that names the
/// base; where nothing is left above the base, all of them are.
pub proof fn law_the_base_tells_its_own_steps(
    own: Seq<HistoryView>,
    base_history: Seq<HistoryView>,
    base: Seq<char>,
)
    ensures
        ({
            let told = reconstruction(own + base_history, Some(base), base_history);
            let alone = reconstruction(
                if own.len() > 0 {
                    own
                } else {
                    base_history
                },
                None,
                Seq::empty(),
            );
            &&& told.instructions == seq![
                InstructionView { keyword: "FROM"@, argument: base },
            ] + alone.instructions
            &&& told.base == Some(base)
        }),
{
    let whole = own + base_history;
    let steps = if own.len() > 0 {
        own
    } else {
        base_history
    };
    if own.len() == 0 {
        assert(whole =~= base_history);
    }
    assert(own_commands(whole, true, base_history) =~= own_commands(steps, false, Seq::empty()));
    let alone = visible_instructions(own_commands(steps, false, Seq::empty()));
    assert(from_line(None) + alone =~= alone);
}

/// What is warned of is what is there: that the base is unknown, that files were copied,
/// that build arguments were baked in, and that a single step is left.
#[verifier::rlimit(40)]
pub proof fn law_warnings_are_given_where_they_are_due(
    history: Seq<HistoryView>,
    base: Option<Seq<char>>,
    at: int,
)
    requires
        0 <= at < history.len(),
    ensures
        ({
            let told = reconstruction(history, base, Seq::empty());
            let step = history[at].created_by;
            &&& told.caveats[0] == DISCLAIMER@
            &&& base is None ==> told.caveats.contains(NO_BASE@)
            &&& parsed_view(step).keyword == "COPY"@ ==> told.caveats.contains(COPIED@)
            &&& parsed_view(step).keyword == "ADD"@ ==> told.caveats.contains(COPIED@)
            &&& baked(step) ==> told.caveats.contains(BAKED@)
            &&& history.len() == 1 ==> told.caveats.last() == SQUASHED@
            &&& base is Some && history.len() > 1 && (forall|i: int|
                0 <= i < history.len() ==> {
                    let k = parsed_view((#[trigger] history[i]).created_by).keyword;
                    k != "COPY"@ && k != "ADD"@ && !baked(history[i].created_by)
                }) ==> told.caveats == seq![DISCLAIMER@]
        }),
{
    let told = reconstruction(history, base, Seq::empty());
    let commands = own_commands(history, base is Some, Seq::empty());
    let n = history.len();
    assert(commands.len() == n);
    assert(commands[n - 1 - at] == history[at].created_by);
    let caveats = told.caveats;
    if base is None {
        assert(caveats[1] == NO_BASE@);
    }
    let first = if base is None {
        2int
    } else {
        1int
    };
    if copies(parsed_view(commands[n - 1 - at])) {
        assert(any_copies(commands));
        assert(caveats[first] == COPIED@);
    }
    if baked(commands[n - 1 - at]) {
        assert(any_baked(commands));
        let second = if any_copies(commands) {
            first + 1
        } else {
            first
        };
        assert(caveats[second] == BAKED@);
    }
    if forall|i: int|
        0 <= i < history.len() ==> {
            let k = parsed_view((#[trigger] history[i]).created_by).keyword;
            k != "COPY"@ && k != "ADD"@ && !baked(history[i].created_by)
        } {
        assert forall|i: int| 0 <= i < commands.len() implies !copies(
            parsed_view(#[trigger] commands[i]),
        ) && !baked(commands[i]) by {
            assert(commands[i] == history[n - 1 - i].created_by);
        }
        if base is Some && n > 1 {
            assert(caveats =~= seq![DISCLAIMER@]);
        }
    }
}

/// The text begins with every caveat behind a comment mark, then an empty line, and then
/// the instructions, each on a line of its own.
pub proof fn law_caveats_stand_first_as_comments(reconstruction: ReconstructionView, at: int)
    ensures
        ({
            let lines = rendered_lines(reconstruction);
            let notes = reconstruction.caveats.len();
            &&& notes > 0 ==> lines.len() == notes + 1 + reconstruction.instructions.len()
            &&& notes == 0 ==> lines.len() == reconstruction.instructions.len()
            &&& 0 <= at < notes ==> lines[at] == seq!['#', ' '] + reconstruction.caveats[at]
            &&& notes > 0 ==> lines[notes as int].len() == 0
            &&& 0 <= at < reconstruction.instructions.len() ==> {
                let line = lines[lines.len() - reconstruction.instructions.len() + at];
                let instruction = reconstruction.instructions[at];
                &&& instruction.keyword.len() == 0 ==> line == instruction.argument
                &&& instruction.keyword.len() > 0 && instruction.argument.len() == 0 ==> line
                    == instruction.keyword
                &&& instruction.keyword.len() > 0 && instruction.argument.len() > 0 ==> line
                    == instruction.keyword + seq![' '] + instruction.argument
            }
        }),
{
    reveal_strlit("# ");
    reveal_strlit(" ");
    assert("# "@ =~= seq!['#', ' ']);
    assert(" "@ =~= seq![' ']);
}

/// Whether a text is a duration or a count as the builder writes them.
pub open spec fn is_figure(value: Seq<char>) -> bool {
    value.len() > 0 && forall|i: int|
        0 <= i < value.len() ==> '0' <= #[trigger] value[i] <= '9' || 'a' <= value[i] <= 'z'
            || value[i] == '.'
}

/// A field of a health check is read up to the white space or the brace behind it, and becomes
/// its flag unless it is zero.
pub proof fn law_check_fields_become_flags(
    before: Seq<char>,
    field: Seq<char>,
    value: Seq<char>,
    after: Seq<char>,
    flag: Seq<char>,
)
    requires
        field.len() > 0,
        !before.contains(field[0]),
        is_figure(value),
        after.len() > 0 ==> after[0] == ' ' || after[0] == '}',
    ensures
        field_text(before + field + (value + after), field) == Some(value),
        value != "0s"@ && value != "0"@ ==> flag_text(
            before + field + (value + after),
            field,
            flag,
        ) == seq![flag + "="@ + value],
        value == "0s"@ || value == "0"@ ==> flag_text(
            before + field + (value + after),
            field,
            flag,
        ).len() == 0,
{
    let text = before + field + (value + after);
    text::lemma_find_in(before, field, value + after);
    let rest = text.skip((before.len() + field.len()) as int);
    assert(rest =~= value + after);
    text::lemma_word_length(value, after, Some('}'));
    assert(rest.take(value.len() as int) =~= value);
}

/// A health check comes out with its flags in their order and the command behind them, whole.
pub proof fn law_health_checks_come_out_with_flags_and_command(
    kind: Seq<char>,
    command: Seq<char>,
    interval: Seq<char>,
    timeout: Seq<char>,
    start: Seq<char>,
    retries: Seq<char>,
)
    requires
        kind == "CMD-SHELL"@ || kind == "CMD"@,
        !command.contains(']'),
        is_figure(interval) && interval != "0s"@ && interval != "0"@,
        is_figure(timeout) && timeout != "0s"@ && timeout != "0"@,
        is_figure(start) && start != "0s"@ && start != "0"@,
        is_figure(retries) && retries != "0s"@ && retries != "0"@,
    ensures
        healthcheck_text(
            "{"@ + ("Test:["@ + (kind + seq![' '] + command + ("] "@ + "Interval:"@ + interval + " "@
                + "Timeout:"@ + timeout + " "@ + "StartPeriod:"@ + start + " "@ + "Retries:"@
                + retries))) + "}"@,
        ) == "--interval"@ + "="@ + interval + " "@ + ("--timeout"@ + "="@ + timeout) + " "@ + (
        "--start-period"@ + "="@ + start) + " "@ + ("--retries"@ + "="@ + retries) + " "@ + ("CMD "@
            + command),
{
    let rest = "] "@ + "Interval:"@ + interval + " "@ + "Timeout:"@ + timeout + " "@
        + "StartPeriod:"@ + start + " "@ + "Retries:"@ + retries;
    let flags = seq![
        "--interval"@ + "="@ + interval,
        "--timeout"@ + "="@ + timeout,
        "--start-period"@ + "="@ + start,
        "--retries"@ + "="@ + retries,
    ];
    assert(rest[0] == ']') by {
        reveal_strlit("] ");
        assert("] "@[0] == ']');
    }
    lemma_check_is_taken_apart(kind, command, rest);
    lemma_four_flags(interval, timeout, start, retries);
    assert(flags_text(rest) == flags);
    lemma_check_with_flags(kind, command, rest, flags);
    lemma_four_joined(flags[0], flags[1], flags[2], flags[3]);
}

proof fn lemma_check_with_flags(
    kind: Seq<char>,
    command: Seq<char>,
    rest: Seq<char>,
    flags: Seq<Seq<char>>,
)
    requires
        kind == "CMD-SHELL"@ || kind == "CMD"@,
        !command.contains(']'),
        rest.len() > 0,
        rest[0] == ']',
        flags_text(rest) == flags,
        flags.len() > 0,
    ensures
        check_text(kind + seq![' '] + command, rest) == text::joined(flags, " "@) + " "@ + ("CMD "@
            + command),
{
    lemma_test_is_told(kind, command, rest);
}

proof fn lemma_check_is_taken_apart(kind: Seq<char>, command: Seq<char>, rest: Seq<char>)
    requires
        kind == "CMD-SHELL"@ || kind == "CMD"@,
        !command.contains(']'),
        rest.len() > 0,
        rest[0] == ']',
    ensures
        healthcheck_text("{"@ + ("Test:["@ + (kind + seq![' '] + command + rest)) + "}"@)
            == check_text(kind + seq![' '] + command, rest),
{
    let test = kind + seq![' '] + command;
    let body = "Test:["@ + (test + rest);
    let argument = "{"@ + body + "}"@;
    reveal_strlit("{");
    reveal_strlit("}");
    reveal_strlit("Test:[");
    assert("{"@.len() == 1 && "}"@.len() == 1 && "Test:["@.len() == 6);
    assert(argument.subrange(0, 1) =~= "{"@);
    let open = argument.skip(1);
    assert(open =~= body + "}"@);
    assert(open.subrange(open.len() - 1, open.len() as int) =~= "}"@);
    assert(open.take(open.len() - 1) =~= body);
    assert(between(argument, "{"@, "}"@) == Some(body));
    assert(body.subrange(0, 6) =~= "Test:["@);
    let after = body.skip(6);
    assert(after =~= test + rest);
    lemma_test_is_told(kind, command, rest);
    assert(after.skip(test.len() as int) =~= rest);
}

proof fn lemma_test_is_told(kind: Seq<char>, command: Seq<char>, rest: Seq<char>)
    requires
        kind == "CMD-SHELL"@ || kind == "CMD"@,
        !command.contains(']'),
        rest.len() > 0,
        rest[0] == ']',
    ensures
        ({
            let test = kind + seq![' '] + command;
            &&& text::split_once_at(test + rest, ']') matches Some((found, _)) && found == test
            &&& check_command(test) == "CMD "@ + command
        }),
{
    reveal_strlit("CMD-SHELL");
    reveal_strlit("CMD");
    assert("CMD-SHELL"@ =~= seq!['C', 'M', 'D', '-', 'S', 'H', 'E', 'L', 'L']);
    assert("CMD"@ =~= seq!['C', 'M', 'D']);
    let test = kind + seq![' '] + command;
    let all = test + rest;
    assert forall|i: int| 0 <= i < test.len() implies all[i] != ']' by {
        if i > kind.len() {
            assert(command.contains(command[i - kind.len() - 1]));
        }
    }
    assert(all[test.len() as int] == ']');
    text::lemma_find_is(all, ']', test.len() as int);
    assert(all.take(test.len() as int) =~= test);
    assert forall|i: int| 0 <= i < kind.len() implies test[i] != ' ' by {
        assert(test[i] == kind[i]);
    }
    assert(test[kind.len() as int] == ' ');
    text::lemma_find_is(test, ' ', kind.len() as int);
    assert(test.take(kind.len() as int) =~= kind);
    assert(test.skip(kind.len() as int + 1) =~= command);
}

proof fn lemma_no_capital(text: Seq<char>, capital: char)
    requires
        is_figure(text),
        'A' <= capital <= 'Z',
    ensures
        !text.contains(capital),
{
    if text.contains(capital) {
        let i = choose|i: int| 0 <= i < text.len() && text[i] == capital;
        assert(text[i] == capital);
    }
}

proof fn lemma_joined_without(a: Seq<char>, b: Seq<char>, c: char)
    requires
        !a.contains(c),
        !b.contains(c),
    ensures
        !(a + b).contains(c),
{
    if (a + b).contains(c) {
        let i = choose|i: int| 0 <= i < (a + b).len() && (a + b)[i] == c;
        if i < a.len() {
            assert(a[i] == c);
        } else {
            assert(b[i - a.len()] == c);
        }
    }
}

proof fn lemma_four_flags(
    interval: Seq<char>,
    timeout: Seq<char>,
    start: Seq<char>,
    retries: Seq<char>,
)
    requires
        is_figure(interval) && interval != "0s"@ && interval != "0"@,
        is_figure(timeout) && timeout != "0s"@ && timeout != "0"@,
        is_figure(start) && start != "0s"@ && start != "0"@,
        is_figure(retries) && retries != "0s"@ && retries != "0"@,
    ensures
        flags_text(
            "] "@ + "Interval:"@ + interval + " "@ + "Timeout:"@ + timeout + " "@ + "StartPeriod:"@
                + start + " "@ + "Retries:"@ + retries,
        ) == seq![
            "--interval"@ + "="@ + interval,
            "--timeout"@ + "="@ + timeout,
            "--start-period"@ + "="@ + start,
            "--retries"@ + "="@ + retries,
        ],
{
    let all = "] "@ + "Interval:"@ + interval + " "@ + "Timeout:"@ + timeout + " "@
        + "StartPeriod:"@ + start + " "@ + "Retries:"@ + retries;
    reveal_strlit("] ");
    reveal_strlit(" ");
    reveal_strlit("Interval:");
    reveal_strlit("Timeout:");
    reveal_strlit("StartPeriod:");
    reveal_strlit("Retries:");
    assert("] "@ =~= seq![']', ' ']);
    assert(" "@ =~= seq![' ']);
    assert("Interval:"@ =~= seq!['I', 'n', 't', 'e', 'r', 'v', 'a', 'l', ':']);
    assert("Timeout:"@ =~= seq!['T', 'i', 'm', 'e', 'o', 'u', 't', ':']);
    assert("StartPeriod:"@ =~= seq!['S', 't', 'a', 'r', 't', 'P', 'e', 'r', 'i', 'o', 'd', ':']);
    let a = "] "@;
    let b = a + "Interval:"@ + interval + " "@;
    let c = b + "Timeout:"@ + timeout + " "@;
    let d = c + "StartPeriod:"@ + start + " "@;
    lemma_front_without(a, "Interval:"@, interval, 'T');
    lemma_front_without(a, "Interval:"@, interval, 'S');
    lemma_front_without(a, "Interval:"@, interval, 'R');
    lemma_front_without(b, "Timeout:"@, timeout, 'S');
    lemma_front_without(b, "Timeout:"@, timeout, 'R');
    lemma_front_without(c, "StartPeriod:"@, start, 'R');
    let after_a = " "@ + "Timeout:"@ + timeout + " "@ + "StartPeriod:"@ + start + " "@
        + "Retries:"@ + retries;
    let after_b = " "@ + "StartPeriod:"@ + start + " "@ + "Retries:"@ + retries;
    let after_c = " "@ + "Retries:"@ + retries;
    let nothing = Seq::<char>::empty();
    assert(all =~= a + "Interval:"@ + (interval + after_a));
    assert(all =~= b + "Timeout:"@ + (timeout + after_b));
    assert(all =~= c + "StartPeriod:"@ + (start + after_c));
    assert(all =~= d + "Retries:"@ + (retries + nothing));
    law_check_fields_become_flags(a, "Interval:"@, interval, after_a, "--interval"@);
    law_check_fields_become_flags(b, "Timeout:"@, timeout, after_b, "--timeout"@);
    law_check_fields_become_flags(c, "StartPeriod:"@, start, after_c, "--start-period"@);
    law_check_fields_become_flags(d, "Retries:"@, retries, nothing, "--retries"@);
}

proof fn lemma_front_without(front: Seq<char>, field: Seq<char>, value: Seq<char>, c: char)
    requires
        !front.contains(c),
        !field.contains(c),
        is_figure(value),
        'A' <= c <= 'Z',
    ensures
        !(front + field + value + " "@).contains(c),
{
    reveal_strlit(" ");
    lemma_no_capital(value, c);
    lemma_joined_without(front, field, c);
    lemma_joined_without(front + field, value, c);
    lemma_joined_without(front + field + value, " "@, c);
}

proof fn lemma_four_joined(a: Seq<char>, b: Seq<char>, c: Seq<char>, d: Seq<char>)
    ensures
        text::joined(seq![a, b, c, d], " "@) == a + " "@ + b + " "@ + c + " "@ + d,
{
    text::law_texts_are_joined_one_by_one(seq![a], b, " "@);
    text::law_texts_are_joined_one_by_one(seq![], a, " "@);
    text::law_texts_are_joined_one_by_one(seq![a, b], c, " "@);
    text::law_texts_are_joined_one_by_one(seq![a, b, c], d, " "@);
    assert(seq![a].push(b) =~= seq![a, b]);
    assert(seq![a, b].push(c) =~= seq![a, b, c]);
    assert(seq![a, b, c].push(d) =~= seq![a, b, c, d]);
}

/// The summary of a reconstruction counts its instructions, comments apart, and adds the
/// sizes of the steps up.
pub proof fn law_summaries_count_and_add_up(
    instructions: Seq<InstructionView>,
    next: InstructionView,
    history: Seq<HistoryView>,
    step: HistoryView,
)
    ensures
        next.keyword.len() > 0 ==> effective(instructions.push(next)) == effective(instructions)
            + 1,
        next.keyword.len() == 0 ==> effective(instructions.push(next)) == effective(instructions),
        effective(Seq::empty()) == 0,
        engine::sum(step_sizes(history.push(step))) == engine::sum(step_sizes(history)) + step.size,
{
    reveal(Seq::filter);
    assert(instructions.push(next).drop_last() =~= instructions);
    assert(step_sizes(history.push(step)).drop_last() =~= step_sizes(history));
}

/// A recorded health check comes out as a health check.
pub proof fn law_health_checks_stay_health_checks(argument: Seq<char>)
    requires
        bare(argument),
    ensures
        parsed_view("HEALTHCHECK"@ + seq![' '] + argument + " # buildkit"@) == (InstructionView {
            keyword: "HEALTHCHECK"@,
            argument: healthcheck_text(argument),
        }),
{
    reveal_strlit("HEALTHCHECK");
    reveal_strlit("RUN");
    reveal_strlit("CMD");
    reveal_strlit("ENTRYPOINT");
    reveal_strlit("EXPOSE");
    reveal_strlit("VOLUME");
    assert("HEALTHCHECK"@.len() == 11 && "RUN"@.len() == 3 && "CMD"@.len() == 3
        && "ENTRYPOINT"@.len() == 10 && "EXPOSE"@.len() == 6 && "VOLUME"@.len() == 6);
    assert(keywords()[8] == "HEALTHCHECK"@);
    lemma_keyword_letters(8);
    lemma_step("HEALTHCHECK"@, argument);
    assert(argument_text("HEALTHCHECK"@, argument) == healthcheck_text(argument)) by {
        reveal(argument_text);
    }
}

/// That only a single step is left is said exactly where that is so.
pub proof fn law_only_single_steps_are_called_squashed(
    history: Seq<HistoryView>,
    base: Option<Seq<char>>,
    base_history: Seq<HistoryView>,
)
    ensures
        reconstruction(history, base, base_history).caveats.contains(SQUASHED@) <==> history.len()
            == 1,
        reconstruction(history, base, base_history).caveats.contains(NO_BASE@) <==> base is None,
{
    reveal_strlit(
        "Reconstructed from this image's build history. It is not the original Dockerfile, and will not necessarily rebuild an identical image.",
    );
    reveal_strlit(
        "No local image matches this one's lower layers, so the FROM line could not be recovered. The instructions below may include the base image's own.",
    );
    reveal_strlit(
        "A COPY or ADD in a multi-stage build records the path inside the stage it copied from, not the stage's name. Those paths will not exist in your build context.",
    );
    reveal_strlit(
        "Build arguments are recorded with their values substituted in. The ARG declarations themselves are gone.",
    );
    reveal_strlit(
        "This image has a single history entry, which usually means it was squashed or imported. Its individual instructions no longer exist.",
    );
    assert(DISCLAIMER@[0] == 'R' && NO_BASE@[0] == 'N' && COPIED@[0] == 'A' && BAKED@[0] == 'B'
        && SQUASHED@[0] == 'T');
    let caveats = reconstruction(history, base, base_history).caveats;
    if history.len() == 1 {
        assert(caveats[caveats.len() - 1] == SQUASHED@);
    }
    if base is None {
        assert(caveats[1] == NO_BASE@);
    }
}

/// White space around a recorded command makes no difference.
pub proof fn law_white_space_around_a_step_is_ignored(
    before: Seq<char>,
    step: Seq<char>,
    after: Seq<char>,
)
    requires
        forall|i: int| 0 <= i < before.len() ==> text::is_space(#[trigger] before[i]),
        forall|i: int| 0 <= i < after.len() ==> text::is_space(#[trigger] after[i]),
        bare(step),
        !" # buildkit"@.is_suffix_of(step),
        !" # buildkit"@.is_suffix_of(before + step + after),
    ensures
        parsed_view(before + step + after) == parsed_view(step),
        baked(before + step + after) == baked(step),
{
    text::law_trimming_takes_off_white_space_alone(before, step, after);
    lemma_bare_is_trimmed(step);
    assert(recorded(before + step + after) == step);
    assert(recorded(step) == step);
}

} // verus!
