use lave_core::engine::{LogChunk, LogStream};
use lave_core::model::logs::{Appended, Token, Transcript, highlight};

fn chunk(stream: LogStream, text: &str) -> LogChunk {
    LogChunk {
        stream,
        bytes: text.as_bytes().to_vec(),
    }
}

fn out(text: &str) -> LogChunk {
    chunk(LogStream::Stdout, text)
}

fn err(text: &str) -> LogChunk {
    chunk(LogStream::Stderr, text)
}

fn texts(appended: &Appended) -> Vec<&str> {
    appended
        .lines
        .iter()
        .map(|line| line.text.as_str())
        .collect()
}

#[test]
fn whole_lines_come_out_one_at_a_time() {
    let mut transcript = Transcript::default();

    let appended = transcript.push(&out("first\nsecond\n"));

    assert_eq!(texts(&appended), vec!["first", "second"]);
}

#[test]
fn a_line_split_across_chunks_is_rejoined() {
    let mut transcript = Transcript::default();

    assert!(transcript.push(&out("half")).lines.is_empty());
    let appended = transcript.push(&out(" of a line\n"));

    assert_eq!(texts(&appended), vec!["half of a line"]);
}

#[test]
fn the_two_streams_keep_their_fragments_apart() {
    let mut transcript = Transcript::default();

    // Interleaved partials: joining them would corrupt both lines.
    transcript.push(&out("stdout "));
    transcript.push(&err("stderr "));
    let from_out = transcript.push(&out("finished\n"));
    let from_err = transcript.push(&err("finished\n"));

    assert_eq!(texts(&from_out), vec!["stdout finished"]);
    assert_eq!(texts(&from_err), vec!["stderr finished"]);
}

#[test]
fn each_line_remembers_which_stream_it_came_from() {
    let mut transcript = Transcript::default();

    transcript.push(&out("normal\n"));
    transcript.push(&err("a problem\n"));

    let streams: Vec<LogStream> = transcript.lines().iter().map(|line| line.stream).collect();
    assert_eq!(streams, vec![LogStream::Stdout, LogStream::Stderr]);
}

#[test]
fn a_trailing_fragment_survives_the_stream_ending() {
    let mut transcript = Transcript::default();
    transcript.push(&out("no newline at the end"));

    let appended = transcript.finish();

    assert_eq!(texts(&appended), vec!["no newline at the end"]);
}

#[test]
fn finishing_an_exhausted_transcript_adds_nothing() {
    let mut transcript = Transcript::default();
    transcript.push(&out("complete\n"));

    assert!(transcript.finish().lines.is_empty());
}

#[test]
fn crlf_endings_do_not_leave_a_stray_carriage_return() {
    let mut transcript = Transcript::default();

    let appended = transcript.push(&out("windows\r\nunix\n"));

    assert_eq!(texts(&appended), vec!["windows", "unix"]);
}

#[test]
fn colour_codes_are_stripped_rather_than_shown_as_rubbish() {
    let mut transcript = Transcript::default();

    let appended = transcript.push(&out("\u{1b}[31merror\u{1b}[0m: it broke\n"));

    assert_eq!(texts(&appended), vec!["error: it broke"]);
}

#[test]
fn a_window_title_escape_is_stripped_whole() {
    let mut transcript = Transcript::default();

    let appended = transcript.push(&out("\u{1b}]0;a title\u{7}after\n"));

    assert_eq!(texts(&appended), vec!["after"]);
}

#[test]
fn output_that_is_not_utf8_still_yields_a_line() {
    let mut transcript = Transcript::default();
    let chunk = LogChunk {
        stream: LogStream::Stdout,
        bytes: vec![b'o', b'k', 0xff, 0xfe, b'\n'],
    };

    let appended = transcript.push(&chunk);

    assert_eq!(appended.lines.len(), 1, "a bad byte must not lose the line");
    assert!(appended.lines[0].text.starts_with("ok"));
}

#[test]
fn the_oldest_lines_are_dropped_once_the_cap_is_reached() {
    let mut transcript = Transcript::new(3);

    transcript.push(&out("one\ntwo\nthree\n"));
    let appended = transcript.push(&out("four\n"));

    assert_eq!(appended.dropped, 1);
    let kept: Vec<&str> = transcript
        .lines()
        .iter()
        .map(|line| line.text.as_str())
        .collect();
    assert_eq!(kept, vec!["two", "three", "four"]);
}

#[test]
fn nothing_is_dropped_while_there_is_room() {
    let mut transcript = Transcript::new(10);

    let appended = transcript.push(&out("one\ntwo\n"));

    assert_eq!(appended.dropped, 0);
}

#[test]
fn a_single_push_larger_than_the_cap_still_leaves_a_full_transcript() {
    let mut transcript = Transcript::new(2);

    let appended = transcript.push(&out("one\ntwo\nthree\nfour\n"));

    assert_eq!(appended.dropped, 2);
    assert_eq!(transcript.lines().len(), 2);
}

#[test]
fn a_zero_capacity_is_treated_as_one_rather_than_swallowing_everything() {
    let mut transcript = Transcript::new(0);

    transcript.push(&out("kept\n"));

    assert_eq!(transcript.lines().len(), 1);
}

fn tokens(line: &str) -> Vec<(Token, String)> {
    let characters: Vec<char> = line.chars().collect();
    highlight(line)
        .into_iter()
        .map(|span| {
            (
                span.token,
                characters[span.start..span.end].iter().collect::<String>(),
            )
        })
        .collect()
}

#[test]
fn a_structured_line_is_broken_into_keys_and_values() {
    let coloured = tokens(r#"{"level":"warn","tries":3,"ok":false}"#);

    assert!(coloured.contains(&(Token::Key, "\"level\"".to_owned())));
    assert!(coloured.contains(&(Token::Text, "\"warn\"".to_owned())));
    assert!(coloured.contains(&(Token::Key, "\"tries\"".to_owned())));
    assert!(coloured.contains(&(Token::Number, "3".to_owned())));
    assert!(coloured.contains(&(Token::Literal, "false".to_owned())));
}

#[test]
fn a_string_is_a_key_only_when_a_colon_follows_it() {
    let coloured = tokens(r#"{"a":"b"}"#);

    // Same text either side of the colon; only position tells them apart.
    assert_eq!(
        coloured
            .iter()
            .filter(|(token, _)| *token == Token::Key)
            .count(),
        1
    );
    assert_eq!(
        coloured
            .iter()
            .filter(|(token, _)| *token == Token::Text)
            .count(),
        1
    );
}

#[test]
fn an_escaped_quote_does_not_end_a_string_early() {
    let coloured = tokens(r#"{"msg":"she said \"hello\" loudly"}"#);

    assert!(
        coloured
            .iter()
            .any(|(token, text)| *token == Token::Text && text.contains("loudly")),
        "{coloured:?}"
    );
}

#[test]
fn plain_output_is_left_uncoloured() {
    assert!(highlight("starting server on port 8080").is_empty());
    // Mentioning a brace is not the same as being JSON.
    assert!(highlight("config {broken").is_empty());
}

#[test]
fn a_half_written_line_is_left_alone_rather_than_half_coloured() {
    // A container flushing mid-write produces exactly this.
    assert!(highlight(r#"{"level":"info","msg":"partial"#).is_empty());
}

#[test]
fn a_json_array_is_not_treated_as_a_structured_line() {
    // Structured logging is objects; a bare array is far more likely to be prose.
    assert!(highlight("[1, 2, 3]").is_empty());
}

#[test]
fn leading_whitespace_does_not_stop_a_line_being_recognised() {
    assert!(!highlight(r#"  {"level":"info"}"#).is_empty());
}

#[test]
fn spans_are_character_offsets_so_multibyte_text_lines_up() {
    let line = r#"{"msg":"café","n":1}"#;
    let characters: Vec<char> = line.chars().collect();

    for span in highlight(line) {
        assert!(span.end <= characters.len(), "{span:?} runs past the line");
    }
    assert!(tokens(line).contains(&(Token::Text, "\"café\"".to_owned())));
}

#[test]
fn an_empty_transcript_says_so_until_something_partial_arrives() {
    let mut transcript = Transcript::default();
    assert!(transcript.is_empty());

    transcript.push(&out("partial"));

    assert!(
        !transcript.is_empty(),
        "a fragment is still output that has been received"
    );
}
