//! What can go wrong between the application and the daemon, in words for its user.

use vstd::prelude::*;

use crate::text;
use crate::text::{chars_of, find_char, take_chars, trim};

verus! {

/// Why an engine call failed.
#[derive(Debug, Clone, PartialEq, Eq)]
pub enum EngineError {
    /// The daemon could not be talked to.
    Unreachable {
        explanation: String,
        /// What the user can do about it, when there is something.
        hint: Option<String>,
    },
    /// The daemon answered with an error.
    Api { status: u16, message: String },
    /// What was asked for is gone.
    NotFound { what: String },
    /// The daemon's answer made no sense.
    Protocol(String),
}

/// The value of an [`EngineError`].
#[verifier::ext_equal]
pub enum ErrorView {
    Unreachable { explanation: Seq<char>, hint: Option<Seq<char>> },
    Api { status: u16, message: Seq<char> },
    NotFound { what: Seq<char> },
    Protocol(Seq<char>),
}

impl DeepView for EngineError {
    type V = ErrorView;

    open spec fn deep_view(&self) -> ErrorView {
        match self {
            EngineError::Unreachable { explanation, hint } => ErrorView::Unreachable {
                explanation: explanation@,
                hint: hint.deep_view(),
            },
            EngineError::Api { status, message } => ErrorView::Api {
                status: *status,
                message: message@,
            },
            EngineError::NotFound { what } => ErrorView::NotFound { what: what@ },
            EngineError::Protocol(detail) => ErrorView::Protocol(detail@),
        }
    }
}

/// What kept a socket from being opened or read.
#[derive(Debug, Clone, Copy, PartialEq, Eq)]
pub enum Obstacle {
    PermissionDenied,
    NotFound,
    ConnectionRefused,
    /// Anything else.
    Other,
}

/// A failure as the Docker client reports it.
#[derive(Debug, Clone, PartialEq, Eq)]
pub enum Failure {
    /// There is no socket at this path.
    NoSocket(String),
    /// The socket could not be opened or read.
    Socket(Obstacle),
    /// The daemon answered with an error status.
    Response { status: u16, message: String },
    /// The daemon's answer could not be decoded.
    Undecodable(String),
    /// The connection broke.
    ConnectionLost(String),
    /// The request could not be sent.
    NoRequest(String),
    /// The address is of a kind that the client does not know.
    UnsupportedAddress(String),
    /// Anything else, in the client's words.
    Other(String),
}

/// The value of a [`Failure`].
#[verifier::ext_equal]
pub enum FailureView {
    NoSocket(Seq<char>),
    Socket(Obstacle),
    Response { status: u16, message: Seq<char> },
    Undecodable(Seq<char>),
    ConnectionLost(Seq<char>),
    NoRequest(Seq<char>),
    UnsupportedAddress(Seq<char>),
    Other(Seq<char>),
}

impl DeepView for Failure {
    type V = FailureView;

    open spec fn deep_view(&self) -> FailureView {
        match self {
            Failure::NoSocket(path) => FailureView::NoSocket(path@),
            Failure::Socket(obstacle) => FailureView::Socket(*obstacle),
            Failure::Response { status, message } => FailureView::Response {
                status: *status,
                message: message@,
            },
            Failure::Undecodable(detail) => FailureView::Undecodable(detail@),
            Failure::ConnectionLost(detail) => FailureView::ConnectionLost(detail@),
            Failure::NoRequest(detail) => FailureView::NoRequest(detail@),
            Failure::UnsupportedAddress(uri) => FailureView::UnsupportedAddress(uri@),
            Failure::Other(detail) => FailureView::Other(detail@),
        }
    }
}

/// What to do about a socket that may not be read.
pub const GROUP_HINT: &'static str = "Socket access is root-equivalent, so it is restricted to the `docker` group. Add your user to that group and log in again, or run a rootless daemon.";

/// What to do about a socket that is not there.
pub const MISSING_HINT: &'static str = "The daemon may not be running. Start it, or point Lave Station elsewhere with --docker-host.";

/// What to do about a socket that nobody serves.
pub const REFUSED_HINT: &'static str = "The daemon is probably stopped. A stale socket file is left behind when it exits uncleanly.";

/// What to do about a request that the daemon will not carry out.
pub const FORBIDDEN_HINT: &'static str = "Rootless daemons refuse privileged operations outright; see the daemon's own logs for the specific capability.";

/// What to do about an address of another kind.
pub const LOCAL_ONLY_HINT: &'static str = "This version supports local sockets only.";

/// The explanation of a socket that could not be opened.
pub open spec fn unreachable_at(endpoint: Seq<char>, obstacle: Obstacle) -> ErrorView {
    match obstacle {
        Obstacle::PermissionDenied => ErrorView::Unreachable {
            explanation: endpoint + " exists, but this user may not read it"@,
            hint: Some(GROUP_HINT@),
        },
        Obstacle::NotFound => ErrorView::Unreachable {
            explanation: "there is no socket at "@ + endpoint,
            hint: Some(MISSING_HINT@),
        },
        Obstacle::ConnectionRefused => ErrorView::Unreachable {
            explanation: endpoint + " exists, but nothing is listening on it"@,
            hint: Some(REFUSED_HINT@),
        },
        Obstacle::Other => ErrorView::Unreachable {
            explanation: "could not connect to "@ + endpoint,
            hint: None,
        },
    }
}

/// A text up to its first line break, without the white space around it.
pub open spec fn first_line_of(message: Seq<char>) -> Seq<char> {
    text::trimmed(message.take(text::find(message, '\n') as int))
}

/// The error that an answer with an error status becomes.
pub open spec fn refusal(status: u16, message: Seq<char>) -> ErrorView {
    let line = first_line_of(message);
    if status == 404 {
        ErrorView::NotFound { what: line }
    } else if status == 403 {
        ErrorView::Unreachable {
            explanation: "the daemon refused the request: "@ + line,
            hint: Some(FORBIDDEN_HINT@),
        }
    } else {
        ErrorView::Api { status, message: line }
    }
}

/// The error that a failure on the way to `endpoint` becomes.
pub open spec fn explained(failure: FailureView, endpoint: Seq<char>) -> ErrorView {
    match failure {
        FailureView::NoSocket(path) => unreachable_at(path, Obstacle::NotFound),
        FailureView::Socket(obstacle) => unreachable_at(endpoint, obstacle),
        FailureView::Response { status, message } => refusal(status, message),
        FailureView::Undecodable(detail) => ErrorView::Protocol(detail),
        FailureView::ConnectionLost(detail) => ErrorView::Unreachable {
            explanation: "lost the connection to "@ + endpoint + ": "@ + detail,
            hint: None,
        },
        FailureView::NoRequest(detail) => ErrorView::Unreachable {
            explanation: "could not talk to "@ + endpoint + ": "@ + detail,
            hint: None,
        },
        FailureView::UnsupportedAddress(uri) => ErrorView::Unreachable {
            explanation: uri + " is not an address this version can use"@,
            hint: Some(LOCAL_ONLY_HINT@),
        },
        FailureView::Other(detail) => ErrorView::Unreachable { explanation: detail, hint: None },
    }
}

impl ErrorView {
    /// The error in one line.
    pub open spec fn message(self) -> Seq<char> {
        match self {
            ErrorView::Unreachable { explanation, .. } => explanation,
            ErrorView::Api { message, .. } => message,
            ErrorView::NotFound { what } => what + " no longer exists"@,
            ErrorView::Protocol(detail) => "the daemon sent something unexpected: "@ + detail,
        }
    }

    /// What the user can do about it.
    pub open spec fn advice(self) -> Option<Seq<char>> {
        match self {
            ErrorView::Unreachable { hint, .. } => hint,
            _ => None,
        }
    }

    /// Whether trying again later could succeed.
    pub open spec fn transient(self) -> bool {
        match self {
            ErrorView::Unreachable { .. } => true,
            ErrorView::Api { status, .. } => status >= 500,
            _ => false,
        }
    }
}

/// The first line of a message, which carries its meaning.
fn first_line(message: &str) -> (line: &str)
    ensures
        line@ == first_line_of(message@),
{
    let chars = chars_of(message);
    let end: usize = find_char(&chars, '\n');
    trim(take_chars(message, end))
}

impl EngineError {
    /// The error in one line.
    #[must_use]
    pub fn to_string(&self) -> (line: String)
        ensures
            line@ == self.deep_view().message(),
    {
        match self {
            EngineError::Unreachable { explanation, .. } => explanation.clone(),
            EngineError::Api { message, .. } => message.clone(),
            EngineError::NotFound { what } => what.clone().concat(" no longer exists"),
            EngineError::Protocol(detail) => "the daemon sent something unexpected: ".to_owned().concat(
                detail.as_str(),
            ),
        }
    }

    /// What the user can do about it, when there is something.
    #[must_use]
    pub fn hint(&self) -> (hint: Option<&str>)
        ensures
            hint.deep_view() == self.deep_view().advice(),
    {
        match self {
            EngineError::Unreachable { hint: Some(hint), .. } => Some(hint.as_str()),
            _ => None,
        }
    }

    /// Whether retrying later could plausibly succeed. Drives reconnection.
    #[must_use]
    pub fn is_transient(&self) -> (yes: bool)
        ensures
            yes == self.deep_view().transient(),
    {
        match self {
            EngineError::Unreachable { .. } => true,
            EngineError::Api { status, .. } => *status >= 500,
            EngineError::NotFound { .. } => false,
            EngineError::Protocol(_) => false,
        }
    }

    /// Explains a connection failure against a known socket path.
    #[must_use]
    pub fn unreachable(endpoint: &str, kind: Obstacle) -> (error: Self)
        ensures
            error.deep_view() == unreachable_at(endpoint@, kind),
    {
        match kind {
            Obstacle::PermissionDenied => EngineError::Unreachable {
                explanation: endpoint.to_owned().concat(" exists, but this user may not read it"),
                hint: Some(GROUP_HINT.to_owned()),
            },
            Obstacle::NotFound => EngineError::Unreachable {
                explanation: "there is no socket at ".to_owned().concat(endpoint),
                hint: Some(MISSING_HINT.to_owned()),
            },
            Obstacle::ConnectionRefused => EngineError::Unreachable {
                explanation: endpoint.to_owned().concat(" exists, but nothing is listening on it"),
                hint: Some(REFUSED_HINT.to_owned()),
            },
            Obstacle::Other => EngineError::Unreachable {
                explanation: "could not connect to ".to_owned().concat(endpoint),
                hint: None,
            },
        }
    }

    /// Explains an answer with an error status.
    fn refused(status: u16, message: &str) -> (error: Self)
        ensures
            error.deep_view() == refusal(status, message@),
    {
        let line = first_line(message);
        if status == 404 {
            EngineError::NotFound { what: line.to_owned() }
        } else if status == 403 {
            EngineError::Unreachable {
                explanation: "the daemon refused the request: ".to_owned().concat(line),
                hint: Some(FORBIDDEN_HINT.to_owned()),
            }
        } else {
            EngineError::Api { status, message: line.to_owned() }
        }
    }

    /// Explains a failure of the `bollard` client, keeping the socket path in the
    /// message because the client's own errors do not name it.
    #[must_use]
    pub fn from_bollard(failure: &Failure, endpoint: &str) -> (error: Self)
        ensures
            error.deep_view() == explained(failure.deep_view(), endpoint@),
    {
        match failure {
            Failure::NoSocket(path) => EngineError::unreachable(path.as_str(), Obstacle::NotFound),
            Failure::Socket(obstacle) => EngineError::unreachable(endpoint, *obstacle),
            Failure::Response { status, message } => EngineError::refused(
                *status,
                message.as_str(),
            ),
            Failure::Undecodable(detail) => EngineError::Protocol(detail.clone()),
            Failure::ConnectionLost(detail) => EngineError::Unreachable {
                explanation: "lost the connection to ".to_owned().concat(endpoint).concat(
                    ": ",
                ).concat(detail.as_str()),
                hint: None,
            },
            Failure::NoRequest(detail) => EngineError::Unreachable {
                explanation: "could not talk to ".to_owned().concat(endpoint).concat(": ").concat(
                    detail.as_str(),
                ),
                hint: None,
            },
            Failure::UnsupportedAddress(uri) => EngineError::Unreachable {
                explanation: uri.clone().concat(" is not an address this version can use"),
                hint: Some(LOCAL_ONLY_HINT.to_owned()),
            },
            Failure::Other(detail) => EngineError::Unreachable {
                explanation: detail.clone(),
                hint: None,
            },
        }
    }
}

/// A failure is worth a retry exactly when it is not a refusal of the request
/// itself: an answer with a status under 500 other than 403, or an answer that
/// could not be decoded.
pub proof fn law_only_refusals_are_final(failure: FailureView, endpoint: Seq<char>)
    ensures
        explained(failure, endpoint).transient() == (match failure {
            FailureView::Response { status, .. } => status >= 500 || status == 403,
            FailureView::Undecodable(_) => false,
            _ => true,
        }),
{
}

/// Advice is only ever given for a daemon that cannot be reached.
pub proof fn law_only_unreachable_errors_carry_advice(error: ErrorView)
    ensures
        error.advice() is Some ==> error is Unreachable && error.transient(),
{
}

/// What is said of a failure keeps where it happened and what the client or the daemon said
/// of it: a socket is named, by its own path where the client gives one, and a broken
/// connection keeps its details.
pub proof fn law_failures_keep_where_and_why(endpoint: Seq<char>, other: Seq<char>, detail: Seq<char>)
    ensures
        endpoint.is_prefix_of(
            explained(FailureView::Socket(Obstacle::PermissionDenied), endpoint).message(),
        ),
        endpoint.is_prefix_of(
            explained(FailureView::Socket(Obstacle::ConnectionRefused), endpoint).message(),
        ),
        endpoint.is_suffix_of(
            explained(FailureView::Socket(Obstacle::NotFound), endpoint).message(),
        ),
        endpoint.is_suffix_of(explained(FailureView::Socket(Obstacle::Other), endpoint).message()),
        explained(FailureView::NoSocket(other), endpoint) == explained(
            FailureView::Socket(Obstacle::NotFound),
            other,
        ),
        (endpoint + ": "@ + detail).is_suffix_of(
            explained(FailureView::ConnectionLost(detail), endpoint).message(),
        ),
        (endpoint + ": "@ + detail).is_suffix_of(
            explained(FailureView::NoRequest(detail), endpoint).message(),
        ),
        detail.is_suffix_of(explained(FailureView::Undecodable(detail), endpoint).message()),
        explained(FailureView::Other(detail), endpoint).message() == detail,
        other.is_prefix_of(explained(FailureView::UnsupportedAddress(other), endpoint).message()),
{
    let a = explained(FailureView::Socket(Obstacle::PermissionDenied), endpoint).message();
    assert(a.subrange(0, endpoint.len() as int) =~= endpoint);
    let b = explained(FailureView::Socket(Obstacle::ConnectionRefused), endpoint).message();
    assert(b.subrange(0, endpoint.len() as int) =~= endpoint);
    let c = explained(FailureView::Socket(Obstacle::NotFound), endpoint).message();
    assert(c.subrange(c.len() - endpoint.len(), c.len() as int) =~= endpoint);
    let d = explained(FailureView::Socket(Obstacle::Other), endpoint).message();
    assert(d.subrange(d.len() - endpoint.len(), d.len() as int) =~= endpoint);
    let end = endpoint + ": "@ + detail;
    let e = explained(FailureView::ConnectionLost(detail), endpoint).message();
    assert(e.subrange(e.len() - end.len(), e.len() as int) =~= end);
    let f = explained(FailureView::NoRequest(detail), endpoint).message();
    assert(f.subrange(f.len() - end.len(), f.len() as int) =~= end);
    let g = explained(FailureView::Undecodable(detail), endpoint).message();
    assert(g.subrange(g.len() - detail.len(), g.len() as int) =~= detail);
    let h = explained(FailureView::UnsupportedAddress(other), endpoint).message();
    assert(h.subrange(0, other.len() as int) =~= other);
}

/// Each obstacle has its own advice: the group for a socket that may not be read, starting
/// the daemon for one that is not there, the stale file for one that nobody serves.
pub proof fn law_advice_suits_the_obstacle(endpoint: Seq<char>, detail: Seq<char>, status: u16)
    ensures
        explained(FailureView::Socket(Obstacle::PermissionDenied), endpoint).advice() == Some(
            GROUP_HINT@,
        ),
        explained(FailureView::Socket(Obstacle::NotFound), endpoint).advice() == Some(MISSING_HINT@),
        explained(FailureView::Socket(Obstacle::ConnectionRefused), endpoint).advice() == Some(
            REFUSED_HINT@,
        ),
        explained(FailureView::Socket(Obstacle::Other), endpoint).advice() is None,
        explained(FailureView::UnsupportedAddress(detail), endpoint).advice() == Some(
            LOCAL_ONLY_HINT@,
        ),
        explained(FailureView::Response { status: 403, message: detail }, endpoint).advice() == Some(
            FORBIDDEN_HINT@,
        ),
        status != 403 ==> explained(
            FailureView::Response { status, message: detail },
            endpoint,
        ).advice() is None,
        explained(FailureView::ConnectionLost(detail), endpoint).advice() is None,
        explained(FailureView::Undecodable(detail), endpoint).advice() is None,
{
}

/// Of the daemon's answer the first line is kept, whole and without the white space around
/// it, and its status decides what it means.
pub proof fn law_an_answer_keeps_its_first_line(
    status: u16,
    line: Seq<char>,
    rest: Seq<char>,
    endpoint: Seq<char>,
)
    requires
        line.len() > 0,
        !text::is_space(line[0]),
        !text::is_space(line.last()),
        !line.contains('\n'),
    ensures
        explained(FailureView::Response { status, message: line }, endpoint) == explained(
            FailureView::Response { status, message: line + seq!['\n'] + rest },
            endpoint,
        ),
        explained(FailureView::Response { status: 404, message: line }, endpoint) == (
        ErrorView::NotFound { what: line }),
        line.is_suffix_of(
            explained(FailureView::Response { status: 403, message: line }, endpoint).message(),
        ),
        status != 404 && status != 403 ==> explained(
            FailureView::Response { status, message: line },
            endpoint,
        ) == (ErrorView::Api { status, message: line }),
        (ErrorView::Api { status, message: line }).message() == line,
        line.is_prefix_of((ErrorView::NotFound { what: line }).message()),
{
    assert forall|i: int| 0 <= i < line.len() implies line[i] != '\n' by {
        assert(line.contains(line[i]));
    }
    let whole = line + seq!['\n'] + rest;
    assert(whole[line.len() as int] == '\n');
    assert forall|i: int| 0 <= i < line.len() implies whole[i] != '\n' by {
        assert(whole[i] == line[i]);
    }
    text::lemma_find_is(line, '\n', line.len() as int);
    text::lemma_find_is(whole, '\n', line.len() as int);
    assert(line.take(line.len() as int) =~= line);
    assert(whole.take(line.len() as int) =~= line);
    assert(text::trimmed_start(line) == line);
    assert(text::trimmed(line) == line);
    let said = explained(FailureView::Response { status: 403, message: line }, endpoint).message();
    assert(said.subrange(said.len() - line.len(), said.len() as int) =~= line);
    let gone = (ErrorView::NotFound { what: line }).message();
    assert(gone.subrange(0, line.len() as int) =~= line);
}

/// Waiting can help where the daemon could not be reached and where the fault is its own; it
/// cannot where the answer makes no sense or the request is at fault.
pub proof fn law_only_the_daemons_own_faults_pass(
    endpoint: Seq<char>,
    detail: Seq<char>,
    status: u16,
)
    ensures
        explained(FailureView::Socket(Obstacle::ConnectionRefused), endpoint).transient(),
        explained(FailureView::Socket(Obstacle::NotFound), endpoint).transient(),
        explained(FailureView::NoSocket(detail), endpoint).transient(),
        explained(FailureView::ConnectionLost(detail), endpoint).transient(),
        status != 403 ==> (explained(
            FailureView::Response { status, message: detail },
            endpoint,
        ).transient() <==> status >= 500),
        !explained(FailureView::Undecodable(detail), endpoint).transient(),
        (ErrorView::Api { status, message: detail }).transient() <==> status >= 500,
        !(ErrorView::NotFound { what: detail }).transient(),
{
}

/// White space around the first line of an answer is no part of what is kept.
pub proof fn law_an_answer_is_kept_without_white_space(
    before: Seq<char>,
    line: Seq<char>,
    after: Seq<char>,
    rest: Seq<char>,
    endpoint: Seq<char>,
)
    requires
        forall|i: int|
            0 <= i < before.len() ==> text::is_space(#[trigger] before[i]) && before[i] != '\n',
        forall|i: int|
            0 <= i < after.len() ==> text::is_space(#[trigger] after[i]) && after[i] != '\n',
        line.len() > 0 ==> !text::is_space(line[0]) && !text::is_space(line.last()),
        !line.contains('\n'),
    ensures
        explained(
            FailureView::Response {
                status: 404,
                message: before + line + after + seq!['\n'] + rest,
            },
            endpoint,
        ) == (ErrorView::NotFound { what: line }),
{
    let first = before + line + after;
    let whole = first + seq!['\n'] + rest;
    assert forall|i: int| 0 <= i < first.len() implies whole[i] != '\n' by {
        if i < before.len() {
            assert(whole[i] == before[i]);
        } else if i < before.len() + line.len() {
            assert(line.contains(line[i - before.len()]));
        } else {
            assert(whole[i] == after[i - before.len() - line.len()]);
        }
    }
    assert(whole[first.len() as int] == '\n');
    text::lemma_find_is(whole, '\n', first.len() as int);
    assert(whole.take(first.len() as int) =~= first);
    text::law_trimming_takes_off_white_space_alone(before, line, after);
}

} // verus!
