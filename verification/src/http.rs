//! The requests that the web dashboard answers, and the shape of its answers.
use vstd::prelude::*;

use crate::number;
use crate::number::{decimal_text, unsigned_value};
use crate::prs::PR_LIMIT;
use crate::split;
use crate::split::{index_of, index_of_text, split_words, trimmed};
use crate::text;
use crate::text::{chars_are, chars_are_ignoring_case, same, to_chars, to_text};

verus! {

/// How many connections are served at a time.
pub const MAX_CONNECTIONS: usize = 64;

/// How many bytes of a request are read.
pub const MAX_REQUEST_BYTES: u64 = 8192;

/// How many bytes of a request's body are read.
pub const MAX_BODY_BYTES: usize = 4096;

/// Whether one more connection is turned away.
pub fn is_busy(connections: usize) -> (r: bool)
    ensures
        r == (connections >= MAX_CONNECTIONS),
{
    connections >= MAX_CONNECTIONS
}

// ---------------------------------------------------------------------------
// Requests
// ---------------------------------------------------------------------------

/// The head of a request.
pub struct Request {
    pub method: String,
    pub path: String,
    pub host: Option<String>,
    pub origin: Option<String>,
    /// How long the body says it is.
    pub length: usize,
}

/// What a value of `Request` says.
#[verifier::ext_equal]
pub struct RequestView {
    pub method: Seq<char>,
    pub path: Seq<char>,
    pub host: Option<Seq<char>>,
    pub origin: Option<Seq<char>>,
    pub length: nat,
}

impl View for Request {
    type V = RequestView;

    open spec fn view(&self) -> RequestView {
        RequestView {
            method: self.method@,
            path: self.path@,
            host: text::optional(self.host),
            origin: text::optional(self.origin),
            length: self.length as nat,
        }
    }
}

/// A length that cannot be read counts as nothing.
pub open spec fn length_in(value: Seq<char>) -> nat {
    match number::parse_unsigned(value, usize::MAX as nat) {
        Some(n) => n,
        None => 0,
    }
}

/// The request once a further header is read. Headers that do not matter are skipped; of
/// several of one name the last one counts.
pub open spec fn with_header(request: RequestView, line: Seq<char>) -> RequestView {
    let n = split::find(line, ':');
    if n == line.len() {
        request
    } else {
        let name = text::lower(split::trim(line.take(n as int)));
        let value = split::trim(line.skip(n as int + 1));
        if name == text::lower("content-length"@) {
            RequestView { length: length_in(value), ..request }
        } else if name == text::lower("host"@) {
            RequestView { host: Some(value), ..request }
        } else if name == text::lower("origin"@) {
            RequestView { origin: Some(value), ..request }
        } else {
            request
        }
    }
}

/// The request once the headers up to a blank line are read.
pub open spec fn with_headers(request: RequestView, lines: Seq<Seq<char>>) -> RequestView
    decreases lines.len(),
{
    if lines.len() == 0 || split::trim(lines[0]).len() == 0 {
        request
    } else {
        with_headers(with_header(request, lines[0]), lines.drop_first())
    }
}

/// The request that the lines of its head make; none where the first line has no method and
/// path.
pub open spec fn request_in(lines: Seq<Seq<char>>) -> Option<RequestView> {
    if lines.len() == 0 || split::words(lines[0]).len() < 2 {
        None
    } else {
        let words = split::words(lines[0]);
        Some(
            with_headers(
                RequestView {
                    method: words[0],
                    path: words[1],
                    host: None,
                    origin: None,
                    length: 0,
                },
                lines.drop_first(),
            ),
        )
    }
}

/// Whether a line ends the head of a request.
pub fn ends_head(line: &str) -> (r: bool)
    ensures
        r == (split::trim(line@).len() == 0),
{
    let chars = to_chars(line);
    trimmed(chars.as_slice()).len() == 0
}

fn read_length(value: &[char]) -> (n: usize)
    ensures
        n == length_in(value@),
{
    match unsigned_value(value, usize::MAX as u64) {
        Some(n) => n as usize,
        None => 0,
    }
}

fn take_header(request: &mut Request, line: &str)
    ensures
        final(request)@ == with_header(old(request)@, line@),
{
    let chars = to_chars(line);
    let count: usize = chars.len();
    let n: usize = index_of(chars.as_slice(), ':');
    if n == count {
        return;
    }
    let name = trimmed(vstd::slice::slice_subrange(chars.as_slice(), 0, n));
    let value = trimmed(vstd::slice::slice_subrange(chars.as_slice(), n + 1, count));
    proof {
        assert(line@.subrange(0, n as int) =~= line@.take(n as int));
        assert(line@.subrange(n + 1, count as int) =~= line@.skip(n + 1));
    }
    if chars_are_ignoring_case(name, "content-length") {
        request.length = read_length(value);
    } else if chars_are_ignoring_case(name, "host") {
        request.host = Some(to_text(value));
    } else if chars_are_ignoring_case(name, "origin") {
        request.origin = Some(to_text(value));
    }
}

/// Reads the head of a request from its lines.
pub fn read_request(lines: &Vec<String>) -> (r: Option<Request>)
    ensures
        match r {
            Some(request) => request_in(split::texts(lines@)) == Some(request@),
            None => request_in(split::texts(lines@)) is None,
        },
{
    if lines.len() == 0 {
        return None;
    }
    let ghost all = split::texts(lines@);
    let chars = to_chars(lines[0].as_str());
    let words = split_words(chars.as_slice());
    let ghost first = split::words(all[0]);
    assert(first.len() == words@.len());
    if words.len() < 2 {
        return None;
    }
    let mut request = Request {
        method: to_text(words[0]),
        path: to_text(words[1]),
        host: None,
        origin: None,
        length: 0,
    };
    let ghost start = request@;
    let ghost rest = all.drop_first();
    proof {
        assert(start.method == first[0] && start.path == first[1]);
        assert(rest.skip(0) =~= rest);
        assert(request_in(all) == Some(with_headers(start, rest)));
    }
    let mut i: usize = 1;
    while i < lines.len()
        invariant
            1 <= i <= lines@.len(),
            all == split::texts(lines@),
            rest == all.drop_first(),
            request_in(all) == Some(with_headers(start, rest)),
            with_headers(start, rest) == with_headers(request@, rest.skip(i - 1)),
        decreases lines@.len() - i,
    {
        proof {
            assert(rest.skip(i - 1)[0] == lines@[i as int]@);
            assert(rest.skip(i - 1).drop_first() =~= rest.skip(i as int));
        }
        if ends_head(lines[i].as_str()) {
            return Some(request);
        }
        take_header(&mut request, lines[i].as_str());
        i += 1;
    }
    assert(rest.skip(i - 1).len() == 0);
    Some(request)
}

/// How much of the body is to be read. The cap keeps a bogus header from allocating.
pub fn body_length(request: &Request) -> (n: usize)
    ensures
        n == if request@.length < MAX_BODY_BYTES {
            request@.length
        } else {
            MAX_BODY_BYTES as nat
        },
{
    if request.length < MAX_BODY_BYTES {
        request.length
    } else {
        MAX_BODY_BYTES
    }
}

// ---------------------------------------------------------------------------
// Origins
// ---------------------------------------------------------------------------

/// The host that an origin names, behind its scheme.
pub open spec fn authority(origin: Seq<char>) -> Option<Seq<char>> {
    match split::position(origin, "://"@) {
        Some(n) => Some(origin.skip(n as int + 3)),
        None => None,
    }
}

/// The request comes from the dashboard itself, or from no page at all.
pub open spec fn is_same_origin(request: RequestView) -> bool {
    match request.origin {
        None => true,
        Some(origin) => request.host is Some && authority(origin) == request.host,
    }
}

/// A POST is refused when it carries an `Origin` from somewhere other than the dashboard
/// itself. A missing `Origin` is allowed so `curl` and scripts keep working; browsers always
/// send one on POST.
pub fn same_origin(request: &Request) -> (r: bool)
    ensures
        r == is_same_origin(request@),
{
    let origin = match &request.origin {
        None => return true,
        Some(origin) => origin,
    };
    let host = match &request.host {
        None => return false,
        Some(host) => host,
    };
    let chars = to_chars(origin.as_str());
    let mark = to_chars("://");
    let count: usize = chars.len();
    proof {
        reveal_strlit("://");
    }
    match index_of_text(chars.as_slice(), mark.as_slice()) {
        None => false,
        Some(n) => {
            let behind = vstd::slice::slice_subrange(chars.as_slice(), n + 3, count);
            assert(behind@ =~= origin@.skip(n + 3));
            chars_are(behind, host.as_str())
        },
    }
}

// ---------------------------------------------------------------------------
// Routes
// ---------------------------------------------------------------------------

/// What a request asks for.
#[derive(Clone, Copy, Debug, PartialEq, Eq, Structural)]
pub enum Route {
    Index,
    State,
    Stream,
    Label,
    PullRequest,
    Focus,
    Refused(Refusal),
}

/// Why a request is not answered as asked.
#[derive(Clone, Copy, Debug, PartialEq, Eq, Structural)]
pub enum Refusal {
    Busy,
    CrossOrigin,
    NotFound,
    MethodNotAllowed,
    BadLabel,
    BadPullRequest,
    BadFocus,
    UnknownHost,
    NotAPullRequest,
    TooManyPullRequests,
    LabelNotSaved,
    PullRequestNotSaved,
}

/// The path without its query.
pub open spec fn bare_path(path: Seq<char>) -> Seq<char> {
    path.take(split::find(path, '?') as int)
}

/// What a request asks for. The routes that act on the laptop are closed to a page that you
/// happen to be visiting.
pub open spec fn route_of(request: RequestView) -> Route {
    let path = bare_path(request.path);
    if request.method == "POST"@ {
        if !is_same_origin(request) {
            Route::Refused(Refusal::CrossOrigin)
        } else if path == "/api/label"@ {
            Route::Label
        } else if path == "/api/pr"@ {
            Route::PullRequest
        } else if path == "/api/focus"@ {
            Route::Focus
        } else {
            Route::Refused(Refusal::NotFound)
        }
    } else if request.method != "GET"@ && request.method != "HEAD"@ {
        Route::Refused(Refusal::MethodNotAllowed)
    } else if path == "/"@ || path == "/index.html"@ {
        Route::Index
    } else if path == "/api/state"@ {
        Route::State
    } else if path == "/api/stream"@ {
        Route::Stream
    } else {
        Route::Refused(Refusal::NotFound)
    }
}

/// What a request asks for.
pub fn route(request: &Request) -> (r: Route)
    ensures
        r == route_of(request@),
{
    let chars = to_chars(request.path.as_str());
    let n: usize = index_of(chars.as_slice(), '?');
    assert(request.path@.subrange(0, n as int) =~= bare_path(request.path@));
    let bare = to_text(vstd::slice::slice_subrange(chars.as_slice(), 0, n));
    let path = bare.as_str();
    let method = request.method.as_str();
    if same(method, "POST") {
        if !same_origin(request) {
            Route::Refused(Refusal::CrossOrigin)
        } else if same(path, "/api/label") {
            Route::Label
        } else if same(path, "/api/pr") {
            Route::PullRequest
        } else if same(path, "/api/focus") {
            Route::Focus
        } else {
            Route::Refused(Refusal::NotFound)
        }
    } else if !same(method, "GET") && !same(method, "HEAD") {
        Route::Refused(Refusal::MethodNotAllowed)
    } else if same(path, "/") || same(path, "/index.html") {
        Route::Index
    } else if same(path, "/api/state") {
        Route::State
    } else if same(path, "/api/stream") {
        Route::Stream
    } else {
        Route::Refused(Refusal::NotFound)
    }
}

/// Whatever it asks for, a POST from another page is refused, and one that carries no
/// `Origin` is not refused for that.
pub proof fn lemma_cross_origin_posts_are_refused(request: RequestView)
    requires
        request.method == "POST"@,
    ensures
        request.origin matches Some(origin) && (request.host is None || authority(origin)
            != request.host) ==> route_of(request) == Route::Refused(Refusal::CrossOrigin),
        request.origin is None ==> route_of(request) != Route::Refused(Refusal::CrossOrigin),
{
}

/// Only a POST can reach the routes that act on the laptop.
pub proof fn lemma_reading_acts_on_nothing(request: RequestView)
    requires
        request.method != "POST"@,
    ensures
        route_of(request) != Route::Label,
        route_of(request) != Route::PullRequest,
        route_of(request) != Route::Focus,
{
}

// ---------------------------------------------------------------------------
// Answers
// ---------------------------------------------------------------------------

impl Refusal {
    pub open spec fn status_text(self) -> Seq<char> {
        match self {
            Refusal::Busy => "503 Service Unavailable"@,
            Refusal::CrossOrigin => "403 Forbidden"@,
            Refusal::NotFound => "404 Not Found"@,
            Refusal::UnknownHost => "404 Not Found"@,
            Refusal::MethodNotAllowed => "405 Method Not Allowed"@,
            Refusal::BadLabel => "400 Bad Request"@,
            Refusal::BadPullRequest => "400 Bad Request"@,
            Refusal::BadFocus => "400 Bad Request"@,
            Refusal::NotAPullRequest => "400 Bad Request"@,
            Refusal::TooManyPullRequests => "400 Bad Request"@,
            Refusal::LabelNotSaved => "500 Internal Server Error"@,
            Refusal::PullRequestNotSaved => "500 Internal Server Error"@,
        }
    }

    /// What is said to the user, shown as it is on the card.
    pub open spec fn text(self) -> Seq<char> {
        match self {
            Refusal::Busy => "busy"@,
            Refusal::CrossOrigin => "cross-origin request"@,
            Refusal::NotFound => "not found"@,
            Refusal::UnknownHost => "unknown host"@,
            Refusal::MethodNotAllowed => "method not allowed"@,
            Refusal::BadLabel => "expected {\"host\":\"...\",\"label\":\"...\"}"@,
            Refusal::BadPullRequest => "expected {\"host\":\"...\",\"url\":\"...\"}"@,
            Refusal::BadFocus => "expected {\"host\":\"...\"}"@,
            Refusal::NotAPullRequest => "not a GitHub PR link"@,
            Refusal::TooManyPullRequests => "at most "@ + number::decimal(PR_LIMIT as nat)
                + " PRs per devbox"@,
            Refusal::LabelNotSaved => "could not save label"@,
            Refusal::PullRequestNotSaved => "could not save PR"@,
        }
    }

    pub fn status(self) -> (r: &'static str)
        ensures
            r@ == self.status_text(),
    {
        match self {
            Refusal::Busy => "503 Service Unavailable",
            Refusal::CrossOrigin => "403 Forbidden",
            Refusal::NotFound => "404 Not Found",
            Refusal::UnknownHost => "404 Not Found",
            Refusal::MethodNotAllowed => "405 Method Not Allowed",
            Refusal::BadLabel => "400 Bad Request",
            Refusal::BadPullRequest => "400 Bad Request",
            Refusal::BadFocus => "400 Bad Request",
            Refusal::NotAPullRequest => "400 Bad Request",
            Refusal::TooManyPullRequests => "400 Bad Request",
            Refusal::LabelNotSaved => "500 Internal Server Error",
            Refusal::PullRequestNotSaved => "500 Internal Server Error",
        }
    }

    pub fn message(self) -> (r: String)
        ensures
            r@ == self.text(),
    {
        let fixed = match self {
            Refusal::Busy => "busy",
            Refusal::CrossOrigin => "cross-origin request",
            Refusal::NotFound => "not found",
            Refusal::UnknownHost => "unknown host",
            Refusal::MethodNotAllowed => "method not allowed",
            Refusal::BadLabel => "expected {\"host\":\"...\",\"label\":\"...\"}",
            Refusal::BadPullRequest => "expected {\"host\":\"...\",\"url\":\"...\"}",
            Refusal::BadFocus => "expected {\"host\":\"...\"}",
            Refusal::NotAPullRequest => "not a GitHub PR link",
            Refusal::TooManyPullRequests => {
                let mut out = "at most ".to_owned();
                out.append(decimal_text(PR_LIMIT as u128).as_str());
                out.append(" PRs per devbox");
                return out;
            },
            Refusal::LabelNotSaved => "could not save label",
            Refusal::PullRequestNotSaved => "could not save PR",
        };
        fixed.to_owned()
    }

    pub open spec fn kind(self) -> Seq<char> {
        match self {
            Refusal::Busy => "text/plain"@,
            _ => "text/plain; charset=utf-8"@,
        }
    }

    pub fn content_type(self) -> (r: &'static str)
        ensures
            r@ == self.kind(),
    {
        match self {
            Refusal::Busy => "text/plain",
            _ => "text/plain; charset=utf-8",
        }
    }
}

/// The head of an answer.
pub open spec fn head_text(status: Seq<char>, content_type: Seq<char>, length: nat) -> Seq<char> {
    "HTTP/1.1 "@ + status + "\r\nContent-Type: "@ + content_type + "\r\nContent-Length: "@
        + number::decimal(length) + "\r\nCache-Control: no-store\r\nConnection: close\r\n\r\n"@
}

/// The head of an answer whose body has that many bytes.
pub fn response_head(status: &str, content_type: &str, length: usize) -> (r: String)
    ensures
        r@ == head_text(status@, content_type@, length as nat),
{
    let mut out = "HTTP/1.1 ".to_owned();
    out.append(status);
    out.append("\r\nContent-Type: ");
    out.append(content_type);
    out.append("\r\nContent-Length: ");
    out.append(decimal_text(length as u128).as_str());
    out.append("\r\nCache-Control: no-store\r\nConnection: close\r\n\r\n");
    out
}

/// The head of a stream of events.
pub fn stream_head() -> (r: String)
    ensures
        r@ == "HTTP/1.1 200 OK\r\n"@ + "Content-Type: text/event-stream\r\n"@
            + "Cache-Control: no-cache, no-store\r\n"@ + "Connection: close\r\n"@
            + "X-Accel-Buffering: no\r\n"@ + "\r\n"@,
{
    let mut out = "HTTP/1.1 200 OK\r\n".to_owned();
    out.append("Content-Type: text/event-stream\r\n");
    out.append("Cache-Control: no-cache, no-store\r\n");
    out.append("Connection: close\r\n");
    out.append("X-Accel-Buffering: no\r\n");
    out.append("\r\n");
    out
}

/// What is sent on a stream: the state in one data field where there is a new one, else a
/// comment that keeps the connection warm.
pub open spec fn frame_text(payload: Option<Seq<char>>) -> Seq<char> {
    match payload {
        Some(payload) => "data: "@ + payload + "\n\n"@,
        None => ": ping\n\n"@,
    }
}

/// The payload is JSON on a single line, so one data field is enough.
pub fn event_frame(payload: Option<&str>) -> (r: String)
    ensures
        r@ == frame_text(text::given(payload)),
{
    match payload {
        Some(payload) => {
            let mut out = "data: ".to_owned();
            out.append(payload);
            out.append("\n\n");
            out
        },
        None => ": ping\n\n".to_owned(),
    }
}

/// The line is a header of that name, in any case.
pub open spec fn is_header(line: Seq<char>, name: Seq<char>) -> bool {
    split::find(line, ':') < line.len() && text::lower(
        split::trim(line.take(split::find(line, ':') as int)),
    ) == name
}

/// What a header says behind its colon.
pub open spec fn header_value(line: Seq<char>) -> Seq<char> {
    split::trim(line.skip(split::find(line, ':') as int + 1))
}

proof fn lemma_header_names()
    ensures
        text::lower("content-length"@) == "content-length"@,
        text::lower("host"@) == "host"@,
        text::lower("origin"@) == "origin"@,
        "content-length"@.len() == 14,
        "host"@.len() == 4,
        "origin"@.len() == 6,
{
    reveal_strlit("content-length");
    reveal_strlit("host");
    reveal_strlit("origin");
    assert(text::lower("content-length"@) =~= "content-length"@);
    assert(text::lower("host"@) =~= "host"@);
    assert(text::lower("origin"@) =~= "origin"@);
}

/// The last header of a name before the blank line tells the host, the origin and the length of
/// a request; what is not told stays as it was.
pub proof fn lemma_headers_count(request: RequestView, lines: Seq<Seq<char>>, end: int)
    requires
        0 <= end <= lines.len(),
        forall|j: int| 0 <= j < end ==> split::trim(#[trigger] lines[j]).len() > 0,
        end < lines.len() ==> split::trim(lines[end]).len() == 0,
    ensures
        ({
            let after = with_headers(request, lines);
            &&& after.method == request.method
            &&& after.path == request.path
            &&& forall|i: int|
                0 <= i < end && is_header(#[trigger] lines[i], "host"@) && (forall|j: int|
                    i < j < end ==> !is_header(#[trigger] lines[j], "host"@)) ==> after.host
                    == Some(header_value(lines[i]))
            &&& (forall|j: int| 0 <= j < end ==> !is_header(#[trigger] lines[j], "host"@))
                ==> after.host == request.host
            &&& forall|i: int|
                0 <= i < end && is_header(#[trigger] lines[i], "origin"@) && (forall|j: int|
                    i < j < end ==> !is_header(#[trigger] lines[j], "origin"@)) ==> after.origin
                    == Some(header_value(lines[i]))
            &&& (forall|j: int| 0 <= j < end ==> !is_header(#[trigger] lines[j], "origin"@))
                ==> after.origin == request.origin
            &&& forall|i: int|
                0 <= i < end && is_header(#[trigger] lines[i], "content-length"@) && (forall|j: int|
                    i < j < end ==> !is_header(#[trigger] lines[j], "content-length"@))
                    ==> after.length == length_in(header_value(lines[i]))
            &&& (forall|j: int| 0 <= j < end ==> !is_header(#[trigger] lines[j], "content-length"@))
                ==> after.length == request.length
        }),
    decreases end,
{
    lemma_header_names();
    if end > 0 {
        assert(split::trim(lines[0]).len() > 0);
        let rest = lines.drop_first();
        let next = with_header(request, lines[0]);
        split::lemma_find(lines[0], ':');
        assert forall|j: int| 0 <= j < end - 1 implies split::trim(#[trigger] rest[j]).len() > 0 by {
            assert(rest[j] == lines[j + 1]);
        }
        if end < lines.len() {
            assert(rest[end - 1] == lines[end]);
        }
        lemma_headers_count(next, rest, end - 1);
        let after = with_headers(request, lines);
        assert(after == with_headers(next, rest));
        lemma_header_shift(lines, end, "host"@);
        lemma_header_shift(lines, end, "origin"@);
        lemma_header_shift(lines, end, "content-length"@);
    }
}

/// What holds of the headers behind the first one holds of the lines without it.
proof fn lemma_header_shift(lines: Seq<Seq<char>>, end: int, name: Seq<char>)
    requires
        0 < end <= lines.len(),
    ensures
        forall|i: int|
            1 <= i < end && is_header(#[trigger] lines[i], name) && (forall|j: int|
                i < j < end ==> !is_header(#[trigger] lines[j], name)) ==> is_header(
                lines.drop_first()[i - 1],
                name,
            ) && (forall|j: int|
                i - 1 < j < end - 1 ==> !is_header(#[trigger] lines.drop_first()[j], name)),
        (forall|j: int| 1 <= j < end ==> !is_header(#[trigger] lines[j], name)) ==> (forall|j: int|
            0 <= j < end - 1 ==> !is_header(#[trigger] lines.drop_first()[j], name)),
{
    let rest = lines.drop_first();
    assert(forall|j: int| 0 <= j < rest.len() ==> #[trigger] rest[j] == lines[j + 1]);
}

/// A length is the number that is written there, and nothing where none is.
pub proof fn lemma_length(value: Seq<char>, n: nat)
    ensures
        number::parse_unsigned(value, usize::MAX as nat) is None ==> length_in(value) == 0,
        n <= usize::MAX ==> length_in(number::decimal(n)) == n,
{
    if n <= usize::MAX {
        number::lemma_decimal_reads_back(n, usize::MAX as nat);
    }
}

/// The first line of a request names its method and its path; what is behind them does not
/// matter.
pub proof fn lemma_request_line(lines: Seq<Seq<char>>)
    requires
        lines.len() > 0,
    ensures
        request_in(lines) is Some == (split::words(lines[0]).len() >= 2),
        request_in(lines) matches Some(request) ==> request.method == split::words(lines[0])[0]
            && request.path == split::words(lines[0])[1],
        request_in(lines) matches Some(request) ==> (lines.len() == 1 ==> request.host is None
            && request.origin is None && request.length == 0),
{
    if split::words(lines[0]).len() >= 2 {
        let words = split::words(lines[0]);
        lemma_head_keeps_line(
            RequestView { method: words[0], path: words[1], host: None, origin: None, length: 0 },
            lines.drop_first(),
        );
    }
}

proof fn lemma_head_keeps_line(request: RequestView, lines: Seq<Seq<char>>)
    ensures
        with_headers(request, lines).method == request.method,
        with_headers(request, lines).path == request.path,
        lines.len() == 0 ==> with_headers(request, lines) == request,
    decreases lines.len(),
{
    if lines.len() > 0 && split::trim(lines[0]).len() > 0 {
        lemma_head_keeps_line(with_header(request, lines[0]), lines.drop_first());
    }
}

/// The query of a path does not matter: a request asks for what it asks for without one.
pub proof fn lemma_query_does_not_matter(request: RequestView, path: Seq<char>, query: Seq<char>)
    requires
        !path.contains('?'),
    ensures
        route_of(RequestView { path: path + seq!['?'] + query, ..request }) == route_of(
            RequestView { path, ..request },
        ),
{
    let long = path + seq!['?'] + query;
    let n = path.len() as int;
    assert forall|j: int| 0 <= j < n implies #[trigger] path[j] != '?' by {
        assert(path.contains(path[j]));
    }
    assert forall|j: int| 0 <= j < n implies #[trigger] long[j] != '?' by {
        assert(long[j] == path[j]);
    }
    assert(long[n] == '?');
    split::lemma_find_at(path, '?', n);
    split::lemma_find_at(long, '?', n);
    assert(path.take(n) =~= path);
    assert(long.take(n) =~= path);
}

/// What each request asks for. Reading is by `GET` or `HEAD`, acting by `POST` from the
/// dashboard itself or from no page at all, and nothing else is answered.
pub proof fn lemma_routes(request: RequestView)
    requires
        !request.path.contains('?'),
    ensures
        ({
            let reads = request.method == "GET"@ || request.method == "HEAD"@;
            let acts = request.method == "POST"@ && (request.origin is None || (request.host is Some
                && authority(request.origin->Some_0) == request.host));
            let path = request.path;
            let route = route_of(request);
            &&& (route == Route::Index) == (reads && (path == "/"@ || path == "/index.html"@))
            &&& (route == Route::State) == (reads && path == "/api/state"@)
            &&& (route == Route::Stream) == (reads && path == "/api/stream"@)
            &&& (route == Route::Label) == (acts && path == "/api/label"@)
            &&& (route == Route::PullRequest) == (acts && path == "/api/pr"@)
            &&& (route == Route::Focus) == (acts && path == "/api/focus"@)
            &&& request.method == "POST"@ && !acts ==> route == Route::Refused(Refusal::CrossOrigin)
            &&& request.method != "POST"@ && !reads ==> route == Route::Refused(
                Refusal::MethodNotAllowed,
            )
            &&& acts && path != "/api/label"@ && path != "/api/pr"@ && path != "/api/focus"@
                ==> route == Route::Refused(Refusal::NotFound)
            &&& reads && path != "/"@ && path != "/index.html"@ && path != "/api/state"@ && path
                != "/api/stream"@ ==> route == Route::Refused(Refusal::NotFound)
        }),
{
    reveal_strlit("GET");
    reveal_strlit("HEAD");
    reveal_strlit("POST");
    assert("GET"@.len() == 3 && "HEAD"@[0] == 'H' && "POST"@[0] == 'P' && "POST"@.len() == 4);
    reveal_strlit("/");
    reveal_strlit("/index.html");
    reveal_strlit("/api/state");
    reveal_strlit("/api/stream");
    reveal_strlit("/api/label");
    reveal_strlit("/api/pr");
    reveal_strlit("/api/focus");
    assert("/"@.len() == 1 && "/index.html"@.len() == 11 && "/api/state"@.len() == 10);
    assert("/api/stream"@.len() == 11 && "/api/stream"@[1] == 'a' && "/index.html"@[1] == 'i');
    assert("/api/label"@.len() == 10 && "/api/pr"@.len() == 7 && "/api/focus"@.len() == 10);
    assert("/api/label"@[5] == 'l' && "/api/focus"@[5] == 'f');
    let path = request.path;
    assert forall|j: int| 0 <= j < path.len() implies #[trigger] path[j] != '?' by {
        assert(path.contains(path[j]));
    }
    split::lemma_find_at(path, '?', path.len() as int);
    assert(path.take(path.len() as int) =~= path);
}

/// A page's origin is its scheme and its host; a request comes from the dashboard itself if that
/// host is the one that it was sent to.
pub proof fn lemma_origin(request: RequestView, scheme: Seq<char>, host: Seq<char>)
    requires
        !scheme.contains(':'),
        request.origin == Some(scheme + ("://"@ + host)),
    ensures
        authority(scheme + ("://"@ + host)) == Some(host),
        is_same_origin(request) == (request.host == Some(host)),
{
    reveal_strlit("://");
    assert("://"@.len() == 3 && "://"@[0] == ':');
    let origin = scheme + ("://"@ + host);
    let n = scheme.len() as int;
    assert forall|j: int| 0 <= j < n implies #[trigger] origin[j] != ':' by {
        assert(origin[j] == scheme[j]);
        assert(scheme.contains(scheme[j]));
    }
    assert(origin.subrange(n, n + 3) =~= "://"@);
    split::lemma_position_at(origin, "://"@, n);
    assert(origin.skip(n + 3) =~= host);
}

proof fn lemma_literal_ends(a: Seq<char>, rest: Seq<char>)
    requires
        !a.contains('\n'),
    ensures
        split::lines(a + (seq!['\r', '\n'] + rest)) == seq![a] + split::lines(rest),
{
    split::lemma_line_ends(a, rest);
    assert(a + (seq!['\r', '\n'] + rest) =~= a + seq!['\r', '\n'] + rest);
}

/// The head of an answer has its status, the type of its body and how long that is, each on a
/// line of its own, and a blank line ends it.
pub proof fn lemma_head(status: Seq<char>, kind: Seq<char>, length: nat)
    requires
        !status.contains('\n'),
        !kind.contains('\n'),
    ensures
        split::lines(head_text(status, kind, length)) == seq![
            "HTTP/1.1 "@ + status,
            "Content-Type: "@ + kind,
            "Content-Length: "@ + number::decimal(length),
            "Cache-Control: no-store"@,
            "Connection: close"@,
            Seq::empty(),
        ],
{
    let end = seq!['\r', '\n'];
    let digits = number::decimal(length);
    number::lemma_decimal(length);
    reveal_strlit("HTTP/1.1 ");
    reveal_strlit("Content-Type: ");
    reveal_strlit("Content-Length: ");
    reveal_strlit("Cache-Control: no-store");
    reveal_strlit("Connection: close");
    reveal_strlit("\r\nContent-Type: ");
    reveal_strlit("\r\nContent-Length: ");
    reveal_strlit("\r\nCache-Control: no-store\r\nConnection: close\r\n\r\n");
    let a = "HTTP/1.1 "@ + status;
    let b = "Content-Type: "@ + kind;
    let c = "Content-Length: "@ + digits;
    let d = "Cache-Control: no-store"@;
    let e = "Connection: close"@;
    assert("\r\nContent-Type: "@ =~= end + "Content-Type: "@);
    assert("\r\nContent-Length: "@ =~= end + "Content-Length: "@);
    let none = Seq::<char>::empty();
    let f = none + (end + none);
    assert("\r\nCache-Control: no-store\r\nConnection: close\r\n\r\n"@ =~= end + (d + (end + (e + (end
        + f)))));
    let tail = end + (d + (end + (e + (end + f))));
    assert(head_text(status, kind, length) =~= a + (end + (b + (end + (c + tail)))));
    assert(!"HTTP/1.1 "@.contains('\n') && !"Content-Type: "@.contains('\n')
        && !"Content-Length: "@.contains('\n'));
    assert(!d.contains('\n') && !e.contains('\n'));
    lemma_no_line_end("HTTP/1.1 "@, status);
    lemma_no_line_end("Content-Type: "@, kind);
    assert(!digits.contains('\n')) by {
        if digits.contains('\n') {
            let i = choose|i: int| 0 <= i < digits.len() && digits[i] == '\n';
            assert(text::is_digit(digits[i]));
        }
    }
    lemma_no_line_end("Content-Length: "@, digits);
    lemma_literal_ends(none, none);
    lemma_literal_ends(e, f);
    lemma_literal_ends(d, e + (end + f));
    lemma_literal_ends(c, d + (end + (e + (end + f))));
    lemma_literal_ends(b, c + tail);
    lemma_literal_ends(a, b + (end + (c + tail)));
    assert(split::lines(none) =~= Seq::empty());
    assert(seq![a] + (seq![b] + (seq![c] + (seq![d] + (seq![e] + (seq![none]
        + split::lines(none)))))) =~= seq![a, b, c, d, e, none]);
}

proof fn lemma_no_line_end(a: Seq<char>, b: Seq<char>)
    requires
        !a.contains('\n'),
        !b.contains('\n'),
    ensures
        !(a + b).contains('\n'),
{
    if (a + b).contains('\n') {
        let i = choose|i: int| 0 <= i < (a + b).len() && (a + b)[i] == '\n';
        if i < a.len() {
            assert(a[i] == '\n');
        } else {
            assert(b[i - a.len()] == '\n');
        }
    }
}

/// A state is sent as one data field, which a blank line ends; without one a comment is sent.
pub proof fn lemma_frame(payload: Seq<char>)
    requires
        !payload.contains('\n'),
        payload.len() == 0 || payload.last() != '\r',
    ensures
        split::lines(frame_text(Some(payload))) == seq!["data: "@ + payload, Seq::empty()],
        split::lines(frame_text(None)) == seq![": ping"@, Seq::empty()],
{
    reveal_strlit("data: ");
    reveal_strlit("\n\n");
    reveal_strlit(": ping");
    reveal_strlit(": ping\n\n");
    let none = Seq::<char>::empty();
    let field = "data: "@ + payload;
    let ping = ": ping"@;
    let last = none + seq!['\n'] + none;
    assert(!"data: "@.contains('\n') && !ping.contains('\n'));
    lemma_no_line_end("data: "@, payload);
    assert(field.last() != '\r') by {
        if payload.len() == 0 {
            assert(field =~= "data: "@);
            assert("data: "@.last() == ' ');
        } else {
            assert(field.last() == payload.last());
        }
    }
    assert(ping.last() == 'g');
    split::lemma_line_ends(none, none);
    split::lemma_line_ends(field, last);
    split::lemma_line_ends(ping, last);
    assert(frame_text(Some(payload)) =~= field + seq!['\n'] + last);
    assert(frame_text(None) =~= ping + seq!['\n'] + last);
    assert(split::lines(none) =~= Seq::empty());
    assert(seq![field] + (seq![none] + split::lines(none)) =~= seq![field, none]);
    assert(seq![ping] + (seq![none] + split::lines(none)) =~= seq![ping, none]);
}

/// What each refusal is answered: the request is at fault with a status of 400 to 405, the
/// dashboard itself with one of 500 or 503, and the words say why.
pub proof fn lemma_refusals()
    ensures
        Refusal::Busy.status_text() == "503 Service Unavailable"@,
        Refusal::CrossOrigin.status_text() == "403 Forbidden"@,
        Refusal::NotFound.status_text() == "404 Not Found"@,
        Refusal::UnknownHost.status_text() == "404 Not Found"@,
        Refusal::MethodNotAllowed.status_text() == "405 Method Not Allowed"@,
        forall|refusal: Refusal|
            refusal == Refusal::BadLabel || refusal == Refusal::BadPullRequest || refusal
                == Refusal::BadFocus || refusal == Refusal::NotAPullRequest || refusal
                == Refusal::TooManyPullRequests ==> #[trigger] refusal.status_text()
                == "400 Bad Request"@,
        forall|refusal: Refusal|
            refusal == Refusal::LabelNotSaved || refusal == Refusal::PullRequestNotSaved
                ==> #[trigger] refusal.status_text() == "500 Internal Server Error"@,
        Refusal::UnknownHost.text() == "unknown host"@,
        Refusal::NotAPullRequest.text() == "not a GitHub PR link"@,
        Refusal::TooManyPullRequests.text() == "at most "@ + number::decimal(8)
            + " PRs per devbox"@,
        Refusal::LabelNotSaved.text() == "could not save label"@,
        Refusal::PullRequestNotSaved.text() == "could not save PR"@,
{
}

} // verus!
