//! Requests, their framing, the error taxonomy, and the grammar of the head
//! of a request: request line, header lines and the framing they select.
use vstd::prelude::*;

use crate::number::{parse_decimal, parse_decimal_range};
use crate::text::{
    contains, eq_ignore_case, lines, range_contains, range_is, range_is_ignore_case,
    spans_text, spans_within, split_lines, split_words, substring, trim, trim_bounds, words,
};

verus! {

/// The request methods that the grammar accepts.
#[derive(Clone, Copy, Debug, PartialEq, Eq, Structural)]
pub enum Method {
    Get,
    Head,
    Post,
    Put,
    Delete,
    Connect,
    Options,
    Trace,
    Patch,
}

/// The protocol versions served.
#[derive(Clone, Copy, Debug, PartialEq, Eq, Structural)]
pub enum Version {
    Http10,
    Http11,
}

/// How the end of a request body is found.
#[derive(Clone, Copy, Debug, PartialEq, Eq, Structural)]
pub enum BodyFraming {
    NoBody,
    ContentLength(usize),
    Chunked,
}

/// Kinds of stream-level failure.
#[derive(Clone, Copy, Debug, PartialEq, Eq, Structural)]
pub enum IoErrorKind {
    /// The stream ended before the bytes that the grammar needs.
    UnexpectedEof,
    /// Any other failure of the transport.
    Other,
}

/// Every way in which reading a request or serving a file can fail.
#[derive(Clone, Debug, PartialEq, Eq)]
pub enum ConnectionError {
    Io(IoErrorKind),
    NoRequest,
    InvalidUtf8InHeader,
    MissingRequestMethod,
    MissingRequestPath,
    MissingHttpVersion,
    RequestTooManyWords(usize),
    InvalidRequestMethod,
    UnsupportedHttpVersion,
    InvalidHttpVersion(String),
    InvalidHeader(String),
    InvalidContentLength(String),
    ChunkedLengthMissingCRLF,
    ChunkedDataMissingCRLF,
    InvalidDataPart { expected: usize, got: usize },
    InvalidChunkedLength(Vec<u8>),
    FileOutsideRoot,
}

/// `ConnectionError` with its text as sequences.
pub enum ErrorView {
    Io(IoErrorKind),
    NoRequest,
    InvalidUtf8InHeader,
    MissingRequestMethod,
    MissingRequestPath,
    MissingHttpVersion,
    RequestTooManyWords(usize),
    InvalidRequestMethod,
    UnsupportedHttpVersion,
    InvalidHttpVersion(Seq<char>),
    InvalidHeader(Seq<char>),
    InvalidContentLength(Seq<char>),
    ChunkedLengthMissingCRLF,
    ChunkedDataMissingCRLF,
    InvalidDataPart { expected: usize, got: usize },
    InvalidChunkedLength(Seq<u8>),
    FileOutsideRoot,
}

impl View for ConnectionError {
    type V = ErrorView;

    open spec fn view(&self) -> ErrorView {
        match self {
            ConnectionError::Io(k) => ErrorView::Io(*k),
            ConnectionError::NoRequest => ErrorView::NoRequest,
            ConnectionError::InvalidUtf8InHeader => ErrorView::InvalidUtf8InHeader,
            ConnectionError::MissingRequestMethod => ErrorView::MissingRequestMethod,
            ConnectionError::MissingRequestPath => ErrorView::MissingRequestPath,
            ConnectionError::MissingHttpVersion => ErrorView::MissingHttpVersion,
            ConnectionError::RequestTooManyWords(n) => ErrorView::RequestTooManyWords(*n),
            ConnectionError::InvalidRequestMethod => ErrorView::InvalidRequestMethod,
            ConnectionError::UnsupportedHttpVersion => ErrorView::UnsupportedHttpVersion,
            ConnectionError::InvalidHttpVersion(s) => ErrorView::InvalidHttpVersion(s@),
            ConnectionError::InvalidHeader(s) => ErrorView::InvalidHeader(s@),
            ConnectionError::InvalidContentLength(s) => ErrorView::InvalidContentLength(s@),
            ConnectionError::ChunkedLengthMissingCRLF => ErrorView::ChunkedLengthMissingCRLF,
            ConnectionError::ChunkedDataMissingCRLF => ErrorView::ChunkedDataMissingCRLF,
            ConnectionError::InvalidDataPart { expected, got } => ErrorView::InvalidDataPart {
                expected: *expected,
                got: *got,
            },
            ConnectionError::InvalidChunkedLength(b) => ErrorView::InvalidChunkedLength(b@),
            ConnectionError::FileOutsideRoot => ErrorView::FileOutsideRoot,
        }
    }
}

/// A parsed request.
#[derive(Clone, Debug, PartialEq, Eq)]
pub struct Request {
    pub method: Method,
    pub target: String,
    pub version: Version,
    /// Header names and trimmed values, in the order received, duplicates kept.
    pub headers: Vec<(String, String)>,
    pub body: Vec<u8>,
}

pub struct RequestView {
    pub method: Method,
    pub target: Seq<char>,
    pub version: Version,
    pub headers: Seq<(Seq<char>, Seq<char>)>,
    pub body: Seq<u8>,
}

pub open spec fn headers_view(h: Seq<(String, String)>) -> Seq<(Seq<char>, Seq<char>)> {
    h.map_values(|p: (String, String)| (p.0@, p.1@))
}

impl View for Request {
    type V = RequestView;

    open spec fn view(&self) -> RequestView {
        RequestView {
            method: self.method,
            target: self.target@,
            version: self.version,
            headers: headers_view(self.headers@),
            body: self.body@,
        }
    }
}

/// The method that a request-line token names.
pub open spec fn method_of(w: Seq<char>) -> Option<Method> {
    if w == "GET"@ {
        Some(Method::Get)
    } else if w == "HEAD"@ {
        Some(Method::Head)
    } else if w == "POST"@ {
        Some(Method::Post)
    } else if w == "PUT"@ {
        Some(Method::Put)
    } else if w == "DELETE"@ {
        Some(Method::Delete)
    } else if w == "CONNECT"@ {
        Some(Method::Connect)
    } else if w == "OPTIONS"@ {
        Some(Method::Options)
    } else if w == "TRACE"@ {
        Some(Method::Trace)
    } else if w == "PATCH"@ {
        Some(Method::Patch)
    } else {
        None
    }
}

/// The version that a request-line token names, or why it is refused.
pub open spec fn version_of(w: Seq<char>) -> Result<Version, ErrorView> {
    if w == "HTTP/1.0"@ {
        Ok(Version::Http10)
    } else if w == "HTTP/1.1"@ {
        Ok(Version::Http11)
    } else if w == "HTTP/0.9"@ || w == "HTTP/2.0"@ || w == "HTTP/3.0"@ {
        Err(ErrorView::UnsupportedHttpVersion)
    } else {
        Err(ErrorView::InvalidHttpVersion(w))
    }
}

/// Method, target and version of a request line.
pub open spec fn request_line_of(line: Seq<char>) -> Result<(Method, Seq<char>, Version), ErrorView> {
    let w = words(line);
    if w.len() == 0 {
        Err(ErrorView::MissingRequestMethod)
    } else if w.len() == 1 {
        Err(ErrorView::MissingRequestPath)
    } else if w.len() == 2 {
        Err(ErrorView::MissingHttpVersion)
    } else if w.len() > 3 {
        Err(ErrorView::RequestTooManyWords(w.len() as usize))
    } else {
        match method_of(w[0]) {
            None => Err(ErrorView::InvalidRequestMethod),
            Some(m) => match version_of(w[2]) {
                Err(e) => Err(e),
                Ok(v) => Ok((m, w[1], v)),
            },
        }
    }
}

/// Index of the first `:` in `s`, or its length when there is none.
pub open spec fn colon_pos(s: Seq<char>) -> nat
    decreases s.len(),
{
    if s.len() == 0 || s[0] == ':' {
        0
    } else {
        1 + colon_pos(s.drop_first())
    }
}

/// Name and trimmed value of a header line.
pub open spec fn header_of(line: Seq<char>) -> Result<(Seq<char>, Seq<char>), ErrorView> {
    let k = colon_pos(line);
    if k < line.len() {
        Ok((line.take(k as int), trim(line.skip(k + 1 as int))))
    } else {
        Err(ErrorView::InvalidHeader(line))
    }
}

/// The framing after one more header; the later framing header wins.
pub open spec fn framing_step(f: BodyFraming, name: Seq<char>, value: Seq<char>) -> Result<
    BodyFraming,
    ErrorView,
> {
    if eq_ignore_case(name, "transfer-encoding"@) {
        if contains(value, "chunked"@) {
            Ok(BodyFraming::Chunked)
        } else {
            Ok(f)
        }
    } else if eq_ignore_case(name, "content-length"@) {
        match parse_decimal(value) {
            Some(n) => Ok(BodyFraming::ContentLength(n)),
            None => Err(ErrorView::InvalidContentLength(value)),
        }
    } else {
        Ok(f)
    }
}

/// One header line read after the framing `f`: the header and the new framing.
pub open spec fn header_step(line: Seq<char>, f: BodyFraming) -> Result<
    ((Seq<char>, Seq<char>), BodyFraming),
    ErrorView,
> {
    match header_of(line) {
        Err(e) => Err(e),
        Ok(h) => match framing_step(f, h.0, h.1) {
            Err(e) => Err(e),
            Ok(f2) => Ok((h, f2)),
        },
    }
}

/// Reads the header lines `ls` in order, after the headers `acc` and the framing `f`.
pub open spec fn scan_headers(
    ls: Seq<Seq<char>>,
    f: BodyFraming,
    acc: Seq<(Seq<char>, Seq<char>)>,
) -> Result<(Seq<(Seq<char>, Seq<char>)>, BodyFraming), ErrorView>
    decreases ls.len(),
{
    if ls.len() == 0 {
        Ok((acc, f))
    } else {
        match header_step(ls[0], f) {
            Err(e) => Err(e),
            Ok((h, f2)) => scan_headers(ls.drop_first(), f2, acc.push(h)),
        }
    }
}

/// The request (with an empty body) and the framing that a header block
/// denotes, given as text without its final CRLFCRLF.
pub open spec fn head_of(t: Seq<char>) -> Result<(RequestView, BodyFraming), ErrorView> {
    let ls = lines(t);
    match request_line_of(ls[0]) {
        Err(e) => Err(e),
        Ok((m, target, v)) => match scan_headers(ls.drop_first(), BodyFraming::NoBody, seq![]) {
            Err(e) => Err(e),
            Ok((hs, f)) => Ok(
                (
                    RequestView { method: m, target, version: v, headers: hs, body: seq![] },
                    f,
                ),
            ),
        },
    }
}

pub open spec fn head_result_view(r: Result<(Request, BodyFraming), ConnectionError>) -> Result<
    (RequestView, BodyFraming),
    ErrorView,
> {
    match r {
        Ok((q, f)) => Ok((q@, f)),
        Err(e) => Err(e@),
    }
}

fn method_in(t: &Vec<char>, a: usize, b: usize) -> (r: Option<Method>)
    requires
        a <= b <= t@.len(),
    ensures
        r == method_of(t@.subrange(a as int, b as int)),
{
    if range_is(t, a, b, "GET") {
        Some(Method::Get)
    } else if range_is(t, a, b, "HEAD") {
        Some(Method::Head)
    } else if range_is(t, a, b, "POST") {
        Some(Method::Post)
    } else if range_is(t, a, b, "PUT") {
        Some(Method::Put)
    } else if range_is(t, a, b, "DELETE") {
        Some(Method::Delete)
    } else if range_is(t, a, b, "CONNECT") {
        Some(Method::Connect)
    } else if range_is(t, a, b, "OPTIONS") {
        Some(Method::Options)
    } else if range_is(t, a, b, "TRACE") {
        Some(Method::Trace)
    } else if range_is(t, a, b, "PATCH") {
        Some(Method::Patch)
    } else {
        None
    }
}

fn version_in(t: &Vec<char>, a: usize, b: usize) -> (r: Result<Version, ConnectionError>)
    requires
        a <= b <= t@.len(),
    ensures
        match r {
            Ok(v) => version_of(t@.subrange(a as int, b as int)) == Ok::<Version, ErrorView>(v),
            Err(e) => version_of(t@.subrange(a as int, b as int)) == Err::<Version, ErrorView>(
                e@,
            ),
        },
{
    if range_is(t, a, b, "HTTP/1.0") {
        Ok(Version::Http10)
    } else if range_is(t, a, b, "HTTP/1.1") {
        Ok(Version::Http11)
    } else if range_is(t, a, b, "HTTP/0.9") || range_is(t, a, b, "HTTP/2.0") || range_is(
        t,
        a,
        b,
        "HTTP/3.0",
    ) {
        Err(ConnectionError::UnsupportedHttpVersion)
    } else {
        Err(ConnectionError::InvalidHttpVersion(substring(t, a, b)))
    }
}

fn request_line_in(t: &Vec<char>, a: usize, b: usize) -> (r: Result<
    (Method, String, Version),
    ConnectionError,
>)
    requires
        a <= b <= t@.len(),
    ensures
        match r {
            Ok((m, s, v)) => request_line_of(t@.subrange(a as int, b as int)) == Ok::<
                (Method, Seq<char>, Version),
                ErrorView,
            >((m, s@, v)),
            Err(e) => request_line_of(t@.subrange(a as int, b as int)) == Err::<
                (Method, Seq<char>, Version),
                ErrorView,
            >(e@),
        },
{
    let spans = split_words(t, a, b);
    let ghost w = words(t@.subrange(a as int, b as int));
    assert(spans_text(t@, spans@).len() == spans@.len());
    let n = spans.len();
    if n == 0 {
        return Err(ConnectionError::MissingRequestMethod);
    } else if n == 1 {
        return Err(ConnectionError::MissingRequestPath);
    } else if n == 2 {
        return Err(ConnectionError::MissingHttpVersion);
    } else if n > 3 {
        return Err(ConnectionError::RequestTooManyWords(n));
    }
    let (m0, m1) = spans[0];
    let (t0, t1) = spans[1];
    let (v0, v1) = spans[2];
    assert(w[0] == t@.subrange(m0 as int, m1 as int));
    assert(w[1] == t@.subrange(t0 as int, t1 as int));
    assert(w[2] == t@.subrange(v0 as int, v1 as int));
    match method_in(t, m0, m1) {
        None => Err(ConnectionError::InvalidRequestMethod),
        Some(m) => match version_in(t, v0, v1) {
            Err(e) => Err(e),
            Ok(v) => Ok((m, substring(t, t0, t1), v)),
        },
    }
}

fn colon_in(t: &Vec<char>, a: usize, b: usize) -> (r: usize)
    requires
        a <= b <= t@.len(),
    ensures
        a <= r <= b,
        r - a == colon_pos(t@.subrange(a as int, b as int)),
{
    let mut j: usize = a;
    while j < b && t[j] != ':'
        invariant
            a <= j <= b <= t@.len(),
            colon_pos(t@.subrange(a as int, b as int)) == (j - a) + colon_pos(
                t@.subrange(j as int, b as int),
            ),
        decreases b - j,
    {
        assert(t@.subrange(j as int, b as int).drop_first() =~= t@.subrange(j + 1, b as int));
        j = j + 1;
    }
    j
}

fn header_in(t: &Vec<char>, a: usize, b: usize, f: BodyFraming) -> (r: Result<
    ((String, String), BodyFraming),
    ConnectionError,
>)
    requires
        a <= b <= t@.len(),
    ensures
        match r {
            Ok((h, f2)) => header_step(t@.subrange(a as int, b as int), f) == Ok::<
                ((Seq<char>, Seq<char>), BodyFraming),
                ErrorView,
            >(((h.0@, h.1@), f2)),
            Err(e) => header_step(t@.subrange(a as int, b as int), f) == Err::<
                ((Seq<char>, Seq<char>), BodyFraming),
                ErrorView,
            >(e@),
        },
{
    let ghost line = t@.subrange(a as int, b as int);
    let k = colon_in(t, a, b);
    if k == b {
        return Err(ConnectionError::InvalidHeader(substring(t, a, b)));
    }
    assert(line.take(k - a) =~= t@.subrange(a as int, k as int));
    assert(line.skip(k - a + 1) =~= t@.subrange(k + 1, b as int));
    let (vs, ve) = trim_bounds(t, k + 1, b);
    let name = substring(t, a, k);
    let value = substring(t, vs, ve);
    let f2 = if range_is_ignore_case(t, a, k, "transfer-encoding") {
        if range_contains(t, vs, ve, "chunked") {
            BodyFraming::Chunked
        } else {
            f
        }
    } else if range_is_ignore_case(t, a, k, "content-length") {
        match parse_decimal_range(t, vs, ve) {
            Some(n) => BodyFraming::ContentLength(n),
            None => {
                return Err(ConnectionError::InvalidContentLength(value));
            },
        }
    } else {
        f
    };
    Ok(((name, value), f2))
}

/// Parses a header block, given as text without its final CRLFCRLF, into a
/// request with an empty body and the framing of that body.
pub fn parse_head_text(t: &Vec<char>) -> (r: Result<(Request, BodyFraming), ConnectionError>)
    ensures
        head_result_view(r) == head_of(t@),
{
    let spans = split_lines(t);
    let ghost ls = lines(t@);
    assert(ls.len() >= 1);
    assert(spans_text(t@, spans@).len() == spans@.len());
    let (a0, b0) = spans[0];
    assert(ls[0] == t@.subrange(a0 as int, b0 as int));
    let (method, target, version) = match request_line_in(t, a0, b0) {
        Ok(x) => x,
        Err(e) => {
            return Err(e);
        },
    };
    let mut headers: Vec<(String, String)> = Vec::new();
    let mut f = BodyFraming::NoBody;
    let mut k: usize = 1;
    assert(ls.drop_first() =~= ls.skip(1));
    assert(headers_view(headers@) =~= Seq::<(Seq<char>, Seq<char>)>::empty());
    while k < spans.len()
        invariant
            1 <= k <= spans@.len(),
            ls == lines(t@),
            spans_text(t@, spans@) == ls,
            spans_within(spans@, 0, t@.len() as int),
            request_line_of(ls[0]) == Ok::<(Method, Seq<char>, Version), ErrorView>(
                (method, target@, version),
            ),
            scan_headers(ls.drop_first(), BodyFraming::NoBody, seq![]) == scan_headers(
                ls.skip(k as int),
                f,
                headers_view(headers@),
            ),
        decreases spans@.len() - k,
    {
        let (a, b) = spans[k];
        assert(ls.skip(k as int)[0] == t@.subrange(a as int, b as int));
        match header_in(t, a, b, f) {
            Err(e) => {
                assert(ls.skip(k as int).len() > 0);
                assert(scan_headers(ls.skip(k as int), f, headers_view(headers@)) == Err::<
                    (Seq<(Seq<char>, Seq<char>)>, BodyFraming),
                    ErrorView,
                >(e@));
                return Err(e);
            },
            Ok((h, f2)) => {
                let ghost before = headers_view(headers@);
                headers.push(h);
                f = f2;
                assert(headers_view(headers@) =~= before.push((h.0@, h.1@)));
                assert(ls.skip(k as int).drop_first() =~= ls.skip(k + 1));
            },
        }
        k = k + 1;
    }
    assert(ls.skip(k as int) =~= Seq::<Seq<char>>::empty());
    let req = Request { method, target, version, headers, body: Vec::new() };
    assert(req@.body =~= Seq::<u8>::empty());
    Ok((req, f))
}

/// A request line of four or more words fails with the number of words.
pub proof fn lemma_too_many_words(line: Seq<char>)
    requires
        words(line).len() >= 4,
    ensures
        request_line_of(line) == Err::<(Method, Seq<char>, Version), ErrorView>(
            ErrorView::RequestTooManyWords(words(line).len() as usize),
        ),
{
}

} // verus!
