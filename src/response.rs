//! Responses: their exact wire form, and the responses and containment rule
//! of the file server.
use vstd::prelude::*;
use vstd::utf8::encode_utf8;

use crate::number::{decimal, decimal_string};
use crate::request::{headers_view, ConnectionError, ErrorView, Version};
use crate::text::{chars_of, push_bytes};

verus! {

/// A response, as the application layer hands it over.
#[derive(Clone, Debug, PartialEq, Eq)]
pub struct Response {
    pub version: Version,
    pub status: u16,
    /// Header names and values, written in this order.
    pub headers: Vec<(String, String)>,
    pub body: Vec<u8>,
}

pub struct ResponseView {
    pub version: Version,
    pub status: u16,
    pub headers: Seq<(Seq<char>, Seq<char>)>,
    pub body: Seq<u8>,
}

impl View for Response {
    type V = ResponseView;

    open spec fn view(&self) -> ResponseView {
        ResponseView {
            version: self.version,
            status: self.status,
            headers: headers_view(self.headers@),
            body: self.body@,
        }
    }
}

pub open spec fn version_token(v: Version) -> Seq<char> {
    match v {
        Version::Http10 => "HTTP/1.0"@,
        Version::Http11 => "HTTP/1.1"@,
    }
}

pub open spec fn crlf() -> Seq<u8> {
    seq![13u8, 10u8]
}

/// `name:value` CRLF for each header, in order.
pub open spec fn header_bytes(hs: Seq<(Seq<char>, Seq<char>)>) -> Seq<u8>
    decreases hs.len(),
{
    if hs.len() == 0 {
        seq![]
    } else {
        header_bytes(hs.drop_last()) + encode_utf8(hs.last().0) + seq![58u8] + encode_utf8(
            hs.last().1,
        ) + crlf()
    }
}

/// The bytes that a response is written as.
pub open spec fn response_bytes(r: ResponseView) -> Seq<u8> {
    encode_utf8(version_token(r.version)) + seq![32u8] + encode_utf8(decimal(r.status as nat))
        + crlf() + header_bytes(r.headers) + crlf() + r.body
}

fn version_text(v: Version) -> (r: &'static str)
    ensures
        r@ == version_token(v),
{
    match v {
        Version::Http10 => "HTTP/1.0",
        Version::Http11 => "HTTP/1.1",
    }
}

fn push_text(out: &mut Vec<u8>, s: &str)
    ensures
        final(out)@ == old(out)@ + encode_utf8(s@),
{
    push_bytes(out, s.as_bytes());
}

/// Appends the wire form of `resp` to `out`.
pub fn write_response(out: &mut Vec<u8>, resp: &Response)
    ensures
        final(out)@ == old(out)@ + response_bytes(resp@),
{
    let ghost hv = headers_view(resp.headers@);
    push_text(out, version_text(resp.version));
    out.push(32u8);
    let status = decimal_string(resp.status as u64);
    push_text(out, status.as_str());
    out.push(13u8);
    out.push(10u8);
    let ghost start = out@;
    let mut k: usize = 0;
    assert(hv.take(0) =~= Seq::<(Seq<char>, Seq<char>)>::empty());
    assert(start =~= start + header_bytes(hv.take(0)));
    while k < resp.headers.len()
        invariant
            k <= resp.headers@.len(),
            hv == headers_view(resp.headers@),
            out@ == start + header_bytes(hv.take(k as int)),
        decreases resp.headers@.len() - k,
    {
        let h = &resp.headers[k];
        push_text(out, h.0.as_str());
        out.push(58u8);
        push_text(out, h.1.as_str());
        out.push(13u8);
        out.push(10u8);
        assert(hv.take(k + 1).drop_last() =~= hv.take(k as int));
        assert(out@ =~= start + header_bytes(hv.take(k + 1)));
        k = k + 1;
    }
    assert(hv.take(k as int) =~= hv);
    out.push(13u8);
    out.push(10u8);
    push_bytes(out, resp.body.as_slice());
    assert(out@ =~= old(out)@ + response_bytes(resp@));
}

/// The wire form of `resp`.
pub fn serialize_response(resp: &Response) -> (r: Vec<u8>)
    ensures
        r@ == response_bytes(resp@),
{
    let mut out: Vec<u8> = Vec::new();
    write_response(&mut out, resp);
    assert(out@ =~= response_bytes(resp@));
    out
}

/// The media type that the extension of `path` is registered with, if any.
pub uninterp spec fn guessed_mime(path: Seq<char>) -> Option<Seq<char>>;

/// Relies on `mime_guess::from_path(path).first()`: the first media type
/// registered for the extension of `path`, which depends on the path alone.
#[verifier::external_body]
pub(crate) fn guess_mime(path: &str) -> (r: Option<String>)
    ensures
        match r {
            Some(m) => guessed_mime(path@) == Some(m@),
            None => guessed_mime(path@) is None,
        },
{
    match mime_guess::from_path(path).first() {
        Some(m) => Some(m.to_string()),
        None => None,
    }
}

/// The content type of a served file: the forced one, else the guessed one,
/// else `application/octet-stream`.
pub open spec fn content_type_of(forced: Option<Seq<char>>, guessed: Option<Seq<char>>) -> Seq<
    char,
> {
    match forced {
        Some(f) => f,
        None => match guessed {
            Some(g) => g,
            None => "application/octet-stream"@,
        },
    }
}

pub open spec fn opt_view(o: Option<String>) -> Option<Seq<char>> {
    match o {
        Some(s) => Some(s@),
        None => None,
    }
}

/// Picks the content type from a forced one and a guessed one.
pub fn choose_content_type(forced: Option<String>, guessed: Option<String>) -> (r: String)
    ensures
        r@ == content_type_of(opt_view(forced), opt_view(guessed)),
{
    match forced {
        Some(f) => f,
        None => match guessed {
            Some(g) => g,
            None => String::from_str("application/octet-stream"),
        },
    }
}

/// The response that carries a file: status 200, its content type and
/// length, and its bytes.
pub open spec fn file_response_of(content_type: Seq<char>, contents: Seq<u8>) -> ResponseView {
    ResponseView {
        version: Version::Http11,
        status: 200,
        headers: seq![
            ("content-type"@, content_type),
            ("content-length"@, decimal(contents.len())),
        ],
        body: contents,
    }
}

/// Builds the response that carries `contents` with the given content type.
pub fn file_response(content_type: String, contents: Vec<u8>) -> (r: Response)
    ensures
        r@ == file_response_of(content_type@, contents@),
{
    let len = decimal_string(contents.len() as u64);
    let mut headers: Vec<(String, String)> = Vec::new();
    headers.push((String::from_str("content-type"), content_type));
    headers.push((String::from_str("content-length"), len));
    let r = Response { version: Version::Http11, status: 200, headers, body: contents };
    assert(r@.headers =~= file_response_of(content_type@, contents@).headers);
    r
}

/// The response for the file at `path` whose bytes are `contents`, with the
/// content type forced or guessed from the path's extension.
pub fn send_file_unchecked(path: &str, forced: Option<String>, contents: Vec<u8>) -> (r: Response)
    ensures
        r@ == file_response_of(
            content_type_of(opt_view(forced), guessed_mime(path@)),
            contents@,
        ),
{
    let guessed = guess_mime(path);
    let ct = choose_content_type(forced, guessed);
    file_response(ct, contents)
}

/// Whether the canonical path `file` is `root` or lies below it, compared by
/// whole components.
pub open spec fn within_root(root: Seq<char>, file: Seq<char>) -> bool {
    root.len() <= file.len() && file.take(root.len() as int) == root && (file.len() == root.len()
        || (root.len() > 0 && root.last() == '/') || file[root.len() as int] == '/')
}

/// The containment rule of the file server, on canonical paths: a file may be
/// served only when it lies under the root and is a regular file.
pub fn check_containment(root: &str, file: &str, is_regular_file: bool) -> (r: Result<
    (),
    ConnectionError,
>)
    ensures
        r is Ok <==> within_root(root@, file@) && is_regular_file,
        r matches Err(e) ==> e@ == ErrorView::FileOutsideRoot,
{
    let rc = chars_of(root);
    let fc = chars_of(file);
    if !is_regular_file || rc.len() > fc.len() {
        return Err(ConnectionError::FileOutsideRoot);
    }
    let mut k: usize = 0;
    while k < rc.len()
        invariant
            rc@ == root@,
            fc@ == file@,
            rc@.len() <= fc@.len(),
            k <= rc@.len(),
            forall|t: int| 0 <= t < k ==> fc@[t] == rc@[t],
        decreases rc@.len() - k,
    {
        if fc[k] != rc[k] {
            assert(fc@.take(rc@.len() as int)[k as int] != rc@[k as int]);
            return Err(ConnectionError::FileOutsideRoot);
        }
        k = k + 1;
    }
    assert(fc@.take(rc@.len() as int) =~= rc@);
    let n = rc.len();
    if fc.len() == n || (n > 0 && rc[n - 1] == '/') || fc[n] == '/' {
        Ok(())
    } else {
        Err(ConnectionError::FileOutsideRoot)
    }
}

} // verus!
