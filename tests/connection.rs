use small_http::body::{decode_chunked, parse_request, read_body};
use small_http::connection::{Connection, ConnectionKind};
use small_http::request::{BodyFraming, ConnectionError, IoErrorKind, Method, Version};
use small_http::response::{
    check_containment, choose_content_type, file_response, send_file_unchecked,
    serialize_response, Response,
};

fn pairs(v: &[(&str, &str)]) -> Vec<(String, String)> {
    v.iter().map(|(a, b)| (a.to_string(), b.to_string())).collect()
}

fn parse(input: &str) -> Result<(small_http::request::Request, usize), ConnectionError> {
    parse_request(&input.as_bytes().to_vec())
}

#[test]
fn get_with_keep_alive_end_to_end() {
    let mut c = Connection::new();
    c.feed(b"GET /hello HTTP/1.1\r\nHost: test\r\nConnection: keep-alive\r\n\r\n");
    let req = c.request().unwrap().unwrap();
    assert_eq!(req.method, Method::Get);
    assert_eq!(req.target, "/hello");
    assert_eq!(req.version, Version::Http11);
    assert_eq!(req.headers, pairs(&[("Host", "test"), ("Connection", "keep-alive")]));
    assert!(req.body.is_empty());
    assert_eq!(c.kind(), ConnectionKind::KeepAlive { timeout: 0, max_requests: 0 });
}

#[test]
fn post_with_content_length_end_to_end() {
    let (req, used) = parse("POST /x HTTP/1.1\r\nContent-Length: 5\r\n\r\nhello").unwrap();
    assert_eq!(req.method, Method::Post);
    assert_eq!(req.body, b"hello".to_vec());
    assert_eq!(used, 44);
}

#[test]
fn header_without_colon_end_to_end() {
    let r = parse("GET / HTTP/1.1\r\nBadHeader\r\n\r\n");
    assert_eq!(r.unwrap_err(), ConnectionError::InvalidHeader("BadHeader".to_string()));
}

#[test]
fn request_line_with_four_words() {
    let r = parse("GET / HTTP/1.1 extra\r\n\r\n");
    assert_eq!(r.unwrap_err(), ConnectionError::RequestTooManyWords(4));
}

#[test]
fn request_line_missing_parts() {
    assert_eq!(parse("\r\n\r\n").unwrap_err(), ConnectionError::MissingRequestMethod);
    assert_eq!(parse("GET\r\n\r\n").unwrap_err(), ConnectionError::MissingRequestPath);
    assert_eq!(parse("GET /\r\n\r\n").unwrap_err(), ConnectionError::MissingHttpVersion);
}

#[test]
fn request_line_bad_method_and_versions() {
    assert_eq!(parse("FETCH / HTTP/1.1\r\n\r\n").unwrap_err(), ConnectionError::InvalidRequestMethod);
    assert_eq!(parse("GET / HTTP/2.0\r\n\r\n").unwrap_err(), ConnectionError::UnsupportedHttpVersion);
    assert_eq!(parse("GET / HTTP/0.9\r\n\r\n").unwrap_err(), ConnectionError::UnsupportedHttpVersion);
    assert_eq!(
        parse("GET / HTTX/1.1\r\n\r\n").unwrap_err(),
        ConnectionError::InvalidHttpVersion("HTTX/1.1".to_string())
    );
    let (req, _) = parse("DELETE /a HTTP/1.0\r\n\r\n").unwrap();
    assert_eq!(req.method, Method::Delete);
    assert_eq!(req.version, Version::Http10);
}

#[test]
fn empty_stream_is_no_request() {
    assert_eq!(parse("").unwrap_err(), ConnectionError::NoRequest);
}

#[test]
fn unterminated_head_is_unexpected_eof() {
    assert_eq!(
        parse("GET / HTTP/1.1\r\nHost: x\r\n").unwrap_err(),
        ConnectionError::Io(IoErrorKind::UnexpectedEof)
    );
}

#[test]
fn non_utf8_head_is_refused() {
    let mut bytes = b"GET /".to_vec();
    bytes.push(0xff);
    bytes.extend_from_slice(b" HTTP/1.1\r\n\r\n");
    assert_eq!(parse_request(&bytes).unwrap_err(), ConnectionError::InvalidUtf8InHeader);
}

#[test]
fn content_length_must_be_a_number() {
    assert_eq!(
        parse("POST / HTTP/1.1\r\nContent-Length: 1x\r\n\r\n").unwrap_err(),
        ConnectionError::InvalidContentLength("1x".to_string())
    );
}

#[test]
fn short_body_is_unexpected_eof() {
    assert_eq!(
        parse("POST / HTTP/1.1\r\ncontent-length: 10\r\n\r\nabc").unwrap_err(),
        ConnectionError::Io(IoErrorKind::UnexpectedEof)
    );
}

#[test]
fn no_framing_header_gives_empty_body() {
    let (req, used) = parse("GET / HTTP/1.1\r\nHost: a\r\n\r\ntrailing").unwrap();
    assert!(req.body.is_empty());
    assert_eq!(used, 27);
}

#[test]
fn later_framing_header_wins() {
    let (req, _) =
        parse("POST / HTTP/1.1\r\nTransfer-Encoding: chunked\r\nContent-Length: 3\r\n\r\nabc").unwrap();
    assert_eq!(req.body, b"abc".to_vec());
    let (req, _) = parse(
        "POST / HTTP/1.1\r\nContent-Length: 3\r\nTransfer-Encoding: chunked\r\n\r\n3\r\nabc\r\n0\r\n\r\n",
    )
    .unwrap();
    assert_eq!(req.body, b"abc".to_vec());
}

#[test]
fn chunked_hello_decodes() {
    let wire = b"5\r\nhello\r\n0\r\n\r\n".to_vec();
    let (body, end) = decode_chunked(&wire, 0).unwrap();
    assert_eq!(body, b"hello".to_vec());
    assert_eq!(end, wire.len());
}

#[test]
fn chunked_several_chunks_decode() {
    let wire = b"3\r\nabc\r\nA\r\n0123456789\r\n0\r\n\r\n".to_vec();
    let (body, _) = read_body(&wire, 0, BodyFraming::Chunked).unwrap();
    assert_eq!(body, b"abc0123456789".to_vec());
}

#[test]
fn chunk_size_not_hex() {
    let wire = b"zz\r\n".to_vec();
    assert_eq!(
        decode_chunked(&wire, 0).unwrap_err(),
        ConnectionError::InvalidChunkedLength(b"zz".to_vec())
    );
}

#[test]
fn chunked_framing_errors() {
    assert_eq!(
        decode_chunked(&b"5\n".to_vec(), 0).unwrap_err(),
        ConnectionError::ChunkedLengthMissingCRLF
    );
    assert_eq!(
        decode_chunked(&b"3\r\nabcd\n".to_vec(), 0).unwrap_err(),
        ConnectionError::ChunkedDataMissingCRLF
    );
    assert_eq!(
        decode_chunked(&b"3\r\nabcd\r\n".to_vec(), 0).unwrap_err(),
        ConnectionError::InvalidDataPart { expected: 5, got: 6 }
    );
    assert_eq!(
        decode_chunked(&b"0\r\nx\r\n".to_vec(), 0).unwrap_err(),
        ConnectionError::ChunkedDataMissingCRLF
    );
}

#[test]
fn closed_connection_reads_nothing() {
    let mut c = Connection::new();
    c.feed(b"GET / HTTP/1.1\r\n\r\nGET /again HTTP/1.1\r\n\r\n");
    let req = c.request().unwrap().unwrap();
    assert_eq!(req.target, "/");
    assert_eq!(c.kind(), ConnectionKind::Close);
    let resp = Response { version: Version::Http11, status: 204, headers: vec![], body: vec![] };
    c.respond(&resp);
    assert_eq!(c.kind(), ConnectionKind::Closed);
    assert_eq!(c.request(), Ok(None));
    assert_eq!(c.take_output(), b"HTTP/1.1 204\r\n\r\n".to_vec());
}

#[test]
fn keep_alive_serves_two_requests() {
    let mut c = Connection::new();
    c.feed(b"GET /a HTTP/1.1\r\nconnection: Keep-Alive\r\n\r\nGET /b HTTP/1.1\r\nConnection: close\r\n\r\n");
    let first = c.request().unwrap().unwrap();
    assert_eq!(first.target, "/a");
    let resp = Response { version: Version::Http11, status: 200, headers: vec![], body: b"A".to_vec() };
    c.respond(&resp);
    assert_eq!(c.kind(), ConnectionKind::KeepAlive { timeout: 0, max_requests: 0 });
    let second = c.request().unwrap().unwrap();
    assert_eq!(second.target, "/b");
    assert_eq!(c.kind(), ConnectionKind::Close);
    c.respond(&resp);
    assert_eq!(c.kind(), ConnectionKind::Closed);
    assert_eq!(c.take_output(), b"HTTP/1.1 200\r\n\r\nAHTTP/1.1 200\r\n\r\nA".to_vec());
}

#[test]
fn connection_value_close_is_case_sensitive() {
    let mut c = Connection::new();
    c.feed(b"GET / HTTP/1.1\r\nConnection: keep-alive\r\n\r\n");
    c.request().unwrap();
    assert_eq!(c.kind(), ConnectionKind::KeepAlive { timeout: 0, max_requests: 0 });
    let mut d = Connection::new();
    d.feed(b"GET / HTTP/1.1\r\nConnection: Close\r\n\r\n");
    d.request().unwrap();
    assert_eq!(d.kind(), ConnectionKind::Close);
}

#[test]
fn response_wire_form() {
    let resp = Response {
        version: Version::Http10,
        status: 404,
        headers: pairs(&[("content-type", "text/plain"), ("x", "y")]),
        body: b"nope".to_vec(),
    };
    assert_eq!(
        serialize_response(&resp),
        b"HTTP/1.0 404\r\ncontent-type:text/plain\r\nx:y\r\n\r\nnope".to_vec()
    );
}

#[test]
fn file_response_headers() {
    let r = file_response("text/html".to_string(), b"<p>hi</p>".to_vec());
    assert_eq!(r.status, 200);
    assert_eq!(r.headers, pairs(&[("content-type", "text/html"), ("content-length", "9")]));
    assert_eq!(r.body, b"<p>hi</p>".to_vec());
}

#[test]
fn content_type_choice() {
    assert_eq!(choose_content_type(Some("a/b".to_string()), Some("c/d".to_string())), "a/b");
    assert_eq!(choose_content_type(None, Some("c/d".to_string())), "c/d");
    assert_eq!(choose_content_type(None, None), "application/octet-stream");
}

#[test]
fn send_file_unchecked_guesses_type() {
    let r = send_file_unchecked("/srv/index.html", None, b"x".to_vec());
    assert_eq!(r.headers[0], ("content-type".to_string(), "text/html".to_string()));
    let r = send_file_unchecked("/srv/blob.unknownext", None, vec![]);
    assert_eq!(r.headers[0].1, "application/octet-stream");
    assert_eq!(r.headers[1].1, "0");
    let r = send_file_unchecked("/srv/index.html", Some("text/plain".to_string()), vec![]);
    assert_eq!(r.headers[0].1, "text/plain");
}

#[test]
fn file_outside_root_is_refused() {
    assert_eq!(check_containment("/srv", "/etc/passwd", true), Err(ConnectionError::FileOutsideRoot));
    assert_eq!(check_containment("/srv", "/srvx/a", true), Err(ConnectionError::FileOutsideRoot));
    assert_eq!(check_containment("/srv", "/srv/a/b.txt", false), Err(ConnectionError::FileOutsideRoot));
    assert_eq!(check_containment("/srv", "/srv/a/b.txt", true), Ok(()));
    assert_eq!(check_containment("/", "/etc/passwd", true), Ok(()));
}

#[test]
fn chunked_encoding_of_hello() {
    let wire = small_http::body::encode_chunked(&vec![b"hello".to_vec()]);
    assert_eq!(wire, b"5\r\nhello\r\n0\r\n\r\n".to_vec());
    let (body, _) = decode_chunked(&wire, 0).unwrap();
    assert_eq!(body, b"hello".to_vec());
}

#[test]
fn chunked_round_trip_with_mixed_sizes() {
    let chunks = vec![b"ab".to_vec(), vec![], vec![b'x'; 26], b"tail".to_vec()];
    let wire = small_http::body::encode_chunked(&chunks);
    assert!(wire.starts_with(b"2\r\nab\r\n1a\r\n"));
    let (body, end) = decode_chunked(&wire, 0).unwrap();
    assert_eq!(body, chunks.concat());
    assert_eq!(end, wire.len());
}

#[test]
fn oversized_lengths_are_refused() {
    assert_eq!(
        parse("POST / HTTP/1.1\r\nContent-Length: 99999999999999999999999\r\n\r\n").unwrap_err(),
        ConnectionError::InvalidContentLength("99999999999999999999999".to_string())
    );
    let wire = b"fffffffffffffffff\r\n".to_vec();
    assert_eq!(
        decode_chunked(&wire, 0).unwrap_err(),
        ConnectionError::InvalidChunkedLength(b"fffffffffffffffff".to_vec())
    );
    let (req, _) = parse("POST / HTTP/1.1\r\nContent-Length: 0\r\n\r\n").unwrap();
    assert!(req.body.is_empty());
}

#[test]
fn header_values_are_trimmed_and_names_kept() {
    let (req, _) = parse("GET /p?q=1 HTTP/1.1\r\nX-A:   spaced value \t\r\nx-b:\r\n\r\n").unwrap();
    assert_eq!(req.target, "/p?q=1");
    assert_eq!(req.headers, pairs(&[("X-A", "spaced value"), ("x-b", "")]));
}
