//! From raw bytes to a whole request: the end of the header block, the
//! UTF-8 check, and the body in each framing, chunked decoding included.
use vstd::prelude::*;
use vstd::utf8::{decode_utf8, valid_utf8};

use crate::number::{parse_hex, parse_hex_range};
use crate::number::{all_hex, hex_byte_value, hex_value, is_hex_byte};
use crate::request::{
    framing_step, header_step, scan_headers,
    head_of, head_result_view, parse_head_text, BodyFraming, ConnectionError, ErrorView,
    IoErrorKind, Request, RequestView,
};
use crate::text::{chars_of, contains, eq_ignore_case, push_bytes, string_from_utf8};

verus! {

pub open spec fn crlfcrlf_at(s: Seq<u8>, i: int) -> bool {
    0 <= i && i + 4 <= s.len() && s[i] == 13 && s[i + 1] == 10 && s[i + 2] == 13 && s[i + 3]
        == 10
}

/// Index of the first CRLFCRLF in `s` at or after `i`.
pub open spec fn terminator_from(s: Seq<u8>, i: int) -> Option<int>
    decreases s.len() - i,
{
    if i < 0 || i + 4 > s.len() {
        None
    } else if crlfcrlf_at(s, i) {
        Some(i)
    } else {
        terminator_from(s, i + 1)
    }
}

pub proof fn lemma_terminator(s: Seq<u8>, j: int)
    requires
        0 <= j,
    ensures
        terminator_from(s, j) matches Some(i) ==> j <= i && crlfcrlf_at(s, i),
    decreases s.len() - j,
{
    if j + 4 <= s.len() && !crlfcrlf_at(s, j) {
        lemma_terminator(s, j + 1);
    }
}

/// Index just past the first line feed in `s` at or after `i`, or the end of `s`.
pub open spec fn line_end(s: Seq<u8>, i: int) -> int
    decreases s.len() - i,
{
    if i < 0 || i >= s.len() {
        s.len() as int
    } else if s[i] == 10 {
        i + 1
    } else {
        line_end(s, i + 1)
    }
}

pub proof fn lemma_line_end(s: Seq<u8>, i: int)
    requires
        0 <= i <= s.len(),
    ensures
        i <= line_end(s, i) <= s.len(),
    decreases s.len() - i,
{
    if i < s.len() && s[i] != 10 {
        lemma_line_end(s, i + 1);
    }
}

/// Whether `s[a..b]` ends in CR LF.
pub open spec fn ends_crlf(s: Seq<u8>, a: int, b: int) -> bool {
    b - a >= 2 && s[b - 2] == 13 && s[b - 1] == 10
}

/// Decodes the chunked body that starts at `i`, after the data `acc`:
/// the whole body and the index just past its last line.
pub open spec fn chunked_from(s: Seq<u8>, i: int, acc: Seq<u8>) -> Result<(Seq<u8>, int), ErrorView>
    decreases s.len() - i,
    via chunked_from_decreases
{
    if !(0 <= i <= s.len()) {
        Err(ErrorView::Io(IoErrorKind::UnexpectedEof))
    } else {
        let e = line_end(s, i);
        if !ends_crlf(s, i, e) {
            Err(ErrorView::ChunkedLengthMissingCRLF)
        } else {
            let digits = s.subrange(i, e - 2);
            match parse_hex(digits) {
                None => Err(ErrorView::InvalidChunkedLength(digits)),
                Some(n) => {
                    let e2 = line_end(s, e);
                    if n > usize::MAX - 2 {
                        Err(ErrorView::InvalidChunkedLength(digits))
                    } else if n == 0 {
                        if e2 - e == 2 && ends_crlf(s, e, e2) {
                            Ok((acc, e2))
                        } else {
                            Err(ErrorView::ChunkedDataMissingCRLF)
                        }
                    } else if !ends_crlf(s, e, e2) {
                        Err(ErrorView::ChunkedDataMissingCRLF)
                    } else if e2 - e != n + 2 {
                        Err(
                            ErrorView::InvalidDataPart {
                                expected: (n + 2) as usize,
                                got: (e2 - e) as usize,
                            },
                        )
                    } else {
                        chunked_from(s, e2, acc + s.subrange(e, e2 - 2))
                    }
                },
            }
        }
    }
}

#[via_fn]
proof fn chunked_from_decreases(s: Seq<u8>, i: int, acc: Seq<u8>) {
    if 0 <= i <= s.len() {
        lemma_line_end(s, i);
        let e = line_end(s, i);
        lemma_line_end(s, e);
    }
}

/// The body that framing `f` gives from index `p` on, and the index just past it.
pub open spec fn body_of(s: Seq<u8>, p: int, f: BodyFraming) -> Result<(Seq<u8>, int), ErrorView> {
    match f {
        BodyFraming::NoBody => Ok((seq![], p)),
        BodyFraming::ContentLength(n) => if p + n <= s.len() {
            Ok((s.subrange(p, p + n), p + n))
        } else {
            Err(ErrorView::Io(IoErrorKind::UnexpectedEof))
        },
        BodyFraming::Chunked => chunked_from(s, p, seq![]),
    }
}

/// The request at the start of `s` and the number of bytes it takes.
pub open spec fn request_of(s: Seq<u8>) -> Result<(RequestView, int), ErrorView> {
    if s.len() == 0 {
        Err(ErrorView::NoRequest)
    } else {
        match terminator_from(s, 0) {
            None => Err(ErrorView::Io(IoErrorKind::UnexpectedEof)),
            Some(i) => if !valid_utf8(s.take(i)) {
                Err(ErrorView::InvalidUtf8InHeader)
            } else {
                match head_of(decode_utf8(s.take(i))) {
                    Err(e) => Err(e),
                    Ok((q, f)) => match body_of(s, i + 4, f) {
                        Err(e) => Err(e),
                        Ok((b, end)) => Ok(
                            (
                                RequestView {
                                    method: q.method,
                                    target: q.target,
                                    version: q.version,
                                    headers: q.headers,
                                    body: b,
                                },
                                end,
                            ),
                        ),
                    },
                }
            },
        }
    }
}

fn find_terminator(s: &Vec<u8>) -> (r: Option<usize>)
    ensures
        match r {
            Some(i) => terminator_from(s@, 0) == Some(i as int),
            None => terminator_from(s@, 0) is None,
        },
{
    let n = s.len();
    let mut i: usize = 0;
    while i < n && n - i >= 4
        invariant
            i <= n == s@.len(),
            terminator_from(s@, 0) == terminator_from(s@, i as int),
        decreases n - i,
    {
        if s[i] == 13 && s[i + 1] == 10 && s[i + 2] == 13 && s[i + 3] == 10 {
            return Some(i);
        }
        i = i + 1;
    }
    None
}

fn find_line_end(s: &Vec<u8>, i: usize) -> (r: usize)
    requires
        i <= s@.len(),
    ensures
        r == line_end(s@, i as int),
        i <= r <= s@.len(),
{
    let n = s.len();
    let mut j: usize = i;
    while j < n && s[j] != 10
        invariant
            i <= j <= n == s@.len(),
            line_end(s@, i as int) == line_end(s@, j as int),
        decreases n - j,
    {
        j = j + 1;
    }
    if j < n {
        j + 1
    } else {
        j
    }
}

fn copy_range(s: &Vec<u8>, a: usize, b: usize) -> (r: Vec<u8>)
    requires
        a <= b <= s@.len(),
    ensures
        r@ == s@.subrange(a as int, b as int),
{
    vstd::slice::slice_to_vec(vstd::slice::slice_subrange(s.as_slice(), a, b))
}

fn append_range(out: &mut Vec<u8>, s: &Vec<u8>, a: usize, b: usize)
    requires
        a <= b <= s@.len(),
    ensures
        final(out)@ == old(out)@ + s@.subrange(a as int, b as int),
{
    push_bytes(out, vstd::slice::slice_subrange(s.as_slice(), a, b));
}

pub open spec fn bytes_result_view(r: Result<(Vec<u8>, usize), ConnectionError>) -> Result<
    (Seq<u8>, int),
    ErrorView,
> {
    match r {
        Ok((b, end)) => Ok((b@, end as int)),
        Err(e) => Err(e@),
    }
}

/// Decodes a chunked body that starts at index `start` of `s`.
pub fn decode_chunked(s: &Vec<u8>, start: usize) -> (r: Result<(Vec<u8>, usize), ConnectionError>)
    requires
        start <= s@.len(),
    ensures
        bytes_result_view(r) == chunked_from(s@, start as int, seq![]),
{
    let mut acc: Vec<u8> = Vec::new();
    let mut i: usize = start;
    assert(acc@ =~= Seq::<u8>::empty());
    loop
        invariant
            i <= s@.len(),
            chunked_from(s@, start as int, seq![]) == chunked_from(s@, i as int, acc@),
        decreases s@.len() - i,
    {
        let e = find_line_end(s, i);
        if !(e - i >= 2 && s[e - 2] == 13 && s[e - 1] == 10) {
            return Err(ConnectionError::ChunkedLengthMissingCRLF);
        }
        let size = match parse_hex_range(s, i, e - 2) {
            None => {
                return Err(ConnectionError::InvalidChunkedLength(copy_range(s, i, e - 2)));
            },
            Some(n) => n,
        };
        let e2 = find_line_end(s, e);
        if size > usize::MAX - 2 {
            return Err(ConnectionError::InvalidChunkedLength(copy_range(s, i, e - 2)));
        }
        if size == 0 {
            if e2 - e == 2 && s[e2 - 2] == 13 && s[e2 - 1] == 10 {
                return Ok((acc, e2));
            } else {
                return Err(ConnectionError::ChunkedDataMissingCRLF);
            }
        }
        if !(e2 - e >= 2 && s[e2 - 2] == 13 && s[e2 - 1] == 10) {
            return Err(ConnectionError::ChunkedDataMissingCRLF);
        }
        if e2 - e != size + 2 {
            return Err(ConnectionError::InvalidDataPart { expected: size + 2, got: e2 - e });
        }
        append_range(&mut acc, s, e, e2 - 2);
        i = e2;
    }
}

/// Reads the body that framing `f` gives from index `p` of `s`.
pub fn read_body(s: &Vec<u8>, p: usize, f: BodyFraming) -> (r: Result<
    (Vec<u8>, usize),
    ConnectionError,
>)
    requires
        p <= s@.len(),
    ensures
        bytes_result_view(r) == body_of(s@, p as int, f),
{
    match f {
        BodyFraming::NoBody => {
            let v: Vec<u8> = Vec::new();
            assert(v@ =~= Seq::<u8>::empty());
            Ok((v, p))
        },
        BodyFraming::ContentLength(n) => {
            if n <= s.len() - p {
                Ok((copy_range(s, p, p + n), p + n))
            } else {
                Err(ConnectionError::Io(IoErrorKind::UnexpectedEof))
            }
        },
        BodyFraming::Chunked => decode_chunked(s, p),
    }
}

pub open spec fn request_result_view(r: Result<(Request, usize), ConnectionError>) -> Result<
    (RequestView, int),
    ErrorView,
> {
    match r {
        Ok((q, end)) => Ok((q@, end as int)),
        Err(e) => Err(e@),
    }
}

/// Parses the request at the start of `s`: head, then body. Gives the
/// request and the number of bytes it took.
pub fn parse_request(s: &Vec<u8>) -> (r: Result<(Request, usize), ConnectionError>)
    ensures
        request_result_view(r) == request_of(s@),
{
    if s.len() == 0 {
        return Err(ConnectionError::NoRequest);
    }
    let i = match find_terminator(s) {
        None => {
            return Err(ConnectionError::Io(IoErrorKind::UnexpectedEof));
        },
        Some(i) => i,
    };
    proof {
        lemma_terminator(s@, 0);
    }
    let head = copy_range(s, 0, i);
    assert(head@ =~= s@.take(i as int));
    let text = match string_from_utf8(head) {
        None => {
            return Err(ConnectionError::InvalidUtf8InHeader);
        },
        Some(t) => t,
    };
    let chars = chars_of(text.as_str());
    let (q, f) = match parse_head_text(&chars) {
        Err(e) => {
            return Err(e);
        },
        Ok(x) => x,
    };
    let (body, end) = match read_body(s, i + 4, f) {
        Err(e) => {
            return Err(e);
        },
        Ok(x) => x,
    };
    Ok((
        Request {
            method: q.method,
            target: q.target,
            version: q.version,
            headers: q.headers,
            body,
        },
        end,
    ))
}

pub proof fn lemma_body_end(s: Seq<u8>, p: int, f: BodyFraming)
    requires
        0 <= p <= s.len(),
    ensures
        body_of(s, p, f) matches Ok((b, end)) ==> p <= end <= s.len(),
{
    if f == BodyFraming::Chunked {
        lemma_chunked_end(s, p, seq![]);
    }
}

pub proof fn lemma_chunked_end(s: Seq<u8>, i: int, acc: Seq<u8>)
    requires
        0 <= i <= s.len(),
    ensures
        chunked_from(s, i, acc) matches Ok((b, end)) ==> i <= end <= s.len(),
    decreases s.len() - i,
{
    lemma_line_end(s, i);
    let e = line_end(s, i);
    lemma_line_end(s, e);
    let e2 = line_end(s, e);
    if ends_crlf(s, i, e) && e2 - e >= 3 && e2 <= s.len() {
        lemma_chunked_end(s, e2, acc + s.subrange(e, e2 - 2));
    }
}

/// A request never takes more bytes than there are.
pub proof fn lemma_request_end(s: Seq<u8>)
    ensures
        request_of(s) matches Ok((q, end)) ==> 0 <= end <= s.len(),
{
    lemma_terminator(s, 0);
    if let Some(i) = terminator_from(s, 0) {
        if let Ok((q, f)) = head_of(decode_utf8(s.take(i))) {
            lemma_body_end(s, i + 4, f);
        }
    }
}

/// A header that selects a framing: `Content-Length`, or a
/// `Transfer-Encoding` that names `chunked`.
pub open spec fn is_framing_header(h: (Seq<char>, Seq<char>)) -> bool {
    eq_ignore_case(h.0, "content-length"@) || (eq_ignore_case(h.0, "transfer-encoding"@)
        && contains(h.1, "chunked"@))
}

proof fn lemma_scan_keeps_framing(
    ls: Seq<Seq<char>>,
    f: BodyFraming,
    acc: Seq<(Seq<char>, Seq<char>)>,
)
    ensures
        scan_headers(ls, f, acc) matches Ok((hs, f2)) ==> hs.len() >= acc.len() && hs.take(
            acc.len() as int,
        ) == acc && ((forall|j: int|
            acc.len() <= j < hs.len() ==> !is_framing_header(#[trigger] hs[j])) ==> f2 == f),
    decreases ls.len(),
{
    if ls.len() > 0 {
        if let Ok((h, f1)) = header_step(ls[0], f) {
            lemma_scan_keeps_framing(ls.drop_first(), f1, acc.push(h));
            if let Ok((hs, f2)) = scan_headers(ls, f, acc) {
                assert(hs.take(acc.len() + 1 as int) == acc.push(h));
                assert(hs.take(acc.len() as int) =~= acc.push(h).take(acc.len() as int));
                assert(hs[acc.len() as int] == hs.take(acc.len() + 1 as int)[acc.len() as int]);
                if forall|j: int| acc.len() <= j < hs.len() ==> !is_framing_header(#[trigger] hs[j]) {
                    assert(!is_framing_header(hs[acc.len() as int]));
                    assert(framing_step(f, h.0, h.1) == Ok::<BodyFraming, ErrorView>(f1));
                    assert(f1 == f);
                }
            }
        }
    } else {
        if let Ok((hs, f2)) = scan_headers(ls, f, acc) {
            assert(hs.take(acc.len() as int) =~= acc);
        }
    }
}

/// A request without a framing header has an empty body.
pub proof fn lemma_unframed_body_empty(s: Seq<u8>)
    requires
        request_of(s) matches Ok((q, _)) && forall|j: int|
            0 <= j < q.headers.len() ==> !is_framing_header(#[trigger] q.headers[j]),
    ensures
        request_of(s) matches Ok((q, _)) && q.body == Seq::<u8>::empty(),
{
    let i = terminator_from(s, 0).unwrap();
    let t = decode_utf8(s.take(i));
    let ls = crate::text::lines(t);
    lemma_scan_keeps_framing(ls.drop_first(), BodyFraming::NoBody, seq![]);
    let (hq, f) = head_of(t)->Ok_0;
    let (hs, f2) = scan_headers(ls.drop_first(), BodyFraming::NoBody, seq![])->Ok_0;
    assert(hq.headers == hs);
    assert(hs.take(0) =~= Seq::<(Seq<char>, Seq<char>)>::empty());
    assert(f == f2);
    let q = (request_of(s)->Ok_0).0;
    assert(q.headers == hs);
    assert(f == BodyFraming::NoBody);
}

/// With `Content-Length: n` as the framing and exactly `n` bytes after the
/// header block, the body is exactly those bytes and the whole input is taken.
pub proof fn lemma_content_length_body(s: Seq<u8>, i: int, n: usize)
    requires
        terminator_from(s, 0) == Some(i),
        valid_utf8(s.take(i)),
        head_of(decode_utf8(s.take(i))) matches Ok((_, f)) && f == BodyFraming::ContentLength(n),
        s.len() == i + 4 + n,
    ensures
        request_of(s) matches Ok((q, end)) && q.body == s.skip(i + 4) && end == s.len(),
{
    assert(s.subrange(i + 4, i + 4 + n) =~= s.skip(i + 4));
}

/// The lower-case hexadecimal digit for `d`.
pub open spec fn hex_digit_byte(d: nat) -> u8 {
    if d < 10 {
        (48 + d) as u8
    } else {
        (87 + d) as u8
    }
}

/// The lower-case hexadecimal numeral of `n`, without leading zeros.
pub open spec fn hex_numeral(n: nat) -> Seq<u8>
    decreases n,
{
    if n < 16 {
        seq![hex_digit_byte(n)]
    } else {
        hex_numeral(n / 16).push(hex_digit_byte(n % 16))
    }
}

/// One chunk on the wire: size line, data, CRLF.
pub open spec fn chunk_bytes(c: Seq<u8>) -> Seq<u8> {
    hex_numeral(c.len()) + seq![13u8, 10u8] + c + seq![13u8, 10u8]
}

/// The standard chunked encoding of a body sent as the chunks `cs`, empty
/// ones left out, closed by the zero-size chunk.
pub open spec fn chunked_encoding(cs: Seq<Seq<u8>>) -> Seq<u8>
    decreases cs.len(),
{
    if cs.len() == 0 {
        seq![48u8, 13u8, 10u8, 13u8, 10u8]
    } else if cs[0].len() == 0 {
        chunked_encoding(cs.drop_first())
    } else {
        chunk_bytes(cs[0]) + chunked_encoding(cs.drop_first())
    }
}

/// The chunks joined.
pub open spec fn joined(cs: Seq<Seq<u8>>) -> Seq<u8>
    decreases cs.len(),
{
    if cs.len() == 0 {
        seq![]
    } else {
        cs[0] + joined(cs.drop_first())
    }
}

proof fn lemma_hex_digit(d: nat)
    requires
        d < 16,
    ensures
        is_hex_byte(hex_digit_byte(d)),
        hex_byte_value(hex_digit_byte(d)) == d,
        hex_digit_byte(d) != 10,
{
}

proof fn lemma_hex_numeral(n: nat)
    ensures
        hex_numeral(n).len() > 0,
        all_hex(hex_numeral(n)),
        hex_value(hex_numeral(n)) == n,
        !hex_numeral(n).contains(10u8),
    decreases n,
{
    assert(hex_value(Seq::<u8>::empty()) == 0);
    if n < 16 {
        lemma_hex_digit(n);
        assert(hex_numeral(n).drop_last() =~= Seq::<u8>::empty());
        assert(hex_value(hex_numeral(n)) == hex_value(hex_numeral(n).drop_last()) * 16
            + hex_byte_value(hex_numeral(n).last()));
    } else {
        lemma_hex_numeral(n / 16);
        lemma_hex_digit(n % 16);
        let h = hex_numeral(n);
        assert(h.drop_last() =~= hex_numeral(n / 16));
        assert(n == (n / 16) * 16 + n % 16) by (nonlinear_arith);
        assert(h.last() == hex_digit_byte(n % 16));
        assert(hex_value(h) == hex_value(h.drop_last()) * 16 + hex_byte_value(h.last()));
        assert(forall|t: int| 0 <= t < h.len() - 1 ==> h[t] == hex_numeral(n / 16)[t]);
        assert(!h.contains(10u8)) by {
            if h.contains(10u8) {
                let t = choose|t: int| 0 <= t < h.len() && h[t] == 10u8;
                if t < h.len() - 1 {
                    assert(hex_numeral(n / 16)[t] == 10u8);
                }
            }
        }
    }
}

proof fn lemma_line_end_at(s: Seq<u8>, i: int, j: int)
    requires
        0 <= i <= j < s.len(),
        s[j] == 10,
        forall|t: int| i <= t < j ==> s[t] != 10,
    ensures
        line_end(s, i) == j + 1,
    decreases j - i,
{
    if i < j {
        lemma_line_end_at(s, i + 1, j);
    }
}

proof fn lemma_chunk_step(s: Seq<u8>, p: int, c: Seq<u8>, acc: Seq<u8>)
    requires
        0 <= p,
        p + chunk_bytes(c).len() <= s.len(),
        s.subrange(p, p + chunk_bytes(c).len()) == chunk_bytes(c),
        c.len() > 0,
        c.len() <= usize::MAX - 2,
        !c.contains(10u8),
    ensures
        chunked_from(s, p, acc) == chunked_from(s, p + chunk_bytes(c).len(), acc + c),
{
    let h = hex_numeral(c.len());
    lemma_hex_numeral(c.len());
    let cb = chunk_bytes(c);
    assert(forall|t: int| 0 <= t < cb.len() ==> s[p + t] == #[trigger] cb[t]);
    let e = p + h.len() + 2;
    assert forall|t: int| p <= t < p + h.len() + 1 implies s[t] != 10 by {
        assert(s[t] == cb[t - p]);
        if t < p + h.len() {
            assert(cb[t - p] == h[t - p]);
        }
    }
    assert(s[p + h.len() + 1] == cb[h.len() + 1 as int]);
    lemma_line_end_at(s, p, p + h.len() + 1);
    assert(s.subrange(p, e - 2) =~= h);
    let e2 = e + c.len() + 2;
    assert forall|t: int| e <= t < e2 - 1 implies s[t] != 10 by {
        assert(s[t] == cb[t - p]);
        if t < e + c.len() {
            assert(cb[t - p] == c[t - e]);
        }
    }
    assert(s[e2 - 1] == cb[e2 - 1 - p]);
    assert(s[e2 - 2] == cb[e2 - 2 - p]);
    lemma_line_end_at(s, e, e2 - 1);
    assert forall|k: int| 0 <= k < c.len() implies s[e + k] == c[k] by {
        assert(s[e + k] == cb[e + k - p]);
        assert(cb[e + k - p] == (h + seq![13u8, 10u8] + c)[e + k - p]);
    }
    assert(s.subrange(e, e2 - 2) =~= c);
    assert(e2 == p + cb.len());
    assert(line_end(s, p) == e);
    assert(s[e - 2] == cb[h.len() as int]);
    assert(ends_crlf(s, p, e));
    assert(crate::number::parse_hex(s.subrange(p, e - 2)) == Some(c.len() as usize));
    assert(line_end(s, e) == e2);
    assert(ends_crlf(s, e, e2));
    assert(0 <= p <= s.len());
}

proof fn lemma_chunk_end(s: Seq<u8>, p: int, acc: Seq<u8>)
    requires
        0 <= p,
        p + 5 == s.len(),
        s.subrange(p, p + 5) == seq![48u8, 13u8, 10u8, 13u8, 10u8],
    ensures
        chunked_from(s, p, acc) == Ok::<(Seq<u8>, int), ErrorView>((acc, s.len() as int)),
{
    let z = seq![48u8, 13u8, 10u8, 13u8, 10u8];
    assert(forall|t: int| 0 <= t < 5 ==> s[p + t] == #[trigger] z[t]);
    lemma_line_end_at(s, p, p + 2);
    lemma_line_end_at(s, p + 3, p + 4);
    assert(s.subrange(p, p + 1) =~= seq![48u8]);
    assert(seq![48u8].drop_last() =~= Seq::<u8>::empty());
    assert(hex_value(Seq::<u8>::empty()) == 0);
    assert(hex_value(seq![48u8]) == hex_value(seq![48u8].drop_last()) * 16 + hex_byte_value(48u8));
    assert(hex_value(seq![48u8]) == 0);
}

/// Decoding from just after `pre`, after the data `acc`, undoes the encoding of `cs`.
proof fn lemma_chunked_round_trip_from(cs: Seq<Seq<u8>>, pre: Seq<u8>, acc: Seq<u8>)
    requires
        forall|k: int|
            0 <= k < cs.len() ==> #[trigger] cs[k].len() <= usize::MAX - 2 && !cs[k].contains(
                10u8,
            ),
    ensures
        chunked_from(pre + chunked_encoding(cs), pre.len() as int, acc) == Ok::<
            (Seq<u8>, int),
            ErrorView,
        >((acc + joined(cs), (pre + chunked_encoding(cs)).len() as int)),
    decreases cs.len(),
{
    let s = pre + chunked_encoding(cs);
    let p = pre.len() as int;
    if cs.len() == 0 {
        assert(s.subrange(p, p + 5) =~= seq![48u8, 13u8, 10u8, 13u8, 10u8]);
        lemma_chunk_end(s, p, acc);
        assert(acc + joined(cs) =~= acc);
    } else if cs[0].len() == 0 {
        assert forall|k: int| 0 <= k < cs.drop_first().len() implies #[trigger] cs.drop_first()[k].len()
            <= usize::MAX - 2 && !cs.drop_first()[k].contains(10u8) by {
            assert(cs.drop_first()[k] == cs[k + 1]);
        }
        lemma_chunked_round_trip_from(cs.drop_first(), pre, acc);
        assert(joined(cs) =~= joined(cs.drop_first()));
    } else {
        let c = cs[0];
        let rest = chunked_encoding(cs.drop_first());
        let pre2 = pre + chunk_bytes(c);
        assert(s =~= pre2 + rest);
        assert(s.subrange(p, p + chunk_bytes(c).len()) =~= chunk_bytes(c));
        lemma_chunk_step(s, p, c, acc);
        assert forall|k: int| 0 <= k < cs.drop_first().len() implies #[trigger] cs.drop_first()[k].len()
            <= usize::MAX - 2 && !cs.drop_first()[k].contains(10u8) by {
            assert(cs.drop_first()[k] == cs[k + 1]);
        }
        lemma_chunked_round_trip_from(cs.drop_first(), pre2, acc + c);
        assert(acc + c + joined(cs.drop_first()) =~= acc + joined(cs));
    }
}

/// Chunked decoding undoes the chunked encoding, for any split into chunks
/// that hold no line feed (the decoder reads chunk data up to a line feed):
/// it gives back the joined chunks and takes the whole encoding.
pub proof fn lemma_chunked_round_trip(cs: Seq<Seq<u8>>)
    requires
        forall|k: int|
            0 <= k < cs.len() ==> #[trigger] cs[k].len() <= usize::MAX - 2 && !cs[k].contains(
                10u8,
            ),
    ensures
        chunked_from(chunked_encoding(cs), 0, seq![]) == Ok::<(Seq<u8>, int), ErrorView>(
            (joined(cs), chunked_encoding(cs).len() as int),
        ),
{
    lemma_chunked_round_trip_from(cs, seq![], seq![]);
    assert(Seq::<u8>::empty() + chunked_encoding(cs) =~= chunked_encoding(cs));
    assert(Seq::<u8>::empty() + joined(cs) =~= joined(cs));
}

/// A chunk-size line that ends in CRLF but holds a byte that is not a hex
/// digit gives the invalid-chunk-length failure with the line's text.
pub proof fn lemma_non_hex_chunk_size(s: Seq<u8>, i: int, acc: Seq<u8>, j: int)
    requires
        0 <= i <= s.len(),
        ends_crlf(s, i, line_end(s, i)),
        i <= j < line_end(s, i) - 2,
        !is_hex_byte(s[j]),
    ensures
        chunked_from(s, i, acc) == Err::<(Seq<u8>, int), ErrorView>(
            ErrorView::InvalidChunkedLength(s.subrange(i, line_end(s, i) - 2)),
        ),
{
    lemma_line_end(s, i);
    let digits = s.subrange(i, line_end(s, i) - 2);
    assert(!is_hex_byte(digits[j - i]));
    assert(!all_hex(digits));
}

fn push_hex(out: &mut Vec<u8>, n: usize)
    ensures
        final(out)@ == old(out)@ + hex_numeral(n as nat),
    decreases n,
{
    if n < 16 {
        out.push(if n < 10 { n as u8 + 48 } else { n as u8 + 87 });
        assert(old(out)@ + hex_numeral(n as nat) =~= old(out)@.push(hex_digit_byte(n as nat)));
    } else {
        push_hex(out, n / 16);
        let d = n % 16;
        out.push(if d < 10 { d as u8 + 48 } else { d as u8 + 87 });
        assert(old(out)@ + hex_numeral(n as nat) =~= old(out)@ + hex_numeral((n / 16) as nat)
            + seq![hex_digit_byte(d as nat)]);
    }
}

pub open spec fn chunks_view(chunks: Seq<Vec<u8>>) -> Seq<Seq<u8>> {
    chunks.map_values(|c: Vec<u8>| c@)
}

/// Writes a body as chunked transfer coding: one chunk per non-empty piece,
/// with a lower-case hexadecimal size, then the zero-size chunk.
pub fn encode_chunked(chunks: &Vec<Vec<u8>>) -> (r: Vec<u8>)
    ensures
        r@ == chunked_encoding(chunks_view(chunks@)),
{
    let ghost cs = chunks_view(chunks@);
    let mut out: Vec<u8> = Vec::new();
    let mut k: usize = 0;
    assert(cs.skip(0) =~= cs);
    assert(out@ + chunked_encoding(cs) =~= chunked_encoding(cs));
    while k < chunks.len()
        invariant
            k <= chunks@.len(),
            cs == chunks_view(chunks@),
            chunked_encoding(cs) == out@ + chunked_encoding(cs.skip(k as int)),
        decreases chunks@.len() - k,
    {
        let c = &chunks[k];
        assert(cs.skip(k as int)[0] == c@);
        assert(cs.skip(k as int).drop_first() =~= cs.skip(k + 1));
        if c.len() > 0 {
            let ghost before = out@;
            push_hex(&mut out, c.len());
            out.push(13u8);
            out.push(10u8);
            append_range(&mut out, c, 0, c.len());
            out.push(13u8);
            out.push(10u8);
            assert(c@.subrange(0, c@.len() as int) =~= c@);
            assert(out@ =~= before + chunk_bytes(c@));
        }
        k = k + 1;
    }
    assert(cs.skip(k as int) =~= Seq::<Seq<u8>>::empty());
    out.push(48u8);
    out.push(13u8);
    out.push(10u8);
    out.push(13u8);
    out.push(10u8);
    assert(out@ =~= chunked_encoding(cs));
    out
}

} // verus!
