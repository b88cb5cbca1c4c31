//! The connection engine: one buffered stream in, one out, and the
//! keep-alive state machine that decides when the transport closes.
use vstd::prelude::*;

use crate::body::{parse_request, request_of};
use crate::request::{ConnectionError, ErrorView, Request, RequestView};
use crate::response::{response_bytes, write_response, Response, ResponseView};
use crate::text::{chars_of, eq_ignore_case, range_is, range_is_ignore_case};

verus! {

/// Whether a connection serves one more request.
#[derive(Clone, Copy, Debug, PartialEq, Eq, Structural)]
pub enum ConnectionKind {
    /// Serve the current request, then close.
    Close,
    /// Stay open after the response; the limits are carried but not enforced.
    KeepAlive { timeout: u64, max_requests: u64 },
    /// The transport is closed; no more requests are read.
    Closed,
}

/// One connection: the bytes received and not yet parsed, the bytes to send,
/// and the persistence state.
pub struct Connection {
    input: Vec<u8>,
    output: Vec<u8>,
    kind: ConnectionKind,
}

pub struct ConnectionView {
    pub input: Seq<u8>,
    pub output: Seq<u8>,
    pub kind: ConnectionKind,
}

impl View for Connection {
    type V = ConnectionView;

    closed spec fn view(&self) -> ConnectionView {
        ConnectionView { input: self.input@, output: self.output@, kind: self.kind }
    }
}

/// The value of the first `Connection` header (name compared up to ASCII case).
pub open spec fn connection_value(hs: Seq<(Seq<char>, Seq<char>)>) -> Option<Seq<char>>
    decreases hs.len(),
{
    if hs.len() == 0 {
        None
    } else if eq_ignore_case(hs[0].0, "connection"@) {
        Some(hs[0].1)
    } else {
        connection_value(hs.drop_first())
    }
}

/// The state after a request with headers `hs`: keep-alive only when asked for.
pub open spec fn kind_after(hs: Seq<(Seq<char>, Seq<char>)>) -> ConnectionKind {
    match connection_value(hs) {
        Some(v) => if v == "close"@ {
            ConnectionKind::Close
        } else if eq_ignore_case(v, "keep-alive"@) {
            ConnectionKind::KeepAlive { timeout: 0, max_requests: 0 }
        } else {
            ConnectionKind::Close
        },
        None => ConnectionKind::Close,
    }
}

/// What `request` does: the next state and what it returns.
pub open spec fn request_step(c: ConnectionView) -> (
    ConnectionView,
    Result<Option<RequestView>, ErrorView>,
) {
    if c.kind == ConnectionKind::Closed {
        (c, Ok(None))
    } else {
        match request_of(c.input) {
            Err(e) => (c, Err(e)),
            Ok((q, end)) => (
                ConnectionView {
                    input: c.input.skip(end),
                    output: c.output,
                    kind: kind_after(q.headers),
                },
                Ok(Some(q)),
            ),
        }
    }
}

/// What `respond` does: the response is written, then a `Close` connection closes.
pub open spec fn respond_step(c: ConnectionView, r: ResponseView) -> ConnectionView {
    if c.kind == ConnectionKind::Closed {
        c
    } else {
        ConnectionView {
            input: c.input,
            output: c.output + response_bytes(r),
            kind: if c.kind == ConnectionKind::Close {
                ConnectionKind::Closed
            } else {
                c.kind
            },
        }
    }
}

pub open spec fn request_answer_view(r: Result<Option<Request>, ConnectionError>) -> Result<
    Option<RequestView>,
    ErrorView,
> {
    match r {
        Ok(Some(q)) => Ok(Some(q@)),
        Ok(None) => Ok(None),
        Err(e) => Err(e@),
    }
}

fn kind_for(headers: &Vec<(String, String)>) -> (r: ConnectionKind)
    ensures
        r == kind_after(crate::request::headers_view(headers@)),
{
    let ghost hv = crate::request::headers_view(headers@);
    let mut k: usize = 0;
    assert(hv.skip(0) =~= hv);
    while k < headers.len()
        invariant
            k <= headers@.len(),
            hv == crate::request::headers_view(headers@),
            connection_value(hv) == connection_value(hv.skip(k as int)),
        decreases headers@.len() - k,
    {
        let name = chars_of(headers[k].0.as_str());
        assert(name@.subrange(0, name@.len() as int) =~= name@);
        assert(hv.skip(k as int)[0] == hv[k as int]);
        if range_is_ignore_case(&name, 0, name.len(), "connection") {
            let value = chars_of(headers[k].1.as_str());
            assert(value@.subrange(0, value@.len() as int) =~= value@);
            if range_is(&value, 0, value.len(), "close") {
                return ConnectionKind::Close;
            } else if range_is_ignore_case(&value, 0, value.len(), "keep-alive") {
                return ConnectionKind::KeepAlive { timeout: 0, max_requests: 0 };
            } else {
                return ConnectionKind::Close;
            }
        }
        assert(hv.skip(k as int).drop_first() =~= hv.skip(k + 1));
        k = k + 1;
    }
    assert(hv.skip(k as int) =~= Seq::<(Seq<char>, Seq<char>)>::empty());
    ConnectionKind::Close
}

impl Connection {
    /// A fresh connection: nothing received, nothing to send, kind `Close`.
    pub fn new() -> (r: Connection)
        ensures
            r@.input == Seq::<u8>::empty(),
            r@.output == Seq::<u8>::empty(),
            r@.kind == ConnectionKind::Close,
    {
        Connection { input: Vec::new(), output: Vec::new(), kind: ConnectionKind::Close }
    }

    /// Hands bytes received from the transport to the connection.
    pub fn feed(&mut self, bytes: &[u8])
        ensures
            final(self)@.input == old(self)@.input + bytes@,
            final(self)@.output == old(self)@.output,
            final(self)@.kind == old(self)@.kind,
    {
        let mut k: usize = 0;
        while k < bytes.len()
            invariant
                k <= bytes@.len(),
                self@.input == old(self)@.input + bytes@.subrange(0, k as int),
                self@.output == old(self)@.output,
                self@.kind == old(self)@.kind,
            decreases bytes@.len() - k,
        {
            self.input.push(bytes[k]);
            assert(bytes@.subrange(0, k + 1) =~= bytes@.subrange(0, k as int).push(
                bytes@[k as int],
            ));
            k = k + 1;
        }
        assert(bytes@.subrange(0, bytes@.len() as int) =~= bytes@);
    }

    /// Reads the next request. A closed connection gives `Ok(None)` and reads
    /// nothing; a failure leaves the connection as it was.
    pub fn request(&mut self) -> (r: Result<Option<Request>, ConnectionError>)
        ensures
            (final(self)@, request_answer_view(r)) == request_step(old(self)@),
    {
        if self.kind == ConnectionKind::Closed {
            return Ok(None);
        }
        match parse_request(&self.input) {
            Err(e) => Err(e),
            Ok((q, end)) => {
                proof {
                    crate::body::lemma_request_end(self.input@);
                }
                let n = self.input.len();
                let rest = vstd::slice::slice_to_vec(
                    vstd::slice::slice_subrange(self.input.as_slice(), end, n),
                );
                self.input = rest;
                assert(self.input@ =~= old(self)@.input.skip(end as int));
                self.kind = kind_for(&q.headers);
                Ok(Some(q))
            },
        }
    }

    /// Writes a response; a `Close` connection is closed afterwards. A closed
    /// connection writes nothing.
    pub fn respond(&mut self, resp: &Response)
        ensures
            final(self)@ == respond_step(old(self)@, resp@),
    {
        if self.kind == ConnectionKind::Closed {
            return;
        }
        write_response(&mut self.output, resp);
        if self.kind == ConnectionKind::Close {
            self.kind = ConnectionKind::Closed;
        }
    }

    /// Takes the bytes waiting to be sent.
    pub fn take_output(&mut self) -> (r: Vec<u8>)
        ensures
            r@ == old(self)@.output,
            final(self)@.output == Seq::<u8>::empty(),
            final(self)@.input == old(self)@.input,
            final(self)@.kind == old(self)@.kind,
    {
        let mut taken: Vec<u8> = Vec::new();
        taken.append(&mut self.output);
        taken
    }

    /// The persistence state.
    pub fn kind(&self) -> (r: ConnectionKind)
        ensures
            r == self@.kind,
    {
        self.kind
    }

    /// Marks the transport closed, as after a failure.
    pub fn close(&mut self)
        ensures
            final(self)@.kind == ConnectionKind::Closed,
            final(self)@.input == old(self)@.input,
            final(self)@.output == old(self)@.output,
    {
        self.kind = ConnectionKind::Closed;
    }
}

/// Once a response is written on a connection of kind `Close`, the
/// connection is closed and the next request call answers "no request"
/// without reading anything.
pub proof fn lemma_no_request_after_close(c: ConnectionView, r: ResponseView)
    requires
        c.kind == ConnectionKind::Close,
    ensures
        respond_step(c, r).kind == ConnectionKind::Closed,
        request_step(respond_step(c, r)).1 == Ok::<Option<RequestView>, ErrorView>(None),
        request_step(respond_step(c, r)).0 == respond_step(c, r),
{
}

} // verus!
