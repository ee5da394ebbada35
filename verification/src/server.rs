//! The connections of the server: which request stands in a buffer, what it is
//! answered, and what is done with the connection next.

use crate::http::{announces_body, content_length, fraud_response, get_content_length,
    lemma_announced, lemma_body_len, lemma_head_ends, length_text, parse_http_request,
    request_head, write_fraud_response, FraudResult, HEAD_END, HTTP_BAD_REQUEST, HTTP_NOT_FOUND,
    HTTP_READY, LENGTH_HEADER, LINE_END, RESPONSE_BODIES};
use crate::scan::{find, lemma_find, lemma_found, same_bytes, stands_at, CARRIAGE_RETURN};
use crate::words::push_str;
use vstd::prelude::*;
use vstd::slice::slice_subrange;
use vstd::string::*;

verus! {

/// Size of the buffer of a connection.
pub const READ_BUF_SIZE: usize = 8192;

/// A blocking connection forgets what it has read where less than this is free.
pub const SPARE_SIZE: usize = 1024;

/// The responses for each number of frauds among five neighbours.
pub const SCORE_RESPONSES: [&'static str; 6] = [
    "HTTP/1.1 200 OK\r\nContent-Length: 35\r\nConnection: keep-alive\r\n\r\n{\"approved\":true,\"fraud_score\":0.0}",
    "HTTP/1.1 200 OK\r\nContent-Length: 35\r\nConnection: keep-alive\r\n\r\n{\"approved\":true,\"fraud_score\":0.2}",
    "HTTP/1.1 200 OK\r\nContent-Length: 35\r\nConnection: keep-alive\r\n\r\n{\"approved\":true,\"fraud_score\":0.4}",
    "HTTP/1.1 200 OK\r\nContent-Length: 36\r\nConnection: keep-alive\r\n\r\n{\"approved\":false,\"fraud_score\":0.6}",
    "HTTP/1.1 200 OK\r\nContent-Length: 36\r\nConnection: keep-alive\r\n\r\n{\"approved\":false,\"fraud_score\":0.8}",
    "HTTP/1.1 200 OK\r\nContent-Length: 36\r\nConnection: keep-alive\r\n\r\n{\"approved\":false,\"fraud_score\":1.0}",
];

/// HTTP 503 while the dataset is loading.
pub const SERVICE_UNAVAILABLE: &'static str = "HTTP/1.1 503 Service Unavailable\r\nContent-Length: 33\r\nConnection: keep-alive\r\n\r\n{\"error\":\"not ready, still loading\"}";

/// What a request asks for.
#[derive(Debug, Clone, Copy, PartialEq, Eq, Structural)]
pub enum Route {
    Ready,
    FraudScore,
    Unknown,
}

/// What stands at the start of a buffer.
#[derive(Debug, Clone, Copy, PartialEq, Eq, Structural)]
pub enum Framing {
    /// No request, or the beginning of one.
    Incomplete,
    /// A request whose body reaches from `body_start` to `total`.
    Complete { route: Route, body_start: usize, total: usize },
    /// A request whose length no machine number can hold.
    Overflow,
}

/// What a method and a path ask for.
pub open spec fn route_of(method: Seq<u8>, path: Seq<u8>) -> Route {
    if method == "GET".spec_bytes() && path == "/ready".spec_bytes() {
        Route::Ready
    } else if method == "POST".spec_bytes() && path == "/fraud-score".spec_bytes() {
        Route::FraudScore
    } else {
        Route::Unknown
    }
}

/// What stands at the start of a buffer.
pub open spec fn framing(d: Seq<u8>) -> Framing {
    match request_head(d) {
        None => Framing::Incomplete,
        Some((method, path, start)) => {
            let total = start + content_length(d.subrange(0, start));
            if total > usize::MAX {
                Framing::Overflow
            } else if d.len() < total {
                Framing::Incomplete
            } else {
                Framing::Complete {
                    route: route_of(method, path),
                    body_start: start as usize,
                    total: total as usize,
                }
            }
        },
    }
}

/// Finds the request at the start of a buffer.
pub fn frame(buf: &[u8]) -> (r: Framing)
    ensures
        r == framing(buf@),
        r matches Framing::Complete { body_start, total, .. } ==> body_start <= total
            <= buf@.len(),
{
    match parse_http_request(buf) {
        None => Framing::Incomplete,
        Some((method, path, body_start)) => {
            let body_len: usize = get_content_length(slice_subrange(buf, 0, body_start));
            if body_len > usize::MAX - body_start {
                return Framing::Overflow;
            }
            let total: usize = body_start + body_len;
            if buf.len() < total {
                return Framing::Incomplete;
            }
            let route = if same_bytes(method.as_bytes(), "GET".as_bytes()) && same_bytes(
                path.as_bytes(),
                "/ready".as_bytes(),
            ) {
                Route::Ready
            } else if same_bytes(method.as_bytes(), "POST".as_bytes()) && same_bytes(
                path.as_bytes(),
                "/fraud-score".as_bytes(),
            ) {
                Route::FraudScore
            } else {
                Route::Unknown
            };
            Framing::Complete { route, body_start, total }
        },
    }
}

/// What a request is answered. Without an outcome the dataset is still loading.
pub open spec fn response_to(route: Route, outcome: Option<FraudResult>) -> &'static str {
    match (route, outcome) {
        (Route::Unknown, _) => HTTP_NOT_FOUND,
        (_, None) => SERVICE_UNAVAILABLE,
        (Route::Ready, _) => HTTP_READY,
        (Route::FraudScore, Some(FraudResult::Score(n))) => SCORE_RESPONSES@[if n < 5 {
            n as int
        } else {
            5
        }],
        (Route::FraudScore, Some(FraudResult::Error)) => HTTP_BAD_REQUEST,
    }
}

/// Picks the response to a request.
pub fn respond(route: Route, outcome: Option<FraudResult>) -> (r: &'static str)
    ensures
        r == response_to(route, outcome),
{
    match (route, outcome) {
        (Route::Unknown, _) => HTTP_NOT_FOUND,
        (_, None) => SERVICE_UNAVAILABLE,
        (Route::Ready, _) => HTTP_READY,
        (Route::FraudScore, Some(FraudResult::Score(n))) => {
            let k: usize = if n < 5 {
                n
            } else {
                5
            };
            SCORE_RESPONSES[k]
        },
        (Route::FraudScore, Some(FraudResult::Error)) => HTTP_BAD_REQUEST,
    }
}

/// The buffer of a connection.
pub struct Conn {
    pub read_buf: Vec<u8>,
    /// Number of bytes that have been read and not been answered.
    pub filled: usize,
}

impl Conn {
    /// Whether the bytes that have been read stand in the buffer.
    pub open spec fn wf(&self) -> bool {
        self.filled <= self.read_buf@.len()
    }

    /// The bytes that have been read and not been answered.
    pub open spec fn pending(&self) -> Seq<u8> {
        self.read_buf@.take(self.filled as int)
    }

    /// A connection with an empty buffer of the given size.
    pub fn with_size(size: usize) -> (r: Conn)
        ensures
            r.wf(),
            r.read_buf@ == Seq::new(size as nat, |i: int| 0u8),
            r.filled == 0,
    {
        let mut read_buf: Vec<u8> = Vec::new();
        let mut i: usize = 0;
        while i < size
            invariant
                i <= size,
                read_buf@.len() == i,
                forall|j: int| 0 <= j < i ==> #[trigger] read_buf@[j] == 0,
            decreases size - i,
        {
            read_buf.push(0);
            i = i + 1;
        }
        assert(read_buf@ =~= Seq::new(size as nat, |i: int| 0u8));
        Conn { read_buf, filled: 0 }
    }

    /// A connection of the server.
    pub fn new() -> (r: Conn)
        ensures
            r.wf(),
            r.read_buf@ == Seq::new(READ_BUF_SIZE as nat, |i: int| 0u8),
            r.filled == 0,
    {
        Conn::with_size(READ_BUF_SIZE)
    }

    /// Finds the request that has been read.
    pub fn request(&self) -> (r: Framing)
        requires
            self.wf(),
        ensures
            r == framing(self.pending()),
            r matches Framing::Complete { body_start, total, .. } ==> body_start <= total
                <= self.filled,
    {
        let pending: &[u8] = slice_subrange(self.read_buf.as_slice(), 0, self.filled);
        assert(pending@ =~= self.pending());
        frame(pending)
    }

    /// Drops the first `total` bytes that have been read.
    pub fn consume(&mut self, total: usize)
        requires
            old(self).wf(),
            total <= old(self).filled,
        ensures
            final(self).wf(),
            final(self).read_buf@.len() == old(self).read_buf@.len(),
            final(self).filled == old(self).filled - total,
            final(self).pending() == old(self).pending().skip(total as int),
    {
        let rest: usize = self.filled - total;
        let mut i: usize = 0;
        while i < rest
            invariant
                i <= rest,
                rest == self.filled - total,
                self.filled == old(self).filled,
                old(self).wf(),
                total <= self.filled,
                self.read_buf@.len() == old(self).read_buf@.len(),
                forall|j: int| 0 <= j < i ==> #[trigger] self.read_buf@[j] == old(
                    self,
                ).read_buf@[total + j],
                forall|j: int| i <= j < self.read_buf@.len() ==> #[trigger] self.read_buf@[j]
                    == old(self).read_buf@[j],
            decreases rest - i,
        {
            let b: u8 = self.read_buf[total + i];
            self.read_buf.set(i, b);
            i = i + 1;
        }
        self.filled = rest;
        assert(self.pending() =~= old(self).pending().skip(total as int));
    }
}

/// Answers the request at the start of the buffer, if it is complete, and drops
/// it. `outcome` is what scoring its body gave; without one the dataset is
/// still loading.
pub fn process_buffer(conn: &mut Conn, outcome: Option<FraudResult>) -> (r: Option<&'static str>)
    requires
        old(conn).wf(),
        framing(old(conn).pending()) !is Overflow,
    ensures
        final(conn).wf(),
        final(conn).read_buf@.len() == old(conn).read_buf@.len(),
        match framing(old(conn).pending()) {
            Framing::Complete { route, total, .. } => r == Some(response_to(route, outcome))
                && final(conn).pending() == old(conn).pending().skip(total as int),
            _ => r is None && *final(conn) == *old(conn),
        },
{
    match conn.request() {
        Framing::Complete { route, body_start, total } => {
            conn.consume(total);
            Some(respond(route, outcome))
        },
        _ => None,
    }
}

/// What a blocking connection answers to a request.
pub open spec fn direct_response(route: Route, result: FraudResult) -> Seq<u8> {
    match (route, result) {
        (Route::Ready, _) => HTTP_READY.spec_bytes(),
        (Route::FraudScore, FraudResult::Score(n)) => fraud_response(n as int),
        (Route::FraudScore, FraudResult::Error) => HTTP_BAD_REQUEST.spec_bytes(),
        (Route::Unknown, _) => HTTP_NOT_FOUND.spec_bytes(),
    }
}

/// Answers the request at the start of the buffer of a blocking connection, if
/// it is complete, and drops it. Tells whether there was one.
pub fn answer_request(conn: &mut Conn, result: FraudResult, out: &mut Vec<u8>) -> (r: bool)
    requires
        old(conn).wf(),
        framing(old(conn).pending()) !is Overflow,
        result matches FraudResult::Score(n) ==> n <= 5,
    ensures
        final(conn).wf(),
        final(conn).read_buf@.len() == old(conn).read_buf@.len(),
        match framing(old(conn).pending()) {
            Framing::Complete { route, total, .. } => r && final(out)@ == old(out)@
                + direct_response(route, result) && final(conn).pending() == old(
                conn,
            ).pending().skip(total as int),
            _ => !r && *final(conn) == *old(conn) && *final(out) == *old(out),
        },
{
    match conn.request() {
        Framing::Complete { route, body_start, total } => {
            conn.consume(total);
            match (route, result) {
                (Route::Ready, _) => push_str(out, HTTP_READY),
                (Route::FraudScore, FraudResult::Score(n)) => write_fraud_response(out, n),
                (Route::FraudScore, FraudResult::Error) => push_str(out, HTTP_BAD_REQUEST),
                (Route::Unknown, _) => push_str(out, HTTP_NOT_FOUND),
            }
            true
        },
        _ => false,
    }
}

/// Forgets what a blocking connection has read where its buffer is getting
/// full.
pub fn reset_when_crowded(conn: &mut Conn)
    requires
        old(conn).wf(),
        old(conn).read_buf@.len() >= SPARE_SIZE,
    ensures
        final(conn).wf(),
        final(conn).read_buf@ == old(conn).read_buf@,
        final(conn).filled == if old(conn).filled >= old(conn).read_buf@.len() - SPARE_SIZE {
            0
        } else {
            old(conn).filled
        },
{
    if conn.filled >= conn.read_buf.len() - SPARE_SIZE {
        conn.filled = 0;
    }
}

/// What came of a read from a connection.
#[derive(Debug, Clone, Copy, PartialEq, Eq, Structural)]
pub enum Received {
    /// That many bytes, at least one, were put behind the filled part.
    Data(usize),
    WouldBlock,
    Closed,
    Failed,
}

/// What to do after a read.
#[derive(Debug, Clone, Copy, PartialEq, Eq, Structural)]
pub enum ReadStep {
    ReadAgain,
    Process,
    Drop,
}

/// Whether a connection may read: one with a full buffer is dropped.
pub fn before_read(conn: &Conn) -> (r: ReadStep)
    ensures
        r == if conn.filled >= conn.read_buf@.len() {
            ReadStep::Drop
        } else {
            ReadStep::ReadAgain
        },
{
    if conn.filled >= conn.read_buf.len() {
        ReadStep::Drop
    } else {
        ReadStep::ReadAgain
    }
}

/// Takes note of a read: the connection reads until it would block, and is
/// dropped where it is closed, fails or fills its buffer.
pub fn after_read(conn: &mut Conn, received: Received) -> (r: ReadStep)
    requires
        old(conn).wf(),
        received matches Received::Data(n) ==> n <= old(conn).read_buf@.len() - old(conn).filled,
    ensures
        final(conn).wf(),
        final(conn).read_buf@ == old(conn).read_buf@,
        final(conn).filled == match received {
            Received::Data(n) => old(conn).filled + n,
            _ => old(conn).filled as int,
        },
        r == match received {
            Received::Data(_) => if final(conn).filled >= final(conn).read_buf@.len() {
                ReadStep::Drop
            } else {
                ReadStep::ReadAgain
            },
            Received::WouldBlock => ReadStep::Process,
            Received::Closed => ReadStep::Drop,
            Received::Failed => ReadStep::Drop,
        },
{
    match received {
        Received::Data(n) => {
            let size: usize = conn.read_buf.len();
            conn.filled = conn.filled + n;
            before_read(conn)
        },
        Received::WouldBlock => ReadStep::Process,
        Received::Closed => ReadStep::Drop,
        Received::Failed => ReadStep::Drop,
    }
}

/// What came of sending part of a response.
#[derive(Debug, Clone, Copy, PartialEq, Eq, Structural)]
pub enum Sent {
    /// That many bytes were taken.
    Data(usize),
    WouldBlock,
    Failed,
}

/// What to do after sending part of a response.
#[derive(Debug, Clone, Copy, PartialEq, Eq, Structural)]
pub enum WriteStep {
    /// Send the response from that position on.
    SendFrom(usize),
    /// The response has been sent: acknowledge and drop the connection.
    Finish,
    /// Leave the connection as it is.
    Keep,
    Drop,
}

/// Takes note of what was sent of a response of length `len` from `pos` on.
pub fn after_send(pos: usize, len: usize, sent: Sent) -> (r: WriteStep)
    requires
        pos <= len,
        sent matches Sent::Data(n) ==> n <= len - pos,
    ensures
        r == match sent {
            Sent::Data(n) => if pos + n < len {
                WriteStep::SendFrom((pos + n) as usize)
            } else {
                WriteStep::Finish
            },
            Sent::WouldBlock => WriteStep::Keep,
            Sent::Failed => WriteStep::Drop,
        },
{
    match sent {
        Sent::Data(n) => if pos + n < len {
            WriteStep::SendFrom(pos + n)
        } else {
            WriteStep::Finish
        },
        Sent::WouldBlock => WriteStep::Keep,
        Sent::Failed => WriteStep::Drop,
    }
}

/// What to do about an event of a connection.
#[derive(Debug, Clone, Copy, PartialEq, Eq, Structural)]
pub enum EventStep {
    Ignore,
    Drop,
    Read,
}

/// Decides about an event: one of an unknown connection is ignored, one that
/// tells of an error or a hangup drops the connection, and one that tells of
/// data reads it.
pub fn on_event(known: bool, broken: bool, readable: bool) -> (r: EventStep)
    ensures
        r == if !known {
            EventStep::Ignore
        } else if broken {
            EventStep::Drop
        } else if readable {
            EventStep::Read
        } else {
            EventStep::Ignore
        },
{
    if !known {
        EventStep::Ignore
    } else if broken {
        EventStep::Drop
    } else if readable {
        EventStep::Read
    } else {
        EventStep::Ignore
    }
}

/// A word that is found is found in the same place where more bytes follow.
proof fn lemma_find_extended(d: Seq<u8>, more: Seq<u8>, from: int, word: Seq<u8>)
    requires
        0 <= from,
        find(d, from, word) is Some,
    ensures
        find(d + more, from, word) == find(d, from, word),
{
    let i = find(d, from, word).unwrap();
    lemma_find(d, from, word);
    let e = d + more;
    assert forall|j: int| from <= j <= i implies stands_at(d, j, word) == #[trigger] stands_at(
        e,
        j,
        word,
    ) by {
        assert(e.subrange(j, j + word.len()) =~= d.subrange(j, j + word.len()));
    }
    assert forall|j: int| from <= j < i implies !#[trigger] stands_at(e, j, word) by {
        assert(!stands_at(d, j, word));
    }
    lemma_found(e, from, word, i);
}

/// A complete request stays the same request when more bytes arrive.
pub proof fn law_complete_request_is_stable(d: Seq<u8>, more: Seq<u8>)
    requires
        framing(d) is Complete,
    ensures
        framing(d + more) == framing(d),
{
    reveal_strlit("\r\n");
    reveal_strlit("\r\n\r\n");
    assert(is_ascii("\r\n"));
    assert(is_ascii("\r\n\r\n"));
    let i = find(d, 0, LINE_END.spec_bytes()).unwrap();
    lemma_find(d, 0, LINE_END.spec_bytes());
    lemma_find_extended(d, more, 0, LINE_END.spec_bytes());
    lemma_find(d, i + 2, HEAD_END.spec_bytes());
    lemma_find_extended(d, more, i + 2, HEAD_END.spec_bytes());
    assert((d + more).subrange(0, i) =~= d.subrange(0, i));
    let start = request_head(d).unwrap().2;
    assert((d + more).subrange(0, start) =~= d.subrange(0, start));
}

/// A request that is followed by others is answered as if it stood alone, and
/// leaves the others as they are.
pub proof fn law_pipelined_requests_are_independent(d: Seq<u8>, more: Seq<u8>)
    requires
        framing(d) matches Framing::Complete { total, .. } && total == d.len(),
    ensures
        framing(d + more) == framing(d),
        (d + more).skip(d.len() as int) == more,
{
    law_complete_request_is_stable(d, more);
    assert((d + more).skip(d.len() as int) =~= more);
}

/// Whether a response consists of a first line of length `i`, a length header
/// that announces `n`, a further header, and a body of length `n`.
spec fn has_shape(d: Seq<u8>, i: int, n: int) -> bool {
    let h = i + 16 + length_text(n).len() + 24;
    &&& 2 <= i
    &&& 0 <= n < 100
    &&& d.len() == h + 4 + n
    &&& forall|j: int| 0 <= j < i ==> #[trigger] d[j] != 'C' as u8
    &&& stands_at(d, i, LENGTH_HEADER.spec_bytes())
    &&& d.subrange(i + 16, h - 24) == length_text(n)
    &&& d[h - 24] == CARRIAGE_RETURN
    &&& stands_at(d, h, HEAD_END.spec_bytes())
    &&& forall|j: int|
        0 <= j < h && #[trigger] d[j] == CARRIAGE_RETURN ==> d[j + 2] != CARRIAGE_RETURN
}

/// A response of that shape announces the length of its body.
proof fn lemma_shape_announces(d: Seq<u8>, i: int, n: int)
    requires
        has_shape(d, i, n),
    ensures
        announces_body(d),
        content_length(d) == n,
{
    reveal_strlit("Content-Length: ");
    assert(is_ascii("Content-Length: "));
    let word = LENGTH_HEADER.spec_bytes();
    assert forall|j: int| 0 <= j < i implies !#[trigger] stands_at(d, j, word) by {
        if stands_at(d, j, word) {
            assert(d.subrange(j, j + 16)[0] == d[j]);
        }
    }
    lemma_announced(d, i, n);
    lemma_head_ends(d, i + 16 + length_text(n).len() + 24);
}

/// The shape of a score response.
proof fn lemma_score_shape(n: int)
    requires
        0 <= n <= 5,
    ensures
        has_shape(
            SCORE_RESPONSES@[n].spec_bytes(),
            17,
            RESPONSE_BODIES@[n].spec_bytes().len() as int,
        ),
        SCORE_RESPONSES@[n].spec_bytes().skip(63) == RESPONSE_BODIES@[n].spec_bytes(),
{
    lemma_body_len(n);
    reveal_strlit("Content-Length: ");
    assert(is_ascii("Content-Length: "));
    reveal_strlit("\r\n\r\n");
    assert(is_ascii("\r\n\r\n"));
    let d = SCORE_RESPONSES@[n].spec_bytes();
    if n == 0 {
        reveal_strlit("HTTP/1.1 200 OK\r\nContent-Length: 35\r\nConnection: keep-alive\r\n\r\n{\"approved\":true,\"fraud_score\":0.0}");
        reveal_strlit("{\"approved\":true,\"fraud_score\":0.0}");
    } else if n == 1 {
        reveal_strlit("HTTP/1.1 200 OK\r\nContent-Length: 35\r\nConnection: keep-alive\r\n\r\n{\"approved\":true,\"fraud_score\":0.2}");
        reveal_strlit("{\"approved\":true,\"fraud_score\":0.2}");
    } else if n == 2 {
        reveal_strlit("HTTP/1.1 200 OK\r\nContent-Length: 35\r\nConnection: keep-alive\r\n\r\n{\"approved\":true,\"fraud_score\":0.4}");
        reveal_strlit("{\"approved\":true,\"fraud_score\":0.4}");
    } else if n == 3 {
        reveal_strlit("HTTP/1.1 200 OK\r\nContent-Length: 36\r\nConnection: keep-alive\r\n\r\n{\"approved\":false,\"fraud_score\":0.6}");
        reveal_strlit("{\"approved\":false,\"fraud_score\":0.6}");
    } else if n == 4 {
        reveal_strlit("HTTP/1.1 200 OK\r\nContent-Length: 36\r\nConnection: keep-alive\r\n\r\n{\"approved\":false,\"fraud_score\":0.8}");
        reveal_strlit("{\"approved\":false,\"fraud_score\":0.8}");
    } else {
        reveal_strlit("HTTP/1.1 200 OK\r\nContent-Length: 36\r\nConnection: keep-alive\r\n\r\n{\"approved\":false,\"fraud_score\":1.0}");
        reveal_strlit("{\"approved\":false,\"fraud_score\":1.0}");
    }
    assert(is_ascii(SCORE_RESPONSES@[n]));
    assert(is_ascii(RESPONSE_BODIES@[n]));
    assert(d.subrange(17, 33) =~= LENGTH_HEADER.spec_bytes());
    assert(d.subrange(33, 35) =~= length_text(RESPONSE_BODIES@[n].spec_bytes().len() as int));
    assert(d.subrange(59, 63) =~= HEAD_END.spec_bytes());
    assert(d.skip(63) =~= RESPONSE_BODIES@[n].spec_bytes());
}

/// The shape of a response without a body.
proof fn lemma_plain_shape()
    ensures
        has_shape(HTTP_READY.spec_bytes(), 17, 0),
        has_shape(HTTP_NOT_FOUND.spec_bytes(), 24, 0),
        has_shape(HTTP_BAD_REQUEST.spec_bytes(), 26, 0),
{
    reveal_strlit("Content-Length: ");
    assert(is_ascii("Content-Length: "));
    reveal_strlit("\r\n\r\n");
    assert(is_ascii("\r\n\r\n"));
    reveal_strlit(
        "HTTP/1.1 200 OK\r\nContent-Length: 0\r\nConnection: keep-alive\r\n\r\n",
    );
    reveal_strlit(
        "HTTP/1.1 404 Not Found\r\nContent-Length: 0\r\nConnection: keep-alive\r\n\r\n",
    );
    reveal_strlit(
        "HTTP/1.1 400 Bad Request\r\nContent-Length: 0\r\nConnection: keep-alive\r\n\r\n",
    );
    assert(is_ascii(HTTP_READY));
    assert(is_ascii(HTTP_NOT_FOUND));
    assert(is_ascii(HTTP_BAD_REQUEST));
    let d = HTTP_READY.spec_bytes();
    assert(d.subrange(17, 33) =~= LENGTH_HEADER.spec_bytes());
    assert(d.subrange(33, 34) =~= length_text(0));
    assert(d.subrange(58, 62) =~= HEAD_END.spec_bytes());
    let d = HTTP_NOT_FOUND.spec_bytes();
    assert(d.subrange(24, 40) =~= LENGTH_HEADER.spec_bytes());
    assert(d.subrange(40, 41) =~= length_text(0));
    assert(d.subrange(65, 69) =~= HEAD_END.spec_bytes());
    let d = HTTP_BAD_REQUEST.spec_bytes();
    assert(d.subrange(26, 42) =~= LENGTH_HEADER.spec_bytes());
    assert(d.subrange(42, 43) =~= length_text(0));
    assert(d.subrange(67, 71) =~= HEAD_END.spec_bytes());
}

/// What the server sends for a score is a head that announces the length of
/// the pre-rendered body, and that body.
pub proof fn law_score_response(n: int)
    requires
        0 <= n <= 5,
    ensures
        announces_body(SCORE_RESPONSES@[n].spec_bytes()),
        content_length(SCORE_RESPONSES@[n].spec_bytes())
            == RESPONSE_BODIES@[n].spec_bytes().len(),
        SCORE_RESPONSES@[n].spec_bytes().skip(63) == RESPONSE_BODIES@[n].spec_bytes(),
{
    lemma_score_shape(n);
    lemma_shape_announces(
        SCORE_RESPONSES@[n].spec_bytes(),
        17,
        RESPONSE_BODIES@[n].spec_bytes().len() as int,
    );
}

/// Every response of a server that has loaded its dataset announces the length
/// of its body; so does every refusal of an unknown request.
pub proof fn law_response_announces_its_body(route: Route, outcome: Option<FraudResult>)
    requires
        outcome is Some || route is Unknown,
    ensures
        announces_body(response_to(route, outcome).spec_bytes()),
{
    lemma_plain_shape();
    match (route, outcome) {
        (Route::FraudScore, Some(FraudResult::Score(n))) => {
            law_score_response(
                if n < 5 {
                    n as int
                } else {
                    5
                },
            );
        },
        (Route::FraudScore, _) => {
            lemma_shape_announces(HTTP_BAD_REQUEST.spec_bytes(), 26, 0);
        },
        (Route::Ready, _) => {
            lemma_shape_announces(HTTP_READY.spec_bytes(), 17, 0);
        },
        (Route::Unknown, _) => {
            lemma_shape_announces(HTTP_NOT_FOUND.spec_bytes(), 24, 0);
        },
    }
}

/// While the dataset is loading, no request is answered with success.
pub proof fn law_no_success_while_loading(route: Route)
    ensures
        !stands_at(response_to(route, None).spec_bytes(), 0, "HTTP/1.1 200".spec_bytes()),
{
    reveal_strlit("HTTP/1.1 200");
    assert(is_ascii("HTTP/1.1 200"));
    reveal_strlit(
        "HTTP/1.1 404 Not Found\r\nContent-Length: 0\r\nConnection: keep-alive\r\n\r\n",
    );
    reveal_strlit("HTTP/1.1 503 Service Unavailable\r\nContent-Length: 33\r\nConnection: keep-alive\r\n\r\n{\"error\":\"not ready, still loading\"}");
    assert(is_ascii(HTTP_NOT_FOUND));
    assert(is_ascii(SERVICE_UNAVAILABLE));
    let d = response_to(route, None).spec_bytes();
    assert(d.subrange(0, 12)[9] == d[9]);
}

} // verus!
