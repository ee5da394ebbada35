//! Minimal HTTP/1.1: the head of a request, and the pre-rendered responses.

use crate::scan::{decimal, digits_at, find, find_word, lemma_found, lemma_next_digit,
    lemma_run_end, run_end, scan, stands_at, ByteClass, CARRIAGE_RETURN, CLOSE_BRACE, DOT, SPACE, ZERO};
use crate::words::push_str;
use vstd::arithmetic::div_mod::lemma_small_mod;
use vstd::prelude::*;
use vstd::slice::slice_subrange;
use vstd::string::*;
use vstd::utf8::valid_utf8;

verus! {

/// What ends a line.
pub const LINE_END: &'static str = "\r\n";

/// What ends the head of a request.
pub const HEAD_END: &'static str = "\r\n\r\n";

/// What stands before the length of a body.
pub const LENGTH_HEADER: &'static str = "Content-Length: ";

/// The bodies for each possible number of frauds among five neighbours.
pub const RESPONSE_BODIES: [&'static str; 6] = [
    "{\"approved\":true,\"fraud_score\":0.0}",
    "{\"approved\":true,\"fraud_score\":0.2}",
    "{\"approved\":true,\"fraud_score\":0.4}",
    "{\"approved\":false,\"fraud_score\":0.6}",
    "{\"approved\":false,\"fraud_score\":0.8}",
    "{\"approved\":false,\"fraud_score\":1.0}",
];

/// HTTP 200 OK headers up to the length of the body.
pub const HTTP_OK_PREFIX: &'static str = "HTTP/1.1 200 OK\r\nContent-Type: application/json\r\nContent-Length: ";

/// HTTP headers behind the length of the body.
pub const HTTP_OK_SUFFIX: &'static str = "\r\nConnection: keep-alive\r\n\r\n";

/// HTTP 200 OK for /ready.
pub const HTTP_READY: &'static str = "HTTP/1.1 200 OK\r\nContent-Length: 0\r\nConnection: keep-alive\r\n\r\n";

/// HTTP 404 Not Found.
pub const HTTP_NOT_FOUND: &'static str = "HTTP/1.1 404 Not Found\r\nContent-Length: 0\r\nConnection: keep-alive\r\n\r\n";

/// HTTP 400 Bad Request.
pub const HTTP_BAD_REQUEST: &'static str = "HTTP/1.1 400 Bad Request\r\nContent-Length: 0\r\nConnection: keep-alive\r\n\r\n";

/// Result of fraud detection.
#[derive(Debug, Clone, Copy, PartialEq, Eq, Structural)]
pub enum FraudResult {
    /// Number of frauds among the five nearest neighbours.
    Score(usize),
    Error,
}

/// The method and the path of a request, and where its body starts. A request
/// has none where it is incomplete or invalid: its first line does not end, has
/// no blank or is not UTF-8, or its head does not end behind the first line.
pub open spec fn request_head(d: Seq<u8>) -> Option<(Seq<u8>, Seq<u8>, int)> {
    match find(d, 0, LINE_END.spec_bytes()) {
        None => None,
        Some(i) => {
            let line = d.subrange(0, i);
            let a = run_end(line, 0, ByteClass::Not(SPACE));
            if a >= line.len() {
                None
            } else {
                let method = line.subrange(0, a);
                let path = line.subrange(a + 1, run_end(line, a + 1, ByteClass::Not(SPACE)));
                if valid_utf8(method) && valid_utf8(path) {
                    match find(d, i + 2, HEAD_END.spec_bytes()) {
                        Some(h) => Some((method, path, h + 4)),
                        None => None,
                    }
                } else {
                    None
                }
            }
        },
    }
}

/// Calls `std::str::from_utf8`. Claims that it hands the bytes back as text
/// exactly where they are valid UTF-8.
#[verifier::external_body]
fn text_of(bytes: &[u8]) -> (r: Option<&str>)
    ensures
        match r {
            Some(s) => valid_utf8(bytes@) && s.spec_bytes() == bytes@,
            None => !valid_utf8(bytes@),
        },
{
    std::str::from_utf8(bytes).ok()
}

/// Parse the head of an HTTP/1.1 request. Returns the method, the path and the
/// position where the body starts, or `None` if the request is incomplete or
/// invalid.
pub fn parse_http_request(buf: &[u8]) -> (r: Option<(&str, &str, usize)>)
    ensures
        match r {
            Some((method, path, start)) => request_head(buf@) == Some(
                (method.spec_bytes(), path.spec_bytes(), start as int),
            ) && start <= buf@.len(),
            None => request_head(buf@) is None,
        },
{
    proof {
        reveal_strlit("\r\n");
        reveal_strlit("\r\n\r\n");
        assert(is_ascii("\r\n"));
        assert(is_ascii("\r\n\r\n"));
    }
    let len: usize = buf.len();
    match find_word(buf, 0, LINE_END.as_bytes()) {
        None => None,
        Some(i) => {
            let line: &[u8] = slice_subrange(buf, 0, i);
            let a: usize = scan(line, 0, ByteClass::Not(SPACE));
            if a >= line.len() {
                return None;
            }
            let b: usize = scan(line, a + 1, ByteClass::Not(SPACE));
            match (text_of(slice_subrange(line, 0, a)), text_of(slice_subrange(line, a + 1, b))) {
                (Some(method), Some(path)) => match find_word(buf, i + 2, HEAD_END.as_bytes()) {
                    Some(h) => Some((method, path, h + 4)),
                    None => None,
                },
                _ => None,
            }
        },
    }
}

/// The length that the first length header announces, in machine arithmetic;
/// zero where there is none.
pub open spec fn content_length(d: Seq<u8>) -> int {
    match find(d, 0, LENGTH_HEADER.spec_bytes()) {
        Some(i) => (decimal(digits_at(d, i + 16)) % ((usize::MAX + 1) as nat)) as int,
        None => 0,
    }
}

/// Reads the digits from `from` up to `to` in machine arithmetic.
fn read_length(data: &[u8], from: usize, to: usize) -> (r: usize)
    requires
        from <= to <= data@.len(),
        forall|j: int| from <= j < to ==> ByteClass::Digit.has(#[trigger] data@[j]),
    ensures
        r == decimal(data@.subrange(from as int, to as int)) % ((usize::MAX + 1) as nat),
{
    let ghost m = (usize::MAX + 1) as nat;
    let mut value: usize = 0;
    let mut p: usize = from;
    proof {
        assert(data@.subrange(from as int, from as int).len() == 0);
        lemma_small_mod(0, m);
    }
    while p < to
        invariant
            from <= p <= to <= data@.len(),
            forall|j: int| from <= j < to ==> ByteClass::Digit.has(#[trigger] data@[j]),
            m == usize::MAX + 1,
            value == decimal(data@.subrange(from as int, p as int)) % m,
        decreases to - p,
    {
        let digit: usize = (data[p] - ZERO) as usize;
        let tens: usize = value.wrapping_mul(10);
        let next: usize = tens.wrapping_add(digit);
        proof {
            let s = data@.subrange(from as int, p + 1);
            assert(s.drop_last() =~= data@.subrange(from as int, p as int));
            assert(tens == (value * 10) % (m as int));
            assert(next == (tens + digit) % (m as int));
            lemma_next_digit(decimal(s.drop_last()), digit as nat, m);
        }
        value = next;
        p = p + 1;
    }
    value
}

/// Find the Content-Length header value.
pub fn get_content_length(buf: &[u8]) -> (r: usize)
    ensures
        r == content_length(buf@),
{
    proof {
        reveal_strlit("Content-Length: ");
        assert(is_ascii("Content-Length: "));
    }
    let len: usize = buf.len();
    match find_word(buf, 0, LENGTH_HEADER.as_bytes()) {
        None => 0,
        Some(i) => {
            let from: usize = i + 16;
            let to: usize = scan(buf, from, ByteClass::Digit);
            proof {
                lemma_run_end(buf@, from as int, ByteClass::Digit);
            }
            read_length(buf, from, to)
        },
    }
}

/// A number below one hundred in decimal digits.
pub open spec fn length_text(n: int) -> Seq<u8> {
    if n >= 10 {
        seq![(ZERO + n / 10) as u8, (ZERO + n % 10) as u8]
    } else {
        seq![(ZERO + n) as u8]
    }
}

/// The response for a number of frauds among five neighbours.
pub open spec fn fraud_response(n: int) -> Seq<u8> {
    let body = RESPONSE_BODIES@[n].spec_bytes();
    HTTP_OK_PREFIX.spec_bytes() + length_text(body.len() as int) + HTTP_OK_SUFFIX.spec_bytes()
        + body
}

/// The bodies have two lengths.
pub proof fn lemma_body_len(n: int)
    requires
        0 <= n <= 5,
    ensures
        RESPONSE_BODIES@[n].spec_bytes().len() == if n < 3 {
            35int
        } else {
            36int
        },
{
    reveal_strlit("{\"approved\":true,\"fraud_score\":0.0}");
    reveal_strlit("{\"approved\":true,\"fraud_score\":0.2}");
    reveal_strlit("{\"approved\":true,\"fraud_score\":0.4}");
    reveal_strlit("{\"approved\":false,\"fraud_score\":0.6}");
    reveal_strlit("{\"approved\":false,\"fraud_score\":0.8}");
    reveal_strlit("{\"approved\":false,\"fraud_score\":1.0}");
    assert(is_ascii(RESPONSE_BODIES@[n]));
}

/// Write a fraud score response.
pub fn write_fraud_response(out: &mut Vec<u8>, fraud_count: usize)
    requires
        fraud_count <= 5,
    ensures
        final(out)@ == old(out)@ + fraud_response(fraud_count as int),
{
    let body: &'static str = RESPONSE_BODIES[fraud_count];
    push_str(out, HTTP_OK_PREFIX);
    let cl: usize = body.as_bytes().len();
    proof {
        lemma_body_len(fraud_count as int);
    }
    if cl >= 10 {
        out.push(ZERO + (cl / 10) as u8);
        out.push(ZERO + (cl % 10) as u8);
    } else {
        out.push(ZERO + cl as u8);
    }
    push_str(out, HTTP_OK_SUFFIX);
    push_str(out, body);
    assert(out@ =~= old(out)@ + fraud_response(fraud_count as int));
}

/// Whether the head of a response ends, and announces the length of what
/// follows.
pub open spec fn announces_body(d: Seq<u8>) -> bool {
    match find(d, 0, HEAD_END.spec_bytes()) {
        Some(h) => content_length(d) == d.len() - h - 4,
        None => false,
    }
}

/// Where the length header stands first, the digits behind it are read.
pub proof fn lemma_announced(d: Seq<u8>, i: int, n: int)
    requires
        0 <= i,
        i + 16 + length_text(n).len() < d.len(),
        stands_at(d, i, LENGTH_HEADER.spec_bytes()),
        forall|j: int| 0 <= j < i ==> !#[trigger] stands_at(d, j, LENGTH_HEADER.spec_bytes()),
        0 <= n < 100,
        d.subrange(i + 16, i + 16 + length_text(n).len()) == length_text(n),
        !ByteClass::Digit.has(d[i + 16 + length_text(n).len()]),
    ensures
        content_length(d) == n,
{
    lemma_found(d, 0, LENGTH_HEADER.spec_bytes(), i);
    let p = i + 16;
    let t = length_text(n);
    assert(d.subrange(p, p + t.len())[0] == d[p]);
    if n >= 10 {
        assert(d.subrange(p, p + t.len())[1] == d[p + 1]);
    }
    reveal_with_fuel(run_end, 4);
    let s = digits_at(d, p);
    assert(s =~= t);
    if n >= 10 {
        assert(s.drop_last() =~= seq![t[0]]);
        assert(s.drop_last().drop_last() =~= Seq::<u8>::empty());
    } else {
        assert(s.drop_last() =~= Seq::<u8>::empty());
    }
    reveal_with_fuel(decimal, 4);
    assert(decimal(s) == n);
    lemma_small_mod(n as nat, (usize::MAX + 1) as nat);
}

/// The head ends with the first empty line.
pub proof fn lemma_head_ends(d: Seq<u8>, h: int)
    requires
        stands_at(d, h, HEAD_END.spec_bytes()),
        forall|j: int|
            0 <= j < h && #[trigger] d[j] == CARRIAGE_RETURN ==> d[j + 2] != CARRIAGE_RETURN,
    ensures
        find(d, 0, HEAD_END.spec_bytes()) == Some(h),
{
    reveal_strlit("\r\n\r\n");
    assert(is_ascii("\r\n\r\n"));
    let word = HEAD_END.spec_bytes();
    assert forall|j: int| 0 <= j < h implies !#[trigger] stands_at(d, j, word) by {
        if stands_at(d, j, word) {
            let w = d.subrange(j, j + 4);
            assert(w[0] == d[j] && w[2] == d[j + 2]);
        }
    }
    lemma_found(d, 0, word, h);
}

/// What is known of the shared headers.
proof fn lemma_ok_prefix()
    ensures
        LENGTH_HEADER.spec_bytes().len() == 16,
        LENGTH_HEADER.spec_bytes()[0] == 'C' as u8,
        LENGTH_HEADER.spec_bytes()[8] == 'L' as u8,
        HTTP_OK_PREFIX.spec_bytes().len() == 65,
        HTTP_OK_PREFIX.spec_bytes().subrange(49, 65) == LENGTH_HEADER.spec_bytes(),
        forall|j: int|
            0 <= j < 49 && j != 17 ==> #[trigger] HTTP_OK_PREFIX.spec_bytes()[j] != 'C' as u8,
        HTTP_OK_PREFIX.spec_bytes()[25] == 'T' as u8,
        forall|j: int|
            0 <= j < 65 && j != 15 && j != 47 ==> #[trigger] HTTP_OK_PREFIX.spec_bytes()[j]
                != CARRIAGE_RETURN,
        HTTP_OK_PREFIX.spec_bytes()[17] != CARRIAGE_RETURN,
        HTTP_OK_PREFIX.spec_bytes()[49] != CARRIAGE_RETURN,
{
    reveal_strlit(
        "HTTP/1.1 200 OK\r\nContent-Type: application/json\r\nContent-Length: ",
    );
    reveal_strlit("Content-Length: ");
    assert(is_ascii(HTTP_OK_PREFIX));
    assert(is_ascii(LENGTH_HEADER));
    assert(HTTP_OK_PREFIX.spec_bytes().subrange(49, 65) =~= LENGTH_HEADER.spec_bytes());
}

/// What is known of the headers behind the length.
proof fn lemma_ok_suffix()
    ensures
        HTTP_OK_SUFFIX.spec_bytes().len() == 28,
        HTTP_OK_SUFFIX.spec_bytes()[0] == CARRIAGE_RETURN,
        HTTP_OK_SUFFIX.spec_bytes()[2] != CARRIAGE_RETURN,
        forall|j: int|
            0 < j < 24 ==> #[trigger] HTTP_OK_SUFFIX.spec_bytes()[j] != CARRIAGE_RETURN,
        HTTP_OK_SUFFIX.spec_bytes().subrange(24, 28) == HEAD_END.spec_bytes(),
        HEAD_END.spec_bytes().len() == 4,
{
    reveal_strlit("\r\nConnection: keep-alive\r\n\r\n");
    reveal_strlit("\r\n\r\n");
    assert(is_ascii(HTTP_OK_SUFFIX));
    assert(is_ascii(HEAD_END));
    assert(HTTP_OK_SUFFIX.spec_bytes().subrange(24, 28) =~= HEAD_END.spec_bytes());
}

/// A fraud score response announces the length of its body.
pub proof fn law_fraud_response_length(n: int)
    requires
        0 <= n <= 5,
    ensures
        announces_body(fraud_response(n)),
        content_length(fraud_response(n)) == RESPONSE_BODIES@[n].spec_bytes().len(),
{
    lemma_body_len(n);
    lemma_ok_prefix();
    lemma_ok_suffix();
    let p = HTTP_OK_PREFIX.spec_bytes();
    let t = length_text(RESPONSE_BODIES@[n].spec_bytes().len() as int);
    let s = HTTP_OK_SUFFIX.spec_bytes();
    let b = RESPONSE_BODIES@[n].spec_bytes();
    let d = fraud_response(n);
    let word = LENGTH_HEADER.spec_bytes();
    assert(d == p + t + s + b);
    assert(t.len() == 2);
    assert(d.subrange(49, 65) =~= p.subrange(49, 65));
    assert(d.subrange(65, 67) =~= t);
    assert(d[67] == s[0]);
    assert forall|j: int| 0 <= j < 49 implies !#[trigger] stands_at(d, j, word) by {
        let w = d.subrange(j, j + 16);
        assert(w[0] == p[j]);
        if j == 17 {
            assert(w[8] == p[25]);
        }
    }
    lemma_announced(d, 49, b.len() as int);
    assert(d.subrange(91, 95) =~= s.subrange(24, 28));
    assert forall|j: int| 0 <= j < 91 && #[trigger] d[j] == CARRIAGE_RETURN implies d[j + 2]
        != CARRIAGE_RETURN by {
        if j < 65 {
            assert(d[j] == p[j]);
            assert(d[17] == p[17] && d[49] == p[49]);
        } else if j < 67 {
            assert(d[j] == t[j - 65]);
        } else {
            assert(d[j] == s[j - 67]);
            assert(d[69] == s[2]);
        }
    }
    lemma_head_ends(d, 91);
}

/// A transaction is approved where fewer than three of five neighbours are
/// frauds, and its score is their share, in fifths.
pub proof fn law_approved_below_three(n: int)
    requires
        0 <= n <= 5,
    ensures
        stands_at(RESPONSE_BODIES@[n].spec_bytes(), 0, "{\"approved\":true,".spec_bytes())
            <==> n < 3,
        stands_at(RESPONSE_BODIES@[n].spec_bytes(), 0, "{\"approved\":false,".spec_bytes())
            <==> n >= 3,
        ({
            let body = RESPONSE_BODIES@[n].spec_bytes();
            let end = body.len() as int;
            &&& stands_at(body, end - 18, "\"fraud_score\":".spec_bytes())
            &&& body.subrange(end - 4, end) == seq![
                (ZERO + 2 * n / 10) as u8,
                DOT,
                (ZERO + 2 * n % 10) as u8,
                CLOSE_BRACE,
            ]
        }),
{
    reveal_strlit("{\"approved\":true,\"fraud_score\":0.0}");
    reveal_strlit("{\"approved\":true,\"fraud_score\":0.2}");
    reveal_strlit("{\"approved\":true,\"fraud_score\":0.4}");
    reveal_strlit("{\"approved\":false,\"fraud_score\":0.6}");
    reveal_strlit("{\"approved\":false,\"fraud_score\":0.8}");
    reveal_strlit("{\"approved\":false,\"fraud_score\":1.0}");
    reveal_strlit("{\"approved\":true,");
    reveal_strlit("{\"approved\":false,");
    reveal_strlit("\"fraud_score\":");
    assert(is_ascii(RESPONSE_BODIES@[n]));
    assert(is_ascii("{\"approved\":true,"));
    assert(is_ascii("{\"approved\":false,"));
    assert(is_ascii("\"fraud_score\":"));
    let body = RESPONSE_BODIES@[n].spec_bytes();
    let end = body.len() as int;
    let yes = "{\"approved\":true,".spec_bytes();
    let no = "{\"approved\":false,".spec_bytes();
    if n < 3 {
        assert(body.subrange(0, yes.len() as int) =~= yes);
        assert(body.subrange(0, no.len() as int)[12] == body[12]);
    } else {
        assert(body.subrange(0, no.len() as int) =~= no);
        assert(body.subrange(0, yes.len() as int)[12] == body[12]);
    }
    assert(body.subrange(end - 18, end - 18 + 14) =~= "\"fraud_score\":".spec_bytes());
}

} // verus!
