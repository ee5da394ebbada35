//! How requests are told apart and where their bodies end.

use crate::http::{content_length, request_head, HEAD_END, LENGTH_HEADER, LINE_END};
use crate::scan::{decimal, find, lemma_find, lemma_found, run_end, stands_at, ByteClass,
    SPACE};
use crate::server::{framing, Framing};
use crate::text_laws::{all_digits, lemma_digits_run};
use vstd::arithmetic::div_mod::lemma_small_mod;
use vstd::prelude::*;
use vstd::string::*;
use vstd::utf8::valid_utf8;

verus! {

/// The first line of a request.
pub open spec fn request_line(method: Seq<u8>, path: Seq<u8>, rest: Seq<u8>) -> Seq<u8> {
    method + seq![32u8] + path + seq![32u8] + rest
}

/// The head of a request: its first line, its headers and an empty line.
pub open spec fn head_text(line: Seq<u8>, headers: Seq<u8>) -> Seq<u8> {
    line + seq![13u8, 10] + headers + seq![13u8, 10, 13, 10]
}

/// Whether a sequence holds no byte `b`.
pub open spec fn without(s: Seq<u8>, b: u8) -> bool {
    forall|i: int| 0 <= i < s.len() ==> #[trigger] s[i] != b
}

/// Whether headers hold no empty line, nor end a line themselves.
pub open spec fn are_headers(h: Seq<u8>) -> bool {
    forall|i: int|
        0 <= i < h.len() && #[trigger] h[i] == 13 ==> i + 2 < h.len() && h[i + 2] != 13
}

/// Whether a first line has a method and a path, each without blanks, and no
/// line ends in it.
pub open spec fn is_line(method: Seq<u8>, path: Seq<u8>, rest: Seq<u8>) -> bool {
    &&& without(method, 32)
    &&& without(path, 32)
    &&& without(request_line(method, path, rest), 13)
    &&& valid_utf8(method)
    &&& valid_utf8(path)
}

proof fn lemma_ends()
    ensures
        LINE_END.spec_bytes() == seq![13u8, 10],
        HEAD_END.spec_bytes() == seq![13u8, 10, 13, 10],
{
    reveal_strlit("\r\n");
    reveal_strlit("\r\n\r\n");
    assert(is_ascii("\r\n"));
    assert(is_ascii("\r\n\r\n"));
    assert(LINE_END.spec_bytes() =~= seq![13u8, 10]);
    assert(HEAD_END.spec_bytes() =~= seq![13u8, 10, 13, 10]);
}

proof fn lemma_word_run(d: Seq<u8>, p: int, e: int)
    requires
        0 <= p <= e < d.len(),
        d[e] == SPACE,
        forall|i: int| p <= i < e ==> #[trigger] d[i] != SPACE,
    ensures
        run_end(d, p, ByteClass::Not(SPACE)) == e,
    decreases e - p,
{
    if p < e {
        assert(d[p] != SPACE);
        lemma_word_run(d, p + 1, e);
    }
}

proof fn lemma_line_found(d: Seq<u8>, line: Seq<u8>, more: Seq<u8>)
    requires
        d == line + seq![13u8, 10] + more,
        without(line, 13),
    ensures
        find(d, 0, seq![13u8, 10]) == Some(line.len() as int),
        d.subrange(0, line.len() as int) == line,
{
    let word = seq![13u8, 10];
    let i = line.len() as int;
    assert(d.subrange(i, i + 2) =~= word);
    assert forall|j: int| 0 <= j < i implies !#[trigger] stands_at(d, j, word) by {
        if stands_at(d, j, word) {
            assert(d.subrange(j, j + 2)[0] == d[j]);
            assert(d[j] == line[j]);
        }
    }
    lemma_found(d, 0, word, i);
    assert(d.subrange(0, i) =~= line);
}

proof fn lemma_words(method: Seq<u8>, path: Seq<u8>, rest: Seq<u8>)
    requires
        without(method, 32),
        without(path, 32),
    ensures
        ({
            let line = request_line(method, path, rest);
            let a = run_end(line, 0, ByteClass::Not(SPACE));
            &&& a == method.len()
            &&& a < line.len()
            &&& line.subrange(0, a) == method
            &&& line.subrange(a + 1, run_end(line, a + 1, ByteClass::Not(SPACE))) == path
        }),
{
    let line = request_line(method, path, rest);
    let a = method.len() as int;
    let b = a + 1 + path.len();
    assert(line[a] == 32);
    assert forall|i: int| 0 <= i < a implies #[trigger] line[i] != SPACE by {
        assert(line[i] == method[i]);
    }
    lemma_word_run(line, 0, a);
    assert(line[b] == 32);
    assert forall|i: int| a + 1 <= i < b implies #[trigger] line[i] != SPACE by {
        assert(line[i] == path[i - a - 1]);
    }
    lemma_word_run(line, a + 1, b);
    assert(line.subrange(0, a) =~= method);
    assert(line.subrange(a + 1, b) =~= path);
}

proof fn lemma_head_found(d: Seq<u8>, line: Seq<u8>, headers: Seq<u8>, body: Seq<u8>)
    requires
        d == head_text(line, headers) + body,
        are_headers(headers),
    ensures
        find(d, line.len() as int + 2, seq![13u8, 10, 13, 10]) == Some(
            line.len() as int + 2 + headers.len(),
        ),
{
    let word = seq![13u8, 10, 13, 10];
    let from = line.len() as int + 2;
    let h = from + headers.len();
    assert(d.subrange(h, h + 4) =~= word);
    assert forall|j: int| from <= j < h implies !#[trigger] stands_at(d, j, word) by {
        if stands_at(d, j, word) {
            let w = d.subrange(j, j + 4);
            assert(w[0] == d[j] && w[2] == d[j + 2]);
            assert(d[j] == headers[j - from]);
            assert(d[j + 2] == headers[j - from + 2]);
        }
    }
    lemma_found(d, from, word, h);
}

/// The head of a request tells its method and its path, the two first words of
/// its first line; its body starts behind the first empty line.
pub proof fn law_head_is_read(
    method: Seq<u8>,
    path: Seq<u8>,
    rest: Seq<u8>,
    headers: Seq<u8>,
    body: Seq<u8>,
)
    requires
        is_line(method, path, rest),
        are_headers(headers),
    ensures
        ({
            let head = head_text(request_line(method, path, rest), headers);
            request_head(head + body) == Some((method, path, head.len() as int))
        }),
{
    let line = request_line(method, path, rest);
    let head = head_text(line, headers);
    let d = head + body;
    lemma_ends();
    assert(d =~= line + seq![13u8, 10] + (headers + seq![13u8, 10, 13, 10] + body));
    lemma_line_found(d, line, headers + seq![13u8, 10, 13, 10] + body);
    lemma_words(method, path, rest);
    lemma_head_found(d, line, headers, body);
}

/// The path may be the last word of the first line, and may be empty.
pub proof fn law_short_line_is_read(
    method: Seq<u8>,
    path: Seq<u8>,
    headers: Seq<u8>,
    body: Seq<u8>,
)
    requires
        without(method, 32),
        without(path, 32),
        without(method, 13),
        without(path, 13),
        valid_utf8(method),
        valid_utf8(path),
        are_headers(headers),
    ensures
        ({
            let head = head_text(method + seq![32u8] + path, headers);
            request_head(head + body) == Some((method, path, head.len() as int))
        }),
{
    let line = method + seq![32u8] + path;
    let a = method.len() as int;
    let d = head_text(line, headers) + body;
    lemma_ends();
    assert(d =~= line + seq![13u8, 10] + (headers + seq![13u8, 10, 13, 10] + body));
    lemma_line_found(d, line, headers + seq![13u8, 10, 13, 10] + body);
    assert(line[a] == 32);
    assert forall|i: int| 0 <= i < a implies #[trigger] line[i] != SPACE by {
        assert(line[i] == method[i]);
    }
    lemma_word_run(line, 0, a);
    assert forall|i: int| a + 1 <= i < line.len() implies #[trigger] line[i] != SPACE by {
        assert(line[i] == path[i - a - 1]);
    }
    lemma_no_blank_run(line, a + 1);
    assert(line.subrange(0, a) =~= method);
    assert(line.subrange(a + 1, line.len() as int) =~= path);
    lemma_head_found(d, line, headers, body);
}

/// Where no empty line has been read, a request is not complete.
pub proof fn law_no_empty_line_no_request(d: Seq<u8>)
    requires
        forall|i: int| !#[trigger] stands_at(d, i, "\r\n\r\n".spec_bytes()),
    ensures
        framing(d) is Incomplete,
{
    lemma_ends();
    if let Some(i) = find(d, 0, LINE_END.spec_bytes()) {
        lemma_find(d, 0, LINE_END.spec_bytes());
        lemma_find(d, i + 2, HEAD_END.spec_bytes());
    }
}

/// The length of a body is the number behind the first length header; without
/// one there is no body.
pub proof fn law_length_is_read(before: Seq<u8>, digits: Seq<u8>, after: Seq<u8>)
    requires
        all_digits(digits),
        after.len() > 0 ==> !(48 <= after[0] <= 57),
        decimal(digits) <= usize::MAX,
    ensures
        ({
            let name = "Content-Length: ".spec_bytes();
            let d = before + name + digits + after;
            (forall|j: int| 0 <= j < before.len() ==> !#[trigger] stands_at(d, j, name))
                ==> content_length(d) == decimal(digits)
        }),
        (forall|j: int| !#[trigger] stands_at(before, j, "Content-Length: ".spec_bytes()))
            ==> content_length(before) == 0,
{
    reveal_strlit("Content-Length: ");
    assert(is_ascii("Content-Length: "));
    let name = "Content-Length: ".spec_bytes();
    let d = before + name + digits + after;
    let k = before.len() as int;
    assert(LENGTH_HEADER.spec_bytes() == name);
    if forall|j: int| 0 <= j < before.len() ==> !#[trigger] stands_at(d, j, name) {
        assert(d.subrange(k, k + 16) =~= name);
        lemma_found(d, 0, name, k);
        let p = k + 16;
        let e = p + digits.len();
        assert forall|i: int| p <= i < e implies 48 <= #[trigger] d[i] <= 57 by {
            assert(d[i] == digits[i - p]);
        }
        if e < d.len() {
            assert(d[e] == after[0]);
        }
        lemma_digits_run(d, p, e);
        assert(d.subrange(p, e) =~= digits);
        lemma_small_mod(decimal(digits), (usize::MAX + 1) as nat);
    }
    if forall|j: int| !#[trigger] stands_at(before, j, name) {
        lemma_find(before, 0, name);
    }
}

/// A request is complete as soon as as many bytes have been read behind its head
/// as the head announces, and asks for readiness, for a score, or for nothing
/// that is known, by its method and path.
pub proof fn law_request_is_framed(
    method: Seq<u8>,
    path: Seq<u8>,
    rest: Seq<u8>,
    headers: Seq<u8>,
    body: Seq<u8>,
)
    requires
        is_line(method, path, rest),
        are_headers(headers),
    ensures
        ({
            let head = head_text(request_line(method, path, rest), headers);
            let n = content_length(head);
            let asks_ready = method == "GET".spec_bytes() && path == "/ready".spec_bytes();
            let asks_score = method == "POST".spec_bytes() && path == "/fraud-score".spec_bytes();
            match framing(head + body) {
                Framing::Incomplete => body.len() < n && head.len() + n <= usize::MAX,
                Framing::Overflow => head.len() + n > usize::MAX,
                Framing::Complete { route, body_start, total } => {
                    &&& n <= body.len()
                    &&& body_start == head.len()
                    &&& total == head.len() + n
                    &&& route is Ready <==> asks_ready
                    &&& route is FraudScore <==> asks_score
                },
            }
        }),
{
    law_head_is_read(method, path, rest, headers, body);
    let head = head_text(request_line(method, path, rest), headers);
    assert((head + body).subrange(0, head.len() as int) =~= head);
    reveal_strlit("GET");
    reveal_strlit("POST");
    assert(is_ascii("GET"));
    assert(is_ascii("POST"));
}

proof fn lemma_no_blank_run(d: Seq<u8>, p: int)
    requires
        0 <= p <= d.len(),
        forall|i: int| p <= i < d.len() ==> #[trigger] d[i] != SPACE,
    ensures
        run_end(d, p, ByteClass::Not(SPACE)) == d.len(),
    decreases d.len() - p,
{
    if p < d.len() {
        assert(d[p] != SPACE);
        lemma_no_blank_run(d, p + 1);
    }
}

/// A first line without a blank, or whose first words are not text, makes no
/// request.
pub proof fn law_bad_line_is_no_request(line: Seq<u8>, more: Seq<u8>)
    requires
        without(line, 13),
    ensures
        without(line, 32) ==> framing(line + seq![13u8, 10] + more) is Incomplete,
        forall|method: Seq<u8>, path: Seq<u8>, rest: Seq<u8>|
            line == #[trigger] request_line(method, path, rest) && without(method, 32) && without(
                path,
                32,
            ) && (!valid_utf8(method) || !valid_utf8(path)) ==> framing(
                line + seq![13u8, 10] + more,
            ) is Incomplete,
{
    let d = line + seq![13u8, 10] + more;
    lemma_ends();
    lemma_line_found(d, line, more);
    if without(line, 32) {
        lemma_no_blank_run(line, 0);
    }
    assert forall|method: Seq<u8>, path: Seq<u8>, rest: Seq<u8>|
        line == #[trigger] request_line(method, path, rest) && without(method, 32) && without(
            path,
            32,
        ) && (!valid_utf8(method) || !valid_utf8(path)) implies framing(d) is Incomplete by {
        lemma_words(method, path, rest);
    }
}

} // verus!
