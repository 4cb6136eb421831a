//! What holds of requests.

use vstd::prelude::*;
use vstd::string::StringSliceAdditionalSpecFns;

use crate::bytes;
use crate::http::parser;
use crate::http::parser::Front;
use crate::http::parser::Method;
use crate::http::parser::RequestView;
use crate::http::responses;
use crate::text;

verus! {

/// The byte is the one given, or, where that is a small letter, the capital of it.
pub open spec fn same_letter(b: u8, small: u8) -> bool {
    b == small || (97 <= small <= 122 && b == small - 32)
}

/// The text stands at `at`, in capitals or small letters.
pub open spec fn spells(s: Seq<u8>, text: Seq<u8>, at: int) -> bool {
    &&& 0 <= at
    &&& at + text.len() <= s.len()
    &&& forall|k: int| 0 <= k < text.len() ==> same_letter(s[at + k], #[trigger] text[k])
}

/// There are no capitals.
spec fn is_small(text: Seq<u8>) -> bool {
    forall|k: int| 0 <= k < text.len() ==> !(65 <= (#[trigger] text[k]) <= 90)
}

proof fn lemma_spells(s: Seq<u8>, text: Seq<u8>, at: int)
    requires
        is_small(text),
    ensures
        spells(s, text, at) <==> bytes::occurs_at(bytes::lowered(s), text, at),
{
    let low = bytes::lowered(s);
    if 0 <= at && at + text.len() <= s.len() {
        let part = low.subrange(at, at + text.len());
        assert forall|k: int| 0 <= k < text.len() implies (same_letter(s[at + k], #[trigger] text[k])
            <==> part[k] == text[k]) by {
            assert(part[k] == bytes::lower(s[at + k]));
        }
        if part == text {
            assert forall|k: int| 0 <= k < text.len() implies same_letter(
                s[at + k],
                #[trigger] text[k],
            ) by {
                assert(part[k] == text[k]);
            }
        }
        if spells(s, text, at) {
            assert(part =~= text);
        }
    }
}

/// The name of the header that announces the length of the body, in small letters.
pub open spec fn length_name() -> Seq<u8> {
    "content-length:".spec_bytes()
}

/// The name as it is usually written.
pub open spec fn usual_length_name() -> Seq<u8> {
    "Content-Length:".spec_bytes()
}

proof fn lemma_names()
    ensures
        length_name().len() == 15,
        usual_length_name().len() == 15,
        is_small(length_name()),
        is_small("connection: close".spec_bytes()),
        "connection: close".spec_bytes().len() == 17,
        forall|s: Seq<u8>, at: int| #[trigger]
            bytes::occurs_at(s, usual_length_name(), at) ==> spells(s, length_name(), at),
{
    reveal_strlit("Content-Length:");
    reveal_strlit("content-length:");
    reveal_strlit("connection: close");
    assert(vstd::string::is_ascii("Content-Length:"));
    assert(vstd::string::is_ascii("content-length:"));
    assert(vstd::string::is_ascii("connection: close"));
    assert forall|s: Seq<u8>, at: int| #[trigger]
        bytes::occurs_at(s, usual_length_name(), at) implies spells(s, length_name(), at) by {
        assert forall|k: int| 0 <= k < 15 implies same_letter(
            s[at + k],
            #[trigger] length_name()[k],
        ) by {
            assert(s.subrange(at, at + 15)[k] == s[at + k]);
            assert(usual_length_name()[k] == s[at + k]);
        }
    }
}

/// The header with the length stands at `at`: the first one with the usual spelling, or, where none
/// has it, the first one with any.
pub open spec fn length_header_at(headers: Seq<u8>, at: int) -> bool {
    ||| {
        &&& bytes::occurs_at(headers, usual_length_name(), at)
        &&& forall|j: int| 0 <= j < at ==> !bytes::occurs_at(headers, usual_length_name(), j)
    }
    ||| {
        &&& spells(headers, length_name(), at)
        &&& forall|j: int| 0 <= j < at ==> !spells(headers, length_name(), j)
        &&& forall|j: int| 0 <= j ==> !bytes::occurs_at(headers, usual_length_name(), j)
    }
}

/// Blanks stand from `from` to `to`.
pub open spec fn blanks_between(s: Seq<u8>, from: int, to: int) -> bool {
    forall|k: int| from <= k < to ==> (#[trigger] s[k] == 32 || s[k] == 9)
}

/// A word stands from `from` to `to`: no blank and no end of a line is in it, and one follows it, or
/// nothing.
pub open spec fn word_between(s: Seq<u8>, from: int, to: int) -> bool {
    &&& forall|k: int| from <= k < to ==> #[trigger] s[k] != 32 && s[k] != 9 && s[k] != 13
    &&& to == s.len() || s[to] == 32 || s[to] == 9 || s[to] == 13
}

proof fn lemma_blanks_end(s: Seq<u8>, i: int, to: int)
    requires
        0 <= i <= to <= s.len(),
        blanks_between(s, i, to),
        to == s.len() || !(s[to] == 32 || s[to] == 9),
    ensures
        parser::blanks_end(s, i) == to,
    decreases to - i,
{
    if i < to {
        lemma_blanks_end(s, i + 1, to);
    }
}

proof fn lemma_word_end(s: Seq<u8>, i: int, to: int)
    requires
        0 <= i <= to <= s.len(),
        word_between(s, i, to),
    ensures
        parser::word_end(s, i) == to,
    decreases to - i,
{
    if i < to {
        lemma_word_end(s, i + 1, to);
    }
}

proof fn lemma_length_read_at(headers: Seq<u8>, at: int)
    requires
        length_header_at(headers, at),
    ensures
        parser::content_length(headers) == parser::length_value(headers.skip(at + 15)),
        0 <= at,
        at + 15 <= headers.len(),
{
    lemma_names();
    let usual = usual_length_name();
    let small = bytes::lowered(headers);
    bytes::lemma_first_occurrence(headers, usual, 0);
    if bytes::occurs_at(headers, usual, at) {
        bytes::lemma_first_occurrence_is(headers, usual, at);
    } else {
        lemma_spells(headers, length_name(), at);
        assert forall|j: int| 0 <= j < at implies !bytes::occurs_at(small, length_name(), j) by {
            lemma_spells(headers, length_name(), j);
        }
        bytes::lemma_first_occurrence_is(small, length_name(), at);
    }
}

/// Headers announce a body of as many bytes as the digits say that stand behind the name of the header
/// and blanks, up to the largest machine word, however the name is spelled; no bytes where what stands
/// there is no number, and none where the header is missing.
pub proof fn law_headers_announce_a_length(headers: Seq<u8>, at: int, from: int, to: int)
    requires
        length_header_at(headers, at),
        at + 15 <= from <= to <= headers.len(),
        blanks_between(headers, at + 15, from),
        word_between(headers, from, to),
    ensures
        from < to && (forall|k: int| from <= k < to ==> 48 <= (#[trigger] headers[k]) <= 57)
            ==> parser::content_length(headers) == (if bytes::digits_value(
            headers.subrange(from, to),
        ) > usize::MAX {
            usize::MAX as int
        } else {
            bytes::digits_value(headers.subrange(from, to)) as int
        }),
        (exists|k: int| from <= k < to && !(48 <= (#[trigger] headers[k]) <= 57))
            ==> parser::content_length(headers) == 0,
{
    lemma_length_read_at(headers, at);
    let rest = headers.skip(at + 15);
    let (start, end) = (from - at - 15, to - at - 15);
    assert forall|k: int| 0 <= k < start implies (#[trigger] rest[k] == 32 || rest[k] == 9) by {
        assert(rest[k] == headers[at + 15 + k]);
    }
    assert forall|k: int| start <= k < end implies #[trigger] rest[k] != 32 && rest[k] != 9
        && rest[k] != 13 by {
        assert(rest[k] == headers[at + 15 + k]);
    }
    if to < headers.len() {
        assert(rest[end] == headers[to]);
    }
    if from < to {
        assert(rest[start] == headers[from]);
        lemma_blanks_end(rest, 0, start);
        lemma_word_end(rest, start, end);
        let word = rest.subrange(start, end);
        assert(word =~= headers.subrange(from, to));
        if forall|k: int| from <= k < to ==> 48 <= (#[trigger] headers[k]) <= 57 {
            assert forall|i: int| 0 <= i < word.len() implies bytes::is_digit(#[trigger] word[i]) by {
                assert(word[i] == headers[from + i]);
            }
        } else {
            let k = choose|k: int| from <= k < to && !(48 <= (#[trigger] headers[k]) <= 57);
            assert(word[k - from] == headers[k]);
            assert(!bytes::is_digit(word[k - from]));
        }
    }
}

/// Headers without the header announce no body.
pub proof fn law_no_header_no_body(headers: Seq<u8>)
    requires
        forall|j: int| 0 <= j ==> !spells(headers, length_name(), j),
    ensures
        parser::content_length(headers) == 0,
{
    lemma_names();
    let small = bytes::lowered(headers);
    bytes::lemma_first_occurrence(headers, usual_length_name(), 0);
    bytes::lemma_first_occurrence(small, length_name(), 0);
    if let Some(j) = bytes::first_occurrence(small, length_name(), 0) {
        lemma_spells(headers, length_name(), j);
    }
    if let Some(j) = bytes::first_occurrence(headers, usual_length_name(), 0) {
        assert(spells(headers, length_name(), j));
    }
}

/// Two bytes are the same but for the case of a letter.
pub open spec fn same_but_case(a: u8, b: u8) -> bool {
    a == b || (65 <= a <= 90 && b == a + 32) || (65 <= b <= 90 && a == b + 32)
}

/// Two texts are the same but for the case of letters.
pub open spec fn same_text_but_case(a: Seq<u8>, b: Seq<u8>) -> bool {
    a.len() == b.len() && forall|k: int| 0 <= k < a.len() ==> same_but_case(#[trigger] a[k], b[k])
}

proof fn lemma_case_of_blanks(a: Seq<u8>, b: Seq<u8>, i: int)
    requires
        same_text_but_case(a, b),
        0 <= i <= a.len(),
    ensures
        parser::blanks_end(a, i) == parser::blanks_end(b, i),
        i <= parser::blanks_end(a, i) <= a.len(),
        parser::word_end(a, i) == parser::word_end(b, i),
        i <= parser::word_end(a, i) <= a.len(),
    decreases a.len() - i,
{
    if i < a.len() {
        assert(same_but_case(a[i], b[i]));
        lemma_case_of_blanks(a, b, i + 1);
    }
}

proof fn lemma_case_of_lengths(a: Seq<u8>, b: Seq<u8>)
    requires
        same_text_but_case(a, b),
    ensures
        parser::length_value(a) == parser::length_value(b),
{
    lemma_case_of_blanks(a, b, 0);
    let start = parser::blanks_end(a, 0);
    lemma_case_of_blanks(a, b, start);
    let end = parser::word_end(a, start);
    let (x, y) = (a.subrange(start, end), b.subrange(start, end));
    assert forall|i: int| 0 <= i < x.len() implies (bytes::is_digit(#[trigger] x[i])
        <==> bytes::is_digit(y[i])) && (bytes::is_digit(x[i]) ==> x[i] == y[i]) by {
        assert(same_but_case(a[start + i], b[start + i]));
    }
    if bytes::all_digits(x) {
        assert(x =~= y);
    } else {
        let i = choose|i: int| 0 <= i < x.len() && !bytes::is_digit(#[trigger] x[i]);
        assert(!bytes::is_digit(y[i]));
    }
}

/// The case of letters does not change the length that headers announce, where they announce one once.
pub proof fn law_case_does_not_change_the_length(a: Seq<u8>, b: Seq<u8>)
    requires
        same_text_but_case(a, b),
        forall|i: int, j: int|
            spells(a, length_name(), i) && spells(a, length_name(), j) ==> i == j,
    ensures
        parser::content_length(a) == parser::content_length(b),
{
    lemma_names();
    assert forall|j: int| spells(a, length_name(), j) <==> spells(b, length_name(), j) by {
        if 0 <= j && j + 15 <= a.len() {
            assert forall|k: int| 0 <= k < 15 implies (same_letter(a[j + k], #[trigger] length_name()[k])
                <==> same_letter(b[j + k], length_name()[k])) by {
                assert(same_but_case(a[j + k], b[j + k]));
                assert(!(65 <= length_name()[k] <= 90));
            }
            if spells(a, length_name(), j) {
                assert forall|k: int| 0 <= k < 15 implies same_letter(
                    b[j + k],
                    #[trigger] length_name()[k],
                ) by {
                    assert(same_letter(a[j + k], length_name()[k]));
                }
            }
            if spells(b, length_name(), j) {
                assert forall|k: int| 0 <= k < 15 implies same_letter(
                    a[j + k],
                    #[trigger] length_name()[k],
                ) by {
                    assert(same_letter(b[j + k], length_name()[k]));
                }
            }
        }
    }
    if exists|at: int| spells(a, length_name(), at) {
        let at = choose|at: int| spells(a, length_name(), at);
        assert(length_header_at(a, at)) by {
            assert forall|j: int| bytes::occurs_at(a, usual_length_name(), j) implies j == at by {
                assert(spells(a, length_name(), j));
            }
        }
        assert(length_header_at(b, at)) by {
            assert(spells(b, length_name(), at));
            assert forall|j: int| bytes::occurs_at(b, usual_length_name(), j) implies j == at by {
                assert(spells(b, length_name(), j));
                assert(spells(a, length_name(), j));
            }
        }
        lemma_length_read_at(a, at);
        lemma_length_read_at(b, at);
        let (x, y) = (a.skip(at + 15), b.skip(at + 15));
        assert forall|k: int| 0 <= k < x.len() implies same_but_case(#[trigger] x[k], y[k]) by {
            assert(same_but_case(a[at + 15 + k], b[at + 15 + k]));
        }
        lemma_case_of_lengths(x, y);
    } else {
        law_no_header_no_body(a);
        law_no_header_no_body(b);
    }
}

/// A connection is to be closed if and only if the headers say so, in capitals or small letters.
pub proof fn law_close_may_be_spelled_in_any_case(headers: Seq<u8>)
    ensures
        parser::asks_to_close(headers) <==> exists|i: int|
            spells(headers, "connection: close".spec_bytes(), i),
{
    lemma_names();
    let text = "connection: close".spec_bytes();
    assert forall|i: int| spells(headers, text, i) <==> bytes::occurs_at(
        bytes::lowered(headers),
        text,
        i,
    ) by {
        lemma_spells(headers, text, i);
    }
    if parser::asks_to_close(headers) {
        let i = choose|i: int| bytes::occurs_at(bytes::lowered(headers), text, i);
        assert(spells(headers, text, i));
    }
    if exists|i: int| spells(headers, text, i) {
        let i = choose|i: int| spells(headers, text, i);
        assert(bytes::occurs_at(bytes::lowered(headers), text, i));
    }
}

/// The line with which a request starts.
pub open spec fn request_line(method: Seq<u8>, path: Seq<u8>, version: Seq<u8>) -> Seq<u8> {
    method + seq![32u8] + path + seq![32u8] + version
}

/// The line with which a request starts, its headers, each with the end of its line, and the line
/// without anything behind them.
pub open spec fn written_head(
    method: Seq<u8>,
    path: Seq<u8>,
    version: Seq<u8>,
    headers: Seq<u8>,
) -> Seq<u8> {
    request_line(method, path, version) + seq![13u8, 10u8] + headers + seq![13u8, 10u8]
}

/// A byte is not in the text.
pub open spec fn lacks(s: Seq<u8>, b: u8) -> bool {
    forall|k: int| 0 <= k < s.len() ==> #[trigger] s[k] != b
}

/// The text ends with an empty line, and none stands before it.
pub open spec fn ends_with_first_empty_line(s: Seq<u8>) -> bool {
    &&& s.len() >= 4
    &&& empty_line_at(s, s.len() - 4)
    &&& forall|j: int| 0 <= j < s.len() - 4 ==> !empty_line_at(s, j)
}

/// A line ends at `at`, and another one right behind it.
pub open spec fn empty_line_at(s: Seq<u8>, at: int) -> bool {
    &&& 0 <= at
    &&& at + 4 <= s.len()
    &&& s[at] == 13
    &&& s[at + 1] == 10
    &&& s[at + 2] == 13
    &&& s[at + 3] == 10
}

proof fn lemma_empty_line_at(s: Seq<u8>, at: int)
    ensures
        empty_line_at(s, at) <==> bytes::occurs_at(s, "\r\n\r\n".spec_bytes(), at),
{
    reveal_strlit("\r\n\r\n");
    assert(vstd::string::is_ascii("\r\n\r\n"));
    let blank = "\r\n\r\n".spec_bytes();
    assert(blank =~= seq![13u8, 10u8, 13u8, 10u8]);
    if 0 <= at && at + 4 <= s.len() {
        let part = s.subrange(at, at + 4);
        assert(part[0] == s[at] && part[1] == s[at + 1] && part[2] == s[at + 2] && part[3] == s[at
            + 3]);
        if empty_line_at(s, at) {
            assert(part =~= blank);
        }
        if part == blank {
            assert(blank[0] == 13 && blank[1] == 10 && blank[2] == 13 && blank[3] == 10);
        }
    }
}

/// Bytes without an empty line are not a request yet.
pub proof fn law_requests_wait_for_the_empty_line(buf: Seq<u8>, assume_keep_alive: bool)
    requires
        forall|j: int| 0 <= j ==> !empty_line_at(buf, j),
    ensures
        parser::front(buf, assume_keep_alive) is NeedMore,
{
    assert("\r\n\r\n".spec_bytes().len() == 4) by {
        reveal_strlit("\r\n\r\n");
        assert(vstd::string::is_ascii("\r\n\r\n"));
    }
    bytes::lemma_first_occurrence(buf, "\r\n\r\n".spec_bytes(), 0);
    if let Some(j) = bytes::first_occurrence(buf, "\r\n\r\n".spec_bytes(), 0) {
        lemma_empty_line_at(buf, j);
    }
}

proof fn lemma_written_line(
    method: Seq<u8>,
    path: Seq<u8>,
    version: Seq<u8>,
    headers: Seq<u8>,
    rest: Seq<u8>,
)
    requires
        lacks(method, 32),
        lacks(method, 13),
        path.len() > 0,
        lacks(path, 32),
        lacks(path, 13),
        lacks(version, 13),
    ensures
        ({
            let buf = written_head(method, path, version, headers) + rest;
            parser::first_line(buf) == match parser::method_named(method) {
                Some(m) => Some(
                    (
                        m,
                        method.len() as int + 1,
                        method.len() as int + 1 + path.len(),
                        request_line(method, path, version).len() as int + 2,
                    ),
                ),
                None => None,
            }
        }),
{
    let line = request_line(method, path, version);
    let buf = written_head(method, path, version, headers) + rest;
    let end = line.len() as int;
    let m = method.len() as int;
    let p = m + 1 + path.len();
    assert forall|j: int| 0 <= j < end implies buf[j] != 13 by {
        assert(buf[j] == line[j]);
        if j < m {
            assert(line[j] == method[j]);
        } else if m < j < p {
            assert(line[j] == path[j - m - 1]);
        } else if p < j {
            assert(line[j] == version[j - p - 1]);
        }
    }
    assert(buf[end] == 13);
    bytes::lemma_first_index_is(buf, 13, end);
    assert(buf.take(end) =~= line);
    assert forall|j: int| 0 <= j < m implies line[j] != 32 by {
        assert(line[j] == method[j]);
    }
    assert(line[m] == 32);
    bytes::lemma_first_index_is(line, 32, m);
    let tail = line.skip(m + 1);
    assert forall|j: int| 0 <= j < path.len() implies tail[j] != 32 by {
        assert(tail[j] == path[j]);
    }
    assert(tail[path.len() as int] == 32);
    bytes::lemma_first_index_is(tail, 32, path.len() as int);
    assert(line.take(m) =~= method);
}

/// A request that is written out is taken for what it is. One with another method than the two that
/// are known is a bad request. One for another thing than the two that are served is not found. One
/// with a body that is too long is a bad request. One whose body is not all there waits for the rest.
/// Of any other the method, the path and as many bytes behind the headers as they announce are handed
/// on, and no more than it is taken from the buffer.
#[verifier::spinoff_prover]
pub proof fn law_written_requests_are_taken(
    method: Seq<u8>,
    path: Seq<u8>,
    version: Seq<u8>,
    headers: Seq<u8>,
    rest: Seq<u8>,
    assume_keep_alive: bool,
)
    requires
        lacks(method, 32),
        lacks(method, 13),
        path.len() > 0,
        lacks(path, 32),
        lacks(path, 13),
        lacks(version, 13),
        ends_with_first_empty_line(written_head(method, path, version, headers)),
    ensures
        ({
            let head = written_head(method, path, version, headers);
            let length = parser::content_length(headers + seq![13u8, 10u8]);
            let ready = method == "GET".spec_bytes() && path == "/ready".spec_bytes();
            let score = method == "POST".spec_bytes() && path == "/fraud-score".spec_bytes();
            parser::front(head + rest, assume_keep_alive) == if method != "GET".spec_bytes()
                && method != "POST".spec_bytes() {
                Front::Reject { response: responses::RESPONSE_BAD_REQUEST.spec_bytes() }
            } else if !ready && !score {
                Front::Reject { response: responses::RESPONSE_NOT_FOUND.spec_bytes() }
            } else if score && length > 8192 {
                Front::Reject { response: responses::RESPONSE_BAD_REQUEST.spec_bytes() }
            } else if rest.len() < length {
                Front::NeedMore
            } else {
                Front::Complete {
                    request: RequestView {
                        method: if ready {
                            Method::Get
                        } else {
                            Method::Post
                        },
                        path,
                        body: rest.take(length),
                        keep_alive: assume_keep_alive || !exists|i: int|
                            spells(head, "connection: close".spec_bytes(), i),
                    },
                    consumed: head.len() + length,
                }
            }
        }),
{
    let head = written_head(method, path, version, headers);
    let line = request_line(method, path, version);
    let buf = head + rest;
    let blank = "\r\n\r\n".spec_bytes();
    let last = head.len() - 4;
    assert(blank.len() == 4) by {
        reveal_strlit("\r\n\r\n");
        assert(vstd::string::is_ascii("\r\n\r\n"));
    }
    lemma_empty_line_at(buf, last);
    assert(empty_line_at(buf, last)) by {
        assert(buf[last] == head[last] && buf[last + 1] == head[last + 1] && buf[last + 2] == head[last
            + 2] && buf[last + 3] == head[last + 3]);
    }
    assert forall|j: int| 0 <= j < last implies !bytes::occurs_at(buf, blank, j) by {
        lemma_empty_line_at(buf, j);
        assert(!empty_line_at(head, j));
        assert(buf[j] == head[j] && buf[j + 1] == head[j + 1] && buf[j + 2] == head[j + 2] && buf[j
            + 3] == head[j + 3]);
    }
    bytes::lemma_first_occurrence_is(buf, blank, last);
    lemma_written_line(method, path, version, headers, rest);
    assert("GET".spec_bytes() != "POST".spec_bytes()) by {
        reveal_strlit("GET");
        reveal_strlit("POST");
        assert(vstd::string::is_ascii("GET"));
        assert(vstd::string::is_ascii("POST"));
        assert("GET".spec_bytes().len() == 3);
    }
    let start = line.len() as int + 2;
    assert(buf.subrange(start, head.len() as int) =~= headers + seq![13u8, 10u8]);
    let from = method.len() as int + 1;
    assert(buf.subrange(from, from + path.len()) =~= path);
    let length = parser::content_length(headers + seq![13u8, 10u8]);
    assert(buf.take(head.len() as int) =~= head);
    law_close_may_be_spelled_in_any_case(head);
    assert(length >= 0);
    if rest.len() >= length {
        assert(buf.subrange(head.len() as int, head.len() + length) =~= rest.take(length));
    }
}

/// What is said of a transaction with so many fraudulent neighbours: approved where they are fewer than
/// three, and how large a part of the five they are.
pub open spec fn score_body(count: int) -> Seq<char> {
    "{\"approved\":"@ + (if count < 3 {
        "true"@
    } else {
        "false"@
    }) + ",\"fraud_score\":"@ + text::decimal((2 * count / 10) as nat) + "."@ + text::decimal(
        (2 * count % 10) as nat,
    ) + "}"@
}

/// A response with a body and the length of the body.
pub open spec fn ok_response(body: Seq<char>) -> Seq<char> {
    "HTTP/1.1 200 OK\r\nContent-Length: "@ + text::decimal(body.len()) + "\r\n\r\n"@ + body
}

/// The bytes are the characters, one for one.
pub open spec fn spells_out(bytes: Seq<u8>, chars: Seq<char>) -> bool {
    bytes.len() == chars.len() && forall|i: int|
        0 <= i < bytes.len() ==> #[trigger] bytes[i] as int == chars[i] as int
}

proof fn lemma_pieces()
    ensures
        "{\"approved\":"@.len() == 12,
        ",\"fraud_score\":"@.len() == 15,
        "true"@.len() == 4,
        "false"@.len() == 5,
        "."@.len() == 1,
        "}"@.len() == 1,
        text::decimal(35) == seq!['3', '5'],
        text::decimal(36) == seq!['3', '6'],
        forall|d: nat| d < 10 ==> #[trigger] text::decimal(d) == seq![('0' as u32 + d) as char],
{
    reveal_strlit("{\"approved\":");
    reveal_strlit(",\"fraud_score\":");
    reveal_strlit("true");
    reveal_strlit("false");
    reveal_strlit(".");
    reveal_strlit("}");
    assert(text::decimal(3) =~= seq!['3']);
    assert(35nat / 10 == 3 && 36nat / 10 == 3);
    assert(text::decimal(35) =~= seq!['3', '5']);
    assert(text::decimal(36) =~= seq!['3', '6']);
}

proof fn lemma_response_0()
    ensures
        spells_out(responses::RESPONSE_FRAUD_0.spec_bytes(), ok_response(score_body(0))),
{
    lemma_pieces();
    reveal_strlit("HTTP/1.1 200 OK\r\nContent-Length: 35\r\n\r\n{\"approved\":true,\"fraud_score\":0.0}");
    reveal_strlit("HTTP/1.1 200 OK\r\nContent-Length: ");
    reveal_strlit("\r\n\r\n");
    reveal_strlit("{\"approved\":");
    reveal_strlit(",\"fraud_score\":");
    reveal_strlit("true");
    reveal_strlit(".");
    reveal_strlit("}");
    assert(vstd::string::is_ascii(responses::RESPONSE_FRAUD_0));
    assert(score_body(0).len() == 35);
    assert(responses::RESPONSE_FRAUD_0@ =~= ok_response(score_body(0)));
}

proof fn lemma_response_1()
    ensures
        spells_out(responses::RESPONSE_FRAUD_1.spec_bytes(), ok_response(score_body(1))),
{
    lemma_pieces();
    reveal_strlit("HTTP/1.1 200 OK\r\nContent-Length: 35\r\n\r\n{\"approved\":true,\"fraud_score\":0.2}");
    reveal_strlit("HTTP/1.1 200 OK\r\nContent-Length: ");
    reveal_strlit("\r\n\r\n");
    reveal_strlit("{\"approved\":");
    reveal_strlit(",\"fraud_score\":");
    reveal_strlit("true");
    reveal_strlit(".");
    reveal_strlit("}");
    assert(vstd::string::is_ascii(responses::RESPONSE_FRAUD_1));
    assert(score_body(1).len() == 35);
    assert(responses::RESPONSE_FRAUD_1@ =~= ok_response(score_body(1)));
}

proof fn lemma_response_2()
    ensures
        spells_out(responses::RESPONSE_FRAUD_2.spec_bytes(), ok_response(score_body(2))),
{
    lemma_pieces();
    reveal_strlit("HTTP/1.1 200 OK\r\nContent-Length: 35\r\n\r\n{\"approved\":true,\"fraud_score\":0.4}");
    reveal_strlit("HTTP/1.1 200 OK\r\nContent-Length: ");
    reveal_strlit("\r\n\r\n");
    reveal_strlit("{\"approved\":");
    reveal_strlit(",\"fraud_score\":");
    reveal_strlit("true");
    reveal_strlit(".");
    reveal_strlit("}");
    assert(vstd::string::is_ascii(responses::RESPONSE_FRAUD_2));
    assert(score_body(2).len() == 35);
    assert(responses::RESPONSE_FRAUD_2@ =~= ok_response(score_body(2)));
}

proof fn lemma_response_3()
    ensures
        spells_out(responses::RESPONSE_FRAUD_3.spec_bytes(), ok_response(score_body(3))),
{
    lemma_pieces();
    reveal_strlit("HTTP/1.1 200 OK\r\nContent-Length: 36\r\n\r\n{\"approved\":false,\"fraud_score\":0.6}");
    reveal_strlit("HTTP/1.1 200 OK\r\nContent-Length: ");
    reveal_strlit("\r\n\r\n");
    reveal_strlit("{\"approved\":");
    reveal_strlit(",\"fraud_score\":");
    reveal_strlit("false");
    reveal_strlit(".");
    reveal_strlit("}");
    assert(vstd::string::is_ascii(responses::RESPONSE_FRAUD_3));
    assert(score_body(3).len() == 36);
    assert(responses::RESPONSE_FRAUD_3@ =~= ok_response(score_body(3)));
}

proof fn lemma_response_4()
    ensures
        spells_out(responses::RESPONSE_FRAUD_4.spec_bytes(), ok_response(score_body(4))),
{
    lemma_pieces();
    reveal_strlit("HTTP/1.1 200 OK\r\nContent-Length: 36\r\n\r\n{\"approved\":false,\"fraud_score\":0.8}");
    reveal_strlit("HTTP/1.1 200 OK\r\nContent-Length: ");
    reveal_strlit("\r\n\r\n");
    reveal_strlit("{\"approved\":");
    reveal_strlit(",\"fraud_score\":");
    reveal_strlit("false");
    reveal_strlit(".");
    reveal_strlit("}");
    assert(vstd::string::is_ascii(responses::RESPONSE_FRAUD_4));
    assert(score_body(4).len() == 36);
    assert(responses::RESPONSE_FRAUD_4@ =~= ok_response(score_body(4)));
}

proof fn lemma_response_5()
    ensures
        spells_out(responses::RESPONSE_FRAUD_5.spec_bytes(), ok_response(score_body(5))),
{
    lemma_pieces();
    reveal_strlit("HTTP/1.1 200 OK\r\nContent-Length: 36\r\n\r\n{\"approved\":false,\"fraud_score\":1.0}");
    reveal_strlit("HTTP/1.1 200 OK\r\nContent-Length: ");
    reveal_strlit("\r\n\r\n");
    reveal_strlit("{\"approved\":");
    reveal_strlit(",\"fraud_score\":");
    reveal_strlit("false");
    reveal_strlit(".");
    reveal_strlit("}");
    assert(vstd::string::is_ascii(responses::RESPONSE_FRAUD_5));
    assert(score_body(5).len() == 36);
    assert(responses::RESPONSE_FRAUD_5@ =~= ok_response(score_body(5)));
}

/// The response for a number of fraudulent neighbours says what part of the neighbours they are, and
/// approves where they are fewer than three; its header says how long it is.
pub proof fn law_scores_are_told(count: int)
    requires
        0 <= count <= 5,
    ensures
        spells_out(responses::fraud_response_bytes(count), ok_response(score_body(count))),
{
    if count == 0 {
        lemma_response_0();
    } else if count == 1 {
        lemma_response_1();
    } else if count == 2 {
        lemma_response_2();
    } else if count == 3 {
        lemma_response_3();
    } else if count == 4 {
        lemma_response_4();
    } else {
        lemma_response_5();
    }
}

} // verus!
