//! Taking requests off the front of a buffer.

use vstd::prelude::*;
use vstd::string::StringSliceAdditionalSpecFns;

use crate::bytes;
use crate::http::responses;
use crate::settings;

verus! {

/// The longest body that is taken.
pub const MAX_BODY_LEN: usize = 8192;

/// The size of a connection's buffer.
pub const BUF_SIZE: usize = 2048;

/// Tells whether connections are kept whatever requests say: where that is switched on.
pub fn assume_keep_alive(value: Option<&str>) -> (r: bool)
    ensures
        r == settings::switched_on(settings::said(value)),
{
    settings::is_switched_on(value)
}

/// The methods that are understood.
#[derive(Debug, Clone, Copy, PartialEq, Eq, Structural)]
pub enum Method {
    Get,
    Post,
}

/// A request.
pub struct Request<'a> {
    pub method: Method,
    pub path: &'a [u8],
    pub body: &'a [u8],
    pub keep_alive: bool,
}

/// What a request says.
pub struct RequestView {
    pub method: Method,
    pub path: Seq<u8>,
    pub body: Seq<u8>,
    pub keep_alive: bool,
}

impl<'a> View for Request<'a> {
    type V = RequestView;

    open spec fn view(&self) -> RequestView {
        RequestView {
            method: self.method,
            path: self.path@,
            body: self.body@,
            keep_alive: self.keep_alive,
        }
    }
}

/// What stands at the front of a buffer.
pub enum ParseResult<'a> {
    /// A request, and how many bytes it takes.
    Complete(Request<'a>, usize),
    /// A request that is refused with this response, whatever follows.
    Reject(&'static [u8]),
    /// The beginning of a request.
    NeedMore,
}

/// What stands at the front of a buffer.
pub enum Front {
    Complete { request: RequestView, consumed: int },
    Reject { response: Seq<u8> },
    NeedMore,
}

impl<'a> View for ParseResult<'a> {
    type V = Front;

    open spec fn view(&self) -> Front {
        match *self {
            ParseResult::Complete(request, consumed) => Front::Complete {
                request: request@,
                consumed: consumed as int,
            },
            ParseResult::Reject(response) => Front::Reject { response: response@ },
            ParseResult::NeedMore => Front::NeedMore,
        }
    }
}

/// Blank or tab.
pub open spec fn is_blank(b: u8) -> bool {
    b == 32 || b == 9
}

/// Where the headers that start a buffer end, behind the empty line.
pub open spec fn header_end(buf: Seq<u8>) -> Option<int> {
    match bytes::first_occurrence(buf, "\r\n\r\n".spec_bytes(), 0) {
        Some(i) => Some(i + 4),
        None => None,
    }
}

/// The method that a word names.
pub open spec fn method_named(word: Seq<u8>) -> Option<Method> {
    if word == "GET".spec_bytes() {
        Some(Method::Get)
    } else if word == "POST".spec_bytes() {
        Some(Method::Post)
    } else {
        None
    }
}

/// The first line of a request: its method, where its path starts and ends, and where the headers
/// start.
pub open spec fn first_line(buf: Seq<u8>) -> Option<(Method, int, int, int)> {
    let end = bytes::first_index(buf, 13) as int;
    let line = buf.take(end);
    let method_end = bytes::first_index(line, 32) as int;
    let path_start = method_end + 1;
    let path_end = path_start + bytes::first_index(line.skip(path_start), 32);
    if end == buf.len() || method_end == end || path_start >= end || path_end >= end || path_end
        == path_start {
        None
    } else {
        match method_named(line.take(method_end)) {
            Some(method) => Some((method, path_start, path_end, end + 2)),
            None => None,
        }
    }
}

/// Where the blanks that start at `i` end.
pub open spec fn blanks_end(s: Seq<u8>, i: int) -> int
    decreases s.len() - i,
{
    if 0 <= i < s.len() && is_blank(s[i]) {
        blanks_end(s, i + 1)
    } else {
        i
    }
}

/// Where the word that starts at `i` ends: at a blank, at the end of the line, or at the end.
pub open spec fn word_end(s: Seq<u8>, i: int) -> int
    decreases s.len() - i,
{
    if 0 <= i < s.len() && !is_blank(s[i]) && s[i] != 13 {
        word_end(s, i + 1)
    } else {
        i
    }
}

/// The number that a header's value says, kept to a machine word; 0 where it is no number.
pub open spec fn length_value(rest: Seq<u8>) -> int {
    let start = blanks_end(rest, 0);
    let word = rest.subrange(start, word_end(rest, start));
    if start >= rest.len() || !bytes::all_digits(word) {
        0
    } else if bytes::digits_value(word) > usize::MAX {
        usize::MAX as int
    } else {
        bytes::digits_value(word) as int
    }
}

/// The length of the body that the headers announce; 0 where they announce none. The usual spelling
/// is looked for first, then any.
pub open spec fn content_length(headers: Seq<u8>) -> int {
    match bytes::first_occurrence(headers, "Content-Length:".spec_bytes(), 0) {
        Some(i) => length_value(headers.skip(i + 15)),
        None => match bytes::first_occurrence(
            bytes::lowered(headers),
            "content-length:".spec_bytes(),
            0,
        ) {
            Some(i) => length_value(headers.skip(i + 15)),
            None => 0,
        },
    }
}

/// The headers ask for the connection to be closed.
pub open spec fn asks_to_close(headers: Seq<u8>) -> bool {
    exists|i: int| bytes::occurs_at(bytes::lowered(headers), "connection: close".spec_bytes(), i)
}

/// The response with which a request is refused before its body has come.
pub open spec fn refusal(method: Method, path: Seq<u8>, length: int) -> Option<Seq<u8>> {
    if method == Method::Get && path == "/ready".spec_bytes() {
        None
    } else if method == Method::Post && path == "/fraud-score".spec_bytes() {
        if length <= MAX_BODY_LEN {
            None
        } else {
            Some(responses::RESPONSE_BAD_REQUEST.spec_bytes())
        }
    } else {
        Some(responses::RESPONSE_NOT_FOUND.spec_bytes())
    }
}

/// What stands at the front of a buffer.
pub open spec fn front(buf: Seq<u8>, assume_keep_alive: bool) -> Front {
    match header_end(buf) {
        None => Front::NeedMore,
        Some(body_start) => match first_line(buf) {
            None => Front::Reject { response: responses::RESPONSE_BAD_REQUEST.spec_bytes() },
            Some((method, path_start, path_end, headers_start)) => {
                let length = content_length(buf.subrange(headers_start, body_start));
                let path = buf.subrange(path_start, path_end);
                match refusal(method, path, length) {
                    Some(response) => Front::Reject { response },
                    None => if buf.len() < body_start + length {
                        Front::NeedMore
                    } else {
                        Front::Complete {
                            request: RequestView {
                                method,
                                path,
                                body: buf.subrange(body_start, body_start + length),
                                keep_alive: assume_keep_alive || !asks_to_close(
                                    buf.take(body_start),
                                ),
                            },
                            consumed: body_start + length,
                        }
                    },
                }
            },
        },
    }
}

proof fn lemma_literals()
    ensures
        "\r\n\r\n".spec_bytes() == seq![13u8, 10, 13, 10],
        "Content-Length:".spec_bytes().len() == 15,
        "content-length:".spec_bytes().len() == 15,
        "connection: close".spec_bytes().len() == 17,
{
    reveal_strlit("\r\n\r\n");
    reveal_strlit("Content-Length:");
    reveal_strlit("content-length:");
    reveal_strlit("connection: close");
    assert(vstd::string::is_ascii("\r\n\r\n"));
    assert(vstd::string::is_ascii("Content-Length:"));
    assert(vstd::string::is_ascii("content-length:"));
    assert(vstd::string::is_ascii("connection: close"));
    assert("\r\n\r\n".spec_bytes() =~= seq![13u8, 10, 13, 10]);
}

/// Finds where the headers end, behind the empty line.
fn find_header_end(buf: &[u8]) -> (r: Option<usize>)
    ensures
        r is Some <==> header_end(buf@) is Some,
        r matches Some(end) ==> header_end(buf@) == Some(end as int) && 4 <= end <= buf@.len(),
{
    proof {
        lemma_literals();
    }
    match bytes::find_bytes(buf, "\r\n\r\n".as_bytes()) {
        Some(i) => Some(i + 4),
        None => None,
    }
}

fn parse_method(word: &[u8]) -> (r: Option<Method>)
    ensures
        r == method_named(word@),
{
    if bytes::bytes_equal(word, "GET".as_bytes()) {
        Some(Method::Get)
    } else if bytes::bytes_equal(word, "POST".as_bytes()) {
        Some(Method::Post)
    } else {
        None
    }
}

/// Takes the first line apart: the method, where the path starts and ends, and where the headers
/// start.
fn parse_first_line(buf: &[u8]) -> (r: Option<(Method, (usize, usize), usize)>)
    requires
        bytes::first_index(buf@, 13) + 2 <= usize::MAX,
    ensures
        r is Some <==> first_line(buf@) is Some,
        r matches Some((method, path, headers)) ==> first_line(buf@) == Some(
            (method, path.0 as int, path.1 as int, headers as int),
        ) && path.0 <= path.1 <= buf@.len() && headers == bytes::first_index(buf@, 13) + 2,
{
    let end: usize = bytes::find_byte(buf, 13);
    if end == buf.len() {
        return None;
    }
    let line = &buf[0..end];
    assert(line@ =~= buf@.take(end as int));
    let method_end: usize = bytes::find_byte(line, 32);
    if method_end == end {
        return None;
    }
    let path_start: usize = method_end + 1;
    if path_start >= end {
        return None;
    }
    let word = &line[0..method_end];
    assert(word@ =~= line@.take(method_end as int));
    let rest = &line[path_start..end];
    assert(rest@ =~= line@.skip(path_start as int));
    let path_end: usize = path_start + bytes::find_byte(rest, 32);
    if path_end >= end || path_end == path_start {
        return None;
    }
    match parse_method(word) {
        Some(method) => Some((method, (path_start, path_end), end + 2)),
        None => None,
    }
}

/// Reads the value of a length header.
fn parse_content_length_value(rest: &[u8]) -> (r: usize)
    ensures
        r == length_value(rest@),
{
    let mut start: usize = 0;
    while start < rest.len() && (rest[start] == 32 || rest[start] == 9)
        invariant
            start <= rest@.len(),
            blanks_end(rest@, start as int) == blanks_end(rest@, 0),
        decreases rest@.len() - start,
    {
        start = start + 1;
    }
    if start >= rest.len() {
        return 0;
    }
    let mut end: usize = start;
    while end < rest.len() && rest[end] != 32 && rest[end] != 9 && rest[end] != 13
        invariant
            start <= end <= rest@.len(),
            word_end(rest@, end as int) == word_end(rest@, start as int),
        decreases rest@.len() - end,
    {
        end = end + 1;
    }
    let word = &rest[start..end];
    if !bytes::only_digits(word) {
        return 0;
    }
    let mut num: usize = 0;
    let mut i: usize = 0;
    while i < word.len()
        invariant
            i <= word@.len(),
            bytes::all_digits(word@),
            num == (if bytes::digits_value(word@.take(i as int)) > usize::MAX {
                usize::MAX as nat
            } else {
                bytes::digits_value(word@.take(i as int))
            }),
        decreases word@.len() - i,
    {
        assert(bytes::is_digit(word@[i as int]));
        proof {
            assert(word@.take(i + 1) =~= word@.take(i as int).push(word@[i as int]));
            bytes::lemma_digits_value_push(word@.take(i as int), word@[i as int]);
        }
        let digit: usize = (word[i] - 48) as usize;
        num = match num.checked_mul(10) {
            Some(tenfold) => match tenfold.checked_add(digit) {
                Some(sum) => sum,
                None => usize::MAX,
            },
            None => usize::MAX,
        };
        i = i + 1;
    }
    assert(word@.take(word@.len() as int) =~= word@);
    num
}

/// The length of the body that the headers announce.
pub fn find_content_length(headers: &[u8]) -> (r: usize)
    ensures
        r == content_length(headers@),
{
    proof {
        lemma_literals();
    }
    if let Some(i) = bytes::find_bytes(headers, "Content-Length:".as_bytes()) {
        let rest = &headers[i + 15..headers.len()];
        assert(rest@ =~= headers@.skip(i + 15));
        return parse_content_length_value(rest);
    }
    let small = bytes::to_lower(headers);
    if let Some(i) = bytes::find_bytes(&small, "content-length:".as_bytes()) {
        let rest = &headers[i + 15..headers.len()];
        assert(rest@ =~= headers@.skip(i + 15));
        return parse_content_length_value(rest);
    }
    0
}

/// Tells whether the headers ask for the connection to be closed.
fn contains_connection_close(headers: &[u8]) -> (r: bool)
    ensures
        r == asks_to_close(headers@),
{
    proof {
        lemma_literals();
    }
    let small = bytes::to_lower(headers);
    proof {
        bytes::lemma_first_occurrence(small@, "connection: close".spec_bytes(), 0);
    }
    bytes::find_bytes(&small, "connection: close".as_bytes()).is_some()
}

/// The response with which a request is refused before its body has come.
fn early_rejection(method: Method, path: &[u8], content_length: usize) -> (r: Option<
    &'static [u8],
>)
    ensures
        r is Some <==> refusal(method, path@, content_length as int) is Some,
        r matches Some(response) ==> refusal(method, path@, content_length as int) == Some(
            response@,
        ),
{
    if method == Method::Get && bytes::bytes_equal(path, "/ready".as_bytes()) {
        None
    } else if method == Method::Post && bytes::bytes_equal(path, "/fraud-score".as_bytes()) {
        if content_length <= MAX_BODY_LEN {
            None
        } else {
            Some(responses::RESPONSE_BAD_REQUEST.as_bytes())
        }
    } else {
        Some(responses::RESPONSE_NOT_FOUND.as_bytes())
    }
}

/// The headers start before they end.
proof fn lemma_headers_follow_line(buf: Seq<u8>)
    requires
        header_end(buf) is Some,
    ensures
        bytes::first_index(buf, 13) + 4 <= header_end(buf).unwrap() <= buf.len(),
{
    lemma_literals();
    let needle = "\r\n\r\n".spec_bytes();
    bytes::lemma_first_occurrence(buf, needle, 0);
    let i = header_end(buf).unwrap() - 4;
    assert(bytes::occurs_at(buf, needle, i));
    assert(buf.subrange(i, i + 4)[0] == 13);
    assert(buf[i] == 13);
    bytes::lemma_first_index(buf, 13);
}

/// A whole request takes some of the buffer, and no more than there is.
pub proof fn lemma_front_consumed(buf: Seq<u8>, assume_keep_alive: bool)
    ensures
        front(buf, assume_keep_alive) matches Front::Complete { request, consumed } ==> 0 < consumed
            <= buf.len(),
{
    if header_end(buf) is Some {
        lemma_headers_follow_line(buf);
        bytes::lemma_first_index(buf, 13);
        if let Some((method, path_start, path_end, headers_start)) = first_line(buf) {
            let headers = buf.subrange(headers_start, header_end(buf).unwrap());
            lemma_content_length(headers);
        }
    }
}

proof fn lemma_content_length(headers: Seq<u8>)
    ensures
        content_length(headers) >= 0,
{
}

/// What follows a whole or a refused request in a buffer does not change how it is taken: requests
/// can be sent one behind the other, and a refused one is refused before its body has come.
pub proof fn law_front_ignores_what_follows(
    buf: Seq<u8>,
    rest: Seq<u8>,
    assume_keep_alive: bool,
)
    requires
        front(buf, assume_keep_alive) !is NeedMore,
    ensures
        front(buf + rest, assume_keep_alive) == front(buf, assume_keep_alive),
{
    lemma_literals();
    bytes::lemma_first_occurrence_in_front(buf, rest, "\r\n\r\n".spec_bytes());
    lemma_headers_follow_line(buf);
    bytes::lemma_first_index_in_front(buf, rest, 13);
    let all = buf + rest;
    let body_start = header_end(buf).unwrap();
    let end = bytes::first_index(buf, 13) as int;
    assert(all.take(end) =~= buf.take(end));
    assert(first_line(all) == first_line(buf));
    if let Some((method, path_start, path_end, headers_start)) = first_line(buf) {
        let line = buf.take(end);
        bytes::lemma_first_index(line, 32);
        bytes::lemma_first_index(line.skip(path_start), 32);
        assert(all.subrange(headers_start, body_start) =~= buf.subrange(headers_start, body_start));
        assert(all.subrange(path_start, path_end) =~= buf.subrange(path_start, path_end));
        assert(all.take(body_start) =~= buf.take(body_start));
        let length = content_length(buf.subrange(headers_start, body_start));
        if body_start + length <= buf.len() {
            assert(all.subrange(body_start, body_start + length) =~= buf.subrange(
                body_start,
                body_start + length,
            ));
        }
    }
}

/// Looks for a request at the front of a buffer.
pub fn parse_request_result(buf: &[u8], assume_keep_alive: bool) -> (r: ParseResult<'_>)
    ensures
        r@ == front(buf@, assume_keep_alive),
        r matches ParseResult::Complete(request, consumed) ==> 0 < consumed <= buf@.len(),
{
    let body_start: usize = match find_header_end(buf) {
        Some(end) => end,
        None => return ParseResult::NeedMore,
    };
    proof {
        lemma_headers_follow_line(buf@);
    }
    let (method, path, headers_start) = match parse_first_line(buf) {
        Some(parts) => parts,
        None => return ParseResult::Reject(responses::RESPONSE_BAD_REQUEST.as_bytes()),
    };
    let length: usize = find_content_length(&buf[headers_start..body_start]);
    let path_bytes = &buf[path.0..path.1];
    if let Some(response) = early_rejection(method, path_bytes, length) {
        return ParseResult::Reject(response);
    }
    if buf.len() - body_start < length {
        return ParseResult::NeedMore;
    }
    let body_end: usize = body_start + length;
    let head = &buf[0..body_start];
    assert(head@ =~= buf@.take(body_start as int));
    let keep_alive: bool = assume_keep_alive || !contains_connection_close(head);
    ParseResult::Complete(
        Request { method, path: path_bytes, body: &buf[body_start..body_end], keep_alive },
        body_end,
    )
}

/// Takes a request off the front of a buffer, if there is a whole one that is not refused.
pub fn parse_request(buf: &[u8], assume_keep_alive: bool) -> (r: Option<(Request<'_>, usize)>)
    ensures
        r is Some <==> front(buf@, assume_keep_alive) is Complete,
        r matches Some((request, consumed)) ==> front(buf@, assume_keep_alive) == (
            Front::Complete { request: request@, consumed: consumed as int }) && 0 < consumed
            <= buf@.len(),
{
    match parse_request_result(buf, assume_keep_alive) {
        ParseResult::Complete(request, consumed) => Some((request, consumed)),
        ParseResult::NeedMore => None,
        ParseResult::Reject(_) => None,
    }
}

/// What to do about the front of a buffer.
#[derive(Debug, PartialEq, Eq)]
pub enum BufferStep {
    /// Answer the request, and go on behind it.
    Respond { consumed: usize, response: &'static [u8], keep_alive: bool },
    /// Answer, and close the connection.
    RejectAndClose { response: &'static [u8] },
    /// Wait for the rest of the request.
    NeedMore,
}

/// The handler may give `response` to a request that says `said`.
pub open spec fn answers<F>(handler: F, said: RequestView, response: &'static [u8]) -> bool where
    F: FnOnce(&Request) -> &'static [u8],
 {
    exists|request: Request| request@ == said && #[trigger] handler.ensures((&request,), response)
}

/// Decides what to do about the front of a buffer; `handler` answers a whole request.
pub fn process_one_request<F>(buf: &[u8], assume_keep_alive: bool, handler: F) -> (r: BufferStep)
    where F: FnOnce(&Request) -> &'static [u8]

    requires
        forall|request: Request| handler.requires((&request,)),
    ensures
        match front(buf@, assume_keep_alive) {
            Front::Complete { request: said, consumed: taken } => {
                &&& r matches BufferStep::Respond { consumed, response, keep_alive }
                &&& consumed == taken
                &&& keep_alive == said.keep_alive
                &&& 0 < consumed <= buf@.len()
                &&& answers(handler, said, response)
            },
            Front::Reject { response: refused } => {
                &&& r matches BufferStep::RejectAndClose { response }
                &&& response@ == refused
            },
            Front::NeedMore => r is NeedMore,
        },
{
    match parse_request_result(buf, assume_keep_alive) {
        ParseResult::Complete(request, consumed) => {
            let keep_alive: bool = request.keep_alive;
            let ghost answer = handler;
            let response = handler(&request);
            assert(request@ == request@ && answer.ensures((&request,), response));
            assert(answers(answer, request@, response));
            BufferStep::Respond { consumed, response, keep_alive }
        },
        ParseResult::Reject(response) => BufferStep::RejectAndClose { response },
        ParseResult::NeedMore => BufferStep::NeedMore,
    }
}

} // verus!
