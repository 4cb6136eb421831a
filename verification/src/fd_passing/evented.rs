//! The decisions of the event loop: which requests a buffer holds, what is still to be sent, what
//! to do next with a connection.

use vstd::prelude::*;
use vstd::string::StringSliceAdditionalSpecFns;

use crate::fd_passing::conn;
use crate::fd_passing::conn::Buffer;
use crate::fd_passing::conn::ConnState;
use crate::fd_passing::conn::ConnTable;
use crate::fd_passing::conn::MAX_CLIENT_FD;
use crate::http::parser;
use crate::http::parser::ParseResult;
use crate::http::parser::Request;
use crate::http::parser::RequestView;
use crate::http::parser::BUF_SIZE;
use crate::http::responses;

verus! {

/// The requests that stand one behind the other at the front of a buffer.
#[verifier::ext_equal]
pub struct Pipeline {
    /// The whole requests, in order.
    pub requests: Seq<RequestView>,
    /// How many bytes of the buffer are done with.
    pub consumed: int,
    /// The response with which the request behind them is refused.
    pub refused: Option<Seq<u8>>,
}

/// The requests at the front of `buf`, up to one that is refused or not yet whole. Nothing behind a
/// refused request is looked at.
pub open spec fn pipeline(buf: Seq<u8>, assume_keep_alive: bool) -> Pipeline
    decreases buf.len(),
{
    let none = Pipeline { requests: Seq::empty(), consumed: 0, refused: None };
    if buf.len() == 0 {
        none
    } else {
        match parser::front(buf, assume_keep_alive) {
            parser::Front::NeedMore => none,
            parser::Front::Reject { response } => Pipeline {
                requests: Seq::empty(),
                consumed: buf.len() as int,
                refused: Some(response),
            },
            parser::Front::Complete { request, consumed } => {
                proof {
                    parser::lemma_front_consumed(buf, assume_keep_alive);
                }
                let rest = pipeline(buf.skip(consumed), assume_keep_alive);
                Pipeline {
                    requests: seq![request] + rest.requests,
                    consumed: consumed + rest.consumed,
                    refused: rest.refused,
                }
            },
        }
    }
}

/// Every request lets the connection live.
pub open spec fn all_keep_alive(requests: Seq<RequestView>) -> bool {
    forall|i: int| 0 <= i < requests.len() ==> (#[trigger] requests[i]).keep_alive
}

pub proof fn lemma_pipeline_bounds(buf: Seq<u8>, assume_keep_alive: bool)
    ensures
        0 <= pipeline(buf, assume_keep_alive).consumed <= buf.len(),
        pipeline(buf, assume_keep_alive).consumed > 0 <==> (pipeline(
            buf,
            assume_keep_alive,
        ).requests.len() > 0 || pipeline(buf, assume_keep_alive).refused is Some),
    decreases buf.len(),
{
    if buf.len() > 0 {
        if let parser::Front::Complete { request, consumed } = parser::front(
            buf,
            assume_keep_alive,
        ) {
            parser::lemma_front_consumed(buf, assume_keep_alive);
            lemma_pipeline_bounds(buf.skip(consumed), assume_keep_alive);
        }
    }
}

/// It does not matter in how many pieces requests arrive: reading `first`, dealing with the
/// requests in it, and reading `second` behind what was left over gives the same requests in the
/// same order as reading both at once.
pub proof fn law_pieces_do_not_matter(first: Seq<u8>, second: Seq<u8>, assume_keep_alive: bool)
    requires
        pipeline(first, assume_keep_alive).refused is None,
    ensures
        ({
            let before = pipeline(first, assume_keep_alive);
            let after = pipeline(first.skip(before.consumed) + second, assume_keep_alive);
            pipeline(first + second, assume_keep_alive) == (Pipeline {
                requests: before.requests + after.requests,
                consumed: before.consumed + after.consumed,
                refused: after.refused,
            })
        }),
    decreases first.len(),
{
    let before = pipeline(first, assume_keep_alive);
    let all = first + second;
    lemma_pipeline_bounds(first, assume_keep_alive);
    let after = pipeline(first.skip(before.consumed) + second, assume_keep_alive);
    let whole = Pipeline {
        requests: before.requests + after.requests,
        consumed: before.consumed + after.consumed,
        refused: after.refused,
    };
    match parser::front(first, assume_keep_alive) {
        parser::Front::Complete { request, consumed } => {
            parser::lemma_front_consumed(first, assume_keep_alive);
            if first.len() > 0 {
                parser::law_front_ignores_what_follows(first, second, assume_keep_alive);
                let rest = first.skip(consumed);
                law_pieces_do_not_matter(rest, second, assume_keep_alive);
                assert(all.skip(consumed) =~= rest + second);
                let inner = pipeline(rest, assume_keep_alive);
                lemma_pipeline_bounds(rest, assume_keep_alive);
                assert(first.skip(before.consumed) =~= rest.skip(inner.consumed));
                assert(pipeline(all, assume_keep_alive) =~= whole);
            } else {
                assert(first.skip(0) =~= first);
                assert(pipeline(all, assume_keep_alive) =~= whole);
            }
        },
        _ => {
            assert(first.skip(0) =~= first);
            assert(pipeline(all, assume_keep_alive) =~= whole);
        },
    }
}

/// What to do with a connection whose buffer has been read into.
pub enum ReadPlan {
    /// Send the responses; `leftover_len` bytes at `leftover_off` are for later.
    Write {
        responses: Vec<&'static [u8]>,
        leftover_off: usize,
        leftover_len: usize,
        keep_alive: bool,
    },
    /// Wait for more.
    Read,
}

/// The responses answer the requests, in order, and end with the refusal.
pub open spec fn responses_answer<F>(
    handler: F,
    requests: Seq<RequestView>,
    refused: Option<Seq<u8>>,
    sent: Seq<&'static [u8]>,
) -> bool where F: Fn(&Request) -> &'static [u8] {
    &&& sent.len() == requests.len() + if refused is Some {
        1int
    } else {
        0
    }
    &&& forall|i: int|
        0 <= i < requests.len() ==> parser::answers(handler, #[trigger] requests[i], sent[i])
    &&& refused matches Some(response) ==> sent.last()@ == response
}

/// Decides what to do with the first `used` bytes of a buffer. A buffer without room left is
/// refused.
pub fn drive_reading<F>(buf: &Buffer, used: usize, assume_keep_alive: bool, handler: &F) -> (r:
    ReadPlan) where F: Fn(&Request) -> &'static [u8]
    requires
        used <= BUF_SIZE,
        forall|request: Request| handler.requires((&request,)),
    ensures
        used == BUF_SIZE ==> (r matches ReadPlan::Write {
            responses: sent,
            leftover_off,
            leftover_len,
            keep_alive,
        } && sent@.len() == 1 && sent@[0]@ == responses::RESPONSE_BAD_REQUEST.spec_bytes()
            && leftover_off == 0 && leftover_len == 0 && !keep_alive),
        used < BUF_SIZE ==> ({
            let found = pipeline(buf@.take(used as int), assume_keep_alive);
            if found.consumed == 0 {
                r is Read
            } else {
                r matches ReadPlan::Write {
                    responses: sent,
                    leftover_off,
                    leftover_len,
                    keep_alive,
                } && responses_answer(*handler, found.requests, found.refused, sent@)
                    && leftover_off == found.consumed && leftover_len == used - found.consumed
                    && keep_alive == (found.refused is None && all_keep_alive(found.requests))
            }
        }),
        r matches ReadPlan::Write { leftover_off, leftover_len, .. } ==> leftover_off
            + leftover_len <= BUF_SIZE,
{
    if used >= BUF_SIZE {
        let mut sent: Vec<&'static [u8]> = Vec::new();
        sent.push(responses::RESPONSE_BAD_REQUEST.as_bytes());
        return ReadPlan::Write {
            responses: sent,
            leftover_off: 0,
            leftover_len: 0,
            keep_alive: false,
        };
    }
    let ghost data = buf@.take(used as int);
    let ghost found = pipeline(data, assume_keep_alive);
    let mut processed: usize = 0;
    let mut sent: Vec<&'static [u8]> = Vec::new();
    let mut keep_alive: bool = true;
    let ghost mut done: Seq<RequestView> = Seq::empty();
    let ghost mut refused: Option<Seq<u8>> = None;
    proof {
        lemma_pipeline_bounds(data, assume_keep_alive);
        assert(data.skip(0) =~= data);
        assert(done + found.requests =~= found.requests);
    }
    while processed < used
        invariant_except_break
            refused is None,
            found.refused == pipeline(data.skip(processed as int), assume_keep_alive).refused,
            found.requests == done + pipeline(
                data.skip(processed as int),
                assume_keep_alive,
            ).requests,
            found.consumed == processed + pipeline(
                data.skip(processed as int),
                assume_keep_alive,
            ).consumed,
        invariant
            processed <= used < BUF_SIZE,
            data == buf@.take(used as int),
            found == pipeline(data, assume_keep_alive),
            forall|request: Request| handler.requires((&request,)),
            responses_answer(*handler, done, refused, sent@),
            keep_alive == (refused is None && all_keep_alive(done)),
            processed > 0 <==> sent@.len() > 0,
        ensures
            found.requests == done,
            found.refused == refused,
            found.consumed == processed,
        decreases used - processed,
    {
        let ghost rest = data.skip(processed as int);
        let window = &buf[processed..used];
        assert(window@ =~= rest);
        proof {
            lemma_pipeline_bounds(rest, assume_keep_alive);
        }
        match parser::parse_request_result(window, assume_keep_alive) {
            ParseResult::Complete(request, consumed) => {
                let request_keep_alive: bool = request.keep_alive;
                let response = handler(&request);
                let ghost said = request@;
                assert(said == request@ && handler.ensures((&request,), response));
                assert(parser::answers(*handler, said, response));
                let ghost before = done;
                let ghost sent_before = sent@;
                processed = processed + consumed;
                sent.push(response);
                if !request_keep_alive {
                    keep_alive = false;
                }
                proof {
                    done = done.push(said);
                    let next = rest.skip(consumed as int);
                    assert(data.skip(processed as int) =~= next);
                    lemma_pipeline_bounds(next, assume_keep_alive);
                    assert(before + (seq![said] + pipeline(next, assume_keep_alive).requests)
                        =~= done + pipeline(next, assume_keep_alive).requests);
                    assert forall|i: int| 0 <= i < done.len() implies parser::answers(
                        *handler,
                        #[trigger] done[i],
                        sent@[i],
                    ) by {
                        if i < before.len() {
                            assert(done[i] == before[i]);
                            assert(sent@[i] == sent_before[i]);
                        }
                    }
                    assert(all_keep_alive(done) == (all_keep_alive(before) && said.keep_alive))
                        by {
                        assert(done[before.len() as int] == said);
                        assert forall|i: int| 0 <= i < before.len() implies done[i]
                            == #[trigger] before[i] by {}
                    }
                }
            },
            ParseResult::Reject(response) => {
                let ghost sent_before = sent@;
                processed = used;
                sent.push(response);
                keep_alive = false;
                proof {
                    refused = Some(response@);
                    assert(done + Seq::<RequestView>::empty() =~= done);
                    assert forall|i: int| 0 <= i < done.len() implies parser::answers(
                        *handler,
                        #[trigger] done[i],
                        sent@[i],
                    ) by {
                        assert(sent@[i] == sent_before[i]);
                    }
                }
                break;
            },
            ParseResult::NeedMore => {
                assert(done + Seq::<RequestView>::empty() =~= done);
                break;
            },
        }
        proof {
            if processed == used {
                assert(data.skip(processed as int) =~= Seq::<u8>::empty());
                assert(done + Seq::<RequestView>::empty() =~= done);
            }
        }
    }
    if sent.len() > 0 {
        ReadPlan::Write {
            responses: sent,
            leftover_off: processed,
            leftover_len: used - processed,
            keep_alive,
        }
    } else {
        ReadPlan::Read
    }
}

/// The bytes of the responses, one behind the other.
pub open spec fn joined(responses: Seq<Seq<u8>>) -> Seq<u8>
    decreases responses.len(),
{
    if responses.len() == 0 {
        Seq::empty()
    } else {
        responses[0] + joined(responses.drop_first())
    }
}

/// The bytes of each response.
pub open spec fn contents(responses: Seq<&'static [u8]>) -> Seq<Seq<u8>> {
    responses.map_values(|r: &'static [u8]| r@)
}

/// What is still to be sent of the responses when `written` bytes are out: the rest of the first
/// one that is not out yet, and those behind it. There are no empty pieces.
pub open spec fn pieces(responses: Seq<Seq<u8>>, written: nat) -> Seq<Seq<u8>>
    decreases responses.len(),
{
    if responses.len() == 0 {
        Seq::empty()
    } else if written >= responses[0].len() {
        pieces(responses.drop_first(), (written - responses[0].len()) as nat)
    } else {
        seq![responses[0].skip(written as int)] + pieces(responses.drop_first(), 0)
    }
}

/// The pieces to be sent hold exactly the bytes that are not out yet, in order: however little is
/// sent at a time, the peer receives the responses one behind the other.
pub proof fn law_pieces_continue(responses: Seq<Seq<u8>>, written: nat)
    requires
        written <= joined(responses).len(),
    ensures
        joined(pieces(responses, written)) == joined(responses).skip(written as int),
    decreases responses.len(),
{
    if responses.len() == 0 {
        assert(joined(responses).skip(0) =~= Seq::<u8>::empty());
    } else {
        let head = responses[0];
        let tail = responses.drop_first();
        if written >= head.len() {
            law_pieces_continue(tail, (written - head.len()) as nat);
            assert(joined(responses).skip(written as int) =~= joined(tail).skip(
                written - head.len(),
            ));
        } else {
            law_pieces_continue(tail, 0);
            let first = head.skip(written as int);
            let all = seq![first] + pieces(tail, 0);
            assert(all.drop_first() =~= pieces(tail, 0));
            assert(joined(tail).skip(0) =~= joined(tail));
            assert(joined(responses).skip(written as int) =~= first + joined(tail));
        }
    }
}

proof fn lemma_joined_push(responses: Seq<Seq<u8>>, last: Seq<u8>)
    ensures
        joined(responses.push(last)) == joined(responses) + last,
    decreases responses.len(),
{
    let all = responses.push(last);
    if responses.len() == 0 {
        assert(all.drop_first() =~= Seq::<Seq<u8>>::empty());
        assert(joined(all.drop_first()) =~= Seq::<u8>::empty());
        assert(joined(all) =~= joined(responses) + last);
    } else {
        assert(all.drop_first() =~= responses.drop_first().push(last));
        lemma_joined_push(responses.drop_first(), last);
        assert(joined(all) =~= joined(responses) + last);
    }
}

/// The responses have as many bytes together as their lengths add up to.
pub proof fn lemma_total_length(responses: Seq<&'static [u8]>)
    ensures
        conn::total_length(responses) == joined(contents(responses)).len(),
    decreases responses.len(),
{
    if responses.len() > 0 {
        let head = responses.drop_last();
        lemma_total_length(head);
        lemma_joined_push(contents(head), responses.last()@);
        assert(contents(responses) =~= contents(head).push(responses.last()@));
    }
}

/// There is nothing to send exactly when as many bytes are out as the responses have: sending ends
/// when, and only when, the peer has everything.
pub proof fn law_nothing_left_when_all_sent(responses: Seq<&'static [u8]>, written: nat)
    ensures
        pieces(contents(responses), written).len() == 0 <==> written >= conn::total_length(
            responses,
        ),
{
    lemma_total_length(responses);
    lemma_pieces_empty(contents(responses), written);
}

proof fn lemma_pieces_empty(responses: Seq<Seq<u8>>, written: nat)
    ensures
        pieces(responses, written).len() == 0 <==> written >= joined(responses).len(),
    decreases responses.len(),
{
    if responses.len() > 0 {
        let tail = responses.drop_first();
        if written >= responses[0].len() {
            lemma_pieces_empty(tail, (written - responses[0].len()) as nat);
        } else {
            lemma_pieces_empty(tail, 0);
        }
    }
}

/// The first `limit` pieces still to be sent.
pub fn build_iovecs(responses: &[&'static [u8]], written: usize, limit: usize) -> (r: Vec<
    &'static [u8],
>)
    requires
        limit > 0,
    ensures
        contents(r@) == ({
            let all = pieces(contents(responses@), written as nat);
            all.take(
                if all.len() <= limit {
                    all.len() as int
                } else {
                    limit as int
                },
            )
        }),
{
    let ghost all = pieces(contents(responses@), written as nat);
    let mut r: Vec<&'static [u8]> = Vec::new();
    let mut skip: usize = written;
    let mut i: usize = 0;
    proof {
        assert(contents(responses@).skip(0) =~= contents(responses@));
        assert(contents(r@) + all =~= all);
    }
    while i < responses.len()
        invariant
            i <= responses@.len(),
            all == pieces(contents(responses@), written as nat),
            r@.len() < limit,
            r@.len() > 0 ==> skip == 0,
            all == contents(r@) + pieces(contents(responses@).skip(i as int), skip as nat),
        decreases responses@.len() - i,
    {
        let response = responses[i];
        let len: usize = response.len();
        let ghost rest = contents(responses@).skip(i as int);
        let ghost before = r@;
        proof {
            assert(rest[0] == response@);
            assert(rest.drop_first() =~= contents(responses@).skip(i + 1));
        }
        if skip >= len {
            skip = skip - len;
        } else {
            let piece: &'static [u8] = &response[skip..len];
            assert(piece@ =~= response@.skip(skip as int));
            skip = 0;
            r.push(piece);
            proof {
                let tail = pieces(contents(responses@).skip(i + 1), 0);
                assert(contents(r@) =~= contents(before).push(piece@));
                assert(contents(before) + (seq![piece@] + tail) =~= contents(r@) + tail);
            }
            if r.len() == limit {
                assert(contents(r@) =~= all.take(limit as int));
                return r;
            }
        }
        i = i + 1;
    }
    proof {
        assert(contents(responses@).skip(i as int) =~= Seq::<Seq<u8>>::empty());
        assert(contents(r@) =~= all);
        assert(all.take(all.len() as int) =~= all);
    }
    r
}

/// What a buffer holds once `len` bytes at `off` have been moved to its front.
pub open spec fn moved_to_front(buf: Seq<u8>, off: int, len: int) -> Seq<u8> {
    Seq::new(
        buf.len(),
        |i: int|
            if i < len {
                buf[off + i]
            } else {
                buf[i]
            },
    )
}

/// Moves `len` bytes at `off` to the front of a buffer.
fn move_to_front(buf: &mut Buffer, off: usize, len: usize)
    requires
        off + len <= BUF_SIZE,
    ensures
        final(buf)@ == moved_to_front(old(buf)@, off as int, len as int),
{
    let mut i: usize = 0;
    while i < len
        invariant
            i <= len,
            off + len <= BUF_SIZE,
            buf@.len() == BUF_SIZE,
            old(buf)@.len() == BUF_SIZE,
            forall|j: int| 0 <= j < i ==> buf@[j] == old(buf)@[off + j],
            forall|j: int| i <= j < BUF_SIZE ==> buf@[j] == old(buf)@[j],
        decreases len - i,
    {
        let b: u8 = buf[off + i];
        buf[i] = b;
        i = i + 1;
    }
    assert(buf@ =~= moved_to_front(old(buf)@, off as int, len as int));
}

/// What came of an attempt to send.
#[derive(Clone, Copy, Debug, PartialEq, Eq, Structural)]
pub enum WriteEvent {
    /// So many bytes were taken.
    Wrote(usize),
    /// Nothing can be taken now.
    WouldBlock,
    /// The connection is broken.
    Failed,
}

/// What to do next with a connection that was sending.
pub enum WriteOutcome {
    /// Send on.
    Again(ConnState),
    /// Everything is out; go on with the first `used` bytes of the buffer.
    DoneReading { buf: Buffer, used: usize },
    /// Wait until more can be sent.
    Wait(ConnState),
    /// Close the connection; its buffer is free.
    Closed(Buffer),
}

/// Everything is out: what was left over is next, then the peer's next request if the connection
/// lives.
pub open spec fn all_sent(
    outcome: WriteOutcome,
    buf: Buffer,
    leftover_off: usize,
    leftover_len: usize,
    keep_alive: bool,
) -> bool {
    if leftover_len > 0 {
        outcome matches WriteOutcome::DoneReading { buf: next, used } && used == leftover_len
            && next@ == moved_to_front(buf@, leftover_off as int, leftover_len as int)
    } else if keep_alive {
        outcome == (WriteOutcome::DoneReading { buf, used: 0 })
    } else {
        outcome == WriteOutcome::Closed(buf)
    }
}

/// What to do with a connection that has sent `written` bytes of its responses in all.
pub open spec fn progress(outcome: WriteOutcome, state: ConnState, now: int) -> bool {
    match state {
        ConnState::Reading { buf, used } => outcome == WriteOutcome::Closed(buf),
        ConnState::Writing { buf, responses, written, leftover_off, leftover_len, keep_alive } => {
            if now >= conn::total_length(responses@) {
                all_sent(outcome, buf, leftover_off, leftover_len, keep_alive)
            } else {
                outcome == WriteOutcome::Again(
                    ConnState::Writing {
                        buf,
                        responses,
                        written: now as usize,
                        leftover_off,
                        leftover_len,
                        keep_alive,
                    },
                )
            }
        },
    }
}

/// The bytes that the connection has sent.
pub open spec fn written_of(state: ConnState) -> int {
    match state {
        ConnState::Reading { buf, used } => 0,
        ConnState::Writing { buf, responses, written, .. } => written as int,
    }
}

/// The responses that the connection is sending.
pub open spec fn responses_of(state: ConnState) -> Seq<&'static [u8]> {
    match state {
        ConnState::Reading { buf, used } => Seq::empty(),
        ConnState::Writing { buf, responses, .. } => responses@,
    }
}

/// Everything is out.
fn finish_sent(buf: Buffer, leftover_off: usize, leftover_len: usize, keep_alive: bool) -> (r:
    WriteOutcome)
    requires
        leftover_off + leftover_len <= BUF_SIZE,
    ensures
        all_sent(r, buf, leftover_off, leftover_len, keep_alive),
{
    if leftover_len > 0 {
        let mut next = buf;
        move_to_front(&mut next, leftover_off, leftover_len);
        return WriteOutcome::DoneReading { buf: next, used: leftover_len };
    }
    if keep_alive {
        return WriteOutcome::DoneReading { buf, used: 0 };
    }
    WriteOutcome::Closed(buf)
}

/// Decides what to do once an attempt to send has brought `event`; before the first attempt, `event`
/// is that nothing was taken.
pub fn finish_write(state: ConnState, event: WriteEvent) -> (r: WriteOutcome)
    requires
        state.wf(),
        conn::total_length(responses_of(state)) <= usize::MAX,
    ensures
        match event {
            WriteEvent::Wrote(count) => progress(r, state, written_of(state) + count),
            WriteEvent::WouldBlock => if state is Writing {
                r == WriteOutcome::Wait(state)
            } else {
                r == WriteOutcome::Closed(state.buffer())
            },
            WriteEvent::Failed => r == WriteOutcome::Closed(state.buffer()),
        },
        r matches WriteOutcome::Again(next) ==> next.wf(),
        r matches WriteOutcome::Wait(next) ==> next.wf(),
        r matches WriteOutcome::DoneReading { buf, used } ==> used <= BUF_SIZE,
{
    match state {
        ConnState::Reading { buf, .. } => WriteOutcome::Closed(buf),
        ConnState::Writing { buf, responses, written, leftover_off, leftover_len, keep_alive } => {
            match event {
                WriteEvent::Wrote(count) => {
                    let total: usize = conn::total_len(&responses);
                    if written >= total || count >= total - written {
                        return finish_sent(buf, leftover_off, leftover_len, keep_alive);
                    }
                    WriteOutcome::Again(
                        ConnState::Writing {
                            buf,
                            responses,
                            written: written + count,
                            leftover_off,
                            leftover_len,
                            keep_alive,
                        },
                    )
                },
                WriteEvent::WouldBlock => WriteOutcome::Wait(
                    ConnState::Writing {
                        buf,
                        responses,
                        written,
                        leftover_off,
                        leftover_len,
                        keep_alive,
                    },
                ),
                WriteEvent::Failed => WriteOutcome::Closed(buf),
            }
        },
    }
}

/// The token of the socket on which the load balancer connects.
pub const LISTENER_TOKEN: u64 = 0xffff_ffff_ffff_ffff;

/// The token of the load balancer's connection.
pub const CONTROL_TOKEN: u64 = 0xffff_ffff_ffff_fffe;

pub const EPOLLIN: u32 = 0x1;

pub const EPOLLOUT: u32 = 0x4;

pub const EPOLLERR: u32 = 0x8;

pub const EPOLLHUP: u32 = 0x10;

pub const EPOLLRDHUP: u32 = 0x2000;

/// The flag that asks to be told of changes only.
pub const EPOLLET: u32 = 0x8000_0000;

/// What an event asks for.
#[derive(Clone, Copy, Debug, PartialEq, Eq, Structural)]
pub enum EventAction {
    /// Accept a connection of the load balancer.
    Accept,
    /// Take in descriptors, and then close the connection, as told.
    Control { drain: bool, hangup: bool },
    /// Close the client's connection.
    CloseClient,
    /// Read from the client, and then send to it, as told.
    Client { readable: bool, writable: bool },
}

/// One of the flags of `mask` is set.
pub open spec fn any_flag(flags: u32, mask: u32) -> bool {
    flags & mask != 0
}

/// What an event asks for.
pub open spec fn action_for(token: u64, flags: u32) -> EventAction {
    if token == LISTENER_TOKEN {
        EventAction::Accept
    } else if token == CONTROL_TOKEN {
        EventAction::Control {
            drain: any_flag(flags, EPOLLIN),
            hangup: any_flag(flags, EPOLLHUP | EPOLLERR),
        }
    } else if any_flag(flags, EPOLLHUP | EPOLLERR | EPOLLRDHUP) {
        EventAction::CloseClient
    } else {
        EventAction::Client {
            readable: any_flag(flags, EPOLLIN),
            writable: any_flag(flags, EPOLLOUT),
        }
    }
}

/// Decides what an event asks for.
pub fn classify_event(token: u64, flags: u32) -> (r: EventAction)
    ensures
        r == action_for(token, flags),
{
    if token == LISTENER_TOKEN {
        EventAction::Accept
    } else if token == CONTROL_TOKEN {
        EventAction::Control {
            drain: flags & EPOLLIN != 0,
            hangup: flags & (EPOLLHUP | EPOLLERR) != 0,
        }
    } else if flags & (EPOLLHUP | EPOLLERR | EPOLLRDHUP) != 0 {
        EventAction::CloseClient
    } else {
        EventAction::Client { readable: flags & EPOLLIN != 0, writable: flags & EPOLLOUT != 0 }
    }
}

/// What a client's event asks for goes by its bits: an error, a hangup or a half-closed connection
/// closes it, and otherwise it is read from and sent to as the lowest and the third bit say. An event of
/// the load balancer's connection hangs up at an error or a hangup.
pub proof fn law_events_go_by_their_bits(token: u64, flags: u32)
    ensures
        ({
            let input = flags % 2 == 1;
            let output = (flags / 4) % 2 == 1;
            let error = (flags / 8) % 2 == 1;
            let hangup = (flags / 16) % 2 == 1;
            let half_closed = (flags / 8192) % 2 == 1;
            action_for(token, flags) == if token == 0xffff_ffff_ffff_ffff {
                EventAction::Accept
            } else if token == 0xffff_ffff_ffff_fffe {
                EventAction::Control { drain: input, hangup: hangup || error }
            } else if error || hangup || half_closed {
                EventAction::CloseClient
            } else {
                EventAction::Client { readable: input, writable: output }
            }
        }),
{
    assert(flags & 0x1 != 0 <==> flags % 2 == 1) by (bit_vector);
    assert(flags & 0x4 != 0 <==> (flags / 4) % 2 == 1) by (bit_vector);
    assert(flags & (0x10u32 | 0x8u32) != 0 <==> (flags / 8) % 2 == 1 || (flags / 16) % 2 == 1)
        by (bit_vector);
    assert(flags & (0x10u32 | 0x8u32 | 0x2000u32) != 0 <==> (flags / 8) % 2 == 1 || (flags / 16) % 2 == 1 || (
    flags / 8192) % 2 == 1) by (bit_vector);
}

/// A connection that sends goes on with everything as it was until all is out. It is then closed if and
/// only if nothing came in behind the requests that were answered and it is not to be kept; otherwise
/// what came in behind them, and nothing else, is what is read first.
pub proof fn law_what_came_in_behind_is_read_next(
    outcome: WriteOutcome,
    buf: Buffer,
    responses: Vec<&'static [u8]>,
    written: usize,
    leftover_off: usize,
    leftover_len: usize,
    keep_alive: bool,
    now: int,
)
    requires
        leftover_off + leftover_len <= BUF_SIZE,
        0 <= now <= usize::MAX,
        progress(
            outcome,
            ConnState::Writing { buf, responses, written, leftover_off, leftover_len, keep_alive },
            now,
        ),
    ensures
        outcome is Again <==> now < joined(contents(responses@)).len(),
        outcome matches WriteOutcome::Again(next) ==> next == (ConnState::Writing {
            buf,
            responses,
            written: now as usize,
            leftover_off,
            leftover_len,
            keep_alive,
        }),
        outcome is Closed <==> now >= joined(contents(responses@)).len() && leftover_len == 0
            && !keep_alive,
        outcome !is Wait,
        outcome matches WriteOutcome::DoneReading { buf: next, used } ==> next@.take(used as int)
            == buf@.subrange(leftover_off as int, leftover_off + leftover_len),
{
    lemma_total_length(responses@);
    if let WriteOutcome::DoneReading { buf: next, used } = outcome {
        assert(next@.take(used as int) =~= buf@.subrange(
            leftover_off as int,
            leftover_off + leftover_len,
        ));
    }
}

/// What to do when waiting for events has come back.
#[derive(Clone, Copy, Debug, PartialEq, Eq, Structural)]
pub enum LoopStep {
    /// Deal with so many events.
    Handle(usize),
    /// Wait again.
    Again,
    /// Give up.
    Stop,
}

/// Decides what to do when waiting has come back with `ready`; a failed wait that was only
/// interrupted is repeated.
pub fn after_wait(ready: i32, interrupted: bool) -> (r: LoopStep)
    ensures
        r == (if ready > 0 {
            LoopStep::Handle(ready as usize)
        } else if ready == 0 || interrupted {
            LoopStep::Again
        } else {
            LoopStep::Stop
        }),
{
    if ready < 0 {
        if interrupted {
            LoopStep::Again
        } else {
            LoopStep::Stop
        }
    } else if ready == 0 {
        LoopStep::Again
    } else {
        LoopStep::Handle(ready as usize)
    }
}

/// What to do with a connection of the load balancer that was accepted.
#[derive(Clone, Copy, Debug, PartialEq, Eq, Structural)]
pub enum AcceptStep {
    /// Take it as the connection on which descriptors come, and accept on if told.
    Adopt { go_on: bool },
    /// Close it: there is one already.
    Refuse,
}

/// Another connection may be accepted. A budget that is not positive sets no limit here.
pub open spec fn may_accept(budget: i32, accepted: int) -> bool {
    budget <= 0 || accepted < budget
}

/// Tells whether another connection may be accepted.
pub fn accepts_more(budget: i32, accepted: i32) -> (r: bool)
    ensures
        r == may_accept(budget, accepted as int),
{
    !(budget > 0 && accepted >= budget)
}

/// Decides what to do with an accepted connection. Without a budget, at most one is taken at a time.
pub fn accept_control(budget: i32, has_control: bool) -> (r: AcceptStep)
    ensures
        r == (if has_control {
            AcceptStep::Refuse
        } else {
            AcceptStep::Adopt { go_on: budget > 0 }
        }),
{
    if has_control {
        AcceptStep::Refuse
    } else {
        AcceptStep::Adopt { go_on: budget > 0 }
    }
}

/// Tells whether a client's descriptor is served.
pub fn admits(fd: i32) -> (r: bool)
    ensures
        r == (conn::slot_of(fd as int) is Some),
{
    fd >= 0 && (fd as usize) < MAX_CLIENT_FD
}

/// How to tell the kernel what is watched of a descriptor.
#[derive(Clone, Copy, Debug, PartialEq, Eq, Structural)]
pub enum ArmAction {
    Nothing,
    Modify,
    Add,
}

impl ConnTable {
    /// Takes out a connection that is reading; any other stays as it is.
    pub fn take_reading(&mut self, fd: i32) -> (r: Option<(Buffer, usize)>)
        requires
            old(self).wf(),
        ensures
            final(self).wf(),
            final(self).epoll_interest == old(self).epoll_interest,
            final(self).buf_pool == old(self).buf_pool,
            final(self).buf_pool_cap == old(self).buf_pool_cap,
            match old(self).state_at(fd as int) {
                Some(ConnState::Reading { buf, used }) => r == Some((buf, used))
                    && final(self).slots@ == old(self).slots@.update(fd as int, None),
                _ => r is None && final(self).slots@ == old(self).slots@,
            },
            r matches Some((buf, used)) ==> used <= BUF_SIZE,
    {
        match self.remove(fd) {
            Some(ConnState::Reading { buf, used }) => Some((buf, used)),
            Some(other) => {
                self.insert(fd, other);
                assert(self.slots@ =~= old(self).slots@);
                None
            },
            None => {
                assert(self.slots@ =~= old(self).slots@);
                None
            },
        }
    }

    /// Takes out a connection that is sending; any other stays as it is.
    pub fn take_writing(&mut self, fd: i32) -> (r: Option<ConnState>)
        requires
            old(self).wf(),
        ensures
            final(self).wf(),
            final(self).epoll_interest == old(self).epoll_interest,
            final(self).buf_pool == old(self).buf_pool,
            final(self).buf_pool_cap == old(self).buf_pool_cap,
            match old(self).state_at(fd as int) {
                Some(ConnState::Writing { .. }) => r == old(self).state_at(fd as int)
                    && final(self).slots@ == old(self).slots@.update(fd as int, None),
                _ => r is None && final(self).slots@ == old(self).slots@,
            },
            r matches Some(state) ==> state.wf(),
    {
        match self.remove(fd) {
            Some(state) => {
                let writing: bool = match &state {
                    ConnState::Writing { .. } => true,
                    ConnState::Reading { .. } => false,
                };
                if writing {
                    Some(state)
                } else {
                    self.insert(fd, state);
                    assert(self.slots@ =~= old(self).slots@);
                    None
                }
            },
            None => {
                assert(self.slots@ =~= old(self).slots@);
                None
            },
        }
    }

    /// Notes that `events` are watched of `fd`, and decides how to tell the kernel.
    pub fn arm(&mut self, fd: i32, events: i32) -> (r: ArmAction)
        requires
            old(self).wf(),
        ensures
            final(self).wf(),
            final(self).slots == old(self).slots,
            final(self).buf_pool == old(self).buf_pool,
            final(self).buf_pool_cap == old(self).buf_pool_cap,
            final(self).epoll_interest@ == (if conn::slot_of(fd as int) is Some {
                old(self).epoll_interest@.update(fd as int, Some(events))
            } else {
                old(self).epoll_interest@
            }),
            r == (match old(self).interest_at(fd as int) {
                Some(watched) => if watched == events {
                    ArmAction::Nothing
                } else {
                    ArmAction::Modify
                },
                None => ArmAction::Add,
            }),
    {
        match self.epoll_interest(fd) {
            Some(watched) => {
                if watched == events {
                    assert(self.epoll_interest@ =~= old(self).epoll_interest@.update(
                        fd as int,
                        Some(events),
                    ));
                    return ArmAction::Nothing;
                }
                self.set_epoll_interest(fd, Some(events));
                ArmAction::Modify
            },
            None => {
                self.set_epoll_interest(fd, Some(events));
                ArmAction::Add
            },
        }
    }

    /// Notes that nothing is watched of `fd` any more, and tells whether something was.
    pub fn disarm(&mut self, fd: i32) -> (r: bool)
        requires
            old(self).wf(),
        ensures
            final(self).wf(),
            final(self).slots == old(self).slots,
            final(self).buf_pool == old(self).buf_pool,
            final(self).buf_pool_cap == old(self).buf_pool_cap,
            final(self).interest_at(fd as int) is None,
            forall|other: int| other != fd ==> final(self).interest_at(other) == old(
                self,
            ).interest_at(other),
            r == (old(self).interest_at(fd as int) is Some),
    {
        if self.epoll_interest(fd).is_some() {
            self.set_epoll_interest(fd, None);
            true
        } else {
            false
        }
    }

    /// Forgets a connection and keeps its buffer, if there is room for it.
    pub fn forget(&mut self, fd: i32)
        requires
            old(self).wf(),
        ensures
            final(self).wf(),
            final(self).epoll_interest == old(self).epoll_interest,
            final(self).buf_pool_cap == old(self).buf_pool_cap,
            final(self).state_at(fd as int) is None,
            forall|other: int| other != fd ==> final(self).state_at(other) == old(self).state_at(
                other,
            ),
            final(self).buf_pool@ == (match old(self).state_at(fd as int) {
                Some(state) => if old(self).buf_pool@.len() < old(self).buf_pool_cap {
                    old(self).buf_pool@.push(state.buffer())
                } else {
                    old(self).buf_pool@
                },
                None => old(self).buf_pool@,
            }),
    {
        if let Some(state) = self.remove(fd) {
            self.recycle_conn_state_buf(state);
        }
    }
}

} // verus!
