use rinha_rust_tree::fd_passing::conn::buf_pool_size;
use rinha_rust_tree::fd_passing::conn::ConnState;
use rinha_rust_tree::fd_passing::conn::ConnTable;
use rinha_rust_tree::fd_passing::conn::ResponseBatch;
use rinha_rust_tree::fd_passing::conn::MAX_CLIENT_FD;
use rinha_rust_tree::fd_passing::conn::MAX_PIPELINED_RESPONSES;
use rinha_rust_tree::fd_passing::epoll;
use rinha_rust_tree::fd_passing::evented;
use rinha_rust_tree::fd_passing::evented::AcceptStep;
use rinha_rust_tree::fd_passing::evented::ArmAction;
use rinha_rust_tree::fd_passing::evented::EventAction;
use rinha_rust_tree::fd_passing::evented::LoopStep;
use rinha_rust_tree::fd_passing::evented::ReadPlan;
use rinha_rust_tree::fd_passing::evented::WriteEvent;
use rinha_rust_tree::fd_passing::evented::WriteOutcome;
use rinha_rust_tree::fd_passing::io;
use rinha_rust_tree::fd_passing::io::ReadEvent;
use rinha_rust_tree::fd_passing::io::ReadOutcome;
use rinha_rust_tree::fd_passing::io::ReadStep;
use rinha_rust_tree::http::parser::assume_keep_alive;
use rinha_rust_tree::http::parser::BUF_SIZE;
use rinha_rust_tree::http::responses;
use rinha_rust_tree::http::Request;

fn filled(data: &[u8]) -> Box<[u8; BUF_SIZE]> {
    let mut buf = Box::new([0u8; BUF_SIZE]);
    buf[..data.len()].copy_from_slice(data);
    buf
}

fn answer(req: &Request) -> &'static [u8] {
    if req.path == b"/ready" {
        responses::RESPONSE_READY.as_bytes()
    } else {
        responses::RESPONSE_FRAUD_1.as_bytes()
    }
}

const READY: &[u8] = b"GET /ready HTTP/1.1\r\n\r\n";

fn writing(responses: Vec<&'static [u8]>, leftover: &[u8], keep_alive: bool) -> ConnState {
    let mut buf = Box::new([0u8; BUF_SIZE]);
    buf[100..100 + leftover.len()].copy_from_slice(leftover);
    ConnState::Writing {
        buf,
        responses,
        written: 0,
        leftover_off: 100,
        leftover_len: leftover.len(),
        keep_alive,
    }
}

#[test]
fn buffers_come_from_the_pool_and_go_back_to_it() {
    let mut table = ConnTable::new(2);
    assert_eq!(table.buf_pool.len(), 2);
    let first = table.alloc_buf();
    let second = table.alloc_buf();
    let third = table.alloc_buf();
    assert_eq!(table.buf_pool.len(), 0);
    table.recycle_buf(first);
    table.recycle_buf(second);
    table.recycle_buf(third);
    assert_eq!(table.buf_pool.len(), 2);
}

#[test]
fn connections_are_kept_by_descriptor() {
    let mut table = ConnTable::new(1);
    let buf = table.alloc_buf();
    table.insert(7, ConnState::Reading { buf, used: 3 });
    assert!(table.take_writing(7).is_none());
    assert!(table.take_reading(8).is_none());
    let (buf, used) = table.take_reading(7).unwrap();
    assert_eq!(used, 3);
    assert!(table.take_reading(7).is_none());
    table.insert(7, ConnState::Reading { buf, used });
    table.forget(7);
    assert!(table.remove(7).is_none());
    assert_eq!(table.buf_pool.len(), 1);
}

#[test]
fn the_kernel_is_told_of_changes_only() {
    let mut table = ConnTable::new(0);
    assert_eq!(table.arm(5, 1), ArmAction::Add);
    assert_eq!(table.arm(5, 1), ArmAction::Nothing);
    assert_eq!(table.arm(5, 4), ArmAction::Modify);
    assert_eq!(table.epoll_interest(5), Some(4));
    assert!(table.disarm(5));
    assert!(!table.disarm(5));
    assert_eq!(table.arm(5, 4), ArmAction::Add);
}

#[test]
fn batches_hold_a_limited_number_of_responses() {
    let mut batch = ResponseBatch::new();
    assert!(batch.is_empty());
    for _ in 0..MAX_PIPELINED_RESPONSES {
        assert!(batch.push(b"ab"));
    }
    assert!(!batch.push(b"ab"));
    assert_eq!(batch.as_slice().len(), MAX_PIPELINED_RESPONSES);
    assert_eq!(batch.total_len(), 2 * MAX_PIPELINED_RESPONSES);
    assert_eq!(ResponseBatch::single(b"xyz").total_len(), 3);
}

#[test]
fn all_whole_requests_of_a_buffer_are_answered() {
    let mut data = READY.to_vec();
    data.extend_from_slice(b"POST /fraud-score HTTP/1.1\r\nContent-Length: 2\r\n\r\n{}");
    data.extend_from_slice(b"GET /rea");
    match evented::drive_reading(&filled(&data), data.len(), false, &answer) {
        ReadPlan::Write { responses: sent, leftover_off, leftover_len, keep_alive } => {
            assert_eq!(
                sent,
                vec![responses::RESPONSE_READY.as_bytes(), responses::RESPONSE_FRAUD_1.as_bytes()]
            );
            assert_eq!(leftover_off, data.len() - 8);
            assert_eq!(leftover_len, 8);
            assert!(keep_alive);
        }
        ReadPlan::Read => panic!("there are whole requests"),
    }
}

#[test]
fn requests_may_come_in_pieces() {
    let data = [READY, READY].concat();
    for cut in 0..data.len() {
        let mut answers = 0;
        let mut rest = data[..cut].to_vec();
        for piece in [&data[cut..], b""] {
            if let ReadPlan::Write { responses: sent, leftover_off, .. } =
                evented::drive_reading(&filled(&rest), rest.len(), false, &answer)
            {
                answers += sent.len();
                rest = rest[leftover_off..].to_vec();
            }
            rest.extend_from_slice(piece);
        }
        assert_eq!(answers, 2);
        assert!(rest.is_empty());
    }
}

#[test]
fn a_refused_request_ends_the_connection() {
    let mut data = READY.to_vec();
    data.extend_from_slice(b"GET /missing HTTP/1.1\r\n\r\nGET /ready HTTP/1.1\r\n\r\n");
    match evented::drive_reading(&filled(&data), data.len(), false, &answer) {
        ReadPlan::Write { responses: sent, leftover_len, keep_alive, .. } => {
            assert_eq!(
                sent,
                vec![
                    responses::RESPONSE_READY.as_bytes(),
                    responses::RESPONSE_NOT_FOUND.as_bytes()
                ]
            );
            assert_eq!(leftover_len, 0);
            assert!(!keep_alive);
        }
        ReadPlan::Read => panic!("the request is refused"),
    }
}

#[test]
fn a_full_buffer_is_refused_and_a_part_of_a_request_waits() {
    match evented::drive_reading(&filled(&[b'x'; BUF_SIZE]), BUF_SIZE, false, &answer) {
        ReadPlan::Write { responses: sent, keep_alive, .. } => {
            assert_eq!(sent, vec![responses::RESPONSE_BAD_REQUEST.as_bytes()]);
            assert!(!keep_alive);
        }
        ReadPlan::Read => panic!("the buffer is full"),
    }
    assert!(matches!(
        evented::drive_reading(&filled(b"GET "), 4, false, &answer),
        ReadPlan::Read
    ));
}

#[test]
fn what_is_still_to_be_sent_starts_inside_a_response() {
    let all: [&'static [u8]; 3] = [b"abc", b"", b"defg"];
    assert_eq!(evented::build_iovecs(&all, 0, 8), vec![&b"abc"[..], &b"defg"[..]]);
    assert_eq!(evented::build_iovecs(&all, 5, 8), vec![&b"fg"[..]]);
    assert_eq!(evented::build_iovecs(&all, 1, 1), vec![&b"bc"[..]]);
    assert!(evented::build_iovecs(&all, 7, 8).is_empty());
}

#[test]
fn sending_goes_on_until_everything_is_out() {
    let state = match evented::finish_write(
        writing(vec![b"abc", b"de"], b"GET", true),
        WriteEvent::Wrote(4),
    ) {
        WriteOutcome::Again(state) => state,
        _ => panic!("one byte is left"),
    };
    let state = match evented::finish_write(state, WriteEvent::WouldBlock) {
        WriteOutcome::Wait(state) => state,
        _ => panic!("nothing can be sent now"),
    };
    match evented::finish_write(state, WriteEvent::Wrote(1)) {
        WriteOutcome::DoneReading { buf, used } => {
            assert_eq!(used, 3);
            assert_eq!(&buf[..3], b"GET");
        }
        _ => panic!("everything is out"),
    }
}

#[test]
fn connections_close_when_they_are_done_or_broken() {
    assert!(matches!(
        evented::finish_write(writing(vec![b"abc"], b"", false), WriteEvent::Wrote(3)),
        WriteOutcome::Closed(_)
    ));
    assert!(matches!(
        evented::finish_write(writing(vec![b"abc"], b"", true), WriteEvent::Wrote(3)),
        WriteOutcome::DoneReading { used: 0, .. }
    ));
    assert!(matches!(
        evented::finish_write(writing(vec![b"abc"], b"", true), WriteEvent::Failed),
        WriteOutcome::Closed(_)
    ));
}

#[test]
fn events_are_told_apart_by_token_and_flags() {
    assert_eq!(evented::classify_event(evented::LISTENER_TOKEN, 1), EventAction::Accept);
    assert_eq!(
        evented::classify_event(evented::CONTROL_TOKEN, evented::EPOLLIN | evented::EPOLLHUP),
        EventAction::Control { drain: true, hangup: true }
    );
    assert_eq!(
        evented::classify_event(9, evented::EPOLLRDHUP | evented::EPOLLIN),
        EventAction::CloseClient
    );
    assert_eq!(
        evented::classify_event(9, evented::EPOLLOUT),
        EventAction::Client { readable: false, writable: true }
    );
    assert_eq!(evented::after_wait(3, false), LoopStep::Handle(3));
    assert_eq!(evented::after_wait(0, false), LoopStep::Again);
    assert_eq!(evented::after_wait(-1, true), LoopStep::Again);
    assert_eq!(evented::after_wait(-1, false), LoopStep::Stop);
}

#[test]
fn one_control_connection_is_taken() {
    assert_eq!(evented::accept_control(0, false), AcceptStep::Adopt { go_on: false });
    assert_eq!(evented::accept_control(4, false), AcceptStep::Adopt { go_on: true });
    assert_eq!(evented::accept_control(4, true), AcceptStep::Refuse);
    assert!(evented::accepts_more(0, 1000));
    assert!(!evented::accepts_more(4, 4));
    assert!(evented::admits(0) && !evented::admits(-1));
    assert!(!evented::admits(MAX_CLIENT_FD as i32));
}

#[test]
fn reading_goes_on_until_nothing_more_comes() {
    assert_eq!(io::greedy_read(0, ReadEvent::Got(10)), ReadStep::More(10));
    assert_eq!(
        io::greedy_read(10, ReadEvent::Got(BUF_SIZE - 10)),
        ReadStep::Done(ReadOutcome::Data(BUF_SIZE))
    );
    assert_eq!(io::greedy_read(10, ReadEvent::WouldBlock), ReadStep::Done(ReadOutcome::Data(10)));
    assert_eq!(io::greedy_read(10, ReadEvent::End), ReadStep::Done(ReadOutcome::Data(10)));
    assert_eq!(io::greedy_read(0, ReadEvent::WouldBlock), ReadStep::Done(ReadOutcome::WouldBlock));
    assert_eq!(io::greedy_read(0, ReadEvent::End), ReadStep::Done(ReadOutcome::Closed));
    assert_eq!(io::greedy_read(10, ReadEvent::Failed), ReadStep::Done(ReadOutcome::Closed));
    assert!(io::socket_path_fits(&[b'x'; 107]));
    assert!(!io::socket_path_fits(&[b'x'; 108]) && !io::socket_path_fits(b""));
}

#[test]
fn waiting_times_come_from_texts() {
    assert_eq!(epoll::epoll_idle_us(None, None), 1000);
    assert_eq!(epoll::epoll_idle_us(Some("-1"), Some("7")), 7000);
    assert_eq!(epoll::epoll_idle_us(Some("250"), Some("7")), 250);
    assert_eq!(epoll::spin_before_block_us(None), 0);
    assert_eq!(epoll::spin_before_block_us(Some("30")), 30);
    assert!(epoll::epoll_edge_enabled(None));
    assert!(!epoll::epoll_edge_enabled(Some("0")));
    assert_eq!(epoll::epoll_events(1, true), 1 | evented::EPOLLET);
    assert_eq!(epoll::epoll_events(1, false), 1);
    assert_eq!(epoll::split_timeout(2_500_001), (2, 500_001_000));
    assert_eq!(epoll::timeout_in_ms(1), 1);
    assert_eq!(epoll::timeout_in_ms(1001), 2);
    assert_eq!(epoll::timeout_in_ms(-1), 1);
    assert_eq!(epoll::timeout_in_ms(i64::MAX), i32::MAX);
    assert_eq!(epoll::epoll_idle_us(None, Some("9223372036854775807")), i64::MAX);
}

#[test]
fn polling_is_configured_where_it_is_enabled() {
    assert!(epoll::busy_poll_params(None, None, None, None).is_none());
    assert!(epoll::busy_poll_params(Some("1"), Some("0"), None, None).is_none());
    let params = epoll::busy_poll_params(Some("1"), None, Some("9"), None).unwrap();
    assert_eq!(params.busy_poll_usecs, 100);
    assert_eq!(params.busy_poll_budget, 9);
    assert_eq!(params.prefer_busy_poll, 1);
}

#[test]
fn budgets_and_switches_come_from_texts() {
    assert_eq!(epoll::recv_fd_budget(None), 32);
    assert_eq!(epoll::recv_fd_budget(Some("0")), 32);
    assert_eq!(epoll::recv_fd_budget(Some("5")), 5);
    assert_eq!(epoll::accept_budget(None), 0);
    assert_eq!(epoll::accept_budget(Some("-2")), -2);
    assert!(!epoll::client_fd_preconfigured(None));
    assert!(epoll::client_fd_preconfigured(Some("1")));
    assert!(!epoll::client_fd_preconfigured(Some("0")));
    assert!(!assume_keep_alive(None) && assume_keep_alive(Some("yes")));
    assert_eq!(buf_pool_size(None), 512);
    assert_eq!(buf_pool_size(Some("3")), 3);
}
