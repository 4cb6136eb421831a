//! How events are waited for.

use vstd::prelude::*;

use crate::fd_passing::evented::EPOLLET;
use crate::settings;

verus! {

/// What the kernel is told about polling.
pub struct EpollParams {
    pub busy_poll_usecs: u32,
    pub busy_poll_budget: u16,
    pub prefer_busy_poll: u8,
    pub _pad: u8,
}

/// How the kernel is to poll; nothing unless polling is enabled, or where the time to poll is set to
/// zero.
pub fn busy_poll_params(
    enabled: Option<&str>,
    busy_poll_us: Option<&str>,
    budget: Option<&str>,
    prefer: Option<&str>,
) -> (r: Option<EpollParams>)
    ensures
        ({
            let us = settings::unsigned_or(settings::said(busy_poll_us), u32::MAX as nat, 100);
            if us == 0 || !settings::switched_on(settings::said(enabled)) {
                r is None
            } else {
                r matches Some(params) && params.busy_poll_usecs == us && params.busy_poll_budget
                    == settings::unsigned_or(settings::said(budget), u16::MAX as nat, 8)
                    && params.prefer_busy_poll == settings::unsigned_or(
                    settings::said(prefer),
                    u8::MAX as nat,
                    1,
                ) && params._pad == 0
            }
        }),
{
    let us: u64 = settings::number_or(busy_poll_us, u32::MAX as u64, 100);
    if us == 0 || !settings::is_switched_on(enabled) {
        return None;
    }
    Some(
        EpollParams {
            busy_poll_usecs: us as u32,
            busy_poll_budget: settings::number_or(budget, u16::MAX as u64, 8) as u16,
            prefer_busy_poll: settings::number_or(prefer, u8::MAX as u64, 1) as u8,
            _pad: 0,
        },
    )
}

/// How long to wait for events, in microseconds: what is set in microseconds, or else what is set
/// in milliseconds, unless it is negative; 1000 where nothing is set. No longer than can be counted.
pub open spec fn idle_us(us: Option<Seq<char>>, ms: Option<Seq<char>>) -> int {
    let from_us = settings::signed_value(us, i64::MAX as int);
    let from_ms = settings::signed_value(ms, i64::MAX as int);
    if from_us is Some && from_us.unwrap() >= 0 {
        from_us.unwrap()
    } else if from_ms is Some && from_ms.unwrap() >= 0 {
        if from_ms.unwrap() * 1000 <= i64::MAX {
            from_ms.unwrap() * 1000
        } else {
            i64::MAX as int
        }
    } else {
        1000
    }
}

/// How long to wait for events, in microseconds.
pub fn epoll_idle_us(us: Option<&str>, ms: Option<&str>) -> (r: i64)
    ensures
        r == idle_us(settings::said(us), settings::said(ms)),
{
    if let Some(value) = settings::signed_number(us, i64::MAX) {
        if value >= 0 {
            return value;
        }
    }
    if let Some(value) = settings::signed_number(ms, i64::MAX) {
        if value >= 0 {
            return if value <= i64::MAX / 1000 {
                value * 1000
            } else {
                i64::MAX
            };
        }
    }
    1000
}

/// How long to look for events before waiting, in microseconds; not at all where nothing is set.
pub fn spin_before_block_us(value: Option<&str>) -> (r: u32)
    ensures
        r == settings::unsigned_or(settings::said(value), u32::MAX as nat, 0),
{
    settings::number_or(value, u32::MAX as u64, 0) as u32
}

/// Tells whether only changes are reported: unless it is set to `0`.
pub fn epoll_edge_enabled(value: Option<&str>) -> (r: bool)
    ensures
        r == (settings::said(value) != Some("0"@)),
{
    !settings::is_zero_text(value)
}

/// How many descriptors are taken in at a time where nothing else is set.
pub const RECV_FD_BUDGET_DEFAULT: i32 = 32;

/// How many descriptors are taken in at a time: the number that is set where it is positive.
pub fn recv_fd_budget(value: Option<&str>) -> (r: i32)
    ensures
        r == (match settings::signed_value(settings::said(value), i32::MAX as int) {
            Some(n) => if n > 0 {
                n
            } else {
                RECV_FD_BUDGET_DEFAULT as int
            },
            None => RECV_FD_BUDGET_DEFAULT as int,
        }),
        r > 0,
{
    match settings::signed_number(value, i32::MAX as i64) {
        Some(n) => {
            if n > 0 {
                n as i32
            } else {
                RECV_FD_BUDGET_DEFAULT
            }
        },
        None => RECV_FD_BUDGET_DEFAULT,
    }
}

/// How many connections of the load balancer are accepted at a time; 0, which is the default, stands
/// for one.
pub fn accept_budget(value: Option<&str>) -> (r: i32)
    ensures
        r == (match settings::signed_value(settings::said(value), i32::MAX as int) {
            Some(n) => n,
            None => 0,
        }),
{
    match settings::signed_number(value, i32::MAX as i64) {
        Some(n) => n as i32,
        None => 0,
    }
}

/// Tells whether clients' descriptors come with their options set: where that is switched on.
pub fn client_fd_preconfigured(value: Option<&str>) -> (r: bool)
    ensures
        r == settings::switched_on(settings::said(value)),
{
    settings::is_switched_on(value)
}

/// The flags to register for `base`.
pub fn epoll_events(base: u32, edge: bool) -> (r: u32)
    ensures
        r == (if edge {
            base | EPOLLET
        } else {
            base
        }),
{
    if edge {
        base | EPOLLET
    } else {
        base
    }
}

/// A waiting time in whole seconds and the nanoseconds beyond them, both with the time's sign.
pub fn split_timeout(timeout_us: i64) -> (r: (i64, i64))
    ensures
        -1_000_000_000 < r.1 < 1_000_000_000,
        timeout_us >= 0 ==> r.0 >= 0 && r.1 >= 0,
        timeout_us <= 0 ==> r.0 <= 0 && r.1 <= 0,
        r.0 * 1_000_000_000 + r.1 == timeout_us * 1000,
{
    (timeout_us / 1_000_000, (timeout_us % 1_000_000) * 1_000)
}

/// A waiting time in milliseconds, rounded up: at least one, and no longer than can be counted.
pub open spec fn whole_ms(timeout_us: int) -> int {
    let ms = (timeout_us + 999) / 1000;
    if ms < 1 {
        1
    } else if ms > i32::MAX {
        i32::MAX as int
    } else {
        ms
    }
}

/// A waiting time in milliseconds.
pub fn timeout_in_ms(timeout_us: i64) -> (r: i32)
    ensures
        r == whole_ms(timeout_us as int),
        0 < timeout_us <= 2_147_483_000_000 ==> (r - 1) * 1000 < timeout_us <= r * 1000,
{
    if timeout_us <= 0 {
        return 1;
    }
    if timeout_us > 2_147_483_647_000 {
        return i32::MAX;
    }
    ((timeout_us + 999) / 1_000) as i32
}

} // verus!
