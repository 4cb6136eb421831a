//! Settings of the service, from the texts of environment variables.

use vstd::prelude::*;
use vstd::string::StringExecFns;

use crate::settings;
use crate::text;

verus! {

/// How many queries warm the index up, from `RINHA_WARMUP_QUERIES`.
pub fn warmup_queries(value: Option<&str>) -> (r: usize)
    ensures
        r == settings::unsigned_or(settings::said(value), usize::MAX as nat, 1000),
{
    settings::number_or(value, usize::MAX as u64, 1000) as usize
}

/// How many payloads warm the parser up, from `RINHA_PAYLOAD_WARMUP_REQUESTS`.
pub fn payload_warmup_requests(value: Option<&str>) -> (r: usize)
    ensures
        r == settings::unsigned_or(settings::said(value), usize::MAX as nat, 256),
{
    settings::number_or(value, usize::MAX as u64, 256) as usize
}

/// Whether the service warms itself up over HTTP, from `RINHA_SELF_WARMUP`.
pub fn self_warmup_enabled(value: Option<&str>) -> (r: bool)
    ensures
        r == (settings::said(value) == Some("1"@)),
{
    match value {
        Some(s) => text::same_text(s, "1"),
        None => false,
    }
}

/// Where the service warms itself up, from `RINHA_SELF_WARMUP_URL`; nowhere where it is not set.
pub fn self_warmup_url(value: Option<&str>) -> (r: Option<String>)
    ensures
        match r {
            Some(s) => settings::said(value) == Some(s@),
            None => value is None,
        },
{
    match value {
        Some(s) => Some(String::from_str(s)),
        None => None,
    }
}

/// For how long the service warms itself up, from `RINHA_SELF_WARMUP_DURATION_MS`.
pub fn self_warmup_duration_ms(value: Option<&str>) -> (r: u64)
    ensures
        r == settings::unsigned_or(settings::said(value), u64::MAX as nat, 5000),
{
    settings::number_or(value, u64::MAX, 5000)
}

/// Over how many connections the service warms itself up, from `RINHA_SELF_WARMUP_CONCURRENCY`.
pub fn self_warmup_concurrency(value: Option<&str>) -> (r: usize)
    ensures
        r == (match settings::unsigned_value(settings::said(value), usize::MAX as nat) {
            Some(n) => if n > 0 {
                n
            } else {
                4
            },
            None => 4,
        }),
{
    match settings::unsigned_number(value, usize::MAX as u64) {
        Some(n) => {
            if n > 0 {
                n as usize
            } else {
                4
            }
        },
        None => 4,
    }
}

/// Where the payloads are that warm the service up, from `RINHA_WARMUP_PAYLOADS_PATH`; nowhere
/// where it is not set.
pub fn self_warmup_payloads_path(value: Option<&str>) -> (r: Option<String>)
    ensures
        match r {
            Some(s) => settings::said(value) == Some(s@),
            None => value is None,
        },
{
    match value {
        Some(s) => Some(String::from_str(s)),
        None => None,
    }
}

} // verus!
