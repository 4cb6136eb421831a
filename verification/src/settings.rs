//! Settings that come as text, and what stands in for those that are missing or are no numbers.

use vstd::prelude::*;

use crate::text;

verus! {

/// What a setting says, if it is there.
pub open spec fn said(value: Option<&str>) -> Option<Seq<char>> {
    match value {
        Some(s) => Some(s@),
        None => None,
    }
}

/// The number from 0 to `max` that a setting says, if it says one.
pub open spec fn unsigned_value(value: Option<Seq<char>>, max: nat) -> Option<nat> {
    match value {
        Some(s) => text::unsigned(s, max),
        None => None,
    }
}

/// The number from `-max - 1` to `max` that a setting says, if it says one.
pub open spec fn signed_value(value: Option<Seq<char>>, max: int) -> Option<int> {
    match value {
        Some(s) => text::signed(s, -max - 1, max),
        None => None,
    }
}

/// The number from 0 to `max` that a setting says, or `default`.
pub open spec fn unsigned_or(value: Option<Seq<char>>, max: nat, default: nat) -> nat {
    match unsigned_value(value, max) {
        Some(n) => n,
        None => default,
    }
}

/// The number from 0 to `max` that a setting says, if it says one.
pub fn unsigned_number(value: Option<&str>, max: u64) -> (r: Option<u64>)
    ensures
        r matches Some(n) ==> unsigned_value(said(value), max as nat) == Some(n as nat) && n <= max,
        r is None ==> unsigned_value(said(value), max as nat) is None,
{
    match value {
        Some(s) => text::parse_unsigned(s, max),
        None => None,
    }
}

/// The number from `-max - 1` to `max` that a setting says, if it says one.
pub fn signed_number(value: Option<&str>, max: i64) -> (r: Option<i64>)
    requires
        max >= 0,
    ensures
        r matches Some(n) ==> signed_value(said(value), max as int) == Some(n as int) && -max - 1
            <= n <= max,
        r is None ==> signed_value(said(value), max as int) is None,
{
    match value {
        Some(s) => text::parse_signed(s, max),
        None => None,
    }
}

/// The number from 0 to `max` that a setting says, or `default`.
pub fn number_or(value: Option<&str>, max: u64, default: u64) -> (r: u64)
    requires
        default <= max,
    ensures
        r == unsigned_or(said(value), max as nat, default as nat),
        r <= max,
{
    match unsigned_number(value, max) {
        Some(n) => n,
        None => default,
    }
}

/// Tells whether a setting is there and is the text `0`.
pub fn is_zero_text(value: Option<&str>) -> (r: bool)
    ensures
        r == (said(value) == Some("0"@)),
{
    match value {
        Some(s) => text::same_text(s, "0"),
        None => false,
    }
}

/// A switch that is off where nothing is set: any text but `0` turns it on.
pub open spec fn switched_on(value: Option<Seq<char>>) -> bool {
    value is Some && value != Some("0"@)
}

/// Tells whether a switch that is off where nothing is set is on.
pub fn is_switched_on(value: Option<&str>) -> (r: bool)
    ensures
        r == switched_on(said(value)),
{
    value.is_some() && !is_zero_text(value)
}

} // verus!
