//! From the JSON body of a transaction to its quantized vector.

pub mod agreement;
pub mod bignum;
pub mod binary64;
pub mod calendar;
pub mod compact;
pub mod decimal;
pub mod dimensions;
pub mod exact;
pub mod figures;
pub mod hashing;
pub mod helpers;
pub mod laws;
pub mod measures;
pub mod naming;
pub mod numeral;
pub mod order;
pub mod reorder;
pub mod scan;
pub mod serde_fallback;
pub mod single_pass;
pub mod spelled;
pub mod transactions;

use vstd::prelude::*;

use crate::QueryVector;
use crate::PACKED_DIMS;

verus! {

/// Why a payload has no vector.
#[derive(Clone, Copy, Debug, PartialEq, Eq, Structural)]
pub enum ParseError {
    MissingField,
    InvalidValue,
    InvalidFormat,
}

/// The vector of zeros.
pub open spec fn zeros() -> Seq<i16> {
    Seq::new(16, |i: int| 0i16)
}

/// The vector and the verdict for a payload: the compact form first, then one pass in any layout,
/// then any JSON with names spelled in any way.
#[verifier::opaque]
pub open spec fn query_outcome(payload: Seq<u8>) -> (Seq<i16>, Result<(), ParseError>) {
    let compact = compact::compact_outcome(payload);
    let single = single_pass::single_pass_outcome(payload);
    if compact.error is None {
        (compact.out, Ok(()))
    } else if single.1 is Ok {
        single
    } else {
        serde_fallback::serde_outcome(payload, zeros())
    }
}

/// Turns the JSON body of a transaction into its vector.
pub fn parse_query(payload: &[u8], out: &mut QueryVector) -> (r: Result<(), ParseError>)
    ensures
        (final(out)@, r) == query_outcome(payload@),
{
    reveal(query_outcome);
    if compact::try_parse_compact_ordered(payload, out).is_ok() {
        return Ok(());
    }
    if single_pass::try_parse_single_pass(payload, out).is_ok() {
        return Ok(());
    }
    *out = [0i16; PACKED_DIMS];
    assert(out@ =~= zeros());
    serde_fallback::try_parse_serde(payload, out)
}

} // verus!
