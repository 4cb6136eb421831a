//! Rows that label transactions with their neighbours.

use vstd::prelude::*;
use vstd::string::StringExecFns;

use crate::index::knn::Neighbours;
use crate::index::partition_set;
use crate::index::specialist::SpecialistIndex;
use crate::text;
use crate::vector;
use crate::vector::ParseError;
use crate::QueryVector;
use crate::DIMS;
use crate::PACKED_DIMS;

verus! {

/// The first line of a table of labels.
pub const HEADER: &'static str =
    "f0,f1,f2,f3,f4,f5,f6,f7,f8,f9,f10,f11,f12,f13,count,partitions\n";

/// The first `n` coordinates, with commas in between.
pub open spec fn features_text(query: Seq<i16>, n: nat) -> Seq<char>
    decreases n,
{
    if n == 0 {
        Seq::empty()
    } else if n == 1 {
        text::signed_decimal(query[0] as int)
    } else {
        features_text(query, (n - 1) as nat) + ","@ + text::signed_decimal(query[n - 1] as int)
    }
}

/// The first `n` keys, with bars in between.
pub open spec fn keys_text(keys: Seq<u32>, n: nat) -> Seq<char>
    decreases n,
{
    if n == 0 {
        Seq::empty()
    } else if n == 1 {
        text::decimal(keys[0] as nat)
    } else {
        keys_text(keys, (n - 1) as nat) + "|"@ + text::decimal(keys[n - 1] as nat)
    }
}

/// A row: the coordinates, the number of fraudulent neighbours and the keys of the neighbours'
/// partitions.
pub open spec fn row_text(query: Seq<i16>, count: nat, keys: Seq<u32>) -> Seq<char> {
    features_text(query, DIMS as nat) + ","@ + text::decimal(count) + ","@ + keys_text(
        keys,
        keys.len(),
    ) + "\n"@
}

/// Writes keys with bars in between.
pub fn join_keys(keys: &Vec<u32>) -> (r: String)
    ensures
        r@ == keys_text(keys@, keys@.len()),
{
    let mut r = String::from_str("");
    proof {
        reveal_strlit("");
        assert(r@ =~= keys_text(keys@, 0));
    }
    let mut i: usize = 0;
    while i < keys.len()
        invariant
            i <= keys@.len(),
            r@ == keys_text(keys@, i as nat),
        decreases keys@.len() - i,
    {
        if i > 0 {
            r.append("|");
        }
        text::push_decimal(&mut r, keys[i] as u64);
        i = i + 1;
        assert(r@ =~= keys_text(keys@, i as nat));
    }
    r
}

/// Writes a row.
pub fn format_row(query: &QueryVector, count: u8, partitions: &Vec<u32>) -> (r: String)
    ensures
        r@ == row_text(query@, count as nat, partitions@),
{
    let mut r = String::from_str("");
    proof {
        reveal_strlit("");
        assert(r@ =~= features_text(query@, 0));
    }
    let mut d: usize = 0;
    while d < DIMS
        invariant
            d <= DIMS,
            r@ == features_text(query@, d as nat),
        decreases DIMS - d,
    {
        if d > 0 {
            r.append(",");
        }
        text::push_signed(&mut r, query[d] as i64);
        d = d + 1;
        assert(r@ =~= features_text(query@, d as nat));
    }
    r.append(",");
    text::push_decimal(&mut r, count as u64);
    r.append(",");
    let keys = join_keys(partitions);
    r.append(keys.as_str());
    r.append("\n");
    r
}

/// A row for a transaction with this vector.
pub open spec fn is_label(index: SpecialistIndex, query: Seq<i16>, row: Seq<char>) -> bool {
    exists|n: Neighbours|
        {
            &&& #[trigger] index.finds(n, query, None)
            &&& row == row_text(
                query,
                (n.frauds() % 256) as nat,
                partition_set::ascending(
                    partition_set::small_keys(n.keys),
                    partition_set::SET_KEYS as nat,
                ),
            )
        }
}

/// Labels a transaction: its row, or what is wrong with it.
pub fn label_request(index: &SpecialistIndex, request: &[u8]) -> (r: Result<String, ParseError>)
    requires
        index.wf(),
    ensures
        match r {
            Ok(row) => vector::query_outcome(request@).1 is Ok && is_label(
                *index,
                vector::query_outcome(request@).0,
                row@,
            ),
            Err(e) => vector::query_outcome(request@).1 == Err::<(), ParseError>(e),
        },
{
    let mut query: QueryVector = [0i16; PACKED_DIMS];
    let outcome = vector::parse_query(request, &mut query);
    assert((query@, outcome) == vector::query_outcome(request@));
    match outcome {
        Ok(()) => {
            let (count, parts) = index.predict_fraud_count_with_partitions(&query);
            let row = format_row(&query, count, &parts.keys_sorted());
            proof {
                let n = choose|n: Neighbours|
                    {
                        &&& #[trigger] index.finds(n, query@, None)
                        &&& count == n.frauds() % 256
                        &&& parts@ == partition_set::small_keys(n.keys)
                    };
                assert(index.finds(n, query@, None));
                assert(is_label(*index, query@, row@));
            }
            Ok(row)
        },
        Err(e) => Err(e),
    }
}

} // verus!
