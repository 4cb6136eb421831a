//! Answering requests.

use vstd::prelude::*;
use vstd::string::StringSliceAdditionalSpecFns;

use crate::api::server::Readiness;
use crate::bytes;
use crate::http::parser::Method;
use crate::http::parser::Request;
use crate::http::parser::RequestView;
use crate::http::responses;
use crate::index::build::split::KdSplitStrategy;
use crate::index::build::Reference;
use crate::index::knn::Neighbours;
use crate::index::laws;
use crate::index::partition_scheme::PartitionScheme;
use crate::index::specialist::SearchMode;
use crate::index::specialist::SpecialistIndex;
use crate::vector;
use crate::QueryVector;
use crate::PACKED_DIMS;

verus! {

/// The number of fraudulent neighbours that a search in the index can give for a query.
#[verifier::opaque]
pub open spec fn predicts(index: SpecialistIndex, query: Seq<i16>, count: int) -> bool {
    exists|n: Neighbours| #[trigger] index.decides(n, query, None) && count == n.frauds() % 256
}

/// The answer to a transaction with this vector.
pub open spec fn is_score(index: SpecialistIndex, query: Seq<i16>, response: Seq<u8>) -> bool {
    exists|count: int|
        #[trigger] predicts(index, query, count) && response == responses::fraud_response_bytes(
            count,
        )
}

/// The answer to a transaction.
pub open spec fn is_verdict(index: SpecialistIndex, body: Seq<u8>, response: Seq<u8>) -> bool {
    match vector::query_outcome(body).1 {
        Ok(_) => is_score(index, vector::query_outcome(body).0, response),
        Err(_) => response == responses::RESPONSE_BAD_REQUEST.spec_bytes(),
    }
}

/// The answer to a request.
pub open spec fn is_answer(
    request: RequestView,
    index: SpecialistIndex,
    readiness: Readiness,
    response: Seq<u8>,
) -> bool {
    if request.method == Method::Get && request.path == "/ready".spec_bytes() {
        response == (if readiness.ready {
            responses::RESPONSE_READY.spec_bytes()
        } else {
            responses::RESPONSE_NOT_READY.spec_bytes()
        })
    } else if request.method == Method::Post && request.path == "/fraud-score".spec_bytes() {
        if readiness.serves_fraud() {
            is_verdict(index, request.body, response)
        } else {
            response == responses::RESPONSE_NOT_READY.spec_bytes()
        }
    } else {
        response == responses::RESPONSE_NOT_FOUND.spec_bytes()
    }
}

/// Counts a query's fraudulent neighbours.
fn count_frauds(index: &SpecialistIndex, query: &QueryVector) -> (r: u8)
    requires
        index.wf(),
    ensures
        predicts(*index, query@, r as int),
{
    reveal(predicts);
    index.predict_fraud_count(query)
}

/// Scores a transaction.
fn score(body: &[u8], index: &SpecialistIndex) -> (r: &'static [u8])
    requires
        index.wf(),
    ensures
        is_verdict(*index, body@, r@),
{
    let mut query = [0i16; PACKED_DIMS];
    let outcome = vector::parse_query(body, &mut query);
    assert(vector::query_outcome(body@) == (query@, outcome));
    match outcome {
        Ok(()) => {
            let count: u8 = count_frauds(index, &query);
            let response = responses::fraud_response(count as usize);
            assert(predicts(*index, query@, count as int) && response@
                == responses::fraud_response_bytes(count as int));
            assert(is_score(*index, query@, response@));
            response
        },
        Err(_) => responses::RESPONSE_BAD_REQUEST.as_bytes(),
    }
}

/// Answers a request.
pub fn handle_request(
    req: &Request,
    index: &SpecialistIndex,
    readiness: &Readiness,
) -> (r: &'static [u8])
    requires
        index.wf(),
    ensures
        is_answer(req@, *index, *readiness, r@),
{
    match req.method {
        Method::Get => {
            if bytes::bytes_equal(req.path, "/ready".as_bytes()) {
                if readiness.is_ready() {
                    responses::RESPONSE_READY.as_bytes()
                } else {
                    responses::RESPONSE_NOT_READY.as_bytes()
                }
            } else {
                responses::RESPONSE_NOT_FOUND.as_bytes()
            }
        },
        Method::Post => {
            if !bytes::bytes_equal(req.path, "/fraud-score".as_bytes()) {
                return responses::RESPONSE_NOT_FOUND.as_bytes();
            }
            if !readiness.can_serve_fraud() {
                return responses::RESPONSE_NOT_READY.as_bytes();
            }
            score(req.body, index)
        },
    }
}

/// The sum of labels that are at most 1 is at most their number.
proof fn lemma_label_total_bounded(references: Seq<Reference>, chosen: Seq<int>, n: nat)
    requires
        n <= chosen.len(),
        forall|i: int| 0 <= i < chosen.len() ==> 0 <= #[trigger] chosen[i] < references.len(),
        forall|x: int| 0 <= x < references.len() ==> (#[trigger] references[x]).label <= 1,
    ensures
        0 <= laws::label_total(references, chosen, n) <= n,
    decreases n,
{
    if n > 0 {
        lemma_label_total_bounded(references, chosen, (n - 1) as nat);
        assert(references[chosen[n - 1]].label <= 1);
    }
}

/// A transaction is answered with the number of frauds among the references that are nearest to it,
/// where the index was built from these and no search ends early: it is exact, no positive threshold is
/// set, or fewer references are nearer than that than are looked for.
pub proof fn law_score_counts_nearest_references(
    index: SpecialistIndex,
    references: Seq<Reference>,
    leaf_size: usize,
    strategy: KdSplitStrategy,
    scheme: PartitionScheme,
    readiness: Readiness,
    request: RequestView,
    response: Seq<u8>,
)
    requires
        laws::built_from(index, references, leaf_size, strategy, scheme),
        laws::keys_found(index),
        index.settings.mode == SearchMode::Exact || index.settings.early_exit_threshold <= 0
            || laws::few_are_nearer(
            references,
            vector::query_outcome(request.body).0,
            index.settings.early_exit_threshold as int,
        ),
        forall|x: int|
            0 <= x < references.len() ==> (#[trigger] references[x]).label <= 1
                && vector::laws::padded(references[x].vector@),
        request.method == Method::Post,
        request.path == "/fraud-score".spec_bytes(),
        readiness.serves_fraud(),
        vector::query_outcome(request.body).1 is Ok,
        is_answer(request, index, readiness, response),
    ensures
        exists|frauds: int|
            #[trigger] laws::frauds_among_nearest(
                frauds,
                references,
                laws::pool_of(index, references, scheme, None),
                vector::query_outcome(request.body).0,
                crate::DIMS as nat,
            ) && response == responses::fraud_response_bytes(frauds),
{
    let query = vector::query_outcome(request.body).0;
    assert(is_verdict(index, request.body, response));
    assert(is_score(index, query, response));
    let count = choose|count: int|
        #[trigger] predicts(index, query, count) && response == responses::fraud_response_bytes(
            count,
        );
    reveal(predicts);
    let n = choose|n: Neighbours|
        #[trigger] index.decides(n, query, None) && count == n.frauds() % 256;
    vector::laws::law_vectors_are_padded_with_zeros(request.body);
    assert(laws::padding_agrees(references, query)) by {
        assert forall|x: int, d: int|
            0 <= x < references.len() && crate::DIMS <= d < PACKED_DIMS implies (
        #[trigger] references[x]).vector@[d] == #[trigger] query[d] by {
            assert(vector::laws::padded(references[x].vector@));
            assert(d == 14 || d == 15);
        }
    }
    if index.settings.mode == SearchMode::Exact || index.settings.early_exit_threshold <= 0 {
        laws::law_answer_counts_all_from_the_setting_on(
            index,
            references,
            leaf_size,
            strategy,
            scheme,
            query,
            n,
        );
    } else {
        laws::law_answer_counts_all_where_few_are_near(
            index,
            references,
            leaf_size,
            strategy,
            scheme,
            query,
            n,
        );
    }
    let pool = laws::pool_of(index, references, scheme, None);
    laws::law_agreeing_padding_does_not_count(references, pool, query, n.frauds());
    let dims = crate::DIMS as nat;
    let chosen = choose|chosen: Seq<int>|
        #[trigger] laws::are_nearest(references, pool, query, chosen, dims) && n.frauds()
            == laws::label_total(references, chosen, chosen.len());
    assert forall|i: int| 0 <= i < chosen.len() implies 0 <= #[trigger] chosen[i]
        < references.len() by {
        assert(pool.contains(chosen[i]));
    }
    lemma_label_total_bounded(references, chosen, chosen.len());
    assert(n.frauds() % 256 == n.frauds());
    assert(laws::frauds_among_nearest(count, references, pool, query, dims));
}

} // verus!
