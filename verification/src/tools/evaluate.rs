//! Running the queries of a test file.

use vstd::prelude::*;

use crate::index::knn::Neighbours;
use crate::index::specialist::SpecialistIndex;
use crate::index::tree::SearchStats;
use crate::tools::entries::Entry;
use crate::tools::entries::EntryView;
use crate::tools::labels;
use crate::tools::measure::Verdict;
use crate::vector;
use crate::vector::ParseError;
use crate::QueryVector;
use crate::PACKED_DIMS;

verus! {

/// A query with what is expected of it.
#[derive(Clone, Copy, Debug)]
pub struct Case {
    pub query: QueryVector,
    pub expected_count: Option<u8>,
    pub expected_approved: Option<bool>,
}

/// What a case says.
#[verifier::ext_equal]
pub struct CaseView {
    pub query: Seq<i16>,
    pub expected_count: Option<u8>,
    pub expected_approved: Option<bool>,
}

impl View for Case {
    type V = CaseView;

    open spec fn view(&self) -> CaseView {
        CaseView {
            query: self.query@,
            expected_count: self.expected_count,
            expected_approved: self.expected_approved,
        }
    }
}

/// The cases of the first `n` entries, up to `limit` of them: those whose requests are right.
/// Nothing where an entry that is looked at has no request.
pub open spec fn cases_from(entries: Seq<EntryView>, n: nat, limit: nat) -> Option<Seq<CaseView>>
    decreases n,
{
    if n == 0 {
        Some(Seq::empty())
    } else {
        match cases_from(entries, (n - 1) as nat, limit) {
            None => None,
            Some(front) => if front.len() >= limit {
                Some(front)
            } else {
                let entry = entries[n - 1];
                match entry.request {
                    None => None,
                    Some(request) => if vector::query_outcome(request).1 is Ok {
                        Some(
                            front.push(
                                CaseView {
                                    query: vector::query_outcome(request).0,
                                    expected_count: entry.expected_count,
                                    expected_approved: entry.expected_approved,
                                },
                            ),
                        )
                    } else {
                        Some(front)
                    },
                }
            },
        }
    }
}

/// What entries say.
pub open spec fn entry_views(entries: Seq<Entry>) -> Seq<EntryView> {
    entries.map_values(|e: Entry| e@)
}

/// What cases say.
pub open spec fn case_views(cases: Seq<Case>) -> Seq<CaseView> {
    cases.map_values(|c: Case| c@)
}

proof fn lemma_no_request(entries: Seq<EntryView>, n: nat, m: nat, limit: nat)
    requires
        n <= m,
        cases_from(entries, n, limit) is None,
    ensures
        cases_from(entries, m, limit) is None,
    decreases m,
{
    if n < m {
        lemma_no_request(entries, n, (m - 1) as nat, limit);
    }
}

/// Turns entries into cases, up to `limit` of them; nothing where a request is missing.
pub fn parse_cases(entries: &Vec<Entry>, limit: usize) -> (r: Option<Vec<Case>>)
    ensures
        match r {
            Some(cases) => cases_from(entry_views(entries@), entries@.len(), limit as nat) == Some(
                case_views(cases@),
            ),
            None => cases_from(entry_views(entries@), entries@.len(), limit as nat) is None,
        },
{
    let ghost views = entry_views(entries@);
    let mut cases: Vec<Case> = Vec::new();
    let mut i: usize = 0;
    assert(case_views(cases@) =~= Seq::<CaseView>::empty());
    while i < entries.len()
        invariant
            i <= entries@.len(),
            views == entry_views(entries@),
            cases_from(views, i as nat, limit as nat) == Some(case_views(cases@)),
        decreases entries@.len() - i,
    {
        let ghost before = cases@;
        assert(case_views(before).len() == before.len());
        if cases.len() < limit {
            let entry = &entries[i];
            assert(views[i as int] == entry@);
            match &entry.request {
                Some(request) => {
                    let mut query: QueryVector = [0i16; PACKED_DIMS];
                    let outcome = vector::parse_query(request.as_slice(), &mut query);
                    assert((query@, outcome) == vector::query_outcome(request@));
                    if outcome.is_ok() {
                        let case = Case {
                            query,
                            expected_count: entry.expected_count,
                            expected_approved: entry.expected_approved,
                        };
                        cases.push(case);
                        assert(case_views(cases@) =~= case_views(before).push(case@));
                    }
                },
                None => {
                    proof {
                        lemma_no_request(views, (i + 1) as nat, views.len(), limit as nat);
                    }
                    return None;
                },
            }
        }
        i = i + 1;
    }
    Some(cases)
}

/// The verdict and the work of a case.
pub open spec fn evaluates(
    index: SpecialistIndex,
    case: CaseView,
    verdict: Verdict,
    stats: SearchStats,
) -> bool {
    &&& verdict.expected_count == case.expected_count
    &&& verdict.expected_approved == case.expected_approved
    &&& exists|n: Neighbours, entered: Seq<int>, visited: Seq<int>|
        {
            &&& #[trigger] index.counts(stats, n, entered, visited, case.query, None)
            &&& index.finds(n, case.query, None)
            &&& verdict.count == n.frauds() % 256
        }
}

/// Runs a case.
pub fn evaluate_case(index: &SpecialistIndex, case: &Case) -> (r: (Verdict, SearchStats))
    requires
        index.wf(),
    ensures
        evaluates(*index, case@, r.0, r.1),
{
    let (count, stats) = index.predict_fraud_count_with_stats(&case.query);
    let verdict = Verdict {
        count,
        expected_count: case.expected_count,
        expected_approved: case.expected_approved,
    };
    proof {
        let (n, entered, visited) = choose|n: Neighbours, entered: Seq<int>, visited: Seq<int>|
            {
                &&& #[trigger] index.counts(stats, n, entered, visited, case.query@, None)
                &&& index.finds(n, case.query@, None)
                &&& count == n.frauds() % 256
            };
        assert(index.counts(stats, n, entered, visited, case@.query, None));
    }
    (verdict, stats)
}

/// Runs all cases.
pub fn evaluate_cases(index: &SpecialistIndex, cases: &Vec<Case>) -> (r: (
    Vec<Verdict>,
    Vec<SearchStats>,
))
    requires
        index.wf(),
    ensures
        r.0@.len() == cases@.len(),
        r.1@.len() == cases@.len(),
        forall|i: int|
            0 <= i < cases@.len() ==> evaluates(*index, (#[trigger] cases@[i])@, r.0@[i], r.1@[i]),
{
    let mut verdicts: Vec<Verdict> = Vec::new();
    let mut work: Vec<SearchStats> = Vec::new();
    let mut i: usize = 0;
    while i < cases.len()
        invariant
            i <= cases@.len(),
            index.wf(),
            verdicts@.len() == i,
            work@.len() == i,
            forall|k: int|
                0 <= k < i ==> evaluates(*index, (#[trigger] cases@[k])@, verdicts@[k], work@[k]),
        decreases cases@.len() - i,
    {
        let (verdict, stats) = evaluate_case(index, &cases[i]);
        verdicts.push(verdict);
        work.push(stats);
        i = i + 1;
    }
    (verdicts, work)
}

/// A row for a request, or what is wrong with it.
pub open spec fn is_row(
    index: SpecialistIndex,
    request: Seq<u8>,
    row: Result<Seq<char>, ParseError>,
) -> bool {
    match row {
        Ok(text) => vector::query_outcome(request).1 is Ok && labels::is_label(
            index,
            vector::query_outcome(request).0,
            text,
        ),
        Err(e) => vector::query_outcome(request).1 == Err::<(), ParseError>(e),
    }
}

/// What a row says.
pub open spec fn row_view(row: Result<String, ParseError>) -> Result<Seq<char>, ParseError> {
    match row {
        Ok(text) => Ok(text@),
        Err(e) => Err(e),
    }
}

/// How many entries are looked at.
pub open spec fn looked_at(count: nat, max: nat) -> nat {
    if count <= max {
        count
    } else {
        max
    }
}

/// Labels the first `max` entries; nothing where a request is missing.
pub fn label_entries(index: &SpecialistIndex, entries: &Vec<Entry>, max: usize) -> (r: Option<
    Vec<Result<String, ParseError>>,
>)
    requires
        index.wf(),
    ensures
        r is Some <==> forall|i: int|
            0 <= i < looked_at(entries@.len(), max as nat) ==> (
            #[trigger] entries@[i]).request is Some,
        r matches Some(rows) ==> {
            &&& rows@.len() == looked_at(entries@.len(), max as nat)
            &&& forall|i: int|
                0 <= i < rows@.len() ==> is_row(
                    *index,
                    entries@[i].request.unwrap()@,
                    row_view(#[trigger] rows@[i]),
                )
        },
{
    let n: usize = if entries.len() <= max {
        entries.len()
    } else {
        max
    };
    let mut rows: Vec<Result<String, ParseError>> = Vec::new();
    let mut i: usize = 0;
    while i < n
        invariant
            i <= n,
            n == looked_at(entries@.len(), max as nat),
            index.wf(),
            rows@.len() == i,
            forall|k: int| 0 <= k < i ==> (#[trigger] entries@[k]).request is Some,
            forall|k: int|
                0 <= k < i ==> is_row(
                    *index,
                    entries@[k].request.unwrap()@,
                    row_view(#[trigger] rows@[k]),
                ),
        decreases n - i,
    {
        let entry = &entries[i];
        match &entry.request {
            Some(request) => {
                let row = labels::label_request(index, request.as_slice());
                rows.push(row);
            },
            None => {
                assert(entries@[i as int].request is None);
                return None;
            },
        }
        i = i + 1;
    }
    Some(rows)
}

} // verus!
