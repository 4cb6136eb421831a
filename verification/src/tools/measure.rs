//! Measuring the search: the options of a comparison, and what is tallied.

use vstd::prelude::*;
use vstd::string::StringExecFns;

use crate::index::build::split::KdSplitStrategy;
use crate::index::tree::SearchStats;
use crate::text;

verus! {

/// References to a leaf where nothing else is asked for.
pub const DEFAULT_LEAF_SIZE: usize = 56;

/// Queries to a comparison where nothing else is asked for.
pub const DEFAULT_LIMIT: usize = 10000;

/// The fewest fraudulent neighbours with which a transaction is refused.
pub const FRAUDS_TO_REFUSE: u8 = 3;

/// What is to be compared.
pub struct CompareOptions {
    pub refs: String,
    pub queries: String,
    pub leaf_size: usize,
    pub limit: usize,
    pub split_strategy: String,
}

/// What is wrong with the options.
pub enum CompareError {
    /// There is no such option, or it stands without a value.
    Unknown(String),
    /// The references are missing.
    MissingRefs,
    /// The queries are missing.
    MissingQueries,
}

impl CompareError {
    /// What the error is called.
    pub open spec fn text(self) -> Seq<char> {
        match self {
            CompareError::Unknown(option) => "Unknown argument: "@ + option@,
            CompareError::MissingRefs => "Missing required --refs <path>"@,
            CompareError::MissingQueries => "Missing required --queries <path>"@,
        }
    }

    /// What the error is called.
    pub fn message(&self) -> (r: String)
        ensures
            r@ == self.text(),
    {
        match self {
            CompareError::Unknown(option) => {
                let mut r = String::from_str("Unknown argument: ");
                r.append(option.as_str());
                r
            },
            CompareError::MissingRefs => String::from_str("Missing required --refs <path>"),
            CompareError::MissingQueries => String::from_str("Missing required --queries <path>"),
        }
    }
}

/// The options that have been read.
#[verifier::ext_equal]
pub struct OptionsView {
    pub refs: Option<Seq<char>>,
    pub queries: Option<Seq<char>>,
    pub leaf_size: nat,
    pub limit: nat,
    pub split_strategy: Seq<char>,
}

/// What is wrong with the options.
#[verifier::ext_equal]
pub enum ErrorView {
    Unknown(Seq<char>),
    MissingRefs,
    MissingQueries,
}

impl View for CompareError {
    type V = ErrorView;

    open spec fn view(&self) -> ErrorView {
        match self {
            CompareError::Unknown(option) => ErrorView::Unknown(option@),
            CompareError::MissingRefs => ErrorView::MissingRefs,
            CompareError::MissingQueries => ErrorView::MissingQueries,
        }
    }
}

impl View for CompareOptions {
    type V = OptionsView;

    open spec fn view(&self) -> OptionsView {
        OptionsView {
            refs: Some(self.refs@),
            queries: Some(self.queries@),
            leaf_size: self.leaf_size as nat,
            limit: self.limit as nat,
            split_strategy: self.split_strategy@,
        }
    }
}

/// The options before any is read.
pub open spec fn default_options() -> OptionsView {
    OptionsView {
        refs: None,
        queries: None,
        leaf_size: DEFAULT_LEAF_SIZE as nat,
        limit: DEFAULT_LIMIT as nat,
        split_strategy: "widest"@,
    }
}

/// The number that a value says, or `default`.
pub open spec fn number_or(value: Seq<char>, default: nat) -> nat {
    match text::unsigned(value, usize::MAX as nat) {
        Some(n) => n,
        None => default,
    }
}

/// The options with one more, if there is such an option.
pub open spec fn with_option(
    options: OptionsView,
    name: Seq<char>,
    value: Seq<char>,
) -> Option<OptionsView> {
    if name == "--refs"@ {
        Some(OptionsView { refs: Some(value), ..options })
    } else if name == "--queries"@ {
        Some(OptionsView { queries: Some(value), ..options })
    } else if name == "--leaf-size"@ {
        Some(OptionsView { leaf_size: number_or(value, DEFAULT_LEAF_SIZE as nat), ..options })
    } else if name == "--limit"@ {
        Some(OptionsView { limit: number_or(value, DEFAULT_LIMIT as nat), ..options })
    } else if name == "--split-strategy"@ {
        Some(OptionsView { split_strategy: value, ..options })
    } else {
        None
    }
}

/// The options with those from argument `i` on: names, each with its value behind it.
pub open spec fn options_from(
    args: Seq<Seq<char>>,
    i: int,
    options: OptionsView,
) -> Result<OptionsView, ErrorView>
    decreases args.len() - i,
{
    if i < 0 || i >= args.len() {
        if options.refs is None {
            Err(ErrorView::MissingRefs)
        } else if options.queries is None {
            Err(ErrorView::MissingQueries)
        } else {
            Ok(options)
        }
    } else if i + 1 >= args.len() {
        Err(ErrorView::Unknown(args[i]))
    } else {
        match with_option(options, args[i], args[i + 1]) {
            Some(next) => options_from(args, i + 2, next),
            None => Err(ErrorView::Unknown(args[i])),
        }
    }
}

/// The texts of the arguments.
pub open spec fn texts(args: Seq<String>) -> Seq<Seq<char>> {
    args.map_values(|s: String| s@)
}

fn copied(s: &String) -> (r: String)
    ensures
        r@ == s@,
{
    String::from_str(s.as_str())
}

fn read_number(value: &String, default: usize) -> (r: usize)
    ensures
        r == number_or(value@, default as nat),
{
    match text::parse_unsigned(value.as_str(), usize::MAX as u64) {
        Some(n) => n as usize,
        None => default,
    }
}

/// Reads the options of a comparison.
pub fn parse_compare_options(args: &Vec<String>) -> (r: Result<CompareOptions, CompareError>)
    ensures
        match r {
            Ok(options) => options_from(texts(args@), 0, default_options()) == Ok::<
                OptionsView,
                ErrorView,
            >(options@),
            Err(e) => options_from(texts(args@), 0, default_options()) == Err::<
                OptionsView,
                ErrorView,
            >(e@),
        },
{
    let mut refs: Option<String> = None;
    let mut queries: Option<String> = None;
    let mut leaf_size: usize = DEFAULT_LEAF_SIZE;
    let mut limit: usize = DEFAULT_LIMIT;
    let mut split_strategy = String::from_str("widest");
    let ghost all = options_from(texts(args@), 0, default_options());
    let ghost mut so_far = default_options();
    let mut i: usize = 0;
    while i < args.len()
        invariant
            i <= args@.len(),
            all == options_from(texts(args@), 0, default_options()),
            all == options_from(texts(args@), i as int, so_far),
            so_far.refs == (match refs {
                Some(s) => Some(s@),
                None => None,
            }),
            so_far.queries == (match queries {
                Some(s) => Some(s@),
                None => None,
            }),
            so_far.leaf_size == leaf_size,
            so_far.limit == limit,
            so_far.split_strategy == split_strategy@,
        decreases args@.len() - i,
    {
        if args.len() - i < 2 {
            return Err(CompareError::Unknown(copied(&args[i])));
        }
        let name = args[i].as_str();
        let value = &args[i + 1];
        proof {
            reveal_strlit("--refs");
            reveal_strlit("--queries");
            reveal_strlit("--leaf-size");
            reveal_strlit("--limit");
            reveal_strlit("--split-strategy");
            if let Some(next) = with_option(so_far, name@, value@) {
                so_far = next;
            }
        }
        if text::same_text(name, "--refs") {
            refs = Some(copied(value));
        } else if text::same_text(name, "--queries") {
            queries = Some(copied(value));
        } else if text::same_text(name, "--leaf-size") {
            leaf_size = read_number(value, DEFAULT_LEAF_SIZE);
        } else if text::same_text(name, "--limit") {
            limit = read_number(value, DEFAULT_LIMIT);
        } else if text::same_text(name, "--split-strategy") {
            split_strategy = copied(value);
        } else {
            return Err(CompareError::Unknown(copied(&args[i])));
        }
        i = i + 2;
    }
    match refs {
        None => Err(CompareError::MissingRefs),
        Some(refs) => match queries {
            None => Err(CompareError::MissingQueries),
            Some(queries) => Ok(
                CompareOptions { refs, queries, leaf_size, limit, split_strategy },
            ),
        },
    }
}

/// The strategies that are compared.
pub fn split_strategies(name: &str) -> (r: Vec<KdSplitStrategy>)
    ensures
        r@ == (if name@ == "both"@ {
            seq![KdSplitStrategy::Widest, KdSplitStrategy::Variance]
        } else if name@ == "variance"@ {
            seq![KdSplitStrategy::Variance]
        } else {
            seq![KdSplitStrategy::Widest]
        }),
{
    let mut r: Vec<KdSplitStrategy> = Vec::new();
    if text::same_text(name, "both") {
        r.push(KdSplitStrategy::Widest);
        r.push(KdSplitStrategy::Variance);
    } else if text::same_text(name, "variance") {
        r.push(KdSplitStrategy::Variance);
    } else {
        r.push(KdSplitStrategy::Widest);
    }
    r
}

/// What a strategy is called.
pub fn split_strategy_name(strategy: KdSplitStrategy) -> (r: &'static str)
    ensures
        r@ == (match strategy {
            KdSplitStrategy::Widest => "widest"@,
            KdSplitStrategy::Variance => "variance"@,
        }),
{
    match strategy {
        KdSplitStrategy::Widest => "widest",
        KdSplitStrategy::Variance => "variance",
    }
}

/// How the verdicts compare with what was expected of them.
#[derive(Clone, Copy, Debug, PartialEq, Eq, Structural)]
pub struct Tally {
    pub score_matches: usize,
    pub score_total: usize,
    pub approved_matches: usize,
    pub approved_total: usize,
    /// The sum of the numbers of fraudulent neighbours, modulo 2^64.
    pub checksum: u64,
}

/// A verdict, with what was expected of it.
#[derive(Clone, Copy, Debug, PartialEq, Eq, Structural)]
pub struct Verdict {
    /// The number of fraudulent neighbours.
    pub count: u8,
    pub expected_count: Option<u8>,
    pub expected_approved: Option<bool>,
}

impl Verdict {
    /// The transaction is approved.
    pub open spec fn approved(self) -> bool {
        self.count < FRAUDS_TO_REFUSE
    }
}

/// How many of the first `n` verdicts pass a test.
pub open spec fn how_many(verdicts: Seq<Verdict>, test: spec_fn(Verdict) -> bool, n: nat) -> nat
    decreases n,
{
    if n == 0 {
        0
    } else {
        how_many(verdicts, test, (n - 1) as nat) + (if test(verdicts[n - 1]) {
            1nat
        } else {
            0nat
        })
    }
}

/// The sum of the first `n` numbers of fraudulent neighbours.
pub open spec fn total_count(verdicts: Seq<Verdict>, n: nat) -> nat
    decreases n,
{
    if n == 0 {
        0
    } else {
        total_count(verdicts, (n - 1) as nat) + verdicts[n - 1].count as nat
    }
}

/// The tally of the first `n` verdicts.
pub open spec fn is_tally(tally: Tally, verdicts: Seq<Verdict>, n: nat) -> bool {
    &&& tally.score_total == how_many(verdicts, |v: Verdict| v.expected_count is Some, n)
    &&& tally.score_matches == how_many(
        verdicts,
        |v: Verdict| v.expected_count == Some(v.count),
        n,
    )
    &&& tally.approved_total == how_many(verdicts, |v: Verdict| v.expected_approved is Some, n)
    &&& tally.approved_matches == how_many(
        verdicts,
        |v: Verdict| v.expected_approved == Some(v.approved()),
        n,
    )
    &&& tally.checksum == total_count(verdicts, n) % 0x1_0000_0000_0000_0000
}

/// Tallies verdicts.
pub fn tally_verdicts(verdicts: &Vec<Verdict>) -> (r: Tally)
    ensures
        is_tally(r, verdicts@, verdicts@.len()),
{
    let mut r = Tally {
        score_matches: 0,
        score_total: 0,
        approved_matches: 0,
        approved_total: 0,
        checksum: 0,
    };
    let mut i: usize = 0;
    while i < verdicts.len()
        invariant
            i <= verdicts@.len(),
            is_tally(r, verdicts@, i as nat),
            r.score_matches <= i,
            r.score_total <= i,
            r.approved_matches <= i,
            r.approved_total <= i,
        decreases verdicts@.len() - i,
    {
        let verdict = verdicts[i];
        r.checksum = r.checksum.wrapping_add(verdict.count as u64);
        match verdict.expected_count {
            Some(expected) => {
                r.score_total = r.score_total + 1;
                if verdict.count == expected {
                    r.score_matches = r.score_matches + 1;
                }
            },
            None => {},
        }
        match verdict.expected_approved {
            Some(expected) => {
                r.approved_total = r.approved_total + 1;
                if (verdict.count < FRAUDS_TO_REFUSE) == expected {
                    r.approved_matches = r.approved_matches + 1;
                }
            },
            None => {},
        }
        i = i + 1;
    }
    r
}

/// The sum of the blocks that the first `n` searches scanned.
pub open spec fn total_blocks(stats: Seq<SearchStats>, n: nat) -> nat
    decreases n,
{
    if n == 0 {
        0
    } else {
        total_blocks(stats, (n - 1) as nat) + stats[n - 1].blocks_scanned as nat
    }
}

/// The sum of the partitions that the first `n` searches visited besides the first.
pub open spec fn total_secondaries(stats: Seq<SearchStats>, n: nat) -> nat
    decreases n,
{
    if n == 0 {
        0
    } else {
        total_secondaries(stats, (n - 1) as nat) + stats[n - 1].secondary_partitions as nat
    }
}

/// The work of all searches: blocks scanned, and partitions visited besides the first.
pub fn total_work(stats: &Vec<SearchStats>) -> (r: (u64, u64))
    requires
        stats@.len() <= u32::MAX,
    ensures
        r.0 == total_blocks(stats@, stats@.len()),
        r.1 == total_secondaries(stats@, stats@.len()),
{
    let mut blocks: u64 = 0;
    let mut secondaries: u64 = 0;
    let mut i: usize = 0;
    while i < stats.len()
        invariant
            i <= stats@.len() <= u32::MAX,
            blocks == total_blocks(stats@, i as nat),
            secondaries == total_secondaries(stats@, i as nat),
            blocks <= i * 0xffff_ffff,
            secondaries <= i * 0xffff_ffff,
        decreases stats@.len() - i,
    {
        blocks = blocks + stats[i].blocks_scanned as u64;
        secondaries = secondaries + stats[i].secondary_partitions as u64;
        i = i + 1;
    }
    (blocks, secondaries)
}

/// A number below 100 with two digits.
pub open spec fn two_digits(n: nat) -> Seq<char> {
    if n < 10 {
        "0"@ + text::decimal(n)
    } else {
        text::decimal(n)
    }
}

/// The time of day, of a time in seconds since a midnight.
pub open spec fn time_text(seconds: nat) -> Seq<char> {
    two_digits((seconds / 3600) % 24) + ":"@ + two_digits((seconds / 60) % 60) + ":"@
        + two_digits(seconds % 60)
}

fn push_two_digits(s: &mut String, n: u64)
    ensures
        final(s)@ == old(s)@ + two_digits(n as nat),
{
    if n < 10 {
        s.append("0");
    }
    text::push_decimal(s, n);
    assert(s@ =~= old(s)@ + two_digits(n as nat));
}

/// Writes the time of day, of a time in seconds since a midnight.
pub fn format_time(seconds: u64) -> (r: String)
    ensures
        r@ == time_text(seconds as nat),
{
    let mut r = String::from_str("");
    push_two_digits(&mut r, (seconds / 3600) % 24);
    r.append(":");
    push_two_digits(&mut r, (seconds / 60) % 60);
    r.append(":");
    push_two_digits(&mut r, seconds % 60);
    proof {
        reveal_strlit("");
        assert(r@ =~= time_text(seconds as nat));
    }
    r
}

} // verus!
