use rinha_rust_tree::index::build::build_index;
use rinha_rust_tree::index::build::split::KdSplitStrategy;
use rinha_rust_tree::index::build::Reference;
use rinha_rust_tree::index::partition_scheme::PartitionScheme;
use rinha_rust_tree::index::IndexMetadata;
use rinha_rust_tree::index::SearchSettings;
use rinha_rust_tree::index::SearchStats;
use rinha_rust_tree::index::SpecialistIndex;
use rinha_rust_tree::tools::entries::expected_count;
use rinha_rust_tree::tools::entries::parse_entries;
use rinha_rust_tree::tools::entries::EntriesError;
use rinha_rust_tree::tools::evaluate::evaluate_cases;
use rinha_rust_tree::tools::evaluate::label_entries;
use rinha_rust_tree::tools::evaluate::parse_cases;
use rinha_rust_tree::tools::info::info_line;
use rinha_rust_tree::tools::labels;
use rinha_rust_tree::tools::locality;
use rinha_rust_tree::tools::measure;
use rinha_rust_tree::tools::measure::Tally;
use rinha_rust_tree::tools::measure::Verdict;
use rinha_rust_tree::vector::binary64::Binary64;
use rinha_rust_tree::PACKED_DIMS;

const PAYLOAD: &str = r#"{"id":"tx-1","transaction":{"amount":384.88,"installments":3,"requested_at":"2026-03-11T20:23:35Z"},"customer":{"avg_amount":769.76,"tx_count_24h":3,"known_merchants":["MERC-009","MERC-001"]},"merchant":{"id":"MERC-001","mcc":"5912","avg_amount":298.95},"terminal":{"is_online":false,"card_present":true,"km_from_home":13.70},"last_transaction":null}"#;

fn line(values: &[i16]) -> Vec<Reference> {
    values
        .iter()
        .map(|&v| {
            let mut vector = [0i16; PACKED_DIMS];
            vector[0] = v;
            Reference { vector, label: 0 }
        })
        .collect()
}

#[test]
fn entries_come_with_what_is_expected_of_them() {
    let json = format!(
        r#"{{"entries":[{{"request":{},"expected_fraud_score":0.6,"expected_approved":false}}, {{"request": {{"b":1, "a":[true ,null]}}, "expected_fraud_score":7}}, 3], "other":1}}"#,
        PAYLOAD
    );
    let entries = parse_entries(json.as_bytes()).unwrap();
    assert_eq!(entries.len(), 3);
    assert_eq!(entries[0].expected_count, Some(3));
    assert_eq!(entries[0].expected_approved, Some(false));
    assert_eq!(entries[1].request.as_deref(), Some(&br#"{"a":[true,null],"b":1}"#[..]));
    assert_eq!(entries[1].expected_count, None);
    assert_eq!(entries[1].expected_approved, None);
    assert!(entries[2].request.is_none());
}

#[test]
fn files_without_entries_are_refused() {
    let error = |json: &[u8]| match parse_entries(json) {
        Ok(_) => panic!("there are no entries"),
        Err(e) => e,
    };
    assert_eq!(error(b"{"), EntriesError::NotJson);
    assert_eq!(error(b"{}"), EntriesError::MissingEntries);
    assert_eq!(error(br#"{"entries":{}}"#), EntriesError::MissingEntries);
    assert_eq!(error(br#"["entries"]"#), EntriesError::MissingEntries);
    assert_eq!(EntriesError::NotJson.message(), "parse json");
    assert_eq!(EntriesError::MissingEntries.message(), "entries array");
}

#[test]
fn scores_are_counts_of_neighbours() {
    let count = |score: f64| expected_count(Binary64::from_bits(score.to_bits()));
    assert_eq!(count(0.0), Some(0));
    assert_eq!(count(0.2), Some(1));
    assert_eq!(count(0.29), Some(1));
    assert_eq!(count(0.3), Some(2));
    assert_eq!(count(1.0), Some(5));
    assert_eq!(count(1.11), None);
    assert_eq!(count(-0.05), Some(0));
    assert_eq!(count(-0.5), None);
}

#[test]
fn rows_hold_the_vector_the_count_and_the_keys() {
    let mut query = [0i16; PACKED_DIMS];
    query[0] = 385;
    query[5] = -10000;
    assert_eq!(
        labels::format_row(&query, 4, &vec![3, 12, 200]),
        "385,0,0,0,0,-10000,0,0,0,0,0,0,0,0,4,3|12|200\n"
    );
    assert_eq!(labels::join_keys(&Vec::new()), "");
    assert_eq!(labels::HEADER.trim_end().split(',').count(), 16);
}

#[test]
fn requests_are_labelled() {
    let mut references = line(&[0; 6]);
    for reference in &mut references {
        reference.label = 1;
    }
    let bytes = build_index(references, 8, PartitionScheme::recommended()).unwrap();
    let index =
        SpecialistIndex::open(&bytes, SearchSettings::from_values(None, None, None)).unwrap();
    let row = labels::label_request(&index, PAYLOAD.as_bytes()).unwrap();
    assert!(row.starts_with("385,2500,"));
    assert!(row.ends_with(",5,0\n"));
    assert!(labels::label_request(&index, b"{}").is_err());
}

#[test]
fn an_index_is_described_in_one_line() {
    let metadata = IndexMetadata {
        reference_count: 10,
        partition_count: 2,
        node_count: 3,
        block_count: 4,
    };
    assert_eq!(
        info_line("x.idx", 99, &metadata),
        r#"{"path":"x.idx","file_bytes":99,"references":10,"partitions":2,"nodes":3,"blocks":4}"#
    );
}

#[test]
fn samples_are_spread_evenly() {
    assert_eq!(locality::sample_indices(10, 3), vec![0, 3, 6, 9]);
    assert_eq!(locality::sample_indices(3, 10), vec![0, 1, 2]);
    assert!(locality::sample_indices(0, 10).is_empty());
    assert_eq!(locality::candidate_dims()[5], 7);
}

#[test]
fn octiles_part_the_references() {
    let references = line(&[80, 10, 20, 30, 40, 50, 60, 70]);
    let cuts = locality::equifreq_cuts(&references, 0);
    assert_eq!(cuts, [20, 30, 40, 50, 60, 70, 80]);
    assert_eq!(locality::equifreq_cuts(&references[..7], 0), [0; 7]);
    assert_eq!(locality::bucket8(45, &cuts), 3);
    assert_eq!(locality::bucket8(0, &cuts), 0);
    assert_eq!(locality::bucket8(-5, &[-9; 7]), 0);
    let mut vector = [0i16; PACKED_DIMS];
    vector[0] = 45;
    vector[9] = 1;
    vector[11] = 1;
    vector[8] = 2049;
    vector[2] = 4096;
    assert_eq!(locality::partition_key(&vector, 0, &cuts), 1 + 4 + 8 + (3 << 5));
    vector[10] = 1;
    vector[2] = 4097;
    assert_eq!(locality::partition_key(&vector, 0, &cuts), 31 + (3 << 5));
    let keys = locality::partition_keys(&references, 0, &cuts);
    assert_eq!(keys, vec![6 << 5, 0, 0, 1 << 5, 2 << 5, 3 << 5, 4 << 5, 5 << 5]);
    assert_eq!(locality::partition_sizes(&keys), vec![1, 1, 1, 1, 1, 1, 2]);
}

#[test]
fn neighbours_stand_nearest_first() {
    let references = line(&[0, 9, 1, 1, 5, 20, -3, 100]);
    assert_eq!(locality::topk_one(&references, 0), [2, 3, 6, 4, 1]);
    assert_eq!(
        locality::topk_one(&references[..3], 2),
        [0, 1, usize::MAX, usize::MAX, usize::MAX]
    );
    let keys = vec![1, 1, 2, 1, 2, 3, 1, 1];
    assert_eq!(locality::neighbour_locality(&keys, 0, &[2, 3, 6, 4, 5]), (2, 3));
}

#[test]
fn comparisons_take_options() {
    let args = |list: &[&str]| -> Vec<String> { list.iter().map(|s| s.to_string()).collect() };
    let error = |list: &[&str]| match measure::parse_compare_options(&args(list)) {
        Ok(_) => panic!("the options are wrong"),
        Err(e) => e.message(),
    };
    let options =
        measure::parse_compare_options(&args(&["--refs", "r", "--queries", "q"])).ok().unwrap();
    assert_eq!(options.refs, "r");
    assert_eq!(options.queries, "q");
    assert_eq!(options.leaf_size, 56);
    assert_eq!(options.limit, 10000);
    assert_eq!(options.split_strategy, "widest");
    let options = measure::parse_compare_options(&args(&[
        "--leaf-size", "8", "--limit", "many", "--split-strategy", "both", "--queries", "q",
        "--refs", "a", "--refs", "b",
    ]))
    .ok()
    .unwrap();
    assert_eq!(options.leaf_size, 8);
    assert_eq!(options.limit, 10000);
    assert_eq!(options.split_strategy, "both");
    assert_eq!(options.refs, "b");
    assert_eq!(error(&["--refs", "r"]), "Missing required --queries <path>");
    assert_eq!(error(&["--queries", "r"]), "Missing required --refs <path>");
    assert_eq!(error(&["--refs"]), "Unknown argument: --refs");
    assert_eq!(error(&["--what", "x"]), "Unknown argument: --what");
    assert_eq!(
        measure::split_strategies("both"),
        vec![KdSplitStrategy::Widest, KdSplitStrategy::Variance]
    );
    assert_eq!(measure::split_strategies("variance"), vec![KdSplitStrategy::Variance]);
    assert_eq!(measure::split_strategies("other"), vec![KdSplitStrategy::Widest]);
    assert_eq!(measure::split_strategy_name(KdSplitStrategy::Variance), "variance");
}

#[test]
fn verdicts_are_tallied() {
    let verdict = |count, expected_count, expected_approved| Verdict {
        count,
        expected_count,
        expected_approved,
    };
    let tally = measure::tally_verdicts(&vec![
        verdict(2, Some(2), Some(true)),
        verdict(3, Some(2), Some(true)),
        verdict(5, None, Some(false)),
        verdict(0, None, None),
    ]);
    assert_eq!(
        tally,
        Tally {
            score_matches: 1,
            score_total: 2,
            approved_matches: 2,
            approved_total: 3,
            checksum: 10
        }
    );
}

#[test]
fn the_work_of_searches_adds_up() {
    let mut one = SearchStats::zero();
    one.blocks_scanned = u32::MAX;
    one.secondary_partitions = 2;
    let mut two = SearchStats::zero();
    two.blocks_scanned = 1;
    two.secondary_partitions = 5;
    assert_eq!(measure::total_work(&vec![one, two]), (1 << 32, 7));
}

#[test]
fn times_of_day_have_two_digits() {
    assert_eq!(measure::format_time(0), "00:00:00");
    assert_eq!(measure::format_time(86_400 * 3 + 3600 * 23 + 60 * 59 + 8), "23:59:08");
}

#[test]
fn entries_are_run_against_an_index() {
    let json = format!(
        r#"{{"entries":[{{"request":{0},"expected_fraud_score":1.0,"expected_approved":true}},{{"request":{{}}}},{{"request":{0}}},{{}}]}}"#,
        PAYLOAD
    );
    let mut entries = parse_entries(json.as_bytes()).ok().unwrap();
    assert!(parse_cases(&entries, 100).is_none());
    assert_eq!(parse_cases(&entries, 2).unwrap().len(), 2);
    assert_eq!(parse_cases(&entries, 1).unwrap().len(), 1);
    entries.truncate(3);
    let cases = parse_cases(&entries, 100).unwrap();
    assert_eq!(cases.len(), 2);
    assert_eq!(cases[0].query[0], 385);
    assert_eq!(cases[0].expected_count, Some(5));

    let mut references = line(&[0; 6]);
    for reference in &mut references {
        reference.label = 1;
    }
    let bytes = build_index(references, 8, PartitionScheme::recommended()).unwrap();
    let index =
        SpecialistIndex::open(&bytes, SearchSettings::from_values(None, None, None)).unwrap();
    let (verdicts, stats) = evaluate_cases(&index, &cases);
    assert_eq!(verdicts[0].count, 5);
    assert_eq!(stats.len(), 2);
    let tally = measure::tally_verdicts(&verdicts);
    assert_eq!(tally.score_matches, 1);
    assert_eq!(tally.approved_matches, 0);
    assert_eq!(tally.approved_total, 1);

    let rows = label_entries(&index, &entries, 2).unwrap();
    assert_eq!(rows.len(), 2);
    assert!(rows[0].as_ref().unwrap().ends_with(",5,0\n"));
    assert!(rows[1].is_err());
    entries[0].request = None;
    assert!(label_entries(&index, &entries, 2).is_none());
}
