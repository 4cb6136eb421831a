use rinha_rust_tree::index::build::build_index;
use rinha_rust_tree::index::build::build_index_with;
use rinha_rust_tree::index::build::split::kd_split_strategy;
use rinha_rust_tree::index::build::split::KdSplitStrategy;
use rinha_rust_tree::index::build::Reference;
use rinha_rust_tree::index::format::IndexWriter;
use rinha_rust_tree::index::layout::LoadError;
use rinha_rust_tree::index::partition_scheme::compute_cut_key;
use rinha_rust_tree::index::partition_scheme::compute_tree_key;
use rinha_rust_tree::index::partition_scheme::PartitionScheme;
use rinha_rust_tree::index::partition_scheme::TreePredicate;
use rinha_rust_tree::index::references::load_references;
use rinha_rust_tree::index::references::parse_references;
use rinha_rust_tree::index::references::ReferenceError;
use rinha_rust_tree::index::search::insert_best;
use rinha_rust_tree::index::search::sort_partition_entries;
use rinha_rust_tree::index::PartitionSet;
use rinha_rust_tree::index::SearchMode;
use rinha_rust_tree::index::SearchSettings;
use rinha_rust_tree::index::SpecialistIndex;
use rinha_rust_tree::QueryVector;
use rinha_rust_tree::DIMS;
use rinha_rust_tree::K;
use rinha_rust_tree::PACKED_DIMS;
use rinha_rust_tree::SCALE;
use std::io::Write;

fn open(bytes: &[u8]) -> SpecialistIndex {
    SpecialistIndex::open(bytes, SearchSettings::from_values(None, None, None)).expect("open index")
}

fn fault(bytes: &[u8]) -> LoadError {
    match SpecialistIndex::open(bytes, SearchSettings::from_values(None, None, None)) {
        Ok(_) => panic!("the file is wrong"),
        Err(e) => e,
    }
}

/// References that are spread over all dimensions, from a linear congruential generator.
fn scattered(count: usize, seed: u64) -> Vec<Reference> {
    let mut state = seed;
    let mut next = move || {
        state = state.wrapping_mul(6364136223846793005).wrapping_add(1442695040888963407);
        (state >> 33) as i64
    };
    let mut references = Vec::new();
    for _ in 0..count {
        let mut vector = [0i16; PACKED_DIMS];
        for d in 0..DIMS {
            vector[d] = (next() % 10001) as i16;
        }
        references.push(Reference { vector, label: (next() % 3 == 0) as u8 });
    }
    references
}

/// The labels of the nearest references, by looking at all of them.
fn brute_force(references: &[Reference], query: &QueryVector) -> u8 {
    let mut all: Vec<(i64, usize)> = references
        .iter()
        .enumerate()
        .map(|(i, r)| {
            let mut dist = 0i64;
            for d in 0..DIMS {
                let diff = query[d] as i64 - r.vector[d] as i64;
                dist += diff * diff;
            }
            (dist, i)
        })
        .collect();
    all.sort();
    all.iter().take(K).map(|&(_, i)| references[i].label).sum()
}

#[test]
fn specialist_index_roundtrip_predicts_nearest_labels() {
    let mut references = Vec::new();
    for offset in 0..8 {
        let mut vector = [0i16; PACKED_DIMS];
        vector[0] = offset;
        references.push(Reference { vector, label: 0 });
    }
    for offset in 0..8 {
        let mut vector = [SCALE; PACKED_DIMS];
        vector[0] = SCALE - offset;
        references.push(Reference { vector, label: 1 });
    }
    let index_bytes =
        build_index(references, 64, PartitionScheme::recommended()).expect("build index");

    let index = open(&index_bytes);

    assert_eq!(index.predict_fraud_count(&[0i16; PACKED_DIMS]), 0);
    assert_eq!(index.predict_fraud_count(&[SCALE; PACKED_DIMS]), 5);
}

#[test]
fn restricted_partition_search_uses_only_allowed_keys() {
    let mut references = Vec::new();
    for _ in 0..8 {
        let vector = [0i16; PACKED_DIMS];
        references.push(Reference { vector, label: 0 });
    }
    for _ in 0..8 {
        let mut vector = [SCALE; PACKED_DIMS];
        vector[4] = SCALE;
        references.push(Reference { vector, label: 1 });
    }

    let index_bytes =
        build_index(references, 8, PartitionScheme::recommended()).expect("build index");

    let index = open(&index_bytes);
    let high_query = [SCALE; PACKED_DIMS];
    let mut low_query = [0i16; PACKED_DIMS];
    low_query[4] = 0;

    let mut high_allowed = PartitionSet::empty();
    high_allowed.set(index.compute_partition_key(&high_query));
    let mut low_allowed = PartitionSet::empty();
    low_allowed.set(index.compute_partition_key(&low_query));

    assert_eq!(index.predict_fraud_count_in_partitions(&high_query, &high_allowed), 5);
    assert_eq!(index.predict_fraud_count_in_partitions(&high_query, &low_allowed), 0);
}

#[test]
fn tree_key_walks_heap_order_predicates() {
    let predicates = [
        TreePredicate { dim: 0, threshold: 10, enabled: true },
        TreePredicate { dim: 1, threshold: 10, enabled: true },
        TreePredicate { dim: 2, threshold: 10, enabled: true },
    ];
    let mut vector = [0i16; PACKED_DIMS];
    vector[0] = 11;
    vector[2] = 11;

    assert_eq!(compute_tree_key(&vector, 2, &predicates), 0b11);
}

#[test]
fn tree256_index_roundtrip_predicts_nearest_labels() {
    let mut references = Vec::new();
    for offset in 0..32 {
        let mut vector = [0i16; PACKED_DIMS];
        vector[0] = offset;
        references.push(Reference { vector, label: 0 });
    }
    for offset in 0..32 {
        let mut vector = [SCALE; PACKED_DIMS];
        vector[0] = SCALE - offset;
        references.push(Reference { vector, label: 1 });
    }

    let index_bytes = build_index(references, 8, PartitionScheme::by_name("tree256").unwrap())
        .expect("build index");

    let index = open(&index_bytes);

    assert_eq!(index.predict_fraud_count(&[0i16; PACKED_DIMS]), 0);
    assert_eq!(index.predict_fraud_count(&[SCALE; PACKED_DIMS]), 5);
}

#[test]
fn every_mode_counts_the_nearest_references() {
    let references = scattered(500, 7);
    let queries = scattered(40, 99);
    for name in ["amt32_dow7", "amt16_dow7", "amt32_only", "legacy_r2", "tree256"] {
        for strategy in [KdSplitStrategy::Widest, KdSplitStrategy::Variance] {
            let bytes = build_index_with(
                references.clone(),
                16,
                PartitionScheme::by_name(name).unwrap(),
                strategy,
            )
            .unwrap();
            for mode in [SearchMode::Exact, SearchMode::Specialist, SearchMode::KeyFirst] {
                for label_defer in [false, true] {
                    let settings = SearchSettings { mode, early_exit_threshold: 0, label_defer };
                    let index = SpecialistIndex::open(&bytes, settings).unwrap();
                    for query in &queries {
                        assert_eq!(
                            index.predict_fraud_count(&query.vector),
                            brute_force(&references, &query.vector)
                        );
                    }
                }
            }
        }
    }
}

#[test]
fn statistics_count_the_work_of_a_search() {
    let references = scattered(300, 3);
    let bytes = build_index(references.clone(), 16, PartitionScheme::recommended()).unwrap();
    let index = open(&bytes);
    let metadata = index.metadata();
    assert_eq!(metadata.reference_count, 300);
    assert!(metadata.partition_count > 1);
    let query = references[17].vector;
    let (count, stats) = index.predict_fraud_count_with_stats(&query);
    assert_eq!(count, brute_force(&references, &query));
    assert_eq!(stats.partitions_visited, 1 + stats.secondary_partitions);
    assert!(stats.leaves_scanned >= 1 && stats.blocks_scanned >= stats.leaves_scanned);
    assert!(stats.nodes_visited as usize <= metadata.node_count);
    let (count, parts) = index.predict_fraud_count_with_partitions(&query);
    assert_eq!(count, brute_force(&references, &query));
    assert!(parts.contains(index.compute_partition_key(&query)));
    assert_eq!(index.predict_fraud_count_in_partitions(&query, &parts), count);
}

#[test]
fn an_early_exit_stops_at_near_candidates() {
    let references = scattered(300, 5);
    let bytes = build_index(references.clone(), 16, PartitionScheme::recommended()).unwrap();
    let settings = SearchSettings::from_values(None, Some("1000000000000"), None);
    assert_eq!(settings.early_exit_threshold, 1_000_000_000_000);
    let index = SpecialistIndex::open(&bytes, settings).unwrap();
    let (_, stats) = index.predict_fraud_count_with_stats(&references[0].vector);
    assert!(stats.secondary_partitions < index.metadata().partition_count as u32 - 1);
}

#[test]
fn an_early_exit_counts_what_is_nearest_so_far() {
    let references = scattered(600, 21);
    let scheme = PartitionScheme::by_name("amt32_only").unwrap();
    let bytes = build_index(references.clone(), 16, scheme).unwrap();
    for label_defer in [false, true] {
        let near_enough = i64::MAX;
        let mode = SearchMode::KeyFirst;
        let settings = SearchSettings { mode, early_exit_threshold: near_enough, label_defer };
        let index = SpecialistIndex::open(&bytes, settings).unwrap();
        let mut ended = 0;
        for query in scattered(60, 22).iter().chain(&references) {
            let key = index.compute_partition_key(&query.vector);
            let own: Vec<Reference> = references
                .iter()
                .filter(|r| index.compute_partition_key(&r.vector) == key)
                .cloned()
                .collect();
            if own.len() < K {
                continue;
            }
            ended += 1;
            let expected = brute_force(&own, &query.vector);
            assert_eq!(index.predict_fraud_count(&query.vector), expected);
            let (count, stats) = index.predict_fraud_count_with_stats(&query.vector);
            assert_eq!(count, expected);
            assert_eq!(stats.partitions_visited, 1);
            assert_eq!(stats.secondary_partitions, 0);
        }
        assert!(ended > 500);
        let exact = SearchSettings { mode: SearchMode::Exact, ..settings };
        let index = SpecialistIndex::open(&bytes, exact).unwrap();
        let query = references[3].vector;
        assert_eq!(index.predict_fraud_count(&query), brute_force(&references, &query));
    }
}

#[test]
fn an_index_holds_what_its_references_ask_for() {
    let references = scattered(700, 31);
    let bytes = build_index(references, 16, PartitionScheme::recommended()).unwrap();
    let index = open(&bytes);
    let nodes = &index.contents.forest.nodes;
    let lanes = &index.contents.forest.lanes;
    let mut used = vec![false; lanes.len()];
    for (i, node) in nodes.iter().enumerate() {
        if node.left < 0 {
            let first = node.start as usize * 8;
            let end = first + (node.len as usize + 7) / 8 * 8;
            let mut bits = 0;
            for p in first..end {
                used[p] = true;
                if p < first + node.len as usize {
                    bits |= 1 << lanes[p].label.min(7);
                } else {
                    assert_eq!((lanes[p].label, lanes[p].ref_index), (0, u32::MAX));
                    assert_eq!(lanes[p].vector, [0; DIMS]);
                }
            }
            assert_eq!(node.class_bits, bits);
        } else {
            let left = &nodes[node.left as usize];
            let right = &nodes[node.right as usize];
            assert_eq!(node.left as usize, i + 1);
            assert_eq!(node.start, left.start);
            assert_eq!(node.len, left.len + right.len);
            assert_eq!(node.class_bits, left.class_bits | right.class_bits);
        }
    }
    assert!(used.iter().all(|&u| u));
}

#[test]
fn an_empty_index_finds_nothing() {
    let bytes = build_index(Vec::new(), 8, PartitionScheme::recommended()).unwrap();
    let index = open(&bytes);
    assert_eq!(index.metadata().reference_count, 0);
    assert_eq!(index.predict_fraud_count(&[0; PACKED_DIMS]), 0);
}

#[test]
fn search_settings_come_from_texts() {
    let defaults = SearchSettings::from_values(None, None, None);
    assert_eq!(
        defaults,
        SearchSettings {
            mode: SearchMode::KeyFirst,
            early_exit_threshold: 0,
            label_defer: true
        }
    );
    let set = SearchSettings::from_values(Some("exact"), Some("-3"), Some("0"));
    assert_eq!(
        set,
        SearchSettings { mode: SearchMode::Exact, early_exit_threshold: -3, label_defer: false }
    );
    assert_eq!(
        SearchSettings::from_values(Some("specialist"), None, None).mode,
        SearchMode::Specialist
    );
    assert_eq!(kd_split_strategy(Some("variance")), KdSplitStrategy::Variance);
    assert_eq!(kd_split_strategy(Some("other")), KdSplitStrategy::Widest);
    assert_eq!(kd_split_strategy(None), KdSplitStrategy::Widest);
}

#[test]
fn files_that_are_cut_short_do_not_open() {
    let bytes = build_index(scattered(50, 1), 8, PartitionScheme::recommended()).unwrap();
    for len in 0..bytes.len() {
        assert!(SpecialistIndex::open(
            &bytes[..len],
            SearchSettings::from_values(None, None, None)
        )
        .is_err());
    }
}

#[test]
fn each_fault_of_a_file_is_told() {
    let bytes = build_index(scattered(50, 1), 8, PartitionScheme::recommended()).unwrap();
    assert_eq!(fault(&[]).message(), "file too short");
    assert_eq!(fault(&bytes[..10]).message(), "unexpected EOF (i32)");
    assert_eq!(fault(&bytes[..33]).message(), "unexpected EOF (i16)");

    let mut wrong = bytes.clone();
    wrong[0] = 255;
    let message = fault(&wrong).message();
    assert!(message.starts_with("unsupported index magic: [255, "));
    assert!(message.ends_with("]. Rebuild index with the preprocess binary"));

    let mut wrong = bytes.clone();
    wrong[8..12].copy_from_slice(&7i32.to_le_bytes());
    assert_eq!(fault(&wrong).message(), "invalid index scale: expected 10000, got 7");

    let mut wrong = bytes.clone();
    wrong[12..16].copy_from_slice(&15i32.to_le_bytes());
    assert_eq!(fault(&wrong).message(), "invalid packed dimensions");

    let mut wrong = bytes.clone();
    wrong[20..24].copy_from_slice(&i32::MAX.to_le_bytes());
    assert_eq!(fault(&wrong).message(), "truncated partitions");

    let mut wrong = bytes.clone();
    wrong[20..24].copy_from_slice(&(-1i32).to_le_bytes());
    assert_eq!(fault(&wrong).message(), "partition_count overflow");

    let mut wrong = bytes.clone();
    wrong[24..28].copy_from_slice(&(-1i32).to_le_bytes());
    assert_eq!(fault(&wrong).message(), "node_count overflow");

    let mut wrong = bytes.clone();
    wrong[24..28].copy_from_slice(&i32::MAX.to_le_bytes());
    assert_eq!(fault(&wrong).message(), "truncated nodes");

    let mut wrong = bytes.clone();
    wrong[28..32].copy_from_slice(&i32::MAX.to_le_bytes());
    assert_eq!(fault(&wrong).message(), "truncated vectors");

    let mut wrong = bytes.clone();
    wrong[38..40].copy_from_slice(&i16::MAX.to_le_bytes());
    assert_eq!(fault(&wrong).message(), "truncated predicates");

    let partitions = 42 + 4 * (bytes[38] as usize) + 2 * (bytes[36] as usize);
    let partitions = partitions + 2 * (bytes[40 + 4 * (bytes[38] as usize)] as usize);
    let mut wrong = bytes.clone();
    wrong[partitions + 4..partitions + 8].copy_from_slice(&i32::MAX.to_le_bytes());
    assert_eq!(fault(&wrong).message(), "malformed trees");

    let mut other = bytes.clone();
    other[32..34].copy_from_slice(&77i16.to_le_bytes());
    open(&other);

    let blocks = i32::from_le_bytes([bytes[28], bytes[29], bytes[30], bytes[31]]) as usize;
    let nodes = i32::from_le_bytes([bytes[24], bytes[25], bytes[26], bytes[27]]) as usize;
    assert_eq!(fault(&bytes[..bytes.len() - 1]).message(), "truncated class bits");
    assert_eq!(
        fault(&bytes[..bytes.len() - nodes - 1]).message(),
        "truncated reference indices"
    );
    assert_eq!(
        fault(&bytes[..bytes.len() - nodes - 32 * blocks - 8]).message(),
        "truncated labels"
    );
}

#[test]
fn cut_keys_put_the_week_day_above_the_amount() {
    let mut vector = [0i16; PACKED_DIMS];
    vector[0] = 25;
    vector[4] = 15;
    assert_eq!(compute_cut_key(&vector, &[10, 20, 30], &[10, 20]), 2 | (1 << 2));
    let scheme = PartitionScheme::new("two", 3, 2);
    assert_eq!(scheme.compute_key(&vector, &[10, 20, 30, 10, 20]), 2 | (1 << 2));
    assert_eq!(scheme.scheme_id(), 0);
    assert_eq!(PartitionScheme::by_name("tree256").unwrap().scheme_id(), 1);
    assert!(PartitionScheme::by_name("unknown").is_none());
}

#[test]
fn cuts_are_quantiles() {
    let references: Vec<Reference> = (0..100)
        .map(|i| {
            let mut vector = [0i16; PACKED_DIMS];
            vector[0] = 99 - i;
            vector[4] = i * 2;
            Reference { vector, label: 0 }
        })
        .collect();
    let cuts = PartitionScheme::new("quarters", 3, 1).compute_cuts(&references);
    assert_eq!(cuts, vec![25, 50, 75, 100]);
}

#[test]
fn partition_sets_hold_keys_below_256() {
    let mut set = PartitionSet::empty();
    set.set(3);
    set.set(255);
    set.set(256);
    set.set(64);
    assert_eq!(set.keys_sorted(), vec![3, 64, 255]);
    assert!(set.contains(64) && !set.contains(65) && !set.contains(256));
    assert_eq!(PartitionSet::from_top_keys(&[1, 1, 9, 300, u32::MAX]).keys_sorted(), vec![1, 9]);
    let near = PartitionSet::empty().with_query_margin(0);
    assert_eq!(near.keys_sorted(), vec![0, 1, 2, 4, 8, 16, 32, 64, 128]);
}

#[test]
fn entries_are_sorted_by_distance() {
    let mut entries: Vec<(i64, usize)> = (0..100).map(|i| ((i * 37 % 101) as i64, i)).collect();
    sort_partition_entries(&mut entries);
    assert!(entries.windows(2).all(|pair| pair[0].0 <= pair[1].0));
    let mut places: Vec<usize> = entries.iter().map(|e| e.1).collect();
    places.sort();
    assert_eq!(places, (0..100).collect::<Vec<usize>>());
    for count in [5, 32, 33, 200] {
        let mut ties: Vec<(i64, usize)> = (0..count).map(|i| ((i % 3) as i64, i)).collect();
        sort_partition_entries(&mut ties);
        assert!(ties.windows(2).all(|pair| pair[0] < pair[1]), "{}", count);
    }
}

#[test]
fn the_order_of_insertion_does_not_matter() {
    let candidates: [(i64, u8, u32, u32); 7] = [
        (40, 1, 8, 3),
        (7, 0, 2, 1),
        (40, 0, 6, 2),
        (i64::MAX - 1, 1, 1, 9),
        (3, 1, 5, 4),
        (19, 0, 4, 4),
        (7, 1, 3, 6),
    ];
    for turn in 0..5040 {
        let mut left = candidates.to_vec();
        let mut rest: usize = turn;
        let mut dists = [i64::MAX; K];
        let mut labels = [0u8; K];
        let mut indices = [u32::MAX; K];
        let mut keys = [u32::MAX; K];
        while !left.is_empty() {
            let (dist, label, index, key) = left.remove(rest % left.len());
            rest /= left.len() + 1;
            insert_best(
                dist, label, index, key, &mut dists, &mut labels, &mut indices, &mut keys,
            );
        }
        assert_eq!(dists, [3, 7, 7, 19, 40]);
        assert_eq!(labels, [1, 0, 1, 0, 0]);
        assert_eq!(indices, [5, 2, 3, 4, 6]);
        assert_eq!(keys, [4, 1, 6, 4, 2]);
    }
}

#[test]
fn counting_the_work_does_not_change_the_count() {
    let references = scattered(400, 11);
    let queries = scattered(30, 12);
    let bytes = build_index(references.clone(), 16, PartitionScheme::by_name("amt16_dow7").unwrap())
        .unwrap();
    for mode in [SearchMode::Exact, SearchMode::Specialist, SearchMode::KeyFirst] {
        let settings = SearchSettings { mode, early_exit_threshold: 0, label_defer: true };
        let index = SpecialistIndex::open(&bytes, settings).unwrap();
        for query in &queries {
            let count = index.predict_fraud_count(&query.vector);
            let (counted, stats) = index.predict_fraud_count_with_stats(&query.vector);
            assert_eq!(counted, count);
            assert!(stats.leaves_scanned <= stats.nodes_visited);
            assert!(stats.nodes_visited as usize <= index.metadata().node_count);
            assert!(stats.secondary_partitions <= stats.partitions_visited);
            if mode != SearchMode::Exact {
                assert!(stats.partitions_visited <= stats.secondary_partitions + 1);
            }
            let (found, parts) = index.predict_fraud_count_with_partitions(&query.vector);
            assert_eq!(found, count);
            assert_eq!(index.predict_fraud_count_in_partitions(&query.vector, &parts), count);
        }
    }
}

#[test]
fn references_come_from_json() {
    let json = br#" [ {"label":"fraud","vector":[1,0,-1,0.5,0.00004,0.00006,2,-0.5,0,0,0,0,0,1.0], "vector":[0,0,0,0.25,0,0,0,0,0,0,0,0,0,0]},
        {"vector":[1e0,0,-1,0.5,0.00004,0.00006,2,-0.5,0,0,0,0,0,1.0],"label":"legit"} ]"#;
    let references = parse_references(json).unwrap();
    assert_eq!(references.len(), 2);
    assert_eq!(references[0].label, 1);
    assert_eq!(references[0].vector[3], 2500);
    assert_eq!(references[1].label, 0);
    assert_eq!(
        references[1].vector,
        [10000, 0, -10000, 5000, 0, 1, 10000, 0, 0, 0, 0, 0, 0, 10000, 0, 0]
    );
    assert!(parse_references(b"[]").unwrap().is_empty());
}

#[test]
fn wrong_references_are_refused() {
    let error = |json: &[u8]| match parse_references(json) {
        Ok(_) => panic!("the references are wrong"),
        Err(e) => e,
    };
    assert_eq!(error(b"[1,"), ReferenceError::NotJson);
    assert_eq!(error(b"{}"), ReferenceError::NotAnArray);
    assert_eq!(error(b"[{}]"), ReferenceError::MissingVector);
    assert_eq!(error(b"[7]"), ReferenceError::MissingVector);
    assert_eq!(error(br#"[{"vector":3}]"#), ReferenceError::MissingVector);
    assert_eq!(error(br#"[{"vector":[1,2]}]"#), ReferenceError::WrongDims(2));
    assert_eq!(
        error(br#"[{"vector":[1,2,3,4,5,6,7,8,9,10,11,12,13,"14"],"label":"fraud"}]"#),
        ReferenceError::NotANumber
    );
    assert_eq!(
        error(br#"[{"vector":[1,2,3,4,5,6,7,8,9,10,11,12,13,14]}]"#),
        ReferenceError::MissingLabel
    );
    assert_eq!(
        error(br#"[{"vector":[1,2,3,4,5,6,7,8,9,10,11,12,13,14],"label":1}]"#),
        ReferenceError::MissingLabel
    );
    assert_eq!(ReferenceError::WrongDims(2).message(), "expected 14 dims, got 2");
    assert_eq!(ReferenceError::NotAnArray.message(), "expected top-level array");
    assert_eq!(ReferenceError::MissingVector.message(), "missing vector array");
    assert_eq!(ReferenceError::NotANumber.message(), "non-numeric vector value");
    assert_eq!(ReferenceError::MissingLabel.message(), "missing label");
    assert_eq!(ReferenceError::NotJson.message(), "JSON parse error");
}

#[test]
fn reference_files_may_be_packed() {
    let json = br#"[{"vector":[1,0,0,0,0,0,0,0,0,0,0,0,0,0.5],"label":"fraud"}]"#;
    let mut encoder = flate2::write::GzEncoder::new(Vec::new(), flate2::Compression::default());
    encoder.write_all(json).unwrap();
    let packed = encoder.finish().unwrap();
    let references = load_references("refs.json.gz", &packed).ok().unwrap();
    assert_eq!(references.len(), 1);
    assert_eq!(references[0].vector[13], 5000);
    assert_eq!(load_references("refs.json", json).ok().unwrap()[0].vector[0], SCALE);

    let error = |path: &str, contents: &[u8]| match load_references(path, contents) {
        Ok(_) => panic!("the file is wrong"),
        Err(message) => message,
    };
    assert_eq!(error("gz", b"[{}]"), "missing vector array");
    assert_eq!(error("x.json", b"\xff"), "stream did not contain valid UTF-8");
    let not_json = error("x.json", b"[1,");
    assert!(not_json.starts_with("JSON parse error: "));
    assert_ne!(not_json, "JSON parse error: ");
    assert_ne!(error("x.gz", json), error("x.gz", b""));
    assert!(!error("x.gz", &packed[..packed.len() - 3]).is_empty());
}

/// The file in the older version of the format, which has neither indices nor class bits.
fn older_version(bytes: &[u8]) -> Vec<u8> {
    let i16_at = |at: usize| i16::from_le_bytes([bytes[at], bytes[at + 1]]) as usize;
    let i32_at = |at: usize| {
        i32::from_le_bytes([bytes[at], bytes[at + 1], bytes[at + 2], bytes[at + 3]]) as usize
    };
    let behind = 40 + 4 * i16_at(38);
    let cuts = i16_at(36) + i16_at(behind);
    let blocks = i32_at(28);
    let partitions = behind + 2 + 2 * cuts;
    let vectors = partitions + 80 * i32_at(20) + 80 * i32_at(24);
    let labels = vectors + 224 * blocks;
    let mut out = b"RNSPCST3".to_vec();
    out.extend_from_slice(&bytes[8..32]);
    out.extend_from_slice(&bytes[36..38]);
    out.extend_from_slice(&bytes[behind..partitions]);
    out.extend_from_slice(&bytes[partitions..vectors]);
    for block in 0..blocks {
        for dim in 0..DIMS {
            for lane in 0..8 {
                let at = vectors + 224 * block + 32 * (dim / 2) + 4 * lane + 2 * (dim % 2);
                out.extend_from_slice(&bytes[at..at + 2]);
            }
        }
    }
    out.extend_from_slice(&bytes[labels..labels + 8 * blocks]);
    out
}

#[test]
fn older_files_are_read_too() {
    let references = scattered(400, 11);
    let bytes = build_index(references.clone(), 16, PartitionScheme::recommended()).unwrap();
    let older = older_version(&bytes);
    let index = open(&older);
    assert_eq!(index.metadata().reference_count, 400);
    for query in scattered(40, 12) {
        assert_eq!(
            index.predict_fraud_count(&query.vector),
            brute_force(&references, &query.vector)
        );
    }
    assert_eq!(fault(&older[..older.len() - 1]).message(), "truncated labels");
}

#[test]
fn the_questions_stand_behind_the_counts() {
    let predicates = [
        TreePredicate { dim: 3, threshold: -2, enabled: true },
        TreePredicate { dim: 11, threshold: 700, enabled: false },
    ];
    let mut w = IndexWriter::new();
    w.write_header(9, 1, 2, 1, 2, &[5, 6, 7], &[], &predicates).unwrap();
    let bytes = w.into_bytes();
    assert_eq!(&bytes[..8], b"RNSPCST5");
    assert_eq!(bytes[8..12], (SCALE as i32).to_le_bytes());
    assert_eq!(bytes[12..16], 16i32.to_le_bytes());
    assert_eq!(bytes[16..20], 9i32.to_le_bytes());
    assert_eq!(bytes[20..32], [0u8; 12]);
    assert_eq!(bytes[32..40], [1, 0, 2, 0, 1, 0, 2, 0]);
    assert_eq!(bytes[40..48], [3, 1, 0xfe, 0xff, 11, 0, 0xbc, 2]);
    assert_eq!(bytes[48..], [2, 0, 5, 0, 6, 0, 7, 0]);
}

/// The file with the nodes in the opposite order.
fn turned_round(bytes: &[u8]) -> Vec<u8> {
    let i16_at = |at: usize| i16::from_le_bytes([bytes[at], bytes[at + 1]]) as usize;
    let i32_at = |at: usize| {
        i32::from_le_bytes([bytes[at], bytes[at + 1], bytes[at + 2], bytes[at + 3]])
    };
    let behind = 40 + 4 * i16_at(38);
    let partitions = behind + 2 + 2 * (i16_at(36) + i16_at(behind));
    let (parts, nodes) = (i32_at(20) as usize, i32_at(24) as usize);
    let first = partitions + 80 * parts;
    let classes = bytes.len() - nodes;
    let turned = |i: i32| if i < 0 { i } else { nodes as i32 - 1 - i };
    let mut out = bytes.to_vec();
    for i in 0..parts {
        let at = partitions + 80 * i + 4;
        out[at..at + 4].copy_from_slice(&turned(i32_at(at)).to_le_bytes());
    }
    for i in 0..nodes {
        let (from, to) = (first + 80 * i, first + 80 * (nodes - 1 - i));
        out[to..to + 80].copy_from_slice(&bytes[from..from + 80]);
        out[to..to + 4].copy_from_slice(&turned(i32_at(from)).to_le_bytes());
        out[to + 4..to + 8].copy_from_slice(&turned(i32_at(from + 4)).to_le_bytes());
        out[classes + nodes - 1 - i] = bytes[classes + i];
    }
    out
}

#[test]
fn nodes_may_stand_behind_their_children() {
    let references = scattered(500, 21);
    let bytes = build_index(references.clone(), 16, PartitionScheme::recommended()).unwrap();
    let turned = turned_round(&bytes);
    assert_ne!(turned, bytes);
    let index = open(&turned);
    for query in scattered(40, 22) {
        assert_eq!(
            index.predict_fraud_count(&query.vector),
            brute_force(&references, &query.vector)
        );
    }
}

#[test]
fn a_node_below_itself_is_no_tree() {
    let references = scattered(500, 21);
    let bytes = build_index(references, 16, PartitionScheme::recommended()).unwrap();
    let behind = 40 + 4 * bytes[38] as usize;
    let partitions = behind + 2 + 2 * (bytes[36] as usize + bytes[behind] as usize);
    let parts = i32::from_le_bytes([bytes[20], bytes[21], bytes[22], bytes[23]]) as usize;
    let first = partitions + 80 * parts;
    let mut wrong = bytes.clone();
    wrong[first..first + 8].copy_from_slice(&[0u8; 8]);
    assert_eq!(fault(&wrong).message(), "malformed trees");
}
