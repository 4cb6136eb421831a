use rinha_rust_tree::vector::compact::try_parse_compact_ordered;
use rinha_rust_tree::vector::parse_query;
use rinha_rust_tree::vector::serde_fallback::try_parse_serde;
use rinha_rust_tree::vector::single_pass::try_parse_single_pass;
use rinha_rust_tree::vector::ParseError;
use rinha_rust_tree::SCALE;

const BASELINE: &[u8] = br#"{"id":"tx-1","transaction":{"amount":384.88,"installments":3,"requested_at":"2026-03-11T20:23:35Z"},"customer":{"avg_amount":769.76,"tx_count_24h":3,"known_merchants":["MERC-009","MERC-001"]},"merchant":{"id":"MERC-001","mcc":"5912","avg_amount":298.95},"terminal":{"is_online":false,"card_present":true,"km_from_home":13.70},"last_transaction":{"timestamp":"2026-03-11T14:58:35Z","km_from_current":18.86}}"#;

#[test]
fn parses_required_payload() {
    let query = parse_vec(BASELINE);

    assert_eq!(query[0], 385);
    assert_eq!(query[1], 2500);
    assert_eq!(query[5], 2257);
    assert_eq!(query[6], 189);
    assert_eq!(query[7], 137);
    assert_eq!(query[8], 1500);
    assert_eq!(query[9], 0);
    assert_eq!(query[10], 10000);
    assert_eq!(query[13], 299);
}

#[test]
fn object_order_does_not_change_vector() {
    let customer_first = br#"{"customer":{"avg_amount":769.76,"tx_count_24h":3,"known_merchants":["MERC-009","MERC-001"]},"id":"tx-1","last_transaction":{"timestamp":"2026-03-11T14:58:35Z","km_from_current":18.8626479774},"merchant":{"id":"MERC-001","mcc":"5912","avg_amount":298.95},"terminal":{"is_online":false,"card_present":true,"km_from_home":13.7090520965},"transaction":{"amount":384.88,"installments":3,"requested_at":"2026-03-11T20:23:35Z"}}"#;

    assert_eq!(parse_vec(customer_first), parse_vec(BASELINE));
}

#[test]
fn single_pass_matches_serde_fallback() {
    let mut fast = [0i16; 16];
    let mut fallback = [0i16; 16];

    try_parse_single_pass(BASELINE, &mut fast).expect("single-pass parse failed");
    try_parse_serde(BASELINE, &mut fallback).expect("serde parse failed");

    assert_eq!(fast, fallback);
}

#[test]
fn compact_ordered_matches_serde_fallback() {
    let mut fast = [0i16; 16];
    let mut fallback = [0i16; 16];

    try_parse_compact_ordered(BASELINE, &mut fast).expect("compact parse failed");
    try_parse_serde(BASELINE, &mut fallback).expect("serde parse failed");

    assert_eq!(fast, fallback);
}

#[test]
fn compact_ordered_accepts_null_last_transaction() {
    let payload = br#"{"id":"tx-1","transaction":{"amount":384.88,"installments":3,"requested_at":"2026-03-11T20:23:35Z"},"customer":{"avg_amount":769.76,"tx_count_24h":3,"known_merchants":["MERC-009","MERC-001"]},"merchant":{"id":"MERC-001","mcc":"5912","avg_amount":298.95},"terminal":{"is_online":false,"card_present":true,"km_from_home":13.70},"last_transaction":null}"#;
    let mut fast = [0i16; 16];
    let mut fallback = [0i16; 16];

    try_parse_compact_ordered(payload, &mut fast).expect("compact parse failed");
    try_parse_serde(payload, &mut fallback).expect("serde parse failed");

    assert_eq!(fast, fallback);
    assert_eq!(fast[5], -SCALE);
    assert_eq!(fast[6], -SCALE);
}

#[test]
fn fallback_accepts_case_and_separator_variants() {
    let variant = br#"{"ID":"tx-1","TRANSACTION":{"AMOUNT":384.88,"installments":3,"requestedAt":"2026-03-11T20:23:35Z"},"CUSTOMER":{"avg-amount":769.76,"txCount24h":3,"knownMerchants":["MERC-009","MERC-001"]},"MERCHANT":{"ID":"MERC-001","MCC":"5912","AVG-AMOUNT":298.95},"TERMINAL":{"isOnline":false,"card-present":true,"kmFromHome":13.70},"lastTransaction":{"TIMESTAMP":"2026-03-11T14:58:35Z","kmFromCurrent":18.86}}"#;

    assert_eq!(parse_vec(variant), parse_vec(BASELINE));
}

#[test]
fn invalid_payloads_are_rejected() {
    let invalid_payloads: &[&[u8]] = &[
        b"",
        b"{}",
        br#"{"transaction":{"amount":384.88,"installments":3,"requested_at":"2026-03-11T20:23:35Z"},"customer":{"tx_count_24h":3,"known_merchants":["MERC-009"]},"merchant":{"id":"MERC-001","mcc":"5912","avg_amount":298.95},"terminal":{"is_online":false,"card_present":true,"km_from_home":13.70},"last_transaction":null}"#,
        br#"{"id":"tx-1","transaction":{"amount":"384.88","installments":3,"requested_at":"2026-03-11T20:23:35Z"},"customer":{"avg_amount":769.76,"tx_count_24h":3,"known_merchants":["MERC-009","MERC-001"]},"merchant":{"id":"MERC-001","mcc":"5912","avg_amount":298.95},"terminal":{"is_online":false,"card_present":true,"km_from_home":13.7090520965},"last_transaction":null}"#,
    ];

    for payload in invalid_payloads {
        let mut query = [0i16; 16];
        assert!(
            parse_query(payload, &mut query).is_err(),
            "payload should be rejected: {}",
            String::from_utf8_lossy(payload)
        );
    }
}

fn parse_vec(payload: &[u8]) -> [i16; 16] {
    let mut query = [0i16; 16];
    parse_query(payload, &mut query).expect("payload should parse");
    query
}

#[test]
fn vectors_are_padded_with_zeros() {
    let query = parse_vec(BASELINE);
    assert_eq!(query[14], 0);
    assert_eq!(query[15], 0);
}

#[test]
fn each_error_has_a_payload() {
    let mut query = [0i16; 16];
    assert_eq!(try_parse_single_pass(b"{}", &mut query), Err(ParseError::MissingField));
    assert_eq!(try_parse_single_pass(b"[]", &mut query), Err(ParseError::InvalidFormat));
    let text_for_number = String::from_utf8(BASELINE.to_vec()).unwrap().replace("384.88", "true");
    assert_eq!(
        try_parse_single_pass(text_for_number.as_bytes(), &mut query),
        Err(ParseError::InvalidValue)
    );
    assert!(try_parse_compact_ordered(b"{}", &mut query).is_err());
    assert!(try_parse_serde(b"not json", &mut query).is_err());
}

#[test]
fn escaped_names_and_values_are_understood() {
    let escaped = String::from_utf8(BASELINE.to_vec())
        .unwrap()
        .replace("\"amount\"", "\"\\u0061mount\"")
        .replace("\"id\":\"MERC-001\"", "\"id\":\"MERC\\u002d001\"");
    assert_eq!(parse_vec(escaped.as_bytes()), parse_vec(BASELINE));
}

#[test]
fn one_pass_gives_what_the_compact_form_gives() {
    let base = String::from_utf8(BASELINE.to_vec()).unwrap();
    let last = base.find("{\"timestamp\"").unwrap();
    let payloads = [
        base.clone(),
        format!("{}null}}", &base[..last]),
        base.replace("384.88", "-384.880000000000"),
        base.replace("13.70", "13."),
        base.replace("\"installments\":3", "\"installments\":-99999999999"),
        base.replace("[\"MERC-009\",\"MERC-001\"]", "[]"),
        base.replace("\"id\":\"tx-1\"", "\"id\":\"tx]}{:\""),
    ];
    for payload in &payloads {
        let mut compact = [0i16; 16];
        let mut single = [0i16; 16];
        try_parse_compact_ordered(payload.as_bytes(), &mut compact).unwrap();
        try_parse_single_pass(payload.as_bytes(), &mut single).unwrap();
        assert_eq!(compact, single, "{}", payload);
    }
}

#[test]
fn the_compact_form_takes_more_than_one_pass_does() {
    let base = String::from_utf8(BASELINE.to_vec()).unwrap();
    let mut query = [0i16; 16];
    for payload in [base.replace("13.70", ".5"), base.replace("MERC-009", "MERC]009")] {
        assert!(try_parse_compact_ordered(payload.as_bytes(), &mut query).is_ok());
        assert!(try_parse_single_pass(payload.as_bytes(), &mut query).is_err());
        assert!(parse_query(payload.as_bytes(), &mut query).is_ok());
    }
}

#[test]
fn only_the_values_of_the_fields_count() {
    let other = br#" { "note" : {"amount":[1,2]}, "terminal":{"km_from_home":13.70 ,"card_present":true,"is_online":false}, "transaction":{"amount":1,"requested_at":"2026-03-11T20:23:35Z","installments":3,"amount":384.88},
        "last_transaction":{"km_from_current":18.86,"timestamp":"2026-03-11T14:58:35Z"},"customer":{"known_merchants":["MERC-009","MERC-001"],"age":44,"tx_count_24h":3,"avg_amount":769.76},"merchant":{"mcc":"5912","avg_amount":298.95,"id":"MERC-001"}}"#;
    let mut query = [0i16; 16];

    try_parse_single_pass(other, &mut query).unwrap();
    assert_eq!(query, parse_vec(BASELINE));
    assert_eq!(parse_vec(other), parse_vec(BASELINE));
}

/// `items` in the `turn`th of their orders.
fn in_another_order(items: &[&str], turn: usize) -> String {
    let mut left: Vec<&str> = items.to_vec();
    let mut turn = turn;
    let mut out: Vec<&str> = Vec::new();
    while !left.is_empty() {
        out.push(left.remove(turn % left.len()));
        turn /= left.len() + 1;
    }
    out.join(" , ")
}

#[test]
fn members_may_come_in_any_order() {
    let transaction = [
        "\"amount\":384.88",
        "\"installments\" : 3",
        "\"requested_at\":\"2026-03-11T20:23:35Z\"",
    ];
    let customer = [
        "\"avg_amount\":769.76",
        "\"tx_count_24h\":3",
        "\"known_merchants\":[\"MERC-009\",\"MERC-001\"]",
    ];
    let merchant = ["\"id\":\"MERC-001\"", "\"mcc\":\"5912\"", "\"avg_amount\":298.95"];
    let terminal = ["\"is_online\":false", "\"card_present\":true", "\"km_from_home\":13.70"];
    let last = ["\"timestamp\":\"2026-03-11T14:58:35Z\"", "\"km_from_current\":18.86"];
    for turn in 0..720 {
        let sections = [
            "\"id\":\"tx-1\"".to_string(),
            format!("\"transaction\":{{{}}}", in_another_order(&transaction, turn)),
            format!("\"customer\" :{{{}}}", in_another_order(&customer, turn / 2)),
            format!("\"merchant\": {{{} }}", in_another_order(&merchant, turn / 3)),
            format!("\"terminal\":{{{}}}", in_another_order(&terminal, turn / 5)),
            format!("\"last_transaction\":{{{}}}", in_another_order(&last, turn / 7)),
        ];
        let texts: Vec<&str> = sections.iter().map(|s| s.as_str()).collect();
        let payload = format!("{{{}}}", in_another_order(&texts, turn));
        assert_eq!(parse_vec(payload.as_bytes()), parse_vec(BASELINE), "{}", payload);
    }
}
