use rinha_rust_tree::settings;
use rinha_rust_tree::text;
use rinha_rust_tree::vector::binary64::Binary64;
use rinha_rust_tree::vector::helpers;
use rinha_rust_tree::vector::numeral;
use rinha_rust_tree::vector::scan;
use rinha_rust_tree::vector::ParseError;

fn double(value: f64) -> Binary64 {
    Binary64::from_bits(value.to_bits())
}

/// Doubles of all magnitudes, from a linear congruential generator.
fn doubles(count: usize) -> Vec<f64> {
    let mut state = 42u64;
    let mut all = vec![
        0.0,
        -0.0,
        1.0,
        -1.0,
        0.5,
        f64::MIN_POSITIVE,
        f64::MAX,
        f64::from_bits(1),
        f64::INFINITY,
        f64::NEG_INFINITY,
    ];
    while all.len() < count {
        state = state.wrapping_mul(6364136223846793005).wrapping_add(1442695040888963407);
        let value = f64::from_bits(state);
        if !value.is_nan() {
            all.push(value);
            all.push((state >> 40) as f64 / 4096.0);
        }
    }
    all
}

#[test]
fn products_and_quotients_round_to_nearest() {
    let all = doubles(60);
    for &a in &all {
        for &b in &all {
            let product = double(a).times(double(b));
            if (a * b).is_nan() {
                assert_eq!(f64::from_bits(product.to_bits()).is_nan(), true);
            } else {
                assert_eq!(product.to_bits(), (a * b).to_bits());
            }
            let quotient = double(a).over(double(b));
            if (a / b).is_nan() {
                assert_eq!(f64::from_bits(quotient.to_bits()).is_nan(), true);
            } else {
                assert_eq!(quotient.to_bits(), (a / b).to_bits());
            }
        }
        assert_eq!(double(a).round_to_i16(), a.round() as i16);
        assert_eq!(double(a).negated().to_bits(), (-a).to_bits());
    }
    for value in [0i64, 1, -7, 10000, i64::MAX, i64::MIN, (1 << 53) + 1] {
        assert_eq!(Binary64::from_i64(value).to_bits(), (value as f64).to_bits());
    }
    assert_eq!(Binary64::from_fraction(1, 10).to_bits(), 0.1f64.to_bits());
}

#[test]
fn numerals_are_read_to_the_nearest_double() {
    for text in [
        "0", "-0", "1", "384.88", "18.8626479774", "13.7090520965", "0.1", "1e10", "1E-10",
        "123456789012345678901234567890", "2.2250738585072014e-308", "5e-324", "2e-324", "1e400",
        "9007199254740993", "0.000000000000000000000000000001", "-7.5e+3", "1.7976931348623157e308",
        "12.",
    ] {
        let expected: f64 = text.parse().unwrap();
        let value = numeral::parse_numeral(text.as_bytes()).unwrap();
        assert_eq!(f64::from_bits(value.to_bits()), expected, "{}", text);
    }
    for text in ["", "-", "x", "1e", "--1", "1.2.3"] {
        assert!(numeral::parse_numeral(text.as_bytes()).is_none(), "{}", text);
    }
    for value in doubles(200) {
        if value.is_finite() {
            let text = format!("{:e}", value);
            let read = numeral::parse_numeral(text.as_bytes()).unwrap();
            assert_eq!(read.to_bits(), value.to_bits());
        }
    }
}

#[test]
fn values_are_put_on_the_scale() {
    let quantize = |value: f64| helpers::quantize(double(value));
    assert_eq!(quantize(-1.5), -10000);
    assert_eq!(quantize(-0.5), 0);
    assert_eq!(quantize(0.0), 0);
    assert_eq!(quantize(0.03849), 385);
    assert_eq!(quantize(0.00005), 1);
    assert_eq!(quantize(0.99994), 9999);
    assert_eq!(quantize(0.99996), 10000);
    assert_eq!(quantize(7.0), 10000);
    assert_eq!(quantize(f64::NAN), 0);
    assert_eq!(helpers::scale_down(double(384.88), 10000), 385);
    assert_eq!(helpers::scale_down_integer(3, 12), 2500);
    assert_eq!(helpers::scale_flag(true), 10000);
    assert_eq!(helpers::scale_flag(false), 0);
}

#[test]
fn merchants_have_a_risk_by_category() {
    assert_eq!(helpers::parse_mcc(b"5912"), 5912);
    assert_eq!(helpers::parse_mcc(b"591"), 0);
    assert_eq!(helpers::parse_mcc(b"59x2"), 0);
    for (code, risk) in [
        ("5411", 1500),
        ("5812", 3000),
        ("5912", 2000),
        ("5944", 4500),
        ("7801", 8000),
        ("7802", 7500),
        ("7995", 8500),
        ("4511", 3500),
        ("5311", 2500),
        ("5999", 5000),
        ("0000", 5000),
    ] {
        assert_eq!(helpers::scale_risk(code.as_bytes()), risk);
    }
    assert_eq!(helpers::mcc_risk(7995).to_bits(), 0.85f64.to_bits());
}

#[test]
fn times_are_read_from_iso_texts() {
    let time = helpers::parse_datetime(b"2026-03-11T20:23:35Z").unwrap();
    assert_eq!(time.hour, 20);
    assert_eq!(time.day_of_week, 2);
    let next = helpers::parse_datetime(b"2026-03-12T00:00:00Z").unwrap();
    assert_eq!(next.epoch_minute - time.epoch_minute, 3 * 60 + 37);
    assert_eq!(helpers::parse_datetime(b"1970-01-01T00:00:00Z").unwrap().epoch_minute, 0);
    let before = helpers::parse_datetime(b"1969-12-31T23:59:00Z").unwrap();
    assert_eq!(before.epoch_minute, -1);
    assert_eq!(before.day_of_week, 2);
    let day_zero = helpers::parse_datetime(b"2026-03-00T00:00:00Z").unwrap();
    let last_day = helpers::parse_datetime(b"2026-02-28T00:00:00Z").unwrap();
    assert_eq!(day_zero.epoch_minute, last_day.epoch_minute);
    assert_eq!(day_zero.day_of_week, 5);
    assert!(helpers::parse_datetime(b"2026-03-11").is_err());
    assert!(helpers::parse_datetime(b"2026-03-1xT20:23:35Z").is_err());
}

#[test]
fn values_are_read_in_place() {
    assert_eq!(numeral::read_int_at(b" -12,", 1), Ok(-12));
    assert_eq!(numeral::read_int_at(b"x", 0), Err(ParseError::InvalidValue));
    assert_eq!(numeral::read_bool_at(b"a true", 2), Ok(true));
    assert_eq!(numeral::read_bool_at(b"maybe", 0), Err(ParseError::InvalidValue));
    assert_eq!(numeral::read_string_at(br#""a\"b" "#, 0), Ok(&br#"a\"b"#[..]));
    assert!(numeral::read_string_at(b"\"open", 0).is_err());
    assert!(numeral::read_string_at(b"x", 7).is_err());
    assert_eq!(scan::skip_ws(b"x ", 9), 9);
    assert!(scan::skip_string(b"x", 7).is_err());
    assert!(scan::skip_value(b"x", usize::MAX).is_err());
    assert_eq!(scan::skip_value(b" [1, \"]\", {}] ", 0), Ok(13));
    assert_eq!(
        numeral::read_double_at(b"[1.25]", 1).unwrap().to_bits(),
        1.25f64.to_bits()
    );
}

#[test]
fn digits_read_back_what_was_written() {
    for n in [0, 9, 10, 1234567890, u64::MAX] {
        let mut s = String::from("n=");
        text::push_decimal(&mut s, n);
        assert_eq!(s, format!("n={}", n));
        assert_eq!(text::parse_unsigned(&s[2..], u64::MAX), Some(n));
    }
    for n in [0, -1, i64::MIN, i64::MAX] {
        let mut s = String::new();
        text::push_signed(&mut s, n);
        assert_eq!(s, format!("{}", n));
        assert_eq!(text::parse_signed(&s, i64::MAX), Some(n));
    }
}

#[test]
fn texts_are_split_and_trimmed() {
    assert_eq!(text::trim("\t a b\u{3000}\n"), "a b");
    assert_eq!(text::split("a,,b", ','), vec!["a", "", "b"]);
    assert_eq!(text::split_once("1:/x:y", ':'), Some(("1", "/x:y")));
    assert_eq!(text::split_once("none", ':'), None);
    assert_eq!(text::parse_unsigned("+5", 10), Some(5));
    assert_eq!(text::parse_unsigned("11", 10), None);
    assert_eq!(text::parse_unsigned("", 10), None);
    assert_eq!(text::parse_unsigned("-1", 10), None);
    assert_eq!(text::parse_signed("-11", 10), Some(-11));
    assert_eq!(text::parse_signed("-12", 10), None);
    assert_eq!(settings::number_or(Some("x"), 10, 3), 3);
    assert_eq!(settings::number_or(Some("7"), 10, 3), 7);
}

#[test]
fn hashes_mix_words_and_bytes() {
    let step = |hash: u64, word: u64| {
        (hash.rotate_left(5) ^ word).wrapping_mul(0x517c_c1b7_2722_0a95)
    };
    let seed = 0x517c_c1b7_2722_0a95;
    assert_eq!(helpers::hash_bytes(b""), seed);
    let word = u64::from_le_bytes(*b"MERC-001");
    assert_eq!(helpers::hash_bytes(b"MERC-001"), step(seed, word));
    assert_eq!(helpers::hash_bytes(b"MERC-0012"), step(step(seed, word), b'2' as u64));
}
