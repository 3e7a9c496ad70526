use parkvol::decode::{decode_response, DecodeError};
use parkvol::parse::{parse_price, parse_u64, ParseError};

fn row(fields: &[&str]) -> Vec<String> {
    fields.iter().map(|f| f.to_string()).collect()
}

fn good_rows() -> Vec<Vec<String>> {
    vec![
        row(&["1700000000000", "100.5", "110", "100", "105.25", "12.3", "1234.5"]),
        row(&["1700086400000", "105.25", "121", "105", "110", "7", "770"]),
    ]
}

#[test]
fn parse_u64_reads_digit_strings() {
    assert_eq!(parse_u64("0"), Ok(0));
    assert_eq!(parse_u64("1700000000000"), Ok(1_700_000_000_000));
    assert_eq!(parse_u64("18446744073709551615"), Ok(u64::MAX));
}

#[test]
fn parse_u64_rejects_bad_text() {
    assert_eq!(parse_u64(""), Err(ParseError::BadFormat));
    assert_eq!(parse_u64("12a4"), Err(ParseError::BadFormat));
    assert_eq!(parse_u64("-5"), Err(ParseError::BadFormat));
    assert_eq!(parse_u64("1.5"), Err(ParseError::BadFormat));
}

#[test]
fn parse_u64_rejects_too_large_values() {
    assert_eq!(parse_u64("18446744073709551616"), Err(ParseError::Overflow));
    assert_eq!(parse_u64("99999999999999999999999"), Err(ParseError::Overflow));
    assert_eq!(parse_u64("99999999999999999999x"), Err(ParseError::BadFormat));
}

#[test]
fn parse_price_scales_by_1e8() {
    assert_eq!(parse_price("110"), Ok(11_000_000_000));
    assert_eq!(parse_price("110.5"), Ok(11_050_000_000));
    assert_eq!(parse_price("0.00000001"), Ok(1));
    assert_eq!(parse_price("26795.55"), Ok(2_679_555_000_000));
    assert_eq!(parse_price("0"), Ok(0));
}

#[test]
fn parse_price_rejects_bad_text() {
    assert_eq!(parse_price(""), Err(ParseError::BadFormat));
    assert_eq!(parse_price("."), Err(ParseError::BadFormat));
    assert_eq!(parse_price("1."), Err(ParseError::BadFormat));
    assert_eq!(parse_price(".5"), Err(ParseError::BadFormat));
    assert_eq!(parse_price("1..2"), Err(ParseError::BadFormat));
    assert_eq!(parse_price("1.000000001"), Err(ParseError::BadFormat));
    assert_eq!(parse_price("1e5"), Err(ParseError::BadFormat));
}

#[test]
fn parse_price_rejects_too_large_values() {
    assert_eq!(parse_price("999999999999"), Err(ParseError::Overflow));
    assert_eq!(parse_price("184467440737.09551616"), Err(ParseError::Overflow));
    assert_eq!(parse_price("184467440737.09551615"), Ok(u64::MAX));
}

#[test]
fn decode_accepts_a_good_response() {
    let rows = good_rows();
    let candles = decode_response(0, "OK", &rows).unwrap();
    assert_eq!(candles.len(), 2);
    assert_eq!(candles[0].start_ms, 1_700_000_000_000);
    assert_eq!(candles[0].open_e8, 10_050_000_000);
    assert_eq!(candles[0].high_e8, 11_000_000_000);
    assert_eq!(candles[0].low_e8, 10_000_000_000);
    assert_eq!(candles[0].close_e8, 10_525_000_000);
    assert_eq!(candles[0].volume, "12.3");
    assert_eq!(candles[0].turnover, "1234.5");
    assert_eq!(candles[1].start_ms, 1_700_086_400_000);
}

#[test]
fn decode_rejects_nonzero_status_code() {
    // An upstream failure surfaces as an error, never as an empty list.
    let rows = good_rows();
    assert_eq!(decode_response(10001, "OK", &rows), Err(DecodeError::UpstreamStatus));
    assert_eq!(decode_response(-1, "OK", &rows), Err(DecodeError::UpstreamStatus));
    let no_rows: Vec<Vec<String>> = Vec::new();
    assert_eq!(decode_response(10001, "OK", &no_rows), Err(DecodeError::UpstreamStatus));
}

#[test]
fn decode_rejects_wrong_status_message() {
    let rows = good_rows();
    assert_eq!(decode_response(0, "ok", &rows), Err(DecodeError::UpstreamMessage));
    assert_eq!(decode_response(0, "", &rows), Err(DecodeError::UpstreamMessage));
    assert_eq!(decode_response(0, "OK!", &rows), Err(DecodeError::UpstreamMessage));
}

#[test]
fn decode_rejects_malformed_rows() {
    let mut rows = good_rows();
    rows[1] = row(&["1700086400000", "105.25", "121", "105", "110", "7"]);
    assert_eq!(decode_response(0, "OK", &rows), Err(DecodeError::BadCandle));

    let mut rows = good_rows();
    rows[0][0] = "not-a-timestamp".to_string();
    assert_eq!(decode_response(0, "OK", &rows), Err(DecodeError::BadCandle));

    let mut rows = good_rows();
    rows[0][2] = "12x".to_string();
    assert_eq!(decode_response(0, "OK", &rows), Err(DecodeError::BadCandle));
}

#[test]
fn decode_rejects_candles_breaking_the_price_invariant() {
    // Zero low price.
    let mut rows = good_rows();
    rows[0][3] = "0".to_string();
    assert_eq!(decode_response(0, "OK", &rows), Err(DecodeError::BadCandle));

    // Low above high.
    let mut rows = good_rows();
    rows[0][3] = "120".to_string();
    assert_eq!(decode_response(0, "OK", &rows), Err(DecodeError::BadCandle));

    // Open outside the range.
    let mut rows = good_rows();
    rows[0][1] = "99".to_string();
    assert_eq!(decode_response(0, "OK", &rows), Err(DecodeError::BadCandle));
}

#[test]
fn decode_accepts_an_empty_list() {
    let rows: Vec<Vec<String>> = Vec::new();
    let candles = decode_response(0, "OK", &rows).unwrap();
    assert!(candles.is_empty());
}
