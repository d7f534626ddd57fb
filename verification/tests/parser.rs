use ladekalk::parser::{check_record, ParseError, Parser, RawPrice};
use ladekalk::prices::HourPrice;

const SECOND: i128 = 1_000_000_000;

fn raw(start: &str, end: &str, price: u64) -> RawPrice {
    RawPrice { time_start: start.to_string(), time_end: end.to_string(), price }
}

#[test]
fn reads_a_price_list() {
    let records = vec![
        raw("2024-01-05T00:00:00+01:00", "2024-01-05T01:00:00+01:00", 412_340),
        raw("2024-01-05T01:00:00+01:00", "2024-01-05T02:00:00+01:00", 398_100),
    ];
    let prices = Parser::day_prices(&records);
    assert_eq!(
        prices,
        Ok(vec![
            HourPrice { start: 1_704_409_200 * SECOND, end: 1_704_412_800 * SECOND, price: 412_340 },
            HourPrice { start: 1_704_412_800 * SECOND, end: 1_704_416_400 * SECOND, price: 398_100 },
        ])
    );
}

#[test]
fn reads_fractions_and_offsets() {
    let records = vec![raw("1970-01-01T00:00:00.5Z", "1970-01-01T01:00:01+01:00", 1)];
    assert_eq!(
        Parser::day_prices(&records),
        Ok(vec![HourPrice { start: SECOND / 2, end: SECOND, price: 1 }])
    );
}

#[test]
fn reads_an_empty_list() {
    assert_eq!(Parser::day_prices(&vec![]), Ok(vec![]));
}

#[test]
fn refuses_a_bad_start() {
    let records = vec![raw("yesterday", "2024-01-05T01:00:00+01:00", 1)];
    assert_eq!(Parser::day_prices(&records), Err(ParseError::BadStart(0)));
}

#[test]
fn refuses_a_bad_end() {
    let records = vec![
        raw("2024-01-05T00:00:00+01:00", "2024-01-05T01:00:00+01:00", 1),
        raw("2024-01-05T01:00:00+01:00", "2024-01-05 02:00", 1),
    ];
    assert_eq!(Parser::day_prices(&records), Err(ParseError::BadEnd(1)));
}

#[test]
fn refuses_an_interval_that_does_not_end_after_its_start() {
    let same = vec![raw("2024-01-05T01:00:00+01:00", "2024-01-05T00:00:00Z", 1)];
    assert_eq!(Parser::day_prices(&same), Err(ParseError::EmptyInterval(0)));
    let backwards = vec![raw("2024-01-05T02:00:00+01:00", "2024-01-05T01:00:00+01:00", 1)];
    assert_eq!(Parser::day_prices(&backwards), Err(ParseError::EmptyInterval(0)));
}

#[test]
fn the_first_fault_is_reported() {
    let records = vec![
        raw("2024-01-05T00:00:00+01:00", "2024-01-05T01:00:00+01:00", 1),
        raw("2024-01-05T01:00:00+01:00", "nonsense", 1),
        raw("nonsense", "2024-01-05T03:00:00+01:00", 1),
    ];
    assert_eq!(Parser::day_prices(&records), Err(ParseError::BadEnd(1)));
}

#[test]
fn outcome_of_one_record() {
    assert_eq!(check_record(3, None, None, 1), Err(ParseError::BadStart(3)));
    assert_eq!(check_record(3, None, Some(5), 1), Err(ParseError::BadStart(3)));
    assert_eq!(check_record(3, Some(5), None, 1), Err(ParseError::BadEnd(3)));
    assert_eq!(check_record(3, Some(5), Some(5), 1), Err(ParseError::EmptyInterval(3)));
    assert_eq!(check_record(3, Some(5), Some(6), 1), Ok(HourPrice { start: 5, end: 6, price: 1 }));
}
