use ladekalk::fetcher::{
    cache_key, classify_status, decimal_text, digit_text, pad_num, price_url, signed_decimal_text,
    Answer, Cache,
};

#[test]
fn one_digit_gets_a_zero() {
    assert_eq!(pad_num(0), "00");
    assert_eq!(pad_num(5), "05");
    assert_eq!(pad_num(9), "09");
}

#[test]
fn two_digits_stand() {
    assert_eq!(pad_num(10), "10");
    assert_eq!(pad_num(31), "31");
    assert_eq!(pad_num(99), "99");
}

#[test]
fn three_digits_get_a_zero_too() {
    assert_eq!(pad_num(100), "0100");
    assert_eq!(pad_num(255), "0255");
}

#[test]
fn digits_and_numbers() {
    assert_eq!(digit_text(0), "0");
    assert_eq!(digit_text(7), "7");
    assert_eq!(decimal_text(0), "0");
    assert_eq!(decimal_text(2024), "2024");
    assert_eq!(decimal_text(u32::MAX), "4294967295");
    assert_eq!(signed_decimal_text(-44), "-44");
    assert_eq!(signed_decimal_text(i32::MIN), "-2147483648");
    assert_eq!(signed_decimal_text(i32::MAX), "2147483647");
}

#[test]
fn key_of_a_day() {
    assert_eq!(cache_key(2024, 1, 5, "NO1"), "2024-01-05_NO1");
    assert_eq!(cache_key(2023, 12, 31, "NO5"), "2023-12-31_NO5");
    assert_eq!(cache_key(-1, 2, 3, ""), "-1-02-03_");
}

#[test]
fn address_of_a_day() {
    assert_eq!(
        price_url(2024, 1, 5, "NO1"),
        "https://www.hvakosterstrommen.no/api/v1/prices/2024/01-05_NO1.json"
    );
    assert_eq!(
        price_url(2023, 12, 31, "NO5"),
        "https://www.hvakosterstrommen.no/api/v1/prices/2023/12-31_NO5.json"
    );
}

#[test]
fn status_codes() {
    assert_eq!(classify_status(404), Answer::NotPublished);
    assert_eq!(classify_status(200), Answer::Prices);
    assert_eq!(classify_status(299), Answer::Prices);
    assert_eq!(classify_status(199), Answer::Unexpected(199));
    assert_eq!(classify_status(300), Answer::Unexpected(300));
    assert_eq!(classify_status(403), Answer::Unexpected(403));
    assert_eq!(classify_status(500), Answer::Unexpected(500));
}

#[test]
fn cache_files() {
    let cache = Cache::new();
    assert_eq!(cache.cache_dir, "/var/tmp/");
    assert_eq!(cache.get_path_for_key("2024-01-05_NO1"), "/var/tmp/prices_2024-01-05_NO1.json");
    assert_eq!(cache.get_path_for_key(""), "/var/tmp/prices_.json");
}
