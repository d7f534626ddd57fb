//! The names under which a day's prices are asked for and kept, and what the
//! answer of the price service means.

use vstd::prelude::*;
use vstd::string::*;

verus! {

/// The directory in which price lists are kept.
pub const CACHE_DIR: &'static str = "/var/tmp/";

/// The address under which the price lists are published.
pub const PRICE_SERVICE: &'static str = "https://www.hvakosterstrommen.no/api/v1/prices/";

/// The character of the digit `d`.
pub open spec fn digit_char(d: nat) -> char
    recommends
        d < 10,
{
    if d == 0 {
        '0'
    } else if d == 1 {
        '1'
    } else if d == 2 {
        '2'
    } else if d == 3 {
        '3'
    } else if d == 4 {
        '4'
    } else if d == 5 {
        '5'
    } else if d == 6 {
        '6'
    } else if d == 7 {
        '7'
    } else if d == 8 {
        '8'
    } else {
        '9'
    }
}

/// The decimal digits of `n`, without leading zeros.
pub open spec fn decimal(n: nat) -> Seq<char>
    decreases n,
{
    if n < 10 {
        seq![digit_char(n)]
    } else {
        decimal(n / 10).push(digit_char(n % 10))
    }
}

/// The decimal digits of `n`, behind a minus sign where `n` is negative.
pub open spec fn signed_decimal(n: int) -> Seq<char> {
    if n < 0 {
        seq!['-'] + decimal((-n) as nat)
    } else {
        decimal(n as nat)
    }
}

/// The digits of `n` behind a zero, but for a number of two digits, which
/// stands as it is.
pub open spec fn padded(n: nat) -> Seq<char> {
    if decimal(n).len() == 2 {
        decimal(n)
    } else {
        seq!['0'] + decimal(n)
    }
}

/// The key of a day's price list: year, month and day with hyphens between
/// them, an underscore, and the price area.
pub open spec fn day_key(year: int, month: nat, day: nat, price_area: Seq<char>) -> Seq<char> {
    signed_decimal(year) + seq!['-'] + padded(month) + seq!['-'] + padded(day) + seq!['_']
        + price_area
}

/// The address of a day's price list.
pub open spec fn day_url(year: int, month: nat, day: nat, price_area: Seq<char>) -> Seq<char> {
    PRICE_SERVICE@ + signed_decimal(year) + seq!['/'] + padded(month) + seq!['-'] + padded(day)
        + seq!['_'] + price_area + ".json"@
}

/// The digit `d` as text.
pub fn digit_text(d: u8) -> (text: &'static str)
    requires
        d < 10,
    ensures
        text@ == seq![digit_char(d as nat)],
{
    proof {
        reveal_strlit("0");
        reveal_strlit("1");
        reveal_strlit("2");
        reveal_strlit("3");
        reveal_strlit("4");
        reveal_strlit("5");
        reveal_strlit("6");
        reveal_strlit("7");
        reveal_strlit("8");
        reveal_strlit("9");
    }
    let text = match d {
        0 => "0",
        1 => "1",
        2 => "2",
        3 => "3",
        4 => "4",
        5 => "5",
        6 => "6",
        7 => "7",
        8 => "8",
        _ => "9",
    };
    assert(text@ =~= seq![digit_char(d as nat)]);
    text
}

/// `n` in decimal digits.
pub fn decimal_text(n: u32) -> (text: String)
    ensures
        text@ == decimal(n as nat),
    decreases n,
{
    if n < 10 {
        String::from_str(digit_text(n as u8))
    } else {
        let mut text = decimal_text(n / 10);
        text.append(digit_text((n % 10) as u8));
        assert(text@ =~= decimal(n as nat));
        text
    }
}

/// `n` in decimal digits, with a minus sign where it is negative.
pub fn signed_decimal_text(n: i32) -> (text: String)
    ensures
        text@ == signed_decimal(n as int),
{
    if n < 0 {
        let size: u32 = (-(n as i64)) as u32;
        let digits = decimal_text(size);
        let mut text = String::from_str("-");
        text.append(digits.as_str());
        proof {
            reveal_strlit("-");
            assert(text@ =~= signed_decimal(n as int));
        }
        text
    } else {
        decimal_text(n as u32)
    }
}

/// A month or a day in two digits. A number of one digit gets a zero in
/// front, and so does one of three.
pub fn pad_num(num: u8) -> (text: String)
    ensures
        text@ == padded(num as nat),
{
    let digits = decimal_text(num as u32);
    if digits.as_str().unicode_len() == 2 {
        return digits;
    }
    let mut text = String::from_str("0");
    text.append(digits.as_str());
    proof {
        reveal_strlit("0");
        assert(text@ =~= padded(num as nat));
    }
    text
}

/// The key under which the prices of a day and a price area are kept.
pub fn cache_key(year: i32, month: u8, day: u8, price_area: &str) -> (key: String)
    ensures
        key@ == day_key(year as int, month as nat, day as nat, price_area@),
{
    let mut key = signed_decimal_text(year);
    key.append("-");
    key.append(pad_num(month).as_str());
    key.append("-");
    key.append(pad_num(day).as_str());
    key.append("_");
    key.append(price_area);
    proof {
        reveal_strlit("-");
        reveal_strlit("_");
        assert(key@ =~= day_key(year as int, month as nat, day as nat, price_area@));
    }
    key
}

/// The address at which the prices of a day and a price area are published.
pub fn price_url(year: i32, month: u8, day: u8, price_area: &str) -> (url: String)
    ensures
        url@ == day_url(year as int, month as nat, day as nat, price_area@),
{
    let mut url = String::from_str(PRICE_SERVICE);
    url.append(signed_decimal_text(year).as_str());
    url.append("/");
    url.append(pad_num(month).as_str());
    url.append("-");
    url.append(pad_num(day).as_str());
    url.append("_");
    url.append(price_area);
    url.append(".json");
    proof {
        reveal_strlit("/");
        reveal_strlit("-");
        reveal_strlit("_");
        assert(url@ =~= day_url(year as int, month as nat, day as nat, price_area@));
    }
    url
}

/// What an answer of the price service means, by its status code.
#[derive(Clone, Copy, Debug, PartialEq, Eq, Structural)]
pub enum Answer {
    /// The prices of that day are not published yet.
    NotPublished,
    /// The service failed; the status code is kept.
    Unexpected(u16),
    /// The body holds the price list.
    Prices,
}

/// The meaning of the status code `status`.
pub open spec fn answer_of(status: u16) -> Answer {
    if status == 404 {
        Answer::NotPublished
    } else if 200 <= status < 300 {
        Answer::Prices
    } else {
        Answer::Unexpected(status)
    }
}

/// Reads the status code of an answer: 404 says that the day has no prices
/// yet, any other code outside 200 to 299 is a failure.
pub fn classify_status(status: u16) -> (answer: Answer)
    ensures
        answer == answer_of(status),
{
    if status == 404 {
        Answer::NotPublished
    } else if 200 <= status && status < 300 {
        Answer::Prices
    } else {
        Answer::Unexpected(status)
    }
}

/// Where price lists are kept between runs.
pub struct Cache {
    pub cache_dir: String,
}

impl Cache {
    /// A cache in the usual directory.
    pub fn new() -> (cache: Cache)
        ensures
            cache.cache_dir@ == CACHE_DIR@,
    {
        Cache { cache_dir: String::from_str(CACHE_DIR) }
    }

    /// The file that holds the price list kept under `key`: in the cache's
    /// directory, named `prices_`, the key, and `.json`.
    pub fn get_path_for_key(&self, key: &str) -> (path: String)
        ensures
            path@ == self.cache_dir@ + "prices_"@ + key@ + ".json"@,
    {
        let mut path = self.cache_dir.clone();
        path.append("prices_");
        path.append(key);
        path.append(".json");
        path
    }
}

} // verus!
