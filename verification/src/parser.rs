//! From the records of a price list, as text, to priced intervals.

use vstd::prelude::*;
use crate::prices::{DayPrices, HourPrice};
use time::format_description::well_known::Rfc3339;
use time::OffsetDateTime;

verus! {

/// One record of a price list as it is published: the two instants as RFC 3339
/// text, the price already counted in the caller's smallest unit.
#[derive(Debug)]
pub struct RawPrice {
    pub time_start: String,
    pub time_end: String,
    pub price: u64,
}

/// Why a price list was refused. Each variant gives the index of the first
/// record at fault.
#[derive(Clone, Copy, Debug, PartialEq, Eq, Structural)]
pub enum ParseError {
    /// The start of the record is no RFC 3339 instant.
    BadStart(usize),
    /// The end of the record is no RFC 3339 instant.
    BadEnd(usize),
    /// The record does not end after it starts.
    EmptyInterval(usize),
}

/// The instant that `text` denotes when read as RFC 3339, in nanoseconds since
/// the Unix epoch; `None` where `text` is no such instant.
pub uninterp spec fn rfc3339_instant(text: Seq<char>) -> Option<i128>;

/// Reads `text` with `time::OffsetDateTime::parse` and the `Rfc3339` format,
/// and takes the instant's `unix_timestamp_nanos`. The contract only gives
/// that outcome its name: it depends on the text alone. A text that `parse`
/// refuses gives `None`.
#[verifier::external_body]
fn parse_instant(text: &str) -> (instant: Option<i128>)
    ensures
        instant == rfc3339_instant(text@),
{
    match OffsetDateTime::parse(text, &Rfc3339) {
        Ok(instant) => Some(instant.unix_timestamp_nanos()),
        Err(_) => None,
    }
}

/// What one record becomes, given what its two instants were read as: the
/// interval, or the reason for refusing the record at `index`.
pub open spec fn record_outcome(
    index: usize,
    start: Option<i128>,
    end: Option<i128>,
    price: u64,
) -> Result<HourPrice, ParseError> {
    if start.is_none() {
        Err(ParseError::BadStart(index))
    } else if end.is_none() {
        Err(ParseError::BadEnd(index))
    } else if start.unwrap() >= end.unwrap() {
        Err(ParseError::EmptyInterval(index))
    } else {
        Ok(HourPrice { start: start.unwrap(), end: end.unwrap(), price })
    }
}

/// What the record at `index` of a list becomes.
pub open spec fn parsed_record(records: Seq<RawPrice>, index: int) -> Result<HourPrice, ParseError> {
    record_outcome(
        index as usize,
        rfc3339_instant(records[index].time_start@),
        rfc3339_instant(records[index].time_end@),
        records[index].price,
    )
}

/// Makes the interval of one record from what its instants were read as.
pub fn check_record(index: usize, start: Option<i128>, end: Option<i128>, price: u64) -> (outcome:
    Result<HourPrice, ParseError>)
    ensures
        outcome == record_outcome(index, start, end, price),
{
    match (start, end) {
        (None, _) => Err(ParseError::BadStart(index)),
        (Some(_), None) => Err(ParseError::BadEnd(index)),
        (Some(start), Some(end)) => {
            if start >= end {
                Err(ParseError::EmptyInterval(index))
            } else {
                Ok(HourPrice { start, end, price })
            }
        },
    }
}

pub struct Parser {}

impl Parser {
    /// Reads a day's price list. It is accepted when every record can be
    /// read and ends after it starts, and then each record gives one
    /// interval, in the order of the list. Otherwise the error is that of the
    /// first record at fault.
    pub fn day_prices(records: &Vec<RawPrice>) -> (outcome: Result<DayPrices, ParseError>)
        ensures
            match outcome {
                Ok(prices) => {
                    &&& prices@.len() == records@.len()
                    &&& forall|i: int|
                        0 <= i < records@.len() ==> parsed_record(records@, i) == Ok::<
                            HourPrice,
                            ParseError,
                        >(#[trigger] prices@[i])
                    &&& forall|i: int| 0 <= i < prices@.len() ==> (#[trigger] prices@[i]).well_formed()
                },
                Err(error) => exists|i: int|
                    {
                        &&& 0 <= i < records@.len()
                        &&& #[trigger] parsed_record(records@, i) == Err::<HourPrice, ParseError>(error)
                        &&& forall|j: int| 0 <= j < i ==> (#[trigger] parsed_record(records@, j)).is_ok()
                    },
            },
    {
        let mut prices: DayPrices = Vec::new();
        let mut i: usize = 0;
        while i < records.len()
            invariant
                i <= records.len(),
                prices@.len() == i,
                forall|j: int|
                    0 <= j < i ==> parsed_record(records@, j) == Ok::<HourPrice, ParseError>(
                        #[trigger] prices@[j],
                    ),
                forall|j: int| 0 <= j < i ==> (#[trigger] prices@[j]).well_formed(),
            decreases records.len() - i,
        {
            let record = &records[i];
            let start = parse_instant(record.time_start.as_str());
            let end = parse_instant(record.time_end.as_str());
            match check_record(i, start, end, record.price) {
                Ok(price) => {
                    prices.push(price);
                },
                Err(error) => {
                    proof {
                        assert(parsed_record(records@, i as int) == Err::<HourPrice, ParseError>(error));
                        assert forall|j: int| 0 <= j < i implies (#[trigger] parsed_record(
                            records@,
                            j,
                        )).is_ok() by {
                            assert(parsed_record(records@, j) == Ok::<HourPrice, ParseError>(prices@[j]));
                        }
                    }
                    return Err(error);
                },
            }
            i += 1;
        }
        Ok(prices)
    }
}

} // verus!
