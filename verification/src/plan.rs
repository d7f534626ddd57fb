//! From prices and a charging time to the sessions to charge in.

use vstd::prelude::*;
use crate::prices::{DayPrices, HourPrice, OptimalPrices, selection};
use crate::sessions::{Report, group_sessions, grouped, total_price};

verus! {

/// Whether the records are in the order of their starts.
pub open spec fn ordered_by_start(records: Seq<HourPrice>) -> bool {
    forall|i: int, j: int|
        0 <= i <= j < records.len() ==> (#[trigger] records[i]).start <= (#[trigger] records[j]).start
}

/// The test for the records that start at `start`.
pub open spec fn starts_at(start: i128) -> spec_fn(HourPrice) -> bool {
    |r: HourPrice| r.start == start
}

/// Whether `after` holds the records of `before` in the order of their
/// starts, records with the same start in the order they had in `before`.
pub open spec fn sorted_by_start(before: Seq<HourPrice>, after: Seq<HourPrice>) -> bool {
    &&& ordered_by_start(after)
    &&& after.to_multiset() == before.to_multiset()
    &&& forall|start: i128| #[trigger]
        after.filter(starts_at(start)) == before.filter(starts_at(start))
}

/// Sorts with `Vec::sort_by_key` of the standard library, the key being the
/// start. Its documentation promises a stable sort: afterwards the records
/// are the same, in the order of their keys, and records with equal keys
/// have kept their order.
#[verifier::external_body]
fn sort_by_start(records: &mut Vec<HourPrice>)
    ensures
        sorted_by_start(old(records)@, final(records)@),
{
    records.sort_by_key(|r| r.start);
}

/// The charging plan: the intervals chosen from `prices` for `time_to_charge`
/// seconds, put in the order of time and grouped into sessions.
pub fn charging_plan(prices: &DayPrices, time_to_charge: i64) -> (report: Report)
    ensures
        exists|sorted: Seq<HourPrice>|
            {
                &&& #[trigger] sorted_by_start(selection(prices@, time_to_charge as int), sorted)
                &&& report@ == grouped(sorted)
                &&& report.total_sum == total_price(sorted)
            },
        report.well_formed(),
        report.total_count == selection(prices@, time_to_charge as int).len(),
{
    let mut chosen = OptimalPrices::resolve_optimal(prices, time_to_charge);
    sort_by_start(&mut chosen);
    proof {
        chosen@.to_multiset_ensures();
        selection(prices@, time_to_charge as int).to_multiset_ensures();
    }
    group_sessions(&chosen)
}

/// The prices of a day, or nothing where the day has none yet.
pub open spec fn published(day: Option<DayPrices>) -> Seq<HourPrice> {
    match day {
        Some(prices) => prices@,
        None => Seq::empty(),
    }
}

/// The prices to choose from: those of today, then those of tomorrow, each as
/// far as they are published.
pub fn merge_days(today: &Option<DayPrices>, tomorrow: &Option<DayPrices>) -> (prices: DayPrices)
    ensures
        prices@ == published(*today) + published(*tomorrow),
{
    let mut prices: DayPrices = Vec::new();
    if let Some(day) = today {
        append_day(&mut prices, day);
    }
    if let Some(day) = tomorrow {
        append_day(&mut prices, day);
    }
    proof {
        assert(prices@ =~= published(*today) + published(*tomorrow));
    }
    prices
}

/// Puts the records of `day` behind those of `prices`.
pub fn append_day(prices: &mut DayPrices, day: &DayPrices)
    ensures
        final(prices)@ == old(prices)@ + day@,
{
    let ghost before = prices@;
    let mut i: usize = 0;
    proof {
        assert(prices@ =~= before + day@.take(0));
    }
    while i < day.len()
        invariant
            i <= day.len(),
            prices@ == before + day@.take(i as int),
        decreases day.len() - i,
    {
        prices.push(day[i]);
        proof {
            assert(day@.take(i as int).push(day@[i as int]) =~= day@.take(i + 1));
            assert(prices@ =~= before + day@.take(i + 1));
        }
        i += 1;
    }
    proof {
        assert(day@.take(i as int) =~= day@);
    }
}

} // verus!
