//! Priced intervals and the choice of the cheapest among them.

use vstd::prelude::*;

verus! {

/// The width of the price band in the first round, in percent of the highest
/// price.
pub const FIRST_THRESHOLD: u8 = 2;

/// By how much the band widens from one round to the next.
pub const THRESHOLD_STEP: u8 = 2;

/// The width that the band never reaches.
pub const THRESHOLD_CEILING: u8 = 50;

/// The charging time that one chosen interval counts for, whatever its own
/// length.
pub const SECONDS_PER_RECORD: i128 = 3600;

/// One priced interval: it begins at `start` and ends before `end`, both in
/// nanoseconds since the Unix epoch, and costs `price` per unit of energy, in the
/// smallest unit that the caller counts prices in.
#[derive(Clone, Copy, Debug, PartialEq, Eq, Structural)]
pub struct HourPrice {
    pub start: i128,
    pub end: i128,
    pub price: u64,
}

pub type DayPrices = Vec<HourPrice>;

impl HourPrice {
    /// An interval is well formed when it ends after it begins.
    pub open spec fn well_formed(self) -> bool {
        self.start < self.end
    }

    /// Whether the interval ends after it begins.
    pub fn is_well_formed(&self) -> (ok: bool)
        ensures
            ok == self.well_formed(),
    {
        self.start < self.end
    }
}

/// The highest price among `prices`; 0 where there is none.
pub open spec fn highest_price(prices: Seq<HourPrice>) -> int
    decreases prices.len(),
{
    if prices.len() == 0 {
        0
    } else {
        let before = highest_price(prices.drop_last());
        if prices.last().price > before {
            prices.last().price as int
        } else {
            before
        }
    }
}

/// The lowest price among `prices`; 0 where there is none.
pub open spec fn lowest_price(prices: Seq<HourPrice>) -> int
    decreases prices.len(),
{
    if prices.len() == 0 {
        0
    } else if prices.len() == 1 {
        prices.last().price as int
    } else {
        let before = lowest_price(prices.drop_last());
        if prices.last().price < before {
            prices.last().price as int
        } else {
            before
        }
    }
}

/// Whether `price` lies in the band of width `threshold`: its share of the
/// highest price, in percent, is at most `threshold` above the share of the
/// lowest price. Both sides are multiplied by the highest price, so nothing is
/// divided. Where the highest price is 0, every price is 0 and lies in every
/// band.
pub open spec fn in_band(price: int, lowest: int, highest: int, threshold: int) -> bool {
    (price - lowest) * 100 <= threshold * highest
}

/// The test that a round applies to each record of its pool.
pub open spec fn band(lowest: int, highest: int, threshold: int) -> spec_fn(HourPrice) -> bool {
    |r: HourPrice| in_band(r.price as int, lowest, highest, threshold)
}

/// The opposite test: what a round leaves in the pool.
pub open spec fn beyond(lowest: int, highest: int, threshold: int) -> spec_fn(HourPrice) -> bool {
    |r: HourPrice| !in_band(r.price as int, lowest, highest, threshold)
}

/// What the rounds from `threshold` on choose from `pool`, when `so_far`
/// seconds are already found and `wanted` are asked for. A round takes every
/// record of the pool that lies in its band, in the pool's order, and counts
/// an hour for each; the next round has a band wider by one step.
pub open spec fn select_rounds(
    pool: Seq<HourPrice>,
    lowest: int,
    highest: int,
    threshold: int,
    so_far: int,
    wanted: int,
) -> Seq<HourPrice>
    decreases
        (if threshold < THRESHOLD_CEILING {
            THRESHOLD_CEILING - threshold
        } else {
            0
        }),
{
    if pool.len() > 0 && so_far < wanted && threshold < THRESHOLD_CEILING {
        let taken = pool.filter(band(lowest, highest, threshold));
        taken + select_rounds(
            pool.filter(beyond(lowest, highest, threshold)),
            lowest,
            highest,
            threshold + THRESHOLD_STEP,
            so_far + SECONDS_PER_RECORD * taken.len(),
            wanted,
        )
    } else {
        Seq::empty()
    }
}

/// The records chosen from `prices` for `wanted` seconds of charging.
pub open spec fn selection(prices: Seq<HourPrice>, wanted: int) -> Seq<HourPrice> {
    select_rounds(
        prices,
        lowest_price(prices),
        highest_price(prices),
        FIRST_THRESHOLD as int,
        0,
        wanted,
    )
}

proof fn lemma_filter_step(s: Seq<HourPrice>, i: int, p: spec_fn(HourPrice) -> bool)
    requires
        0 <= i < s.len(),
    ensures
        s.take(i + 1).filter(p) == if p(s[i]) {
            s.take(i).filter(p).push(s[i])
        } else {
            s.take(i).filter(p)
        },
{
    reveal(Seq::filter);
    assert(s.take(i + 1).drop_last() =~= s.take(i));
}

/// The lowest and the highest price of `prices`.
pub fn price_range(prices: &DayPrices) -> (range: (u64, u64))
    ensures
        range.0 == lowest_price(prices@),
        range.1 == highest_price(prices@),
{
    let mut lowest: u64 = 0;
    let mut highest: u64 = 0;
    let mut i: usize = 0;
    while i < prices.len()
        invariant
            i <= prices.len(),
            lowest == lowest_price(prices@.take(i as int)),
            highest == highest_price(prices@.take(i as int)),
        decreases prices.len() - i,
    {
        let price = prices[i].price;
        proof {
            assert(prices@.take(i + 1).drop_last() =~= prices@.take(i as int));
        }
        if i == 0 || price < lowest {
            lowest = price;
        }
        if price > highest {
            highest = price;
        }
        i += 1;
    }
    proof {
        assert(prices@.take(i as int) =~= prices@);
    }
    (lowest, highest)
}

/// Whether `price` lies in the band of width `threshold`.
pub fn price_in_band(price: u64, lowest: u64, highest: u64, threshold: u8) -> (inside: bool)
    ensures
        inside == in_band(price as int, lowest as int, highest as int, threshold as int),
{
    assert((threshold as int) * (highest as int) <= 255 * 0xffff_ffff_ffff_ffff) by (nonlinear_arith)
        requires
            0 <= threshold <= 255,
            0 <= highest <= 0xffff_ffff_ffff_ffff,
    ;
    assert((threshold as int) * (highest as int) >= 0) by (nonlinear_arith)
        requires
            0 <= threshold,
            0 <= highest,
    ;
    let above: i128 = (price as i128 - lowest as i128) * 100;
    let width: i128 = (threshold as i128) * (highest as i128);
    above <= width
}

pub struct OptimalPrices {}

impl OptimalPrices {
    /// Chooses the intervals to charge in: the cheapest, in bands that widen
    /// round by round until `time_to_charge` seconds are found, each chosen
    /// interval counting for an hour, or until the band would reach the
    /// ceiling. The result holds the records round by round, each round in
    /// the order of `prices`. Nothing is chosen for a time of zero or less.
    pub fn resolve_optimal(prices: &DayPrices, time_to_charge: i64) -> (chosen: DayPrices)
        ensures
            chosen@ == selection(prices@, time_to_charge as int),
            time_to_charge <= 0 ==> chosen@.len() == 0,
            chosen@.to_multiset().subset_of(prices@.to_multiset()),
            chosen@.len() <= prices@.len(),
    {
        let (lowest, highest) = price_range(prices);
        let mut pool: Vec<HourPrice> = Vec::new();
        let mut k: usize = 0;
        while k < prices.len()
            invariant
                k <= prices.len(),
                pool@ == prices@.take(k as int),
            decreases prices.len() - k,
        {
            pool.push(prices[k]);
            proof {
                assert(prices@.take(k as int).push(prices@[k as int]) =~= prices@.take(k + 1));
            }
            k += 1;
        }
        proof {
            assert(prices@.take(k as int) =~= prices@);
        }
        let mut chosen: Vec<HourPrice> = Vec::new();
        let mut threshold: u8 = FIRST_THRESHOLD;
        let mut so_far: i128 = 0;
        while pool.len() > 0 && (time_to_charge as i128) > so_far && threshold < THRESHOLD_CEILING
            invariant
                2 <= threshold <= 50,
                threshold % 2 == 0,
                pool@.len() <= prices@.len(),
                chosen@.len() + pool@.len() == prices@.len(),
                0 <= so_far == 3600 * chosen@.len(),
                selection(prices@, time_to_charge as int) == chosen@ + select_rounds(
                    pool@,
                    lowest as int,
                    highest as int,
                    threshold as int,
                    so_far as int,
                    time_to_charge as int,
                ),
            decreases THRESHOLD_CEILING - threshold,
        {
            let ghost before = chosen@;
            let ghost inside = band(lowest as int, highest as int, threshold as int);
            let ghost outside = beyond(lowest as int, highest as int, threshold as int);
            let mut rest: Vec<HourPrice> = Vec::new();
            let mut i: usize = 0;
            while i < pool.len()
                invariant
                    i <= pool.len(),
                    2 <= threshold < 50,
                    threshold % 2 == 0,
                    before.len() + pool@.len() == prices@.len(),
                    inside == band(lowest as int, highest as int, threshold as int),
                    outside == beyond(lowest as int, highest as int, threshold as int),
                    chosen@ == before + pool@.take(i as int).filter(inside),
                    rest@ == pool@.take(i as int).filter(outside),
                    chosen@.len() + rest@.len() == before.len() + i,
                    so_far == 3600 * chosen@.len(),
                decreases pool.len() - i,
            {
                let record = pool[i];
                proof {
                    lemma_filter_step(pool@, i as int, inside);
                    lemma_filter_step(pool@, i as int, outside);
                }
                if price_in_band(record.price, lowest, highest, threshold) {
                    assert(chosen@.len() < prices@.len());
                    assert(prices@.len() == prices.len());
                    chosen.push(record);
                    so_far += SECONDS_PER_RECORD;
                    proof {
                        assert(chosen@ =~= before + pool@.take(i + 1).filter(inside));
                    }
                } else {
                    rest.push(record);
                }
                i += 1;
            }
            proof {
                assert(pool@.take(i as int) =~= pool@);
                let taken = pool@.filter(inside);
                let later = select_rounds(
                    rest@,
                    lowest as int,
                    highest as int,
                    threshold + THRESHOLD_STEP,
                    so_far as int,
                    time_to_charge as int,
                );
                assert(so_far == 3600 * before.len() + 3600 * taken.len());
                assert(before + (taken + later) =~= chosen@ + later);
            }
            pool = rest;
            threshold += THRESHOLD_STEP;
        }
        proof {
            assert(chosen@ + Seq::<HourPrice>::empty() =~= chosen@);
            lemma_selection_within_prices(prices@, time_to_charge as int);
        }
        chosen
    }
}

/// A round parts its pool: the records taken and the records left are, taken
/// together, the records of the pool, each as often as the pool holds it.
pub proof fn lemma_round_parts_pool(pool: Seq<HourPrice>, lowest: int, highest: int, threshold: int)
    ensures
        pool.filter(band(lowest, highest, threshold)).to_multiset().add(
            pool.filter(beyond(lowest, highest, threshold)).to_multiset(),
        ) == pool.to_multiset(),
        pool.filter(band(lowest, highest, threshold)).len() + pool.filter(
            beyond(lowest, highest, threshold),
        ).len() == pool.len(),
    decreases pool.len(),
{
    reveal(Seq::filter);
    broadcast use vstd::seq_lib::to_multiset_build;

    let inside = band(lowest, highest, threshold);
    let outside = beyond(lowest, highest, threshold);
    if pool.len() == 0 {
        vstd::seq_lib::to_multiset_len(pool);
        vstd::multiset::lemma_multiset_empty_len(pool.to_multiset());
        assert(pool.filter(inside).to_multiset().add(pool.filter(outside).to_multiset())
            =~= pool.to_multiset());
    } else {
        let front = pool.drop_last();
        lemma_round_parts_pool(front, lowest, highest, threshold);
        assert(front.push(pool.last()) =~= pool);
        assert(pool.to_multiset() =~= front.to_multiset().insert(pool.last()));
        assert(pool.filter(inside).to_multiset().add(pool.filter(outside).to_multiset())
            =~= pool.to_multiset());
    }
}

/// Whatever the rounds choose comes from the pool, and no more often than the
/// pool holds it.
pub proof fn lemma_rounds_within_pool(
    pool: Seq<HourPrice>,
    lowest: int,
    highest: int,
    threshold: int,
    so_far: int,
    wanted: int,
)
    ensures
        select_rounds(pool, lowest, highest, threshold, so_far, wanted).to_multiset().subset_of(
            pool.to_multiset(),
        ),
        select_rounds(pool, lowest, highest, threshold, so_far, wanted).len() <= pool.len(),
    decreases
        (if threshold < THRESHOLD_CEILING {
            THRESHOLD_CEILING - threshold
        } else {
            0
        }),
{
    if pool.len() > 0 && so_far < wanted && threshold < THRESHOLD_CEILING {
        let taken = pool.filter(band(lowest, highest, threshold));
        let left = pool.filter(beyond(lowest, highest, threshold));
        let later = select_rounds(
            left,
            lowest,
            highest,
            threshold + THRESHOLD_STEP,
            so_far + SECONDS_PER_RECORD * taken.len(),
            wanted,
        );
        lemma_rounds_within_pool(
            left,
            lowest,
            highest,
            threshold + THRESHOLD_STEP,
            so_far + SECONDS_PER_RECORD * taken.len(),
            wanted,
        );
        lemma_round_parts_pool(pool, lowest, highest, threshold);
        vstd::seq_lib::lemma_multiset_commutative(taken, later);
        assert((taken + later).to_multiset().subset_of(pool.to_multiset()));
    } else {
        let nothing = Seq::<HourPrice>::empty();
        vstd::seq_lib::to_multiset_len(nothing);
        vstd::multiset::lemma_multiset_empty_len(nothing.to_multiset());
        assert(nothing.to_multiset().subset_of(pool.to_multiset()));
    }
}

/// Asking for more time never takes a record away: what is chosen for less
/// time is the beginning of what is chosen for more.
pub proof fn lemma_rounds_monotone(
    pool: Seq<HourPrice>,
    lowest: int,
    highest: int,
    threshold: int,
    so_far: int,
    fewer: int,
    more: int,
)
    requires
        fewer <= more,
    ensures
        select_rounds(pool, lowest, highest, threshold, so_far, fewer).is_prefix_of(
            select_rounds(pool, lowest, highest, threshold, so_far, more),
        ),
    decreases
        (if threshold < THRESHOLD_CEILING {
            THRESHOLD_CEILING - threshold
        } else {
            0
        }),
{
    if pool.len() > 0 && so_far < fewer && threshold < THRESHOLD_CEILING {
        let taken = pool.filter(band(lowest, highest, threshold));
        let left = pool.filter(beyond(lowest, highest, threshold));
        lemma_rounds_monotone(
            left,
            lowest,
            highest,
            threshold + THRESHOLD_STEP,
            so_far + SECONDS_PER_RECORD * taken.len(),
            fewer,
            more,
        );
        let short = select_rounds(left, lowest, highest, threshold + THRESHOLD_STEP, so_far + SECONDS_PER_RECORD * taken.len(), fewer);
        let long = select_rounds(left, lowest, highest, threshold + THRESHOLD_STEP, so_far + SECONDS_PER_RECORD * taken.len(), more);
        assert((taken + short).is_prefix_of(taken + long)) by {
            assert((taken + long).subrange(0, (taken + short).len() as int) =~= taken + short);
        }
    } else {
        let long = select_rounds(pool, lowest, highest, threshold, so_far, more);
        assert(long.subrange(0, 0) =~= Seq::<HourPrice>::empty());
    }
}

/// Every record that the rounds choose lies in the widest band, the one two
/// points under the ceiling.
pub proof fn lemma_rounds_below_ceiling(
    pool: Seq<HourPrice>,
    lowest: int,
    highest: int,
    threshold: int,
    so_far: int,
    wanted: int,
)
    requires
        highest >= 0,
        threshold % 2 == 0,
    ensures
        forall|i: int|
            0 <= i < select_rounds(pool, lowest, highest, threshold, so_far, wanted).len()
                ==> in_band(
                (#[trigger] select_rounds(pool, lowest, highest, threshold, so_far, wanted)[i]).price as int,
                lowest,
                highest,
                THRESHOLD_CEILING - THRESHOLD_STEP,
            ),
    decreases
        (if threshold < THRESHOLD_CEILING {
            THRESHOLD_CEILING - threshold
        } else {
            0
        }),
{
    if pool.len() > 0 && so_far < wanted && threshold < THRESHOLD_CEILING {
        let inside = band(lowest, highest, threshold);
        let taken = pool.filter(inside);
        let left = pool.filter(beyond(lowest, highest, threshold));
        let later = select_rounds(
            left,
            lowest,
            highest,
            threshold + THRESHOLD_STEP,
            so_far + SECONDS_PER_RECORD * taken.len(),
            wanted,
        );
        lemma_rounds_below_ceiling(
            left,
            lowest,
            highest,
            threshold + THRESHOLD_STEP,
            so_far + SECONDS_PER_RECORD * taken.len(),
            wanted,
        );
        assert(threshold * highest <= 48 * highest) by (nonlinear_arith)
            requires
                threshold <= 48,
                highest >= 0,
        ;
        assert forall|i: int| 0 <= i < (taken + later).len() implies in_band(
            (#[trigger] (taken + later)[i]).price as int,
            lowest,
            highest,
            THRESHOLD_CEILING - THRESHOLD_STEP,
        ) by {
            if i < taken.len() {
                pool.lemma_filter_pred(inside, i);
                assert(inside(taken[i]));
            } else {
                assert((taken + later)[i] == later[i - taken.len()]);
            }
        }
    }
}

/// The highest price is at least 0.
pub proof fn lemma_highest_price_is_natural(prices: Seq<HourPrice>)
    ensures
        highest_price(prices) >= 0,
    decreases prices.len(),
{
    if prices.len() > 0 {
        lemma_highest_price_is_natural(prices.drop_last());
    }
}

/// Where no time is asked for, nothing is chosen.
pub proof fn lemma_nothing_wanted(prices: Seq<HourPrice>, wanted: int)
    requires
        wanted <= 0,
    ensures
        selection(prices, wanted) == Seq::<HourPrice>::empty(),
{
}

/// Every chosen record is one of `prices`, and none is chosen more often than
/// `prices` holds it.
pub proof fn lemma_selection_within_prices(prices: Seq<HourPrice>, wanted: int)
    ensures
        selection(prices, wanted).to_multiset().subset_of(prices.to_multiset()),
        selection(prices, wanted).len() <= prices.len(),
        forall|r: HourPrice| #[trigger] selection(prices, wanted).contains(r) ==> prices.contains(r),
{
    broadcast use vstd::seq_lib::to_multiset_contains;

    let chosen = selection(prices, wanted);
    lemma_rounds_within_pool(prices, lowest_price(prices), highest_price(prices), 2, 0, wanted);
    assert forall|r: HourPrice| #[trigger] chosen.contains(r) implies prices.contains(r) by {
        assert(chosen.to_multiset().count(r) > 0);
        assert(prices.to_multiset().count(r) > 0);
    }
}

/// The number of chosen records never falls when more time is asked for: what
/// is chosen for `fewer` seconds is the beginning of what is chosen for `more`.
pub proof fn lemma_selection_monotone(prices: Seq<HourPrice>, fewer: int, more: int)
    requires
        fewer <= more,
    ensures
        selection(prices, fewer).is_prefix_of(selection(prices, more)),
        selection(prices, fewer).len() <= selection(prices, more).len(),
{
    lemma_rounds_monotone(prices, lowest_price(prices), highest_price(prices), 2, 0, fewer, more);
}

/// No chosen record is dearer than the widest band allows: its share of the
/// highest price is at most 48 points above the share of the lowest price.
pub proof fn lemma_selection_below_ceiling(prices: Seq<HourPrice>, wanted: int)
    ensures
        forall|i: int|
            0 <= i < selection(prices, wanted).len() ==> in_band(
                (#[trigger] selection(prices, wanted)[i]).price as int,
                lowest_price(prices),
                highest_price(prices),
                THRESHOLD_CEILING - THRESHOLD_STEP,
            ),
{
    lemma_highest_price_is_natural(prices);
    lemma_rounds_below_ceiling(prices, lowest_price(prices), highest_price(prices), 2, 0, wanted);
}

/// No price lies under the lowest or over the highest, and both are the
/// price of some record.
pub proof fn lemma_price_range(prices: Seq<HourPrice>)
    ensures
        forall|i: int|
            0 <= i < prices.len() ==> lowest_price(prices) <= (#[trigger] prices[i]).price
                <= highest_price(prices),
        prices.len() > 0 ==> exists|i: int|
            0 <= i < prices.len() && (#[trigger] prices[i]).price == lowest_price(prices),
        prices.len() > 0 ==> exists|i: int|
            0 <= i < prices.len() && (#[trigger] prices[i]).price == highest_price(prices),
    decreases prices.len(),
{
    if prices.len() == 1 {
        assert(highest_price(prices.drop_last()) == 0);
        assert(prices[0].price == lowest_price(prices));
        assert(prices[0].price == highest_price(prices));
    } else if prices.len() > 1 {
        let front = prices.drop_last();
        let last = prices.len() - 1;
        lemma_price_range(front);
        assert forall|i: int| 0 <= i < prices.len() implies lowest_price(prices) <= (
        #[trigger] prices[i]).price <= highest_price(prices) by {
            if i < last {
                assert(front[i] == prices[i]);
            }
        }
        let low = choose|i: int| 0 <= i < front.len() && (#[trigger] front[i]).price == lowest_price(front);
        let high = choose|i: int|
            0 <= i < front.len() && (#[trigger] front[i]).price == highest_price(front);
        assert(front[low] == prices[low]);
        assert(front[high] == prices[high]);
        if prices[last].price < lowest_price(front) {
            assert(prices[last].price == lowest_price(prices));
        } else {
            assert(prices[low].price == lowest_price(prices));
        }
        if prices[last].price > highest_price(front) {
            assert(prices[last].price == highest_price(prices));
        } else {
            assert(prices[high].price == highest_price(prices));
        }
    }
}

/// The rounds go on until the time is found or every band has been tried:
/// either the chosen records make up the time that is wanted, or every record
/// of the pool that lies in the widest band is chosen.
pub proof fn lemma_rounds_find_the_time(
    pool: Seq<HourPrice>,
    lowest: int,
    highest: int,
    threshold: int,
    so_far: int,
    wanted: int,
)
    requires
        highest >= 0,
        FIRST_THRESHOLD <= threshold <= THRESHOLD_CEILING,
        threshold % 2 == 0,
        threshold == FIRST_THRESHOLD || forall|j: int|
            0 <= j < pool.len() ==> !in_band(
                (#[trigger] pool[j]).price as int,
                lowest,
                highest,
                threshold - THRESHOLD_STEP,
            ),
    ensures
        ({
            let chosen = select_rounds(pool, lowest, highest, threshold, so_far, wanted);
            ||| so_far + SECONDS_PER_RECORD * chosen.len() >= wanted
            ||| forall|j: int|
                0 <= j < pool.len() && in_band(
                    (#[trigger] pool[j]).price as int,
                    lowest,
                    highest,
                    THRESHOLD_CEILING - THRESHOLD_STEP,
                ) ==> chosen.contains(pool[j])
        }),
    decreases
        (if threshold < THRESHOLD_CEILING {
            THRESHOLD_CEILING - threshold
        } else {
            0
        }),
{
    let chosen = select_rounds(pool, lowest, highest, threshold, so_far, wanted);
    if pool.len() > 0 && so_far < wanted && threshold < THRESHOLD_CEILING {
        let inside = band(lowest, highest, threshold);
        let outside = beyond(lowest, highest, threshold);
        let taken = pool.filter(inside);
        let left = pool.filter(outside);
        let found = so_far + SECONDS_PER_RECORD * taken.len();
        let later = select_rounds(left, lowest, highest, threshold + THRESHOLD_STEP, found, wanted);
        assert forall|j: int| 0 <= j < left.len() implies !in_band(
            (#[trigger] left[j]).price as int,
            lowest,
            highest,
            threshold,
        ) by {
            pool.lemma_filter_pred(outside, j);
        }
        lemma_rounds_find_the_time(left, lowest, highest, threshold + THRESHOLD_STEP, found, wanted);
        assert(chosen == taken + later);
        if found + SECONDS_PER_RECORD * later.len() >= wanted {
            assert(so_far + SECONDS_PER_RECORD * chosen.len() >= wanted);
        } else {
            assert forall|j: int|
                0 <= j < pool.len() && in_band(
                    (#[trigger] pool[j]).price as int,
                    lowest,
                    highest,
                    THRESHOLD_CEILING - THRESHOLD_STEP,
                ) implies chosen.contains(pool[j]) by {
                if inside(pool[j]) {
                    pool.lemma_filter_contains(inside, j);
                    let at = choose|at: int| 0 <= at < taken.len() && taken[at] == pool[j];
                    assert(chosen[at] == pool[j]);
                } else {
                    assert(outside(pool[j]));
                    pool.lemma_filter_contains(outside, j);
                    let at = choose|at: int| 0 <= at < left.len() && left[at] == pool[j];
                    assert(later.contains(left[at]));
                    let behind = choose|behind: int| 0 <= behind < later.len() && later[behind] == left[at];
                    assert(chosen[taken.len() + behind] == pool[j]);
                }
            }
        }
    } else if pool.len() > 0 && so_far < wanted {
        assert(threshold == THRESHOLD_CEILING);
    }
}

/// The choice finds the time that is wanted, or else it holds every record
/// that lies in the widest band: the time stays unmet only where all that is
/// left is too dear.
pub proof fn lemma_selection_finds_the_time(prices: Seq<HourPrice>, wanted: int)
    ensures
        ({
            let chosen = selection(prices, wanted);
            ||| SECONDS_PER_RECORD * chosen.len() >= wanted
            ||| forall|j: int|
                0 <= j < prices.len() && in_band(
                    (#[trigger] prices[j]).price as int,
                    lowest_price(prices),
                    highest_price(prices),
                    THRESHOLD_CEILING - THRESHOLD_STEP,
                ) ==> chosen.contains(prices[j])
        }),
{
    lemma_highest_price_is_natural(prices);
    lemma_rounds_find_the_time(
        prices,
        lowest_price(prices),
        highest_price(prices),
        FIRST_THRESHOLD as int,
        0,
        wanted,
    );
}

/// Where time is wanted, every record at the lowest price is chosen.
pub proof fn lemma_cheapest_are_chosen(prices: Seq<HourPrice>, wanted: int, i: int)
    requires
        wanted > 0,
        0 <= i < prices.len(),
        prices[i].price == lowest_price(prices),
    ensures
        selection(prices, wanted).contains(prices[i]),
{
    lemma_highest_price_is_natural(prices);
    let lowest = lowest_price(prices);
    let highest = highest_price(prices);
    let inside = band(lowest, highest, FIRST_THRESHOLD as int);
    let taken = prices.filter(inside);
    assert(inside(prices[i])) by {
        assert(0 <= FIRST_THRESHOLD * highest) by (nonlinear_arith)
            requires
                highest >= 0,
        ;
    }
    prices.lemma_filter_contains(inside, i);
    let at = choose|at: int| 0 <= at < taken.len() && taken[at] == prices[i];
    assert(selection(prices, wanted)[at] == prices[i]);
}

} // verus!
