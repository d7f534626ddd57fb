//! How long the battery has to charge.

use vstd::prelude::*;

verus! {

/// Seconds in one hour of charging.
pub const SECONDS_PER_HOUR: i64 = 3600;

/// The largest number of whole hours whose length in seconds fits in an `i64`.
pub const MAX_HOURS: u128 = 2562047788015215;

/// The absolute value of `x`.
pub open spec fn magnitude(x: int) -> nat {
    if x < 0 {
        (-x) as nat
    } else {
        x as nat
    }
}

/// The quotient `num / den` rounded to the nearest whole number, a half
/// rounded away from zero. With `den == 0` the value is left open.
pub open spec fn round_half_away(num: int, den: int) -> int
    recommends
        den != 0,
{
    let a = magnitude(num);
    let b = magnitude(den);
    let q = a / b;
    let r = a % b;
    let m = if 2 * r >= b {
        q + 1
    } else {
        q
    };
    if (num < 0) != (den < 0) {
        -m
    } else {
        m as int
    }
}

/// The whole hours needed to lift a battery of `battery` kWh from `level` to
/// `max_level` at `charge_per_hour`. The two levels are in thousandths of a
/// percent, the rate in thousandths of a kWh per hour, so that the scales
/// cancel: the energy wanted is `battery * (max_level - level) / 100_000` kWh
/// and each hour gives `charge_per_hour / 1000` kWh.
pub open spec fn charge_hours(battery: int, charge_per_hour: int, level: int, max_level: int) -> int
    recommends
        charge_per_hour != 0,
{
    round_half_away(battery * (max_level - level), 100 * charge_per_hour)
}

/// The charging time in seconds: a whole number of hours.
pub open spec fn charge_seconds(battery: int, charge_per_hour: int, level: int, max_level: int) -> int
    recommends
        charge_per_hour != 0,
{
    charge_hours(battery, charge_per_hour, level, max_level) * SECONDS_PER_HOUR
}

pub struct Calculator {}

impl Calculator {
    /// The time it takes to charge from `level` to `max_level`, in seconds.
    ///
    /// `battery` is the capacity in kWh, `charge_per_hour` the rate in
    /// thousandths of a kWh per hour, and both levels are thousandths of a
    /// percent. Nothing is clamped: a target below the current level gives a
    /// negative time. There is no answer for a rate of zero, nor where the
    /// time does not fit in an `i64`.
    pub fn calc_charge_time(battery: i64, charge_per_hour: i64, level: i64, max_level: i64) -> (time:
        Option<i64>)
        ensures
            time.is_some() <==> (charge_per_hour != 0 && i64::MIN <= charge_seconds(
                battery as int,
                charge_per_hour as int,
                level as int,
                max_level as int,
            ) <= i64::MAX),
            time.is_some() ==> time.unwrap() == charge_seconds(
                battery as int,
                charge_per_hour as int,
                level as int,
                max_level as int,
            ),
    {
        if charge_per_hour == 0 {
            return None;
        }
        let diff: i128 = max_level as i128 - level as i128;
        let den: i128 = 100 * (charge_per_hour as i128);
        assert(-0x1_0000_0000_0000_0000 < diff < 0x1_0000_0000_0000_0000);
        assert(-0x8000_0000_0000_0000 <= battery < 0x8000_0000_0000_0000);
        assert(-0x7fff_ffff_ffff_ffff_8000_0000_0000_0000 <= (battery as int) * (diff as int)
            <= 0x7fff_ffff_ffff_ffff_8000_0000_0000_0000) by (nonlinear_arith)
            requires
                -0x1_0000_0000_0000_0000 < diff < 0x1_0000_0000_0000_0000,
                -0x8000_0000_0000_0000 <= battery < 0x8000_0000_0000_0000,
        ;
        let num: i128 = (battery as i128) * diff;
        let a: u128 = if num < 0 {
            (-num) as u128
        } else {
            num as u128
        };
        let b: u128 = if den < 0 {
            (-den) as u128
        } else {
            den as u128
        };
        let q: u128 = a / b;
        let r: u128 = a % b;
        let m: u128 = if 2 * r >= b {
            q + 1
        } else {
            q
        };
        let negative = (num < 0) != (den < 0);
        assert(a == magnitude(num as int));
        assert(b == magnitude(den as int));
        assert(round_half_away(num as int, den as int) == if negative {
            -(m as int)
        } else {
            m as int
        });
        if m > MAX_HOURS {
            return None;
        }
        let hours: i64 = if negative {
            -(m as i64)
        } else {
            m as i64
        };
        Some(hours * SECONDS_PER_HOUR)
    }
}

/// The rounded quotient is the whole number nearest to the true quotient: the
/// two are at most a half apart.
pub proof fn lemma_round_is_nearest(num: int, den: int)
    requires
        den != 0,
    ensures
        2 * magnitude(num - round_half_away(num, den) * den) <= magnitude(den),
{
    let a = magnitude(num) as int;
    let b = magnitude(den) as int;
    let q = a / b;
    let r = a % b;
    assert(a == q * b + r && 0 <= r < b) by (nonlinear_arith)
        requires
            b > 0,
            q == a / b,
            r == a % b,
    ;
    let m = if 2 * r >= b {
        q + 1
    } else {
        q
    };
    let rounded = round_half_away(num, den);
    let rest = a - m * b;
    assert(rest == if 2 * r >= b {
        r - b
    } else {
        r
    }) by (nonlinear_arith)
        requires
            a == q * b + r,
            rest == a - m * b,
            m == if 2 * r >= b {
                q + 1
            } else {
                q
            },
    ;
    assert(num - rounded * den == rest || num - rounded * den == -rest) by (nonlinear_arith)
        requires
            rest == a - m * b,
            num == a || num == -a,
            den == b || den == -b,
            (num < 0) == (num == -a && a != 0),
            (den < 0) == (den == -b),
            rounded == if (num < 0) != (den < 0) {
                -m
            } else {
                m
            },
    ;
}

} // verus!
