//! Charging sessions: the chosen intervals, grouped where they follow each
//! other without a gap, with the cost of each group and of all together.

use vstd::prelude::*;
use crate::prices::HourPrice;

verus! {

/// The sum of the prices of `records`.
pub open spec fn total_price(records: Seq<HourPrice>) -> int
    decreases records.len(),
{
    if records.len() == 0 {
        0
    } else {
        total_price(records.drop_last()) + records.last().price
    }
}

/// Whether time passes between the end of `earlier` and the start of `later`.
/// Intervals that touch, or overlap, leave no gap.
pub open spec fn gap_between(earlier: HourPrice, later: HourPrice) -> bool {
    earlier.end < later.start
}

/// The sessions of `records`, taken in their order: a record opens a new
/// session where there is a gap between it and the record before it, and
/// otherwise joins the session of the record before it.
pub open spec fn grouped(records: Seq<HourPrice>) -> Seq<Seq<HourPrice>>
    decreases records.len(),
{
    if records.len() == 0 {
        Seq::empty()
    } else if records.len() == 1 {
        seq![records]
    } else {
        let before = grouped(records.drop_last());
        if gap_between(records[records.len() - 2], records.last()) {
            before.push(seq![records.last()])
        } else {
            before.drop_last().push(before.last().push(records.last()))
        }
    }
}

/// The sessions laid end to end.
pub open spec fn joined(sessions: Seq<Seq<HourPrice>>) -> Seq<HourPrice>
    decreases sessions.len(),
{
    if sessions.len() == 0 {
        Seq::empty()
    } else {
        joined(sessions.drop_last()) + sessions.last()
    }
}

/// The sum of the sums of the sessions.
pub open spec fn sessions_total(sessions: Seq<Seq<HourPrice>>) -> int
    decreases sessions.len(),
{
    if sessions.len() == 0 {
        0
    } else {
        sessions_total(sessions.drop_last()) + total_price(sessions.last())
    }
}

/// One charging session: intervals that follow each other without a gap, and
/// the sum of their prices.
#[derive(Debug)]
pub struct Session {
    pub prices: Vec<HourPrice>,
    pub sum: u128,
}

impl Session {
    /// A session holds at least one record, and its sum is the sum of their
    /// prices.
    pub open spec fn well_formed(&self) -> bool {
        &&& self.prices@.len() > 0
        &&& self.sum == total_price(self.prices@)
    }

    /// The number of intervals in the session.
    pub fn count(&self) -> (n: usize)
        ensures
            n == self.prices@.len(),
    {
        self.prices.len()
    }

    /// The average price of the session, rounded down to a whole unit; `None`
    /// for a session without records.
    pub fn average(&self) -> (avg: Option<u128>)
        ensures
            avg.is_some() <==> self.prices@.len() > 0,
            avg.is_some() ==> avg.unwrap() == self.sum as int / self.prices@.len() as int,
    {
        average_of(self.sum, self.prices.len())
    }
}

/// `sum / count` rounded down; `None` where `count` is 0.
pub fn average_of(sum: u128, count: usize) -> (avg: Option<u128>)
    ensures
        avg.is_some() <==> count > 0,
        avg.is_some() ==> avg.unwrap() == sum as int / count as int,
{
    if count == 0 {
        None
    } else {
        Some(sum / (count as u128))
    }
}

/// The sessions of a charging plan with the totals over all of them.
#[derive(Debug)]
pub struct Report {
    pub sessions: Vec<Session>,
    pub total_sum: u128,
    pub total_count: usize,
}

/// The records of each session of `sessions`.
pub open spec fn session_records(sessions: Seq<Session>) -> Seq<Seq<HourPrice>> {
    sessions.map_values(|s: Session| s.prices@)
}

impl Report {
    /// The sessions as sequences of records.
    pub open spec fn view(&self) -> Seq<Seq<HourPrice>> {
        session_records(self.sessions@)
    }

    /// In a report every session is well formed, and the totals are the sum
    /// and the number of the records of all sessions.
    pub open spec fn well_formed(&self) -> bool {
        &&& forall|k: int|
            0 <= k < self.sessions@.len() ==> (#[trigger] self.sessions@[k]).well_formed()
        &&& self.total_sum == sessions_total(self@)
        &&& self.total_count == joined(self@).len()
    }

    /// The average price over all sessions, rounded down to a whole unit;
    /// `None` where nothing was chosen.
    pub fn total_average(&self) -> (avg: Option<u128>)
        ensures
            avg.is_some() <==> self.total_count > 0,
            avg.is_some() ==> avg.unwrap() == self.total_sum as int / self.total_count as int,
    {
        average_of(self.total_sum, self.total_count)
    }
}

proof fn lemma_total_price_bound(records: Seq<HourPrice>)
    ensures
        0 <= total_price(records) <= records.len() * u64::MAX,
    decreases records.len(),
{
    if records.len() > 0 {
        lemma_total_price_bound(records.drop_last());
        assert((records.len() - 1) * u64::MAX + u64::MAX == records.len() * u64::MAX)
            by (nonlinear_arith);
    }
}

/// Groups `selected`, which the caller has put in the order of time, into
/// sessions, and sums up each session and all of them. An empty list gives no
/// session, and totals of zero.
pub fn group_sessions(selected: &Vec<HourPrice>) -> (report: Report)
    ensures
        report@ == grouped(selected@),
        report.well_formed(),
        report.total_sum == total_price(selected@),
        report.total_count == selected@.len(),
        joined(report@) == selected@,
{
    let mut sessions: Vec<Session> = Vec::new();
    let mut current: Vec<HourPrice> = Vec::new();
    let mut current_sum: u128 = 0;
    let mut total_sum: u128 = 0;
    let mut i: usize = 0;
    while i < selected.len()
        invariant
            i <= selected.len(),
            i == 0 ==> sessions@.len() == 0 && current@.len() == 0,
            i > 0 ==> current@.len() > 0 && grouped(selected@.take(i as int)) == session_records(
                sessions@,
            ).push(current@),
            current@.len() <= i,
            current_sum == total_price(current@),
            total_sum == total_price(selected@.take(i as int)),
            forall|k: int| 0 <= k < sessions@.len() ==> (#[trigger] sessions@[k]).well_formed(),
        decreases selected.len() - i,
    {
        let record = selected[i];
        let ghost closed = session_records(sessions@);
        let ghost open = current@;
        proof {
            assert(selected@.take(i + 1).drop_last() =~= selected@.take(i as int));
            lemma_total_price_bound(current@);
            lemma_total_price_bound(selected@.take(i as int));
            assert(i * u64::MAX + u64::MAX <= usize::MAX * u64::MAX) by (nonlinear_arith)
                requires
                    i < usize::MAX,
            ;
            assert(current@.len() * u64::MAX <= i * u64::MAX) by (nonlinear_arith)
                requires
                    current@.len() <= i,
            ;
            assert(usize::MAX * u64::MAX <= 0xffff_ffff_ffff_ffff * 0xffff_ffff_ffff_ffff)
                by (nonlinear_arith)
                requires
                    usize::MAX <= 0xffff_ffff_ffff_ffff,
                    u64::MAX == 0xffff_ffff_ffff_ffff,
            ;
        }
        if i > 0 && selected[i - 1].end < record.start {
            sessions.push(Session { prices: current, sum: current_sum });
            current = Vec::new();
            current_sum = 0;
            proof {
                assert(session_records(sessions@) =~= closed.push(open));
            }
        }
        let ghost short = current@;
        current.push(record);
        current_sum += record.price as u128;
        total_sum += record.price as u128;
        proof {
            lemma_total_price_push(short, record);
            let now = selected@.take(i + 1);
            if i == 0 {
                assert(current@ =~= now);
                assert(session_records(sessions@).push(current@) =~= seq![now]);
            } else if gap_between(selected@[i - 1], record) {
                assert(current@ =~= seq![record]);
            } else {
                assert(closed.push(open).drop_last() =~= closed);
                assert(current@ =~= open.push(record));
            }
        }
        i += 1;
    }
    proof {
        assert(selected@.take(i as int) =~= selected@);
    }
    if i > 0 {
        let ghost closed = session_records(sessions@);
        sessions.push(Session { prices: current, sum: current_sum });
        proof {
            assert(session_records(sessions@) =~= closed.push(current@));
        }
    }
    let report = Report { sessions, total_sum, total_count: i };
    proof {
        assert(report@ =~= grouped(selected@));
        lemma_session_sums(selected@);
        lemma_sessions_part_records(selected@);
    }
    report
}

/// A record more adds its price to the sum.
pub proof fn lemma_total_price_push(records: Seq<HourPrice>, record: HourPrice)
    ensures
        total_price(records.push(record)) == total_price(records) + record.price,
{
    assert(records.push(record).drop_last() =~= records);
}

/// A session more adds its sum to the total.
pub proof fn lemma_sessions_total_push(sessions: Seq<Seq<HourPrice>>, session: Seq<HourPrice>)
    ensures
        sessions_total(sessions.push(session)) == sessions_total(sessions) + total_price(session),
{
    assert(sessions.push(session).drop_last() =~= sessions);
}

/// The sums of the sessions add up to the sum of the prices of all records.
pub proof fn lemma_session_sums(records: Seq<HourPrice>)
    ensures
        sessions_total(grouped(records)) == total_price(records),
    decreases records.len(),
{
    if records.len() == 0 {
    } else if records.len() == 1 {
        lemma_sessions_total_push(Seq::empty(), records);
        assert(seq![records] =~= Seq::<Seq<HourPrice>>::empty().push(records));
    } else {
        let front = records.drop_last();
        let before = grouped(front);
        lemma_session_sums(front);
        lemma_sessions_not_empty(front);
        if gap_between(records[records.len() - 2], records.last()) {
            let single = seq![records.last()];
            lemma_sessions_total_push(before, single);
            lemma_total_price_push(Seq::empty(), records.last());
            assert(single =~= Seq::<HourPrice>::empty().push(records.last()));
        } else {
            let longer = before.last().push(records.last());
            lemma_sessions_total_push(before.drop_last(), longer);
            lemma_total_price_push(before.last(), records.last());
        }
    }
}

/// There is a session as soon as there is a record, and no session is empty.
pub proof fn lemma_sessions_not_empty(records: Seq<HourPrice>)
    ensures
        records.len() > 0 ==> grouped(records).len() > 0,
        forall|k: int| 0 <= k < grouped(records).len() ==> (#[trigger] grouped(records)[k]).len() > 0,
    decreases records.len(),
{
    if records.len() > 1 {
        lemma_sessions_not_empty(records.drop_last());
    }
}

/// A session more is laid behind the others.
pub proof fn lemma_joined_push(sessions: Seq<Seq<HourPrice>>, session: Seq<HourPrice>)
    ensures
        joined(sessions.push(session)) == joined(sessions) + session,
{
    assert(sessions.push(session).drop_last() =~= sessions);
}

/// The sessions part the records: laid end to end they are the records again,
/// each once and in the same order.
pub proof fn lemma_sessions_part_records(records: Seq<HourPrice>)
    ensures
        joined(grouped(records)) == records,
    decreases records.len(),
{
    if records.len() == 0 {
    } else if records.len() == 1 {
        lemma_joined_push(Seq::empty(), records);
        assert(seq![records] =~= Seq::<Seq<HourPrice>>::empty().push(records));
        assert(Seq::<HourPrice>::empty() + records =~= records);
    } else {
        let front = records.drop_last();
        let before = grouped(front);
        lemma_sessions_part_records(front);
        lemma_sessions_not_empty(front);
        if gap_between(records[records.len() - 2], records.last()) {
            lemma_joined_push(before, seq![records.last()]);
            assert(front + seq![records.last()] =~= records);
        } else {
            let longer = before.last().push(records.last());
            lemma_joined_push(before.drop_last(), longer);
            assert(joined(before.drop_last()) + longer =~= (joined(before.drop_last())
                + before.last()).push(records.last()));
            assert(front.push(records.last()) =~= records);
        }
    }
}

/// Whether no record of `records` is parted from the next by a gap.
pub open spec fn no_gaps(records: Seq<HourPrice>) -> bool {
    forall|i: int|
        0 <= i < records.len() - 1 ==> !gap_between(#[trigger] records[i], records[i + 1])
}

/// Records without a gap between them make one session, which holds them all.
pub proof fn lemma_no_gap_one_session(records: Seq<HourPrice>)
    requires
        records.len() > 0,
        no_gaps(records),
    ensures
        grouped(records) == seq![records],
    decreases records.len(),
{
    if records.len() > 1 {
        let front = records.drop_last();
        assert forall|i: int| 0 <= i < front.len() - 1 implies !gap_between(
            #[trigger] front[i],
            front[i + 1],
        ) by {
            assert(front[i] == records[i]);
            assert(!gap_between(records[i], records[i + 1]));
        }
        lemma_no_gap_one_session(front);
        assert(!gap_between(records[records.len() - 2], records[records.len() - 2 + 1]));
        assert(front.push(records.last()) =~= records);
        assert(seq![front].drop_last().push(front.push(records.last())) =~= seq![records]);
    }
}

/// A gap between record `i` and the next parts two sessions: the result is
/// the index of a session that ends with record `i`, and the session behind
/// it begins with record `i + 1`. The sessions up to that one hold the records
/// up to `i` and no others.
pub proof fn lemma_gap_parts_sessions(records: Seq<HourPrice>, i: int) -> (k: int)
    requires
        0 <= i < records.len() - 1,
        gap_between(records[i], records[i + 1]),
    ensures
        grouped(records).len() >= 2,
        0 <= k < grouped(records).len() - 1,
        joined(grouped(records).take(k + 1)) == records.take(i + 1),
        grouped(records)[k].len() > 0 && grouped(records)[k].last() == records[i],
        grouped(records)[k + 1].len() > 0 && grouped(records)[k + 1].first() == records[i + 1],
    decreases records.len(),
{
    let front = records.drop_last();
    let before = grouped(front);
    let all = grouped(records);
    lemma_sessions_part_records(front);
    lemma_sessions_not_empty(front);
    lemma_sessions_not_empty(records);
    if i == records.len() - 2 {
        let k = before.len() - 1;
        assert(all.take(k + 1) =~= before);
        assert(front =~= records.take(i + 1));
        assert(joined(before) == joined(before.drop_last()) + before.last());
        k
    } else {
        let k = lemma_gap_parts_sessions(front, i);
        assert(front.take(i + 1) =~= records.take(i + 1));
        assert(all.take(k + 1) =~= before.take(k + 1));
        k
    }
}

/// The last session ends with the last record.
pub proof fn lemma_last_session_ends_with_last_record(records: Seq<HourPrice>)
    requires
        records.len() > 0,
    ensures
        grouped(records).len() > 0,
        grouped(records).last().len() > 0,
        grouped(records).last().last() == records.last(),
{
    if records.len() > 1 {
        lemma_sessions_not_empty(records.drop_last());
    }
}

/// Within a session no record is parted from the next by a gap.
pub proof fn lemma_sessions_have_no_gaps(records: Seq<HourPrice>)
    ensures
        forall|k: int| 0 <= k < grouped(records).len() ==> no_gaps(#[trigger] grouped(records)[k]),
    decreases records.len(),
{
    if records.len() > 1 {
        let front = records.drop_last();
        let before = grouped(front);
        let all = grouped(records);
        lemma_sessions_have_no_gaps(front);
        lemma_last_session_ends_with_last_record(front);
        if !gap_between(records[records.len() - 2], records.last()) {
            let short = before.last();
            let longer = short.push(records.last());
            assert forall|i: int| 0 <= i < longer.len() - 1 implies !gap_between(
                #[trigger] longer[i],
                longer[i + 1],
            ) by {
                if i < short.len() - 1 {
                    assert(longer[i] == short[i]);
                    assert(!gap_between(short[i], short[i + 1]));
                }
            }
            assert(no_gaps(longer));
        }
        assert forall|k: int| 0 <= k < all.len() implies no_gaps(#[trigger] all[k]) by {
            if k < before.len() - 1 {
                assert(all[k] == before[k]);
            } else if k < before.len() && gap_between(records[records.len() - 2], records.last()) {
                assert(all[k] == before[k]);
            }
        }
    }
}

/// Between the last record of a session and the first record of the next
/// there is a gap.
pub proof fn lemma_sessions_are_parted_by_gaps(records: Seq<HourPrice>)
    ensures
        forall|k: int|
            0 <= k < grouped(records).len() - 1 ==> gap_between(
                (#[trigger] grouped(records)[k]).last(),
                grouped(records)[k + 1].first(),
            ),
    decreases records.len(),
{
    if records.len() > 1 {
        let front = records.drop_last();
        let before = grouped(front);
        let all = grouped(records);
        lemma_sessions_are_parted_by_gaps(front);
        lemma_last_session_ends_with_last_record(front);
        lemma_sessions_not_empty(front);
        assert forall|k: int| 0 <= k < all.len() - 1 implies gap_between(
            (#[trigger] all[k]).last(),
            all[k + 1].first(),
        ) by {
            if k < before.len() - 1 {
                assert(all[k] == before[k]);
                assert(gap_between(before[k].last(), before[k + 1].first()));
                assert(all[k + 1].first() == before[k + 1].first());
            } else {
                assert(all[k] == before[k]);
            }
        }
    }
}

} // verus!
