use ladekalk::plan::{append_day, charging_plan, merge_days};
use ladekalk::prices::HourPrice;
use ladekalk::sessions::{average_of, group_sessions};

const HOUR: i128 = 3_600_000_000_000;

fn hour(index: i128, price: u64) -> HourPrice {
    HourPrice { start: index * HOUR, end: (index + 1) * HOUR, price }
}

#[test]
fn no_records_no_sessions() {
    let report = group_sessions(&vec![]);
    assert!(report.sessions.is_empty());
    assert_eq!(report.total_sum, 0);
    assert_eq!(report.total_count, 0);
    assert_eq!(report.total_average(), None);
}

#[test]
fn hours_in_a_row_make_one_session() {
    let records = vec![hour(0, 10), hour(1, 20), hour(2, 33)];
    let report = group_sessions(&records);
    assert_eq!(report.sessions.len(), 1);
    assert_eq!(report.sessions[0].prices, records);
    assert_eq!(report.sessions[0].sum, 63);
    assert_eq!(report.sessions[0].count(), 3);
    assert_eq!(report.sessions[0].average(), Some(21));
    assert_eq!(report.total_sum, 63);
    assert_eq!(report.total_count, 3);
    assert_eq!(report.total_average(), Some(21));
}

#[test]
fn a_gap_parts_two_sessions() {
    let records = vec![hour(0, 10), hour(1, 20), hour(3, 30), hour(4, 41)];
    let report = group_sessions(&records);
    assert_eq!(report.sessions.len(), 2);
    assert_eq!(report.sessions[0].prices, vec![hour(0, 10), hour(1, 20)]);
    assert_eq!(report.sessions[1].prices, vec![hour(3, 30), hour(4, 41)]);
    assert_eq!(report.sessions[0].sum, 30);
    assert_eq!(report.sessions[1].sum, 71);
    assert_eq!(report.sessions[0].average(), Some(15));
    assert_eq!(report.sessions[1].average(), Some(35));
    assert_eq!(report.total_sum, 101);
    assert_eq!(report.total_count, 4);
    assert_eq!(report.total_average(), Some(25));
}

#[test]
fn every_gap_parts() {
    let records = vec![hour(0, 1), hour(2, 2), hour(4, 3)];
    let report = group_sessions(&records);
    assert_eq!(report.sessions.len(), 3);
    assert_eq!(report.sessions[0].prices, vec![hour(0, 1)]);
    assert_eq!(report.sessions[1].prices, vec![hour(2, 2)]);
    assert_eq!(report.sessions[2].prices, vec![hour(4, 3)]);
}

#[test]
fn overlapping_records_stay_together() {
    let first = HourPrice { start: 0, end: 2 * HOUR, price: 5 };
    let second = HourPrice { start: HOUR, end: 3 * HOUR, price: 6 };
    let report = group_sessions(&vec![first, second]);
    assert_eq!(report.sessions.len(), 1);
    assert_eq!(report.sessions[0].prices, vec![first, second]);
}

#[test]
fn a_nanosecond_is_a_gap() {
    let first = HourPrice { start: 0, end: HOUR, price: 5 };
    let second = HourPrice { start: HOUR + 1, end: 2 * HOUR, price: 6 };
    let report = group_sessions(&vec![first, second]);
    assert_eq!(report.sessions.len(), 2);
}

#[test]
fn session_sums_add_up_to_the_sum_of_all() {
    let records = vec![hour(0, u64::MAX), hour(1, u64::MAX), hour(5, 7), hour(9, 11), hour(10, 13)];
    let report = group_sessions(&records);
    let mut of_sessions: u128 = 0;
    let mut count = 0;
    for session in report.sessions.iter() {
        of_sessions += session.sum;
        count += session.count();
    }
    let of_records: u128 = records.iter().map(|r| r.price as u128).sum();
    assert_eq!(of_sessions, of_records);
    assert_eq!(report.total_sum, of_records);
    assert_eq!(count, 5);
    assert_eq!(report.sessions[0].sum, 2 * (u64::MAX as u128));
}

#[test]
fn averages_round_down() {
    assert_eq!(average_of(7, 2), Some(3));
    assert_eq!(average_of(0, 3), Some(0));
    assert_eq!(average_of(9, 0), None);
}

#[test]
fn plan_puts_chosen_hours_in_order_of_time() {
    // The three cheap hours are chosen in the order of the list, then put in order of time.
    let prices = vec![hour(5, 10), hour(0, 10), hour(3, 90), hour(1, 10), hour(2, 100)];
    let report = charging_plan(&prices, 3 * 3600);
    assert_eq!(report.sessions.len(), 2);
    assert_eq!(report.sessions[0].prices, vec![hour(0, 10), hour(1, 10)]);
    assert_eq!(report.sessions[1].prices, vec![hour(5, 10)]);
    assert_eq!(report.total_sum, 30);
    assert_eq!(report.total_count, 3);
    assert_eq!(report.total_average(), Some(10));
}

#[test]
fn plan_keeps_the_order_of_records_that_start_together() {
    let early = HourPrice { start: 0, end: HOUR, price: 10 };
    let long = HourPrice { start: HOUR, end: 3 * HOUR, price: 11 };
    let short = HourPrice { start: HOUR, end: 2 * HOUR, price: 10 };
    let dear = HourPrice { start: 9 * HOUR, end: 10 * HOUR, price: 1000 };
    let report = charging_plan(&vec![long, dear, short, early], 3 * 3600);
    assert_eq!(report.sessions.len(), 1);
    assert_eq!(report.sessions[0].prices, vec![early, long, short]);
}

#[test]
fn plan_for_no_time_is_empty() {
    let report = charging_plan(&vec![hour(0, 1), hour(1, 2)], 0);
    assert!(report.sessions.is_empty());
    assert_eq!(report.total_average(), None);
}

#[test]
fn two_days_follow_each_other() {
    let today = Some(vec![hour(0, 1), hour(1, 2)]);
    let tomorrow = Some(vec![hour(24, 3)]);
    assert_eq!(merge_days(&today, &tomorrow), vec![hour(0, 1), hour(1, 2), hour(24, 3)]);
    assert_eq!(merge_days(&today, &None), vec![hour(0, 1), hour(1, 2)]);
    assert_eq!(merge_days(&None, &tomorrow), vec![hour(24, 3)]);
    assert_eq!(merge_days(&None, &None), vec![]);
}

#[test]
fn a_day_is_put_behind_the_others() {
    let mut prices = vec![hour(0, 1)];
    append_day(&mut prices, &vec![hour(5, 2), hour(3, 4)]);
    assert_eq!(prices, vec![hour(0, 1), hour(5, 2), hour(3, 4)]);
}
