use quest_leaderboard::leaderboard::{
    compose, empty_snapshot, get_leaderboard_toppers, leaderboard, snapshot_or_empty,
    window_snapshot, Window,
};
use quest_leaderboard::order::{address_lt_exec, precedes_exec};
use quest_leaderboard::ranking::{rank_participants, LeaderboardSnapshot, TOP_COUNT};
use quest_leaderboard::totals::ParticipantTotals;
use quest_leaderboard::window::{aggregate, window_cutoff, ScoreEvent, MILLIS_PER_DAY};

const NOW: i64 = 1_700_000_000_000;

fn ev(address: &str, experience: u64, timestamp: i64) -> ScoreEvent {
    ScoreEvent { address: address.to_string(), experience, timestamp }
}

fn top(s: &LeaderboardSnapshot) -> Vec<(String, u128, usize)> {
    s.top_entries
        .iter()
        .map(|e| (e.address.clone(), e.total_experience, e.rank))
        .collect()
}

fn entry(a: &str, t: u128, r: usize) -> (String, u128, usize) {
    (a.to_string(), t, r)
}

#[test]
fn scenario_sum_and_rank_in_every_window() {
    let events = vec![ev("A", 100, NOW), ev("B", 300, NOW), ev("A", 50, NOW)];
    let a = "A".to_string();
    let s = get_leaderboard_toppers(&events, 0, NOW, &a);
    assert_eq!(s.total_participants, 2);
    assert_eq!(top(&s), vec![entry("B", 300, 1), entry("A", 150, 2)]);
    assert_eq!(s.queried_address_rank, Some(2));
    let r = leaderboard(Some(events.clone()), Some(events.clone()), Some(events), NOW, &a);
    for s in [&r.weekly, &r.monthly, &r.all_time] {
        assert_eq!(s.total_participants, 2);
        assert_eq!(top(s), vec![entry("B", 300, 1), entry("A", 150, 2)]);
        assert_eq!(s.queried_address_rank, Some(2));
    }
}

#[test]
fn scenario_empty_events_give_empty_snapshots() {
    let a = "A".to_string();
    let r = leaderboard(Some(vec![]), Some(vec![]), Some(vec![]), NOW, &a);
    for s in [&r.weekly, &r.monthly, &r.all_time] {
        assert!(s.top_entries.is_empty());
        assert_eq!(s.total_participants, 0);
        assert_eq!(s.queried_address_rank, None);
    }
}

#[test]
fn scenario_tie_broken_by_address() {
    let a = "A".to_string();
    let b = "B".to_string();
    let one = vec![ev("A", 100, NOW), ev("B", 100, NOW)];
    let two = vec![ev("B", 100, NOW), ev("A", 100, NOW)];
    for events in [one, two] {
        let s = window_snapshot(&events, i64::MIN, &b);
        assert_eq!(top(&s), vec![entry("A", 100, 1), entry("B", 100, 2)]);
        assert_eq!(s.queried_address_rank, Some(2));
        let s = window_snapshot(&events, i64::MIN, &a);
        assert_eq!(s.queried_address_rank, Some(1));
    }
}

#[test]
fn total_counts_distinct_addresses_within_window() {
    let old = NOW - 8 * MILLIS_PER_DAY;
    let events = vec![
        ev("A", 1, NOW),
        ev("A", 2, NOW),
        ev("B", 3, NOW - MILLIS_PER_DAY),
        ev("C", 4, old),
        ev("D", 0, NOW),
    ];
    let a = "A".to_string();
    assert_eq!(get_leaderboard_toppers(&events, 7, NOW, &a).total_participants, 3);
    assert_eq!(get_leaderboard_toppers(&events, 30, NOW, &a).total_participants, 4);
    assert_eq!(get_leaderboard_toppers(&events, -1, NOW, &a).total_participants, 4);
}

#[test]
fn top_entries_hold_at_most_three() {
    let events = vec![
        ev("e", 5, NOW),
        ev("d", 40, NOW),
        ev("c", 30, NOW),
        ev("b", 20, NOW),
        ev("a", 10, NOW),
    ];
    let q = "a".to_string();
    let s = window_snapshot(&events, i64::MIN, &q);
    assert_eq!(TOP_COUNT, 3);
    assert_eq!(s.total_participants, 5);
    assert_eq!(
        top(&s),
        vec![entry("d", 40, 1), entry("c", 30, 2), entry("b", 20, 3)]
    );
    assert_eq!(s.queried_address_rank, Some(4));
    let one = window_snapshot(&vec![ev("x", 1, NOW)], i64::MIN, &q);
    assert_eq!(top(&one), vec![entry("x", 1, 1)]);
    assert_eq!(one.queried_address_rank, None);
}

#[test]
fn top_entries_are_non_increasing() {
    let events = vec![
        ev("p", 7, NOW),
        ev("q", 9, NOW),
        ev("r", 7, NOW),
        ev("s", 1, NOW),
    ];
    let q = "s".to_string();
    let s = window_snapshot(&events, i64::MIN, &q);
    let t = top(&s);
    assert_eq!(t, vec![entry("q", 9, 1), entry("p", 7, 2), entry("r", 7, 3)]);
    for w in t.windows(2) {
        assert!(w[0].1 >= w[1].1);
    }
    assert_eq!(s.queried_address_rank, Some(4));
}

#[test]
fn absent_address_has_no_rank_in_that_window_only() {
    let events = vec![ev("A", 10, NOW - 10 * MILLIS_PER_DAY), ev("B", 5, NOW)];
    let a = "A".to_string();
    let r = leaderboard(Some(events.clone()), Some(events.clone()), Some(events), NOW, &a);
    assert_eq!(r.weekly.queried_address_rank, None);
    assert_eq!(r.monthly.queried_address_rank, Some(1));
    assert_eq!(r.all_time.queried_address_rank, Some(1));
}

#[test]
fn events_before_the_weekly_cutoff_do_not_change_weekly() {
    let a = "A".to_string();
    let recent = vec![ev("A", 10, NOW), ev("B", 20, NOW)];
    let mut more = recent.clone();
    more.push(ev("C", 1000, NOW - 8 * MILLIS_PER_DAY));
    more.push(ev("A", 1000, NOW - 9 * MILLIS_PER_DAY));
    let s1 = get_leaderboard_toppers(&recent, 7, NOW, &a);
    let s2 = get_leaderboard_toppers(&more, 7, NOW, &a);
    assert_eq!(top(&s1), top(&s2));
    assert_eq!(s1.total_participants, s2.total_participants);
    assert_eq!(s1.queried_address_rank, s2.queried_address_rank);
    let s3 = get_leaderboard_toppers(&more, 0, NOW, &a);
    assert_eq!(top(&s3), vec![entry("A", 1010, 1), entry("C", 1000, 2), entry("B", 20, 3)]);
}

#[test]
fn cutoff_values() {
    assert_eq!(window_cutoff(7, NOW), NOW - 604_800_000);
    assert_eq!(window_cutoff(30, NOW), NOW - 2_592_000_000);
    assert_eq!(window_cutoff(0, NOW), i64::MIN);
    assert_eq!(window_cutoff(-1, NOW), i64::MIN);
    assert_eq!(window_cutoff(1, i64::MIN + 5), i64::MIN);
    assert_eq!(window_cutoff(i64::MAX, 0), i64::MIN);
}

#[test]
fn event_at_cutoff_qualifies() {
    let cutoff = window_cutoff(7, NOW);
    let events = vec![ev("A", 1, cutoff), ev("B", 1, cutoff - 1)];
    let a = "A".to_string();
    let s = window_snapshot(&events, cutoff, &a);
    assert_eq!(top(&s), vec![entry("A", 1, 1)]);
}

#[test]
fn window_lookback_days() {
    assert_eq!(Window::Weekly.lookback_days(), 7);
    assert_eq!(Window::Monthly.lookback_days(), 30);
    assert_eq!(Window::AllTime.lookback_days(), 0);
}

#[test]
fn failed_read_gives_empty_snapshot() {
    let a = "A".to_string();
    let s = snapshot_or_empty(None, 7, NOW, &a);
    assert!(s.top_entries.is_empty());
    assert_eq!(s.total_participants, 0);
    assert_eq!(s.queried_address_rank, None);
    let events = vec![ev("A", 3, NOW)];
    let r = leaderboard(None, Some(events.clone()), Some(events), NOW, &a);
    assert_eq!(r.weekly.total_participants, 0);
    assert_eq!(r.monthly.queried_address_rank, Some(1));
    assert_eq!(top(&r.all_time), vec![entry("A", 3, 1)]);
}

#[test]
fn compose_keeps_each_window() {
    let a = "A".to_string();
    let w = window_snapshot(&vec![ev("A", 1, NOW)], i64::MIN, &a);
    let r = compose(w, empty_snapshot(), empty_snapshot());
    assert_eq!(r.weekly.total_participants, 1);
    assert_eq!(r.monthly.total_participants, 0);
    assert_eq!(r.all_time.total_participants, 0);
}

#[test]
fn large_totals_do_not_overflow() {
    let events = vec![ev("A", u64::MAX, NOW), ev("A", u64::MAX, NOW), ev("A", u64::MAX, NOW)];
    let a = "A".to_string();
    let s = window_snapshot(&events, i64::MIN, &a);
    assert_eq!(top(&s), vec![entry("A", 3 * (u64::MAX as u128), 1)]);
}

#[test]
fn totals_accumulate_per_address() {
    let mut t = ParticipantTotals::new();
    t.add(&"x".to_string(), 4);
    t.add(&"y".to_string(), 1);
    t.add(&"x".to_string(), 6);
    let mut e: Vec<(String, u128)> =
        t.entries().iter().map(|p| (p.address.clone(), p.total_experience)).collect();
    e.sort();
    assert_eq!(e, vec![("x".to_string(), 10), ("y".to_string(), 1)]);
    let s = rank_participants(t, &"y".to_string());
    assert_eq!(top(&s), vec![entry("x", 10, 1), entry("y", 1, 2)]);
    let agg = aggregate(&vec![ev("z", 2, 5), ev("z", 3, 4)], 5);
    assert_eq!(agg.entries().len(), 1);
    assert_eq!(agg.entries()[0].total_experience, 2);
}

#[test]
fn address_order_is_byte_order() {
    let s = |x: &str| x.to_string();
    assert!(address_lt_exec(&s("a"), &s("b")));
    assert!(!address_lt_exec(&s("b"), &s("a")));
    assert!(address_lt_exec(&s("a"), &s("ab")));
    assert!(!address_lt_exec(&s("ab"), &s("a")));
    assert!(!address_lt_exec(&s("a"), &s("a")));
    assert!(address_lt_exec(&s(""), &s("a")));
    assert!(address_lt_exec(&s("0x1"), &s("0xa")));
    assert!(address_lt_exec(&s("z"), &s("é")));
    assert!(precedes_exec(&s("b"), 5, &s("a"), 4));
    assert!(precedes_exec(&s("a"), 5, &s("b"), 5));
    assert!(!precedes_exec(&s("b"), 5, &s("a"), 5));
}
