use vstd::prelude::*;

use crate::order::{address_lt, precedes};
use crate::ranking::{
    lemma_ordering_len, lemma_ordering_sorted, min_int, ordering, rank_participants, snapshot_of,
    LeaderboardSnapshot, SnapshotView, TOP_COUNT,
};
use crate::window::{
    aggregate, cutoff_spec, lemma_window_totals_participants, lemma_window_totals_permutation,
    participants, qualifies,
    qualifying, window_cutoff, window_totals, ScoreEvent,
};

verus! {

/// The three windows of the leaderboard.
#[derive(Clone, Copy, PartialEq, Eq, Structural)]
pub enum Window {
    Weekly,
    Monthly,
    AllTime,
}

pub open spec fn window_days(w: Window) -> int {
    match w {
        Window::Weekly => 7,
        Window::Monthly => 30,
        Window::AllTime => 0,
    }
}

impl Window {
    /// How many days the window looks back; zero means no bound.
    pub fn lookback_days(&self) -> (r: i64)
        ensures
            r == window_days(*self),
    {
        match self {
            Window::Weekly => 7,
            Window::Monthly => 30,
            Window::AllTime => 0,
        }
    }
}

/// The snapshot of a window with no participants.
pub open spec fn empty_view() -> SnapshotView {
    SnapshotView { top: seq![], total: 0, rank: None }
}

/// What a window's computation gives: its snapshot over the fetched events,
/// or the empty snapshot where the events could not be read.
pub open spec fn window_result(
    fetched: Option<Seq<ScoreEvent>>,
    days: int,
    now: int,
    address: Seq<char>,
) -> SnapshotView {
    match fetched {
        Some(evs) => snapshot_of(window_totals(evs, cutoff_spec(days, now)), address),
        None => empty_view(),
    }
}

pub open spec fn fetched_view(fetched: Option<Vec<ScoreEvent>>) -> Option<Seq<ScoreEvent>> {
    match fetched {
        Some(v) => Some(v@),
        None => None,
    }
}

/// The leaderboard of every window, keyed by window.
#[derive(Debug)]
pub struct LeaderboardResponse {
    pub weekly: LeaderboardSnapshot,
    pub monthly: LeaderboardSnapshot,
    pub all_time: LeaderboardSnapshot,
}

/// Filters, aggregates and ranks the events of one window.
pub fn window_snapshot(events: &Vec<ScoreEvent>, cutoff: i64, address: &String) -> (r:
    LeaderboardSnapshot)
    ensures
        r@ == snapshot_of(window_totals(events@, cutoff as int), address@),
        r.top_entries@.len() == min_int(TOP_COUNT as int, r.total_participants as int),
{
    let totals = aggregate(events, cutoff);
    rank_participants(totals, address)
}

/// The leaderboard of the window that looks back `days` days from `now`
/// (milliseconds); `days <= 0` takes every event.
pub fn get_leaderboard_toppers(events: &Vec<ScoreEvent>, days: i64, now: i64, address: &String) -> (r:
    LeaderboardSnapshot)
    ensures
        r@ == snapshot_of(window_totals(events@, cutoff_spec(days as int, now as int)), address@),
        r.top_entries@.len() == min_int(TOP_COUNT as int, r.total_participants as int),
{
    let cutoff = window_cutoff(days, now);
    window_snapshot(events, cutoff, address)
}

/// The snapshot of a window with no participants.
pub fn empty_snapshot() -> (r: LeaderboardSnapshot)
    ensures
        r@ == empty_view(),
{
    let r = LeaderboardSnapshot { top_entries: Vec::new(), total_participants: 0, queried_address_rank: None };
    assert(r@.top =~= seq![]);
    r
}

/// One window's computation over what its read of the event store gave:
/// a failed read (`None`) degrades to the empty snapshot.
pub fn snapshot_or_empty(
    fetched: Option<Vec<ScoreEvent>>,
    days: i64,
    now: i64,
    address: &String,
) -> (r: LeaderboardSnapshot)
    ensures
        r@ == window_result(fetched_view(fetched), days as int, now as int, address@),
{
    match fetched {
        Some(events) => get_leaderboard_toppers(&events, days, now, address),
        None => empty_snapshot(),
    }
}

/// Puts the three snapshots under their windows.
pub fn compose(
    weekly: LeaderboardSnapshot,
    monthly: LeaderboardSnapshot,
    all_time: LeaderboardSnapshot,
) -> (r: LeaderboardResponse)
    ensures
        r.weekly == weekly,
        r.monthly == monthly,
        r.all_time == all_time,
{
    LeaderboardResponse { weekly, monthly, all_time }
}

/// The whole leaderboard for `address` at `now`, from each window's own read
/// of the event store.
pub fn leaderboard(
    weekly_events: Option<Vec<ScoreEvent>>,
    monthly_events: Option<Vec<ScoreEvent>>,
    all_time_events: Option<Vec<ScoreEvent>>,
    now: i64,
    address: &String,
) -> (r: LeaderboardResponse)
    ensures
        r.weekly@ == window_result(fetched_view(weekly_events), 7, now as int, address@),
        r.monthly@ == window_result(fetched_view(monthly_events), 30, now as int, address@),
        r.all_time@ == window_result(fetched_view(all_time_events), 0, now as int, address@),
{
    let weekly = snapshot_or_empty(weekly_events, Window::Weekly.lookback_days(), now, address);
    let monthly = snapshot_or_empty(monthly_events, Window::Monthly.lookback_days(), now, address);
    let all_time = snapshot_or_empty(all_time_events, Window::AllTime.lookback_days(), now, address);
    compose(weekly, monthly, all_time)
}

/// The number of participants of a window is the number of distinct
/// addresses with at least one event within it.
pub proof fn lemma_total_counts_participants(evs: Seq<ScoreEvent>, cutoff: int, a: Seq<char>)
    ensures
        snapshot_of(window_totals(evs, cutoff), a).total == participants(evs, cutoff).len(),
        participants(evs, cutoff).finite(),
{
    lemma_window_totals_participants(evs, cutoff);
}

/// Every window lists `TOP_COUNT` leaders, or all participants where there
/// are fewer.
pub proof fn lemma_top_length(evs: Seq<ScoreEvent>, cutoff: int, a: Seq<char>)
    ensures
        snapshot_of(window_totals(evs, cutoff), a).top.len() == min_int(
            TOP_COUNT as int,
            snapshot_of(window_totals(evs, cutoff), a).total,
        ),
{
    lemma_window_totals_participants(evs, cutoff);
    lemma_ordering_len(window_totals(evs, cutoff));
}

/// An address with no event within the window has no rank in it, whatever
/// the other windows hold.
pub proof fn lemma_absent_address_has_no_rank(evs: Seq<ScoreEvent>, cutoff: int, a: Seq<char>)
    requires
        forall|i: int| 0 <= i < evs.len() && #[trigger] evs[i].address@ == a ==> !qualifies(evs[i], cutoff),
    ensures
        snapshot_of(window_totals(evs, cutoff), a).rank == None::<int>,
{
    lemma_window_totals_participants(evs, cutoff);
    assert(!participants(evs, cutoff).contains(a));
}

/// Events outside a window do not change its snapshot: two event sequences
/// whose events within the window are the same give the same snapshot.
pub proof fn lemma_window_independence(
    evs1: Seq<ScoreEvent>,
    evs2: Seq<ScoreEvent>,
    cutoff: int,
    a: Seq<char>,
)
    requires
        qualifying(evs1, cutoff) == qualifying(evs2, cutoff),
    ensures
        snapshot_of(window_totals(evs1, cutoff), a) == snapshot_of(window_totals(evs2, cutoff), a),
{
}

/// The leaders are listed by non-increasing total experience.
pub proof fn lemma_top_non_increasing(m: Map<Seq<char>, int>, a: Seq<char>)
    ensures
        forall|i: int, j: int|
            0 <= i < j < snapshot_of(m, a).top.len() ==> #[trigger] snapshot_of(m, a).top[i].1
                >= #[trigger] snapshot_of(m, a).top[j].1,
{
    lemma_ordering_sorted(m);
    let o = ordering(m);
    let top = snapshot_of(m, a).top;
    assert forall|i: int, j: int| 0 <= i < j < top.len() implies #[trigger] top[i].1
        >= #[trigger] top[j].1 by {
        assert(top[i].1 == o[i].1 && top[j].1 == o[j].1);
        assert(precedes(o[i].0, o[i].1, o[j].0, o[j].1));
    }
}

/// Ranks are a function of the totals alone, and equal totals are ordered by
/// address: of two participants with the same total, the smaller address
/// comes first.
pub proof fn lemma_ranking_deterministic(m1: Map<Seq<char>, int>, m2: Map<Seq<char>, int>, a: Seq<char>)
    requires
        m1 == m2,
    ensures
        snapshot_of(m1, a) == snapshot_of(m2, a),
        forall|i: int, j: int|
            0 <= i < j < ordering(m1).len() && ordering(m1)[i].1 == ordering(m1)[j].1
                ==> address_lt(#[trigger] ordering(m1)[i].0, #[trigger] ordering(m1)[j].0),
{
    lemma_ordering_sorted(m1);
}

/// The snapshot does not depend on the order in which the events arrive.
pub proof fn lemma_snapshot_ignores_event_order(
    evs1: Seq<ScoreEvent>,
    evs2: Seq<ScoreEvent>,
    cutoff: int,
    a: Seq<char>,
)
    requires
        evs1.to_multiset() == evs2.to_multiset(),
    ensures
        snapshot_of(window_totals(evs1, cutoff), a) == snapshot_of(window_totals(evs2, cutoff), a),
{
    lemma_window_totals_permutation(evs1, evs2, cutoff);
}

/// A window with no events has the empty snapshot.
pub proof fn lemma_no_events_empty_snapshot(cutoff: int, a: Seq<char>)
    ensures
        snapshot_of(window_totals(Seq::<ScoreEvent>::empty(), cutoff), a) == empty_view(),
{
    let m = window_totals(Seq::<ScoreEvent>::empty(), cutoff);
    reveal(Seq::filter);
    assert(m =~= Map::<Seq<char>, int>::empty());
    assert(m.dom() =~= Set::<Seq<char>>::empty());
    assert(ordering(m) =~= seq![]);
    assert(snapshot_of(m, a).top =~= seq![]);
}

} // verus!
