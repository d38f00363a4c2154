use vstd::prelude::*;

use crate::totals::{add_experience, ParticipantTotals};

verus! {

/// One scored event: `experience` earned by `address` at `timestamp`
/// (milliseconds since the Unix epoch).
#[derive(Clone, Debug)]
pub struct ScoreEvent {
    pub address: String,
    pub experience: u64,
    pub timestamp: i64,
}

/// Length of a day in milliseconds.
pub const MILLIS_PER_DAY: i64 = 86_400_000;

/// The earliest qualifying timestamp of a window that looks back `days` days
/// from `now`; a window of no positive length is unbounded.
pub open spec fn cutoff_spec(days: int, now: int) -> int {
    if days > 0 {
        let c = now - days * MILLIS_PER_DAY;
        if c < i64::MIN {
            i64::MIN as int
        } else {
            c
        }
    } else {
        i64::MIN as int
    }
}

pub open spec fn qualifies(e: ScoreEvent, cutoff: int) -> bool {
    e.timestamp >= cutoff
}

/// The events of `evs` that fall within the window, in their order.
pub open spec fn qualifying(evs: Seq<ScoreEvent>, cutoff: int) -> Seq<ScoreEvent> {
    evs.filter(|e: ScoreEvent| qualifies(e, cutoff))
}

/// Experience summed per address over all of `evs`.
pub open spec fn sum_by_address(evs: Seq<ScoreEvent>) -> Map<Seq<char>, int>
    decreases evs.len(),
{
    if evs.len() == 0 {
        Map::empty()
    } else {
        add_experience(
            sum_by_address(evs.drop_last()),
            evs.last().address@,
            evs.last().experience as int,
        )
    }
}

/// Experience summed per address over the events within the window.
pub open spec fn window_totals(evs: Seq<ScoreEvent>, cutoff: int) -> Map<Seq<char>, int> {
    sum_by_address(qualifying(evs, cutoff))
}

/// The addresses with at least one event within the window.
pub open spec fn participants(evs: Seq<ScoreEvent>, cutoff: int) -> Set<Seq<char>> {
    Set::new(
        |a: Seq<char>|
            exists|i: int| 0 <= i < evs.len() && evs[i].address@ == a && qualifies(evs[i], cutoff),
    )
}

/// Computes the cutoff of a window of `days` days ending at `now`.
pub fn window_cutoff(days: i64, now: i64) -> (r: i64)
    ensures
        r == cutoff_spec(days as int, now as int),
{
    if days > 0 {
        assert(0 < days * 86_400_000 <= 0x7fff_ffff_ffff_ffff * 86_400_000) by (nonlinear_arith)
            requires
                0 < days <= 0x7fff_ffff_ffff_ffff,
        ;
        let span: i128 = days as i128 * (MILLIS_PER_DAY as i128);
        let c: i128 = now as i128 - span;
        if c < i64::MIN as i128 {
            i64::MIN
        } else {
            c as i64
        }
    } else {
        i64::MIN
    }
}

proof fn lemma_qualifying_push(evs: Seq<ScoreEvent>, e: ScoreEvent, cutoff: int)
    ensures
        qualifying(evs.push(e), cutoff) == if qualifies(e, cutoff) {
            qualifying(evs, cutoff).push(e)
        } else {
            qualifying(evs, cutoff)
        },
{
    reveal(Seq::filter);
    assert(evs.push(e).drop_last() =~= evs);
}

/// Sums the experience of the events within the window, per address.
pub fn aggregate(events: &Vec<ScoreEvent>, cutoff: i64) -> (r: ParticipantTotals)
    ensures
        r.wf(),
        r@ == window_totals(events@, cutoff as int),
{
    let mut acc = ParticipantTotals::new();
    let mut i: usize = 0;
    assert(events@.take(0) =~= seq![]);
    assert(qualifying(seq![], cutoff as int) =~= seq![]) by {
        reveal(Seq::filter);
    }
    while i < events.len()
        invariant
            i <= events@.len(),
            acc.wf(),
            acc.events_added() <= i,
            acc@ == sum_by_address(qualifying(events@.take(i as int), cutoff as int)),
        decreases events@.len() - i,
    {
        let e = &events[i];
        proof {
            assert(events@.take(i + 1) =~= events@.take(i as int).push(events@[i as int]));
            lemma_qualifying_push(events@.take(i as int), events@[i as int], cutoff as int);
        }
        if e.timestamp >= cutoff {
            let ghost q = qualifying(events@.take(i as int), cutoff as int);
            acc.add(&e.address, e.experience);
            assert(q.push(events@[i as int]).drop_last() =~= q);
        }
        i = i + 1;
    }
    assert(events@.take(events@.len() as int) =~= events@);
    acc
}

/// The effect of one event on the totals of a window.
pub open spec fn apply_event(m: Map<Seq<char>, int>, e: ScoreEvent, cutoff: int) -> Map<
    Seq<char>,
    int,
> {
    if qualifies(e, cutoff) {
        add_experience(m, e.address@, e.experience as int)
    } else {
        m
    }
}

proof fn lemma_window_totals_push(evs: Seq<ScoreEvent>, e: ScoreEvent, cutoff: int)
    ensures
        window_totals(evs.push(e), cutoff) == apply_event(window_totals(evs, cutoff), e, cutoff),
{
    lemma_qualifying_push(evs, e, cutoff);
    if qualifies(e, cutoff) {
        assert(qualifying(evs, cutoff).push(e).drop_last() =~= qualifying(evs, cutoff));
    }
}

proof fn lemma_apply_event_commute(m: Map<Seq<char>, int>, e: ScoreEvent, f: ScoreEvent, cutoff: int)
    ensures
        apply_event(apply_event(m, e, cutoff), f, cutoff) == apply_event(
            apply_event(m, f, cutoff),
            e,
            cutoff,
        ),
{
    assert(apply_event(apply_event(m, e, cutoff), f, cutoff) =~= apply_event(
        apply_event(m, f, cutoff),
        e,
        cutoff,
    ));
}

proof fn lemma_window_totals_remove(evs: Seq<ScoreEvent>, j: int, cutoff: int)
    requires
        0 <= j < evs.len(),
    ensures
        window_totals(evs, cutoff) == apply_event(window_totals(evs.remove(j), cutoff), evs[j], cutoff),
    decreases evs.len(),
{
    let t = evs.drop_last();
    let x = evs.last();
    assert(t.push(x) =~= evs);
    lemma_window_totals_push(t, x, cutoff);
    if j < evs.len() - 1 {
        let r = evs.remove(j);
        assert(r =~= t.remove(j).push(x));
        lemma_window_totals_push(t.remove(j), x, cutoff);
        lemma_window_totals_remove(t, j, cutoff);
        assert(t[j] == evs[j]);
        lemma_apply_event_commute(window_totals(t.remove(j), cutoff), evs[j], x, cutoff);
    } else {
        assert(evs.remove(j) =~= t);
    }
}

/// The totals of a window do not depend on the order of the events.
pub proof fn lemma_window_totals_permutation(evs1: Seq<ScoreEvent>, evs2: Seq<ScoreEvent>, cutoff: int)
    requires
        evs1.to_multiset() == evs2.to_multiset(),
    ensures
        window_totals(evs1, cutoff) == window_totals(evs2, cutoff),
    decreases evs1.len(),
{
    broadcast use vstd::seq_lib::group_to_multiset_ensures;
    broadcast use vstd::multiset::group_multiset_axioms;

    if evs1.len() == 0 {
        vstd::seq_lib::to_multiset_len(evs1);
        vstd::seq_lib::to_multiset_len(evs2);
        assert(evs1 =~= evs2);
    } else {
        let t = evs1.drop_last();
        let x = evs1.last();
        assert(t.push(x) =~= evs1);
        assert(evs2.to_multiset().count(x) > 0);
        assert(evs2.contains(x));
        let j = choose|j: int| 0 <= j < evs2.len() && evs2[j] == x;
        assert(evs2.remove(j).to_multiset() =~= t.to_multiset());
        lemma_window_totals_permutation(t, evs2.remove(j), cutoff);
        lemma_window_totals_push(t, x, cutoff);
        lemma_window_totals_remove(evs2, j, cutoff);
    }
}

/// The addresses that hold a total are exactly those with an event in the
/// window, so the number of totals is the number of distinct participants.
pub proof fn lemma_window_totals_participants(evs: Seq<ScoreEvent>, cutoff: int)
    ensures
        window_totals(evs, cutoff).dom() == participants(evs, cutoff),
        window_totals(evs, cutoff).dom().finite(),
    decreases evs.len(),
{
    if evs.len() == 0 {
        reveal(Seq::filter);
        assert(window_totals(evs, cutoff).dom() =~= participants(evs, cutoff));
    } else {
        let t = evs.drop_last();
        let e = evs.last();
        lemma_window_totals_participants(t, cutoff);
        assert(t.push(e) =~= evs);
        lemma_qualifying_push(t, e, cutoff);
        if qualifies(e, cutoff) {
            assert(qualifying(evs, cutoff).drop_last() =~= qualifying(t, cutoff));
        }
        assert forall|a: Seq<char>|
            window_totals(evs, cutoff).dom().contains(a) <==> participants(evs, cutoff).contains(
                a,
            ) by {
            if participants(t, cutoff).contains(a) {
                let i = choose|i: int|
                    0 <= i < t.len() && t[i].address@ == a && qualifies(t[i], cutoff);
                assert(evs[i] == t[i]);
            }
            if participants(evs, cutoff).contains(a) {
                let i = choose|i: int|
                    0 <= i < evs.len() && evs[i].address@ == a && qualifies(evs[i], cutoff);
                if i < t.len() {
                    assert(evs[i] == t[i]);
                }
            }
        }
        assert(window_totals(evs, cutoff).dom() =~= participants(evs, cutoff));
    }
}

} // verus!
