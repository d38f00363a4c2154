use vstd::prelude::*;

use crate::order::{lemma_precedes_order, precedes, precedes_exec};
use crate::totals::{
    distinct_addresses, lemma_totals_map_index, lemma_totals_map_remove, totals_map,
    ParticipantTotal, ParticipantTotals,
};

verus! {

/// One row of a leaderboard: an address, its total and its 1-based position.
#[derive(Debug)]
pub struct RankedEntry {
    pub address: String,
    pub total_experience: u128,
    pub rank: usize,
}

/// The result for one window: the leaders, how many took part, and where the
/// queried address stands, if it took part at all.
#[derive(Debug)]
pub struct LeaderboardSnapshot {
    pub top_entries: Vec<RankedEntry>,
    pub total_participants: usize,
    pub queried_address_rank: Option<usize>,
}

/// The mathematical content of a `LeaderboardSnapshot`.
pub struct SnapshotView {
    pub top: Seq<(Seq<char>, int, int)>,
    pub total: int,
    pub rank: Option<int>,
}

/// How many leaders a snapshot lists.
pub const TOP_COUNT: usize = 3;

impl View for RankedEntry {
    type V = (Seq<char>, int, int);

    open spec fn view(&self) -> (Seq<char>, int, int) {
        (self.address@, self.total_experience as int, self.rank as int)
    }
}

impl View for LeaderboardSnapshot {
    type V = SnapshotView;

    open spec fn view(&self) -> SnapshotView {
        SnapshotView {
            top: self.top_entries@.map_values(|e: RankedEntry| e@),
            total: self.total_participants as int,
            rank: match self.queried_address_rank {
                Some(r) => Some(r as int),
                None => None,
            },
        }
    }
}

/// `k` comes before every other address of `m` in the leaderboard order.
pub open spec fn is_least(m: Map<Seq<char>, int>, k: Seq<char>) -> bool {
    &&& m.contains_key(k)
    &&& forall|b: Seq<char>| #[trigger]
        m.contains_key(b) && b != k ==> precedes(k, m[k], b, m[b])
}

/// The leaderboard order of a totals mapping: the least entry, then the order
/// of the rest.
pub open spec fn ordering(m: Map<Seq<char>, int>) -> Seq<(Seq<char>, int)>
    decreases m.dom().len(),
{
    if m.dom().finite() && exists|k: Seq<char>| is_least(m, k) {
        let k = choose|k: Seq<char>| is_least(m, k);
        seq![(k, m[k])] + ordering(m.remove(k))
    } else {
        seq![]
    }
}

/// The 0-based position of `a` in `o`.
pub open spec fn position(o: Seq<(Seq<char>, int)>, a: Seq<char>) -> int {
    choose|i: int| 0 <= i < o.len() && o[i].0 == a
}

pub open spec fn min_int(a: int, b: int) -> int {
    if a <= b {
        a
    } else {
        b
    }
}

/// The snapshot that ranking the totals `m` for the address `a` must give.
pub open spec fn snapshot_of(m: Map<Seq<char>, int>, a: Seq<char>) -> SnapshotView {
    let o = ordering(m);
    SnapshotView {
        top: o.take(min_int(TOP_COUNT as int, o.len() as int)).map(
            |i: int, p: (Seq<char>, int)| (p.0, p.1, i + 1),
        ),
        total: m.dom().len() as int,
        rank: if m.contains_key(a) {
            Some(position(o, a) + 1)
        } else {
            None
        },
    }
}

/// Every entry of the ordering is an entry of the mapping, and no address
/// appears twice.
pub proof fn lemma_ordering_entries(m: Map<Seq<char>, int>)
    ensures
        forall|i: int|
            0 <= i < ordering(m).len() ==> m.contains_key(#[trigger] ordering(m)[i].0)
                && ordering(m)[i].1 == m[ordering(m)[i].0],
        forall|i: int, j: int|
            0 <= i < ordering(m).len() && 0 <= j < ordering(m).len() && i != j ==> ordering(
                m,
            )[i].0 != ordering(m)[j].0,
    decreases m.dom().len(),
{
    if m.dom().finite() && exists|k: Seq<char>| is_least(m, k) {
        let k = choose|k: Seq<char>| is_least(m, k);
        let r = m.remove(k);
        assert(r.dom() =~= m.dom().remove(k));
        lemma_ordering_entries(r);
        let o = ordering(m);
        assert(o == seq![(k, m[k])] + ordering(r));
        assert forall|i: int| 0 <= i < o.len() implies m.contains_key(#[trigger] o[i].0) && o[i].1
            == m[o[i].0] by {
            if i > 0 {
                assert(o[i] == ordering(r)[i - 1]);
            }
        }
        assert forall|i: int, j: int|
            0 <= i < o.len() && 0 <= j < o.len() && i != j implies o[i].0 != o[j].0 by {
            if i > 0 {
                assert(o[i] == ordering(r)[i - 1]);
            }
            if j > 0 {
                assert(o[j] == ordering(r)[j - 1]);
            }
        }
    }
}

/// The ordering is strictly increasing in the leaderboard order: more
/// experience first, and on equal experience the smaller address first.
pub proof fn lemma_ordering_sorted(m: Map<Seq<char>, int>)
    ensures
        forall|i: int, j: int|
            0 <= i < j < ordering(m).len() ==> precedes(
                #[trigger] ordering(m)[i].0,
                ordering(m)[i].1,
                #[trigger] ordering(m)[j].0,
                ordering(m)[j].1,
            ),
    decreases m.dom().len(),
{
    if m.dom().finite() && exists|k: Seq<char>| is_least(m, k) {
        let k = choose|k: Seq<char>| is_least(m, k);
        let r = m.remove(k);
        assert(r.dom() =~= m.dom().remove(k));
        lemma_ordering_sorted(r);
        lemma_ordering_entries(r);
        let o = ordering(m);
        assert(o == seq![(k, m[k])] + ordering(r));
        assert forall|i: int, j: int| 0 <= i < j < o.len() implies precedes(
            #[trigger] o[i].0,
            o[i].1,
            #[trigger] o[j].0,
            o[j].1,
        ) by {
            assert(o[j] == ordering(r)[j - 1]);
            if i > 0 {
                assert(o[i] == ordering(r)[i - 1]);
            } else {
                assert(r.contains_key(o[j].0));
                assert(m.contains_key(o[j].0) && o[j].0 != k);
            }
        }
    }
}

/// A finite, non-empty totals mapping has a least address.
pub proof fn lemma_least_exists(m: Map<Seq<char>, int>)
    requires
        m.dom().finite(),
        m.dom().len() > 0,
    ensures
        exists|k: Seq<char>| is_least(m, k),
    decreases m.dom().len(),
{
    lemma_precedes_order();
    let k0 = m.dom().choose();
    let r = m.remove(k0);
    assert(r.dom() =~= m.dom().remove(k0));
    if r.dom().len() == 0 {
        assert forall|b: Seq<char>| #[trigger] m.contains_key(b) && b != k0 implies precedes(
            k0,
            m[k0],
            b,
            m[b],
        ) by {
            assert(r.dom().contains(b));
        }
        assert(is_least(m, k0));
    } else {
        lemma_least_exists(r);
        let k1 = choose|k: Seq<char>| is_least(r, k);
        if precedes(k0, m[k0], k1, m[k1]) {
            assert forall|b: Seq<char>| #[trigger] m.contains_key(b) && b != k0 implies precedes(
                k0,
                m[k0],
                b,
                m[b],
            ) by {
                if b != k1 {
                    assert(r.contains_key(b));
                }
            }
            assert(is_least(m, k0));
        } else {
            assert forall|b: Seq<char>| #[trigger] m.contains_key(b) && b != k1 implies precedes(
                k1,
                m[k1],
                b,
                m[b],
            ) by {
                if b != k0 {
                    assert(r.contains_key(b));
                }
            }
            assert(is_least(m, k1));
        }
    }
}

/// The ordering of a finite mapping lists every address.
pub proof fn lemma_ordering_len(m: Map<Seq<char>, int>)
    requires
        m.dom().finite(),
    ensures
        ordering(m).len() == m.dom().len(),
    decreases m.dom().len(),
{
    if m.dom().len() == 0 {
        assert(!exists|k: Seq<char>| is_least(m, k)) by {
            if exists|k: Seq<char>| is_least(m, k) {
                let k = choose|k: Seq<char>| is_least(m, k);
                assert(m.dom().contains(k));
            }
        }
    } else {
        lemma_least_exists(m);
        let k = choose|k: Seq<char>| is_least(m, k);
        let r = m.remove(k);
        assert(r.dom() =~= m.dom().remove(k));
        lemma_ordering_len(r);
    }
}

/// Taking the least entry out of a list of totals.
proof fn lemma_ordering_step(s: Seq<ParticipantTotal>, best: int)
    requires
        distinct_addresses(s),
        0 <= best < s.len(),
        forall|t: int|
            0 <= t < s.len() && t != best ==> precedes(
                s[best].address@,
                s[best].total_experience as int,
                #[trigger] s[t].address@,
                s[t].total_experience as int,
            ),
    ensures
        ordering(totals_map(s)) == seq![
            (s[best].address@, s[best].total_experience as int),
        ] + ordering(totals_map(s.remove(best))),
        totals_map(s.remove(best)) == totals_map(s).remove(s[best].address@),
        distinct_addresses(s.remove(best)),
{
    let m = totals_map(s);
    let x = s[best].address@;
    lemma_totals_map_index(s);
    lemma_totals_map_remove(s, best);
    lemma_precedes_order();
    assert(is_least(m, x)) by {
        assert forall|b: Seq<char>| #[trigger] m.contains_key(b) && b != x implies precedes(
            x,
            m[x],
            b,
            m[b],
        ) by {
            let t = choose|t: int| 0 <= t < s.len() && s[t].address@ == b;
            assert(m[s[t].address@] == s[t].total_experience as int);
        }
    }
    let k = choose|k: Seq<char>| is_least(m, k);
    assert(k == x) by {
        if k != x {
            assert(precedes(k, m[k], x, m[x]));
            assert(precedes(x, m[x], k, m[k]));
        }
    }
}

/// Ranks the totals: the first `TOP_COUNT` entries of the leaderboard order,
/// the number of participants, and the 1-based position of `address`.
pub fn rank_participants(totals: ParticipantTotals, address: &String) -> (r: LeaderboardSnapshot)
    requires
        totals.wf(),
    ensures
        r@ == snapshot_of(totals@, address@),
        r.top_entries@.len() == min_int(TOP_COUNT as int, r.total_participants as int),
{
    let ghost m = totals@;
    let mut remaining = totals.into_entries();
    proof {
        lemma_totals_map_index(remaining@);
    }
    let n = remaining.len();
    let mut top: Vec<RankedEntry> = Vec::new();
    let mut placed: usize = 0;
    let mut found: Option<usize> = None;
    let ghost mut prefix: Seq<(Seq<char>, int)> = seq![];
    assert(prefix + ordering(totals_map(remaining@)) =~= ordering(m));
    while remaining.len() > 0 && (top.len() < TOP_COUNT || found.is_none())
        invariant
            distinct_addresses(remaining@),
            placed + remaining@.len() == n,
            n == m.dom().len(),
            placed == prefix.len(),
            ordering(m) == prefix + ordering(totals_map(remaining@)),
            forall|i: int|
                0 <= i < prefix.len() ==> m.contains_key(#[trigger] prefix[i].0)
                    && !totals_map(remaining@).contains_key(prefix[i].0),
            forall|i: int, j: int|
                0 <= i < prefix.len() && 0 <= j < prefix.len() && i != j ==> prefix[i].0
                    != prefix[j].0,
            forall|k: Seq<char>|
                #[trigger] m.contains_key(k) ==> totals_map(remaining@).contains_key(k) || exists|
                    i: int,
                | 0 <= i < prefix.len() && prefix[i].0 == k,
            forall|k: Seq<char>| #[trigger]
                totals_map(remaining@).contains_key(k) ==> m.contains_key(k),
            top@.len() == min_int(TOP_COUNT as int, placed as int),
            forall|i: int|
                0 <= i < top@.len() ==> #[trigger] top@[i]@ == (prefix[i].0, prefix[i].1, i + 1),
            match found {
                Some(p) => 1 <= p <= placed && prefix[p - 1].0 == address@,
                None => forall|i: int| 0 <= i < prefix.len() ==> prefix[i].0 != address@,
            },
        decreases remaining@.len(),
    {
        let mut best: usize = 0;
        let mut j: usize = 1;
        proof {
            lemma_precedes_order();
        }
        while j < remaining.len()
            invariant
                1 <= j <= remaining@.len(),
                best < j,
                forall|t: int|
                    0 <= t < j && t != best ==> precedes(
                        remaining@[best as int].address@,
                        remaining@[best as int].total_experience as int,
                        #[trigger] remaining@[t].address@,
                        remaining@[t].total_experience as int,
                    ),
                forall|a: Seq<char>, ta: int, b: Seq<char>, tb: int, c: Seq<char>, tc: int|
                    #[trigger] precedes(a, ta, b, tb) && #[trigger] precedes(b, tb, c, tc)
                        ==> precedes(a, ta, c, tc),
                forall|a: Seq<char>, ta: int, b: Seq<char>, tb: int|
                    a != b ==> #[trigger] precedes(a, ta, b, tb) || #[trigger] precedes(
                        b,
                        tb,
                        a,
                        ta,
                    ),
                distinct_addresses(remaining@),
            decreases remaining@.len() - j,
        {
            if precedes_exec(
                &remaining[j].address,
                remaining[j].total_experience,
                &remaining[best].address,
                remaining[best].total_experience,
            ) {
                best = j;
            } else {
                assert(remaining@[j as int].address@ != remaining@[best as int].address@);
            }
            j = j + 1;
        }
        let ghost before = remaining@;
        proof {
            lemma_ordering_step(before, best as int);
            lemma_totals_map_index(before);
        }
        let x = remaining.remove(best);
        placed = placed + 1;
        let ghost entry = (x.address@, x.total_experience as int);
        proof {
            let rm = totals_map(before);
            assert(rm.contains_key(x.address@));
            assert(prefix.push(entry) + ordering(totals_map(remaining@)) =~= prefix + ordering(
                rm,
            ));
            let ghost old_prefix = prefix;
            prefix = prefix.push(entry);
            assert forall|k: Seq<char>| #[trigger] m.contains_key(k) implies totals_map(
                remaining@,
            ).contains_key(k) || exists|i: int| 0 <= i < prefix.len() && prefix[i].0 == k by {
                if !totals_map(remaining@).contains_key(k) {
                    if k == x.address@ {
                        assert(prefix[prefix.len() - 1].0 == k);
                    } else {
                        assert(!rm.contains_key(k));
                        let i = choose|i: int| 0 <= i < old_prefix.len() && old_prefix[i].0 == k;
                        assert(prefix[i] == old_prefix[i]);
                    }
                }
            }
        }
        if found.is_none() && x.address == *address {
            found = Some(placed);
        }
        if top.len() < TOP_COUNT {
            top.push(RankedEntry { address: x.address, total_experience: x.total_experience, rank: placed });
        }
    }
    proof {
        lemma_ordering_entries(m);
        let o = ordering(m);
        if remaining@.len() == 0 {
            assert(totals_map(remaining@) =~= Map::<Seq<char>, int>::empty());
            assert(ordering(totals_map(remaining@)) =~= seq![]);
            assert(o =~= prefix);
        }
        assert(top@.map_values(|e: RankedEntry| e@) =~= o.take(min_int(TOP_COUNT as int, o.len() as int)).map(
            |i: int, p: (Seq<char>, int)| (p.0, p.1, i + 1),
        )) by {
            assert(o.len() >= prefix.len());
            assert forall|i: int| 0 <= i < top@.len() implies o[i] == prefix[i] by {}
        }
        match found {
            Some(p) => {
                assert(o[p - 1].0 == address@);
                let q = position(o, address@);
                assert(q == p - 1) by {
                    if q >= prefix.len() {
                        assert(o[q] == ordering(totals_map(remaining@))[q - prefix.len()]);
                        lemma_ordering_entries(totals_map(remaining@));
                    } else {
                        assert(o[q] == prefix[q]);
                    }
                }
            },
            None => {
                assert(!m.contains_key(address@));
            },
        }
    }
    LeaderboardSnapshot { top_entries: top, total_participants: n, queried_address_rank: found }
}

} // verus!
