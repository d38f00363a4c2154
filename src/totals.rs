use vstd::prelude::*;

verus! {

/// The summed experience of one address within one window.
#[derive(Debug)]
pub struct ParticipantTotal {
    pub address: String,
    pub total_experience: u128,
}

/// The mapping from address to total that a sequence of entries describes.
pub open spec fn totals_map(s: Seq<ParticipantTotal>) -> Map<Seq<char>, int>
    decreases s.len(),
{
    if s.len() == 0 {
        Map::empty()
    } else {
        totals_map(s.drop_last()).insert(s.last().address@, s.last().total_experience as int)
    }
}

pub open spec fn distinct_addresses(s: Seq<ParticipantTotal>) -> bool {
    forall|i: int, j: int|
        0 <= i < s.len() && 0 <= j < s.len() && i != j ==> s[i].address@ != s[j].address@
}

/// Adds `x` to the total of `a`, which starts from zero.
pub open spec fn add_experience(m: Map<Seq<char>, int>, a: Seq<char>, x: int) -> Map<
    Seq<char>,
    int,
> {
    m.insert(a, (if m.contains_key(a) { m[a] } else { 0 }) + x)
}

pub proof fn lemma_totals_map_index(s: Seq<ParticipantTotal>)
    requires
        distinct_addresses(s),
    ensures
        totals_map(s).dom().finite(),
        totals_map(s).dom().len() == s.len(),
        forall|k: Seq<char>|
            #[trigger] totals_map(s).contains_key(k) <==> exists|i: int|
                0 <= i < s.len() && s[i].address@ == k,
        forall|i: int|
            0 <= i < s.len() ==> #[trigger] totals_map(s)[s[i].address@]
                == s[i].total_experience as int,
    decreases s.len(),
{
    if s.len() > 0 {
        let t = s.drop_last();
        lemma_totals_map_index(t);
        assert(!totals_map(t).contains_key(s.last().address@)) by {
            if totals_map(t).contains_key(s.last().address@) {
                let i = choose|i: int| 0 <= i < t.len() && t[i].address@ == s.last().address@;
                assert(s[i].address@ == s[s.len() - 1].address@);
            }
        }
        assert forall|k: Seq<char>|
            #[trigger] totals_map(s).contains_key(k) implies exists|i: int|
                0 <= i < s.len() && s[i].address@ == k by {
            if k != s.last().address@ {
                let i = choose|i: int| 0 <= i < t.len() && t[i].address@ == k;
                assert(s[i].address@ == k);
            } else {
                assert(s[s.len() - 1].address@ == k);
            }
        }
        assert forall|i: int| 0 <= i < s.len() implies #[trigger] totals_map(s)[s[i].address@]
            == s[i].total_experience as int by {
            if i < s.len() - 1 {
                assert(t[i] == s[i]);
            }
        }
        assert forall|k: Seq<char>|
            (exists|i: int| 0 <= i < s.len() && s[i].address@ == k) implies #[trigger] totals_map(
            s,
        ).contains_key(k) by {
            let i = choose|i: int| 0 <= i < s.len() && s[i].address@ == k;
            if i < s.len() - 1 {
                assert(t[i] == s[i]);
            }
        }
    }
}

pub proof fn lemma_totals_map_update(s: Seq<ParticipantTotal>, i: int, p: ParticipantTotal)
    requires
        distinct_addresses(s),
        0 <= i < s.len(),
        s[i].address@ == p.address@,
    ensures
        distinct_addresses(s.update(i, p)),
        totals_map(s.update(i, p)) =~= totals_map(s).insert(
            p.address@,
            p.total_experience as int,
        ),
    decreases s.len(),
{
    let u = s.update(i, p);
    if i == s.len() - 1 {
        assert(u.drop_last() =~= s.drop_last());
    } else {
        let t = s.drop_last();
        assert(u.drop_last() =~= t.update(i, p));
        lemma_totals_map_update(t, i, p);
        assert(s.last().address@ != p.address@) by {
            assert(s[s.len() - 1].address@ != s[i].address@);
        }
    }
}

pub proof fn lemma_totals_map_remove(s: Seq<ParticipantTotal>, i: int)
    requires
        distinct_addresses(s),
        0 <= i < s.len(),
    ensures
        distinct_addresses(s.remove(i)),
        totals_map(s.remove(i)) =~= totals_map(s).remove(s[i].address@),
    decreases s.len(),
{
    let r = s.remove(i);
    assert forall|a: int, b: int|
        0 <= a < r.len() && 0 <= b < r.len() && a != b implies r[a].address@ != r[b].address@ by {
        let a2 = if a < i { a } else { a + 1 };
        let b2 = if b < i { b } else { b + 1 };
        assert(r[a] == s[a2] && r[b] == s[b2]);
    }
    if i == s.len() - 1 {
        assert(r =~= s.drop_last());
        lemma_totals_map_index(s.drop_last());
        assert(!totals_map(s.drop_last()).contains_key(s[i].address@)) by {
            if totals_map(s.drop_last()).contains_key(s[i].address@) {
                let j = choose|j: int|
                    0 <= j < s.drop_last().len() && s.drop_last()[j].address@ == s[i].address@;
                assert(s[j].address@ == s[i].address@);
            }
        }
    } else {
        let t = s.drop_last();
        assert(r.drop_last() =~= t.remove(i));
        assert(r.last() == s.last());
        lemma_totals_map_remove(t, i);
        assert(s.last().address@ != s[i].address@) by {
            assert(s[s.len() - 1].address@ != s[i].address@);
        }
    }
}

proof fn lemma_total_bound(n: int, t: int, x: int)
    requires
        0 <= n < 0x1_0000_0000_0000_0000,
        0 <= t <= n * 0xffff_ffff_ffff_ffff,
        0 <= x <= 0xffff_ffff_ffff_ffff,
    ensures
        t + x <= (n + 1) * 0xffff_ffff_ffff_ffff,
        n * 0xffff_ffff_ffff_ffff <= (n + 1) * 0xffff_ffff_ffff_ffff,
        (n + 1) * 0xffff_ffff_ffff_ffff <= u128::MAX,
{
    assert((n + 1) * 0xffff_ffff_ffff_ffff <= 0x1_0000_0000_0000_0000 * 0xffff_ffff_ffff_ffff)
        by (nonlinear_arith)
        requires
            0 <= n < 0x1_0000_0000_0000_0000,
    ;
}

/// Per-address experience totals, filled one event at a time.
///
/// Each address appears once; a total never exceeds the number of events added
/// times the largest experience value, so a 128-bit total cannot overflow.
pub struct ParticipantTotals {
    totals: Vec<ParticipantTotal>,
    events: u64,
}

impl View for ParticipantTotals {
    type V = Map<Seq<char>, int>;

    closed spec fn view(&self) -> Map<Seq<char>, int> {
        totals_map(self.totals@)
    }
}

impl ParticipantTotals {
    pub closed spec fn wf(&self) -> bool {
        &&& distinct_addresses(self.totals@)
        &&& forall|i: int|
            0 <= i < self.totals@.len() ==> #[trigger] self.totals@[i].total_experience
                <= self.events * 0xffff_ffff_ffff_ffff
    }

    /// How many events have been added so far.
    pub closed spec fn events_added(&self) -> int {
        self.events as int
    }

    pub fn new() -> (r: ParticipantTotals)
        ensures
            r.wf(),
            r@ == Map::<Seq<char>, int>::empty(),
            r.events_added() == 0,
    {
        ParticipantTotals { totals: Vec::new(), events: 0 }
    }

    /// Adds one event's experience to the total of its address.
    pub fn add(&mut self, address: &String, experience: u64)
        requires
            old(self).wf(),
            old(self).events_added() < u64::MAX,
        ensures
            final(self).wf(),
            final(self)@ == add_experience(old(self)@, address@, experience as int),
            final(self).events_added() == old(self).events_added() + 1,
    {
        proof {
            lemma_totals_map_index(self.totals@);
        }
        let mut i: usize = 0;
        while i < self.totals.len()
            invariant
                self == old(self),
                self.wf(),
                self.events == old(self).events,
                self.totals@ == old(self).totals@,
                self.events < u64::MAX,
                i <= self.totals@.len(),
                forall|j: int| 0 <= j < i ==> self.totals@[j].address@ != address@,
            decreases self.totals@.len() - i,
        {
            if self.totals[i].address == *address {
                let t = self.totals[i].total_experience;
                proof {
                    lemma_total_bound(self.events as int, t as int, experience as int);
                }
                let p = ParticipantTotal { address: address.clone(), total_experience: t
                    + experience as u128 };
                proof {
                    lemma_totals_map_index(self.totals@);
                    lemma_totals_map_update(self.totals@, i as int, p);
                    assert(totals_map(self.totals@)[self.totals@[i as int].address@] == t as int);
                    assert(totals_map(self.totals@).contains_key(address@));
                    assert forall|j: int| 0 <= j < self.totals@.len() implies #[trigger] self.totals@[j].total_experience
                        <= self.events * 0xffff_ffff_ffff_ffff by {}
                }
                self.totals.set(i, p);
                self.events = self.events + 1;
                proof {
                    assert forall|j: int| 0 <= j < self.totals@.len() implies #[trigger] self.totals@[j].total_experience
                        <= self.events * 0xffff_ffff_ffff_ffff by {
                        if j != i {
                            lemma_total_bound(old(self).events as int, old(self).totals@[j].total_experience as int, 0);
                        }
                    }
                }
                return;
            }
            i = i + 1;
        }
        proof {
            lemma_total_bound(self.events as int, 0, experience as int);
            lemma_totals_map_index(self.totals@);
        }
        let p = ParticipantTotal { address: address.clone(), total_experience: experience as u128 };
        let ghost before = self.totals@;
        self.totals.push(p);
        self.events = self.events + 1;
        proof {
            assert(self.totals@.drop_last() =~= before);
            assert forall|a: int, b: int|
                0 <= a < self.totals@.len() && 0 <= b < self.totals@.len() && a != b implies self.totals@[a].address@
                != self.totals@[b].address@ by {
                if a < before.len() && b < before.len() {
                    assert(before[a] == self.totals@[a] && before[b] == self.totals@[b]);
                }
            }
            assert forall|j: int| 0 <= j < self.totals@.len() implies #[trigger] self.totals@[j].total_experience
                <= self.events * 0xffff_ffff_ffff_ffff by {
                if j < before.len() {
                    lemma_total_bound(old(self).events as int, before[j].total_experience as int, 0);
                }
            }
        }
    }

    /// Gives up the entries, one per address, in no particular order.
    pub fn into_entries(self) -> (r: Vec<ParticipantTotal>)
        requires
            self.wf(),
        ensures
            distinct_addresses(r@),
            totals_map(r@) == self@,
    {
        self.totals
    }

    /// The entries, one per address, in no particular order.
    pub fn entries(&self) -> (r: &Vec<ParticipantTotal>)
        requires
            self.wf(),
        ensures
            distinct_addresses(r@),
            totals_map(r@) == self@,
    {
        &self.totals
    }
}

} // verus!
