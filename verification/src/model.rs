use vstd::prelude::*;
use std::collections::HashMap;

use crate::draw::Draw;
use crate::draw::key64;
use crate::draw::lemma_key64_injective;
use crate::topk::TopKEntry;
use crate::topk::distinct_draws;
use crate::topk::vs;

verus! {

broadcast use vstd::std_specs::hash::group_hash_axioms;

/// The most record calls a model accepts over its lifetime: far more
/// than a process can make, yet low enough that no counter can reach
/// the u64 limit.
pub const MAX_RECORDED: u64 = 1_000_000_000_000_000_000;

/// A map value read as 0 when the key is absent.
pub open spec fn lookup64(m: Map<u64, u64>, k: u64) -> int {
    if m.contains_key(k) {
        m[k] as int
    } else {
        0
    }
}

/// A map value read as 0 when the key is absent.
pub open spec fn lookup8(m: Map<u8, u64>, k: u8) -> int {
    if m.contains_key(k) {
        m[k] as int
    } else {
        0
    }
}

/// How often `v` occurs in `s`.
pub open spec fn count_in(s: Seq<u8>, v: u8) -> int
    decreases s.len(),
{
    if s.len() == 0 {
        0
    } else {
        count_in(s.drop_last(), v) + if s.last() == v {
            1int
        } else {
            0int
        }
    }
}

/// The sum of the counters of the listed draws.
pub open spec fn sum_counts(ds: Seq<Seq<u8>>, m: Map<u64, u64>) -> int
    decreases ds.len(),
{
    if ds.len() == 0 {
        0
    } else {
        sum_counts(ds.drop_last(), m) + lookup64(m, key64(ds.last()))
    }
}

proof fn lemma_sum_agree(ds: Seq<Seq<u8>>, m1: Map<u64, u64>, m2: Map<u64, u64>)
    requires
        forall|i: int|
            0 <= i < ds.len() ==> lookup64(m1, key64(#[trigger] ds[i])) == lookup64(
                m2,
                key64(ds[i]),
            ),
    ensures
        sum_counts(ds, m1) == sum_counts(ds, m2),
    decreases ds.len(),
{
    if ds.len() > 0 {
        assert(forall|i: int| 0 <= i < ds.len() - 1 ==> #[trigger] ds.drop_last()[i] == ds[i]);
        lemma_sum_agree(ds.drop_last(), m1, m2);
        assert(ds.last() == ds[ds.len() - 1]);
    }
}

proof fn lemma_sum_update(ds: Seq<Seq<u8>>, m: Map<u64, u64>, j: int, v: u64)
    requires
        0 <= j < ds.len(),
        forall|i: int| 0 <= i < ds.len() && i != j ==> key64(#[trigger] ds[i]) != key64(ds[j]),
    ensures
        sum_counts(ds, m.insert(key64(ds[j]), v)) == sum_counts(ds, m) - lookup64(
            m,
            key64(ds[j]),
        ) + v,
    decreases ds.len(),
{
    let k = key64(ds[j]);
    let m2 = m.insert(k, v);
    assert(forall|i: int| 0 <= i < ds.len() - 1 ==> #[trigger] ds.drop_last()[i] == ds[i]);
    assert(ds.last() == ds[ds.len() - 1]);
    if j == ds.len() - 1 {
        lemma_sum_agree(ds.drop_last(), m, m2);
        assert(lookup64(m2, key64(ds.last())) == v);
    } else {
        lemma_sum_update(ds.drop_last(), m, j, v);
        assert(key64(ds.last()) != k);
        assert(lookup64(m2, key64(ds.last())) == lookup64(m, key64(ds.last())));
    }
}

proof fn lemma_sum_push(ds: Seq<Seq<u8>>, m: Map<u64, u64>, d: Seq<u8>, c: u64)
    requires
        forall|i: int| 0 <= i < ds.len() ==> key64(#[trigger] ds[i]) != key64(d),
    ensures
        sum_counts(ds.push(d), m.insert(key64(d), c)) == sum_counts(ds, m) + c,
{
    let m2 = m.insert(key64(d), c);
    assert(ds.push(d).drop_last() =~= ds);
    assert(ds.push(d).last() == d);
    lemma_sum_agree(ds, m, m2);
    assert(lookup64(m2, key64(d)) == c);
}

/// The in-memory frequency model: how often each draw, and each
/// single number, has been recorded. The counter total equals the
/// number of record calls, and the sum of all draw counters equals
/// that total.
pub struct FrequencyModel {
    pub draw_counts: HashMap<u64, u64>,
    pub draws: Vec<Draw>,
    pub number_counts: HashMap<u8, u64>,
    pub total: u64,
}

impl FrequencyModel {
    /// The recorded draws, one entry per distinct draw, in first-seen
    /// order.
    pub open spec fn draws_seq(self) -> Seq<Seq<u8>> {
        self.draws@.map_values(|d: Draw| d@)
    }

    pub open spec fn total_spec(self) -> u64 {
        self.total
    }

    /// The occurrence counter of a draw, 0 when it was never
    /// recorded.
    pub open spec fn spec_count(self, s: Seq<u8>) -> u64 {
        if self.draw_counts@.contains_key(key64(s)) {
            self.draw_counts@[key64(s)]
        } else {
            0
        }
    }

    /// The occurrence counter of a single number, 0 when it was never
    /// recorded.
    pub open spec fn spec_number_count(self, v: u8) -> u64 {
        if self.number_counts@.contains_key(v) {
            self.number_counts@[v]
        } else {
            0
        }
    }

    /// The model's entries: each distinct recorded draw with its
    /// counter, in first-seen order.
    pub open spec fn entries_spec(self) -> Seq<(Seq<u8>, u64)> {
        Seq::new(self.draws_seq().len(), |i: int| (self.draws_seq()[i], self.spec_count(self.draws_seq()[i])))
    }

    pub open spec fn wf(self) -> bool {
        &&& forall|i: int| 0 <= i < self.draws@.len() ==> (#[trigger] self.draws@[i]@).len() == 7
        &&& forall|i: int, j: int|
            0 <= i < j < self.draws@.len() ==> (#[trigger] self.draws@[i]@) != (
            #[trigger] self.draws@[j]@)
        &&& forall|i: int|
            0 <= i < self.draws@.len() ==> self.draw_counts@.contains_key(
                key64(#[trigger] self.draws@[i]@),
            )
        &&& forall|k: u64| #[trigger]
            self.draw_counts@.contains_key(k) ==> exists|i: int|
                0 <= i < self.draws@.len() && key64(#[trigger] self.draws@[i]@) == k
        &&& forall|i: int|
            0 <= i < self.draws@.len() ==> 1 <= self.draw_counts@[key64(
                #[trigger] self.draws@[i]@,
            )] <= self.total
        &&& sum_counts(self.draws_seq(), self.draw_counts@) == self.total
        &&& self.total <= MAX_RECORDED
        &&& forall|v: u8| #[trigger]
            self.number_counts@.contains_key(v) ==> self.number_counts@[v] <= 7 * (
            self.total as int)
    }

    /// A fresh, empty model.
    pub fn new() -> (m: FrequencyModel)
        ensures
            m.wf(),
            m.total_spec() == 0,
            m.draws_seq().len() == 0,
            forall|s: Seq<u8>| m.spec_count(s) == 0,
            forall|v: u8| m.spec_number_count(v) == 0,
    {
        let m = FrequencyModel {
            draw_counts: HashMap::new(),
            draws: Vec::new(),
            number_counts: HashMap::new(),
            total: 0,
        };
        proof {
            assert(m.draws_seq() =~= Seq::<Seq<u8>>::empty());
        }
        m
    }

    pub fn total(&self) -> (t: u64)
        ensures
            t == self.total_spec(),
    {
        self.total
    }

    /// Records one draw: its own counter rises by one, and the
    /// counter of each number in it rises once per occurrence. The
    /// sum of all draw counters tracks the number of record calls.
    pub fn record(&mut self, d: &Draw)
        requires
            old(self).wf(),
            d.wf(),
            old(self).total_spec() < MAX_RECORDED,
        ensures
            final(self).wf(),
            final(self).total_spec() == old(self).total_spec() + 1,
            final(self).spec_count(d@) == old(self).spec_count(d@) + 1,
            forall|s: Seq<u8>|
                s.len() == 7 && s != d@ ==> final(self).spec_count(s) == old(self).spec_count(s),
            forall|v: u8|
                final(self).spec_number_count(v) == old(self).spec_number_count(v) + count_in(
                    d@,
                    v,
                ),
            sum_counts(final(self).draws_seq(), final(self).draw_counts@) == sum_counts(
                old(self).draws_seq(),
                old(self).draw_counts@,
            ) + 1,
            old(self).spec_count(d@) > 0 ==> final(self).draws_seq() == old(self).draws_seq(),
            old(self).spec_count(d@) == 0 ==> final(self).draws_seq() == old(
                self,
            ).draws_seq().push(d@),
    {
        let ghost olds = *old(self);
        let k: u64 = d.key();
        proof {
            // a different 7-number draw can never collide on the key
            assert forall|s: Seq<u8>| s.len() == 7 && s != d@ implies key64(s) != k by {
                if key64(s) == k {
                    lemma_key64_injective(s, d@);
                }
            }
        }
        let prev: Option<u64> = match self.draw_counts.get(&k) {
            Some(c) => Some(*c),
            None => None,
        };
        match prev {
            Some(c) => {
                proof {
                    let ds = olds.draws_seq();
                    let j = choose|j: int|
                        0 <= j < olds.draws@.len() && key64(olds.draws@[j]@) == k;
                    assert(ds[j] == olds.draws@[j]@);
                    lemma_key64_injective(olds.draws@[j]@, d@);
                    assert(ds[j] == d@);
                    assert(c == olds.draw_counts@[k]);
                    assert(c <= olds.total);
                    assert forall|i: int| 0 <= i < ds.len() && i != j implies key64(
                        #[trigger] ds[i],
                    ) != key64(ds[j]) by {
                        if key64(ds[i]) == key64(ds[j]) {
                            lemma_key64_injective(ds[i], ds[j]);
                        }
                    }
                    lemma_sum_update(ds, olds.draw_counts@, j, (c + 1) as u64);
                }
                self.draw_counts.insert(k, c + 1);
            },
            None => {
                proof {
                    let ds = olds.draws_seq();
                    assert forall|i: int| 0 <= i < ds.len() implies key64(#[trigger] ds[i])
                        != key64(d@) by {
                        assert(ds[i] == olds.draws@[i]@);
                        if key64(ds[i]) == key64(d@) {
                            lemma_key64_injective(ds[i], d@);
                            assert(olds.draw_counts@.contains_key(key64(olds.draws@[i]@)));
                        }
                    }
                    lemma_sum_push(ds, olds.draw_counts@, d@, 1);
                }
                self.draw_counts.insert(k, 1);
                self.draws.push(d.duplicate());
                proof {
                    assert(self.draws_seq() =~= olds.draws_seq().push(d@));
                }
            },
        }
        let ghost g_dc = self.draw_counts@;
        let ghost g_ds = self.draws@;
        let ghost g_nc = self.number_counts@;
        proof {
            assert(g_nc == olds.number_counts@);
            assert(sum_counts(self.draws_seq(), g_dc) == olds.total + 1);
            assert(forall|i: int| 0 <= i < g_ds.len() ==> (#[trigger] g_ds[i]@).len() == 7);
            assert forall|i: int, j: int| 0 <= i < j < g_ds.len() implies (#[trigger] g_ds[i]@)
                != (#[trigger] g_ds[j]@) by {
                if j == g_ds.len() - 1 && g_ds.len() > olds.draws@.len() {
                    assert(key64(olds.draws_seq()[i]) != key64(d@));
                    assert(olds.draws_seq()[i] == g_ds[i]@);
                }
            }
            assert(forall|i: int|
                0 <= i < g_ds.len() ==> g_dc.contains_key(key64(#[trigger] g_ds[i]@)));
            assert forall|k2: u64| #[trigger] g_dc.contains_key(k2) implies exists|i: int|
                0 <= i < g_ds.len() && key64(#[trigger] g_ds[i]@) == k2 by {
                if olds.draw_counts@.contains_key(k2) {
                    let i = choose|i: int|
                        0 <= i < olds.draws@.len() && key64(olds.draws@[i]@) == k2;
                    assert(key64(g_ds[i]@) == k2);
                } else {
                    assert(k2 == k);
                    let last = g_ds.len() - 1;
                    assert(key64(g_ds[last]@) == k2);
                }
            }
            assert(forall|i: int|
                0 <= i < g_ds.len() ==> 1 <= g_dc[key64(#[trigger] g_ds[i]@)] <= olds.total
                    + 1);
            assert(self.spec_count(d@) == olds.spec_count(d@) + 1);
            assert(forall|s: Seq<u8>|
                s.len() == 7 && s != d@ ==> self.spec_count(s) == olds.spec_count(s));
        }
        let ghost g_count_new = self.spec_count(d@);
        let mut idx: usize = 0;
        while idx < 7
            invariant
                0 <= idx <= 7,
                d@.len() == 7,
                olds.total < MAX_RECORDED,
                self.draw_counts@ == g_dc,
                self.draws@ == g_ds,
                self.total == olds.total,
                forall|v: u8|
                    #[trigger] lookup8(self.number_counts@, v) == lookup8(g_nc, v) + count_in(
                        d@.take(idx as int),
                        v,
                    ),
                forall|v: u8| #[trigger]
                    g_nc.contains_key(v) ==> g_nc[v] <= 7 * (olds.total as int),
                forall|v: u8| #[trigger]
                    self.number_counts@.contains_key(v) ==> self.number_counts@[v] <= 7 * (
                    olds.total as int) + idx,
            decreases 7 - idx,
        {
            let v: u8 = d.numbers[idx];
            let cur: u64 = match self.number_counts.get(&v) {
                Some(c) => *c,
                None => 0,
            };
            proof {
                assert(cur <= 7 * (olds.total as int) + idx);
                assert(7 * (olds.total as int) + idx + 1 < u64::MAX);
            }
            let ghost nc_before = self.number_counts@;
            self.number_counts.insert(v, cur + 1);
            proof {
                assert(vstd::std_specs::hash::obeys_key_model::<u8>());
                assert(vstd::std_specs::hash::builds_valid_hashers::<
                    std::collections::hash_map::RandomState,
                >());
                assert(self.number_counts@ == nc_before.insert(v, (cur + 1) as u64));
                assert(cur as int == lookup8(nc_before, v));
                assert(d@.take(idx as int + 1).drop_last() =~= d@.take(idx as int));
                assert(d@.take(idx as int + 1).last() == d@[idx as int]);
                assert(d@[idx as int] == v);
                assert forall|w: u8| #[trigger]
                    count_in(d@.take(idx as int + 1), w) == count_in(d@.take(idx as int), w)
                    + (if w == v {
                    1int
                } else {
                    0int
                }) by {
                    let t1 = d@.take(idx as int + 1);
                    assert(t1.len() == idx + 1);
                    assert(count_in(t1, w) == count_in(t1.drop_last(), w) + (if t1.last() == w {
                        1int
                    } else {
                        0int
                    }));
                    assert(count_in(t1.drop_last(), w) == count_in(d@.take(idx as int), w));
                }
                assert forall|w: u8|
                    #[trigger] lookup8(self.number_counts@, w) == lookup8(g_nc, w) + count_in(
                        d@.take(idx as int + 1),
                        w,
                    ) by {
                    assert(lookup8(nc_before, w) == lookup8(g_nc, w) + count_in(
                        d@.take(idx as int),
                        w,
                    ));
                    if w == v {
                        assert(count_in(d@.take(idx as int + 1), w) == count_in(
                            d@.take(idx as int),
                            w,
                        ) + 1);
                        assert(lookup8(self.number_counts@, w) == cur + 1);
                    } else {
                        assert(count_in(d@.take(idx as int + 1), w) == count_in(
                            d@.take(idx as int),
                            w,
                        ));
                        assert(lookup8(self.number_counts@, w) == lookup8(nc_before, w));
                    }
                }
            }
            idx += 1;
        }
        proof {
            assert(d@.take(7) =~= d@);
        }
        self.total = self.total + 1;
        proof {
            assert(self.draws@ == g_ds && self.draw_counts@ == g_dc);
            assert(self.total == olds.total + 1);
            assert(sum_counts(self.draws_seq(), self.draw_counts@) == self.total);
            assert forall|v: u8| #[trigger] self.number_counts@.contains_key(v)
                implies self.number_counts@[v] <= 7 * (self.total as int) by {
                assert(self.number_counts@[v] <= 7 * (olds.total as int) + 7);
            }
            assert(self.wf());
            assert forall|v: u8| #[trigger]
                self.spec_number_count(v) == olds.spec_number_count(v) + count_in(d@, v) by {
                assert(lookup8(self.number_counts@, v) == lookup8(g_nc, v) + count_in(
                    d@.take(7),
                    v,
                ));
                assert(d@.take(7) == d@);
                assert(lookup8(self.number_counts@, v) == self.spec_number_count(v));
                assert(lookup8(g_nc, v) == olds.spec_number_count(v));
            }
            assert(self.spec_count(d@) == g_count_new);
            assert(final(self).draws_seq() == self.draws_seq());
        }
    }

    /// Hands out the model's entries as an explicit list, in
    /// first-seen order, for the selectors to read.
    pub fn entries(&self) -> (r: Vec<TopKEntry>)
        requires
            self.wf(),
        ensures
            vs(r@) == self.entries_spec(),
            r@.len() == self.draws_seq().len(),
            distinct_draws(vs(r@)),
    {
        let mut r: Vec<TopKEntry> = Vec::new();
        let mut i: usize = 0;
        while i < self.draws.len()
            invariant
                0 <= i <= self.draws@.len(),
                self.wf(),
                r@.len() == i,
                forall|j: int|
                    0 <= j < i ==> (#[trigger] vs(r@)[j]) == (
                        self.draws_seq()[j],
                        self.spec_count(self.draws_seq()[j]),
                    ),
            decreases self.draws@.len() - i,
        {
            let dref = &self.draws[i];
            proof {
                assert(dref@.len() == 7);
            }
            let k = dref.key();
            let c: u64 = match self.draw_counts.get(&k) {
                Some(c) => *c,
                None => 0,
            };
            proof {
                assert(self.draw_counts@.contains_key(k));
                assert(c == self.spec_count(self.draws_seq()[i as int]));
            }
            let ghost oldr = r@;
            let e = TopKEntry { draw: dref.duplicate(), count: c };
            proof {
                assert(e@ == (self.draws_seq()[i as int], self.spec_count(
                    self.draws_seq()[i as int],
                )));
            }
            r.push(e);
            proof {
                assert forall|j: int| 0 <= j < i + 1 implies (#[trigger] vs(r@)[j]) == (
                    self.draws_seq()[j],
                    self.spec_count(self.draws_seq()[j]),
                ) by {
                    if j < i {
                        assert(r@[j] == oldr[j]);
                        assert(vs(r@)[j] == vs(oldr)[j]);
                    } else {
                        assert(r@[j] == e);
                    }
                }
            }
            i += 1;
        }
        proof {
            assert(vs(r@) =~= self.entries_spec());
            assert forall|x: int, y: int| 0 <= x < y < vs(r@).len() implies (
            #[trigger] vs(r@)[x]).0 != (#[trigger] vs(r@)[y]).0 by {
                assert(vs(r@)[x].0 == self.draws@[x]@);
                assert(vs(r@)[y].0 == self.draws@[y]@);
            }
        }
        r
    }
}

} // verus!
