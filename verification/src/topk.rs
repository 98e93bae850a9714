use vstd::prelude::*;
use vstd::set_lib::lemma_len_subset;
use vstd::set_lib::lemma_subset_equality;
use rayon::iter::IntoParallelRefIterator;
use rayon::iter::ParallelIterator;

use crate::draw::Draw;

verus! {

broadcast use vstd::seq_lib::seq_to_set_is_finite;

/// One top-K entry: a draw together with its occurrence count at the
/// time of selection.
pub struct TopKEntry {
    pub draw: Draw,
    pub count: u64,
}

impl View for TopKEntry {
    type V = (Seq<u8>, u64);

    open spec fn view(&self) -> (Seq<u8>, u64) {
        (self.draw@, self.count)
    }
}

impl TopKEntry {
    pub fn duplicate(&self) -> (e: TopKEntry)
        ensures
            e@ == self@,
    {
        TopKEntry { draw: self.draw.duplicate(), count: self.count }
    }
}

/// The entries of a list, as (draw, count) pairs.
pub open spec fn vs(s: Seq<TopKEntry>) -> Seq<(Seq<u8>, u64)> {
    s.map_values(|e: TopKEntry| e@)
}

/// No two entries speak of the same draw.
pub open spec fn distinct_draws(p: Seq<(Seq<u8>, u64)>) -> bool {
    forall|i: int, j: int| 0 <= i < j < p.len() ==> (#[trigger] p[i]).0 != (#[trigger] p[j]).0
}

/// Counts never increase along the list.
pub open spec fn sorted_desc(p: Seq<(Seq<u8>, u64)>) -> bool {
    forall|i: int, j: int| 0 <= i < j < p.len() ==> (#[trigger] p[i]).1 >= (#[trigger] p[j]).1
}

pub open spec fn min_len(k: int, n: int) -> int {
    if k <= n {
        k
    } else {
        n
    }
}

/// `r` is a top-k selection from the entries `e`: a set of entries of
/// `e`, sorted by count descending, as long as `e` allows up to `k`,
/// such that no entry left out has a count above any entry kept.
/// Which entry is kept among equal counts at the boundary is not
/// fixed.
pub open spec fn topk_sel(e: Seq<(Seq<u8>, u64)>, r: Seq<(Seq<u8>, u64)>, k: int) -> bool {
    &&& r.to_set().subset_of(e.to_set())
    &&& distinct_draws(r)
    &&& sorted_desc(r)
    &&& r.len() == min_len(k, e.len() as int)
    &&& forall|x: (Seq<u8>, u64), y: (Seq<u8>, u64)|
        #![trigger e.contains(x), r.contains(y)]
        e.contains(x) && !r.contains(x) && r.contains(y) ==> x.1 <= y.1
}

/// Distinct draws make the pairs themselves distinct.
proof fn lemma_distinct_no_dup(p: Seq<(Seq<u8>, u64)>)
    requires
        distinct_draws(p),
    ensures
        p.no_duplicates(),
        p.to_set().len() == p.len(),
{
    p.unique_seq_to_set();
}

/// Inserts an entry into a count-descending list at its sorted
/// position.
fn insert_by_count(acc: &mut Vec<TopKEntry>, e: TopKEntry)
    requires
        sorted_desc(vs(old(acc)@)),
        distinct_draws(vs(old(acc)@)),
        forall|j: int| 0 <= j < old(acc)@.len() ==> (#[trigger] vs(old(acc)@)[j]).0 != e@.0,
        old(acc)@.len() < usize::MAX,
    ensures
        final(acc)@.len() == old(acc)@.len() + 1,
        sorted_desc(vs(final(acc)@)),
        distinct_draws(vs(final(acc)@)),
        forall|x: (Seq<u8>, u64)| #[trigger]
            vs(final(acc)@).contains(x) <==> (vs(old(acc)@).contains(x) || x == e@),
{
    let ghost orig = vs(old(acc)@);
    let mut p: usize = 0;
    while p < acc.len() && e.count < acc[p].count
        invariant
            0 <= p <= acc@.len(),
            acc@ == old(acc)@,
            forall|i: int| 0 <= i < p ==> (#[trigger] vs(acc@)[i]).1 > e@.1,
        decreases acc@.len() - p,
    {
        p += 1;
    }
    assert(forall|i: int| p <= i < orig.len() ==> (#[trigger] orig[i]).1 <= e@.1) by {
        assert forall|i: int| p <= i < orig.len() implies (#[trigger] orig[i]).1 <= e@.1 by {
            if i > p {
                assert(orig[p as int].1 >= orig[i].1);
            }
        }
    }
    acc.insert(p, e);
    let ghost now = vs(acc@);
    assert(acc@ == old(acc)@.insert(p as int, e));
    assert(now.len() == orig.len() + 1);
    assert(now[p as int] == e@);
    assert forall|i: int| 0 <= i < p implies #[trigger] now[i] == orig[i] by {
        assert(acc@[i] == old(acc)@[i]);
    }
    assert forall|i: int| p < i < now.len() implies #[trigger] now[i] == orig[i - 1] by {
        assert(acc@[i] == old(acc)@[i - 1]);
    }
    assert(sorted_desc(now)) by {
        assert forall|i: int, j: int| 0 <= i < j < now.len() implies (#[trigger] now[i]).1
            >= (#[trigger] now[j]).1 by {
            if j < p {
            } else if i < p && j == p {
                assert(now[i] == orig[i] && orig[i].1 > e@.1);
            } else if i < p && j > p {
                assert(now[i] == orig[i] && now[j] == orig[j - 1]);
                assert(orig[i].1 > e@.1 && orig[j - 1].1 <= e@.1);
            } else if i == p && j > p {
                assert(now[j] == orig[j - 1] && orig[j - 1].1 <= e@.1);
            } else {
                assert(now[i] == orig[i - 1] && now[j] == orig[j - 1]);
            }
        }
    }
    assert forall|x: (Seq<u8>, u64)| #[trigger]
        now.contains(x) <==> (orig.contains(x) || x == e@) by {
        if orig.contains(x) {
            let i = choose|i: int| 0 <= i < orig.len() && orig[i] == x;
            if i < p {
                assert(now[i] == x);
            } else {
                assert(now[i + 1] == x);
            }
            assert(now.contains(x));
        }
        if x == e@ {
            assert(now[p as int] == x);
            assert(now.contains(x));
        }
        if now.contains(x) {
            let i = choose|i: int| 0 <= i < now.len() && now[i] == x;
            if i < p {
                assert(orig[i] == x);
                assert(orig.contains(x));
            } else if i == p {
                assert(x == e@);
            } else {
                assert(orig[i - 1] == x);
                assert(orig.contains(x));
            }
        }
    }
    assert(distinct_draws(now)) by {
        assert forall|i: int, j: int| 0 <= i < j < now.len() implies (#[trigger] now[i]).0
            != (#[trigger] now[j]).0 by {
            if j < p {
            } else if i < p && j == p {
                assert(now[i] == orig[i]);
            } else if i < p && j > p {
                assert(now[i] == orig[i] && now[j] == orig[j - 1]);
            } else if i == p && j > p {
                assert(now[j] == orig[j - 1]);
            } else {
                assert(now[i] == orig[i - 1] && now[j] == orig[j - 1]);
            }
        }
    }
}

/// Selects the k highest-count entries by one pass over the entries,
/// keeping a bounded candidate list: insert while there is room, else
/// evict the current minimum only for a strictly greater count.
pub fn select_top_k(entries: &Vec<TopKEntry>, k: usize) -> (r: Vec<TopKEntry>)
    requires
        distinct_draws(vs(entries@)),
    ensures
        topk_sel(vs(entries@), vs(r@), k as int),
{
    let ghost ev = vs(entries@);
    let mut acc: Vec<TopKEntry> = Vec::new();
    let mut i: usize = 0;
    proof {
        assert(ev.take(0) =~= Seq::<(Seq<u8>, u64)>::empty());
        assert(vs(acc@) =~= Seq::<(Seq<u8>, u64)>::empty());
    }
    while i < entries.len()
        invariant
            0 <= i <= entries@.len(),
            ev == vs(entries@),
            distinct_draws(ev),
            topk_sel(ev.take(i as int), vs(acc@), k as int),
            acc@.len() <= k,
        decreases entries@.len() - i,
    {
        let ghost pre = ev.take(i as int);
        let ghost post = ev.take(i as int + 1);
        let ghost av = vs(acc@);
        proof {
            assert(post =~= pre.push(ev[i as int]));
            pre.lemma_push_to_set_commute(ev[i as int]);
            assert(post.to_set() =~= pre.to_set().insert(ev[i as int]));
            // every candidate pair is an earlier entry, so its draw
            // differs from the draw of entry i
            assert forall|j: int| 0 <= j < av.len() implies (#[trigger] av[j]).0
                != ev[i as int].0 by {
                assert(av.to_set().contains(av[j]));
                assert(pre.to_set().contains(av[j]));
                assert(pre.contains(av[j]));
                let jj = choose|jj: int| 0 <= jj < pre.len() && pre[jj] == av[j];
                assert(ev[jj] == av[j]);
            }
        }
        let e = entries[i].duplicate();
        assert(e@ == ev[i as int]);
        if acc.len() < k {
            proof {
                // nothing has been left out yet: the candidate set is
                // the whole prefix
                lemma_distinct_no_dup(av);
                lemma_distinct_no_dup(pre);
                if av.len() < pre.len() {
                    lemma_len_subset(av.to_set(), pre.to_set());
                    assert(false);
                }
                assert(av.to_set() =~= pre.to_set()) by {
                    lemma_len_subset(av.to_set(), pre.to_set());
                    vstd::set_lib::lemma_subset_equality(av.to_set(), pre.to_set());
                }
            }
            insert_by_count(&mut acc, e);
            proof {
                let nv = vs(acc@);
                assert(nv.to_set() =~= post.to_set()) by {
                    assert forall|x: (Seq<u8>, u64)| nv.to_set().contains(x)
                        <==> post.to_set().contains(x) by {
                        assert(nv.contains(x) <==> (av.contains(x) || x == ev[i as int]));
                        assert(av.contains(x) <==> av.to_set().contains(x));
                        assert(post.to_set().contains(x) <==> (pre.to_set().contains(x) || x
                            == ev[i as int]));
                        assert(pre.contains(x) <==> pre.to_set().contains(x));
                    }
                }
                assert(topk_sel(post, nv, k as int)) by {
                    assert(nv.to_set().subset_of(post.to_set()));
                    assert(nv.len() == min_len(k as int, post.len() as int));
                    assert forall|x: (Seq<u8>, u64), y: (Seq<u8>, u64)|
                        #![trigger post.contains(x), nv.contains(y)]
                        post.contains(x) && !nv.contains(x) && nv.contains(y) implies x.1
                        <= y.1 by {
                        assert(post.to_set().contains(x));
                        assert(nv.to_set().contains(x));
                        assert(nv.contains(x));
                    }
                }
            }
        } else if acc.len() > 0 && acc[acc.len() - 1].count < e.count {
            let last = acc.len() - 1;
            let ghost z = av[last as int];
            let _evicted = acc.remove(last);
            proof {
                assert(vs(acc@) =~= av.drop_last());
                assert(distinct_draws(av.drop_last()));
                assert(sorted_desc(av.drop_last()));
            }
            insert_by_count(&mut acc, e);
            proof {
                let nv = vs(acc@);
                let dv = av.drop_last();
                // z is the minimum of the old candidates
                assert forall|y: (Seq<u8>, u64)| av.contains(y) implies z.1 <= y.1 by {
                    let j = choose|j: int| 0 <= j < av.len() && av[j] == y;
                    if j < last {
                        assert(av[j].1 >= av[last as int].1);
                    }
                }
                assert(z.1 < ev[i as int].1);
                // membership of the new candidate list
                assert forall|x: (Seq<u8>, u64)| #[trigger]
                    nv.contains(x) <==> (dv.contains(x) || x == ev[i as int]) by {}
                assert forall|x: (Seq<u8>, u64)| dv.contains(x) implies av.contains(x) by {
                    let j = choose|j: int| 0 <= j < dv.len() && dv[j] == x;
                    assert(av[j] == x);
                }
                // z itself is no longer a candidate
                assert(!nv.contains(z)) by {
                    if dv.contains(z) {
                        let j = choose|j: int| 0 <= j < dv.len() && dv[j] == z;
                        assert(av[j] == av[last as int]);
                        assert(av[j].0 == av[last as int].0);
                        assert(false);
                    }
                    assert(z.0 != ev[i as int].0) by {
                        assert(av[last as int].0 != ev[i as int].0);
                    }
                }
                assert(topk_sel(post, nv, k as int)) by {
                    assert(nv.to_set().subset_of(post.to_set())) by {
                        assert forall|x: (Seq<u8>, u64)| nv.to_set().contains(x)
                            implies post.to_set().contains(x) by {
                            assert(nv.contains(x));
                            if dv.contains(x) {
                                assert(av.contains(x));
                                assert(av.to_set().contains(x));
                                assert(pre.to_set().contains(x));
                            } else {
                                assert(x == ev[i as int]);
                            }
                        }
                    }
                    assert(nv.len() == min_len(k as int, post.len() as int));
                    assert forall|x: (Seq<u8>, u64), y: (Seq<u8>, u64)|
                        #![trigger post.contains(x), nv.contains(y)]
                        post.contains(x) && !nv.contains(x) && nv.contains(y) implies x.1
                        <= y.1 by {
                        // what the new candidate y is worth at least
                        assert(dv.contains(y) || y == ev[i as int]);
                        if x == z {
                            if dv.contains(y) {
                                assert(av.contains(y));
                                assert(z.1 <= y.1);
                            } else {
                                assert(y == ev[i as int]);
                                assert(z.1 < y.1);
                            }
                        } else if x == ev[i as int] {
                            assert(nv.contains(x));
                            assert(false);
                        } else {
                            // x was already left out earlier
                            assert(pre.contains(x)) by {
                                assert(post.to_set().contains(x));
                                assert(pre.to_set().contains(x));
                            }
                            assert(!av.contains(x)) by {
                                if av.contains(x) {
                                    assert(dv.contains(x) || x == z) by {
                                        let j = choose|j: int|
                                            0 <= j < av.len() && av[j] == x;
                                        if j < last {
                                            assert(dv[j] == x);
                                        } else {
                                            assert(x == z);
                                        }
                                    }
                                    assert(nv.contains(x));
                                    assert(false);
                                }
                            }
                            if dv.contains(y) {
                                assert(av.contains(y));
                                assert(x.1 <= y.1);
                            } else {
                                assert(y == ev[i as int]);
                                assert(x.1 <= z.1) by {
                                    assert(av.contains(z)) by {
                                        assert(av[last as int] == z);
                                    }
                                }
                                assert(x.1 <= y.1);
                            }
                        }
                    }
                }
            }
        } else {
            proof {
                let nv = vs(acc@);
                assert(nv == av);
                assert(topk_sel(post, nv, k as int)) by {
                    assert(nv.to_set().subset_of(post.to_set())) by {
                        assert forall|x: (Seq<u8>, u64)| nv.to_set().contains(x)
                            implies post.to_set().contains(x) by {
                            assert(pre.to_set().contains(x));
                        }
                    }
                    assert(nv.len() == min_len(k as int, post.len() as int));
                    assert forall|x: (Seq<u8>, u64), y: (Seq<u8>, u64)|
                        #![trigger post.contains(x), nv.contains(y)]
                        post.contains(x) && !nv.contains(x) && nv.contains(y) implies x.1
                        <= y.1 by {
                        if x == ev[i as int] {
                            // the fresh entry is left out: its count is
                            // at most the minimum kept
                            assert(acc@.len() == k && k > 0);
                            let last = (av.len() - 1) as int;
                            assert(av.contains(av[last])) by {}
                            assert(x.1 <= av[last].1);
                            let j = choose|j: int| 0 <= j < nv.len() && nv[j] == y;
                            if j < last {
                                assert(av[j].1 >= av[last].1);
                            }
                        } else {
                            assert(pre.contains(x)) by {
                                assert(post.to_set().contains(x));
                                assert(pre.to_set().contains(x));
                            }
                        }
                    }
                }
            }
        }
        i += 1;
    }
    proof {
        assert(ev.take(entries@.len() as int) =~= ev);
    }
    acc
}

/// Merges two candidate lists: concatenate, sort by count descending,
/// and keep at most k entries.
pub fn merge_top_k(a: &Vec<TopKEntry>, b: &Vec<TopKEntry>, k: usize) -> (r: Vec<TopKEntry>)
    requires
        distinct_draws(vs(a@) + vs(b@)),
        a@.len() + b@.len() <= usize::MAX,
    ensures
        topk_sel(vs(a@) + vs(b@), vs(r@), k as int),
{
    let ghost cv = vs(a@) + vs(b@);
    let mut sorted: Vec<TopKEntry> = Vec::new();
    proof {
        assert(cv.take(0) =~= Seq::<(Seq<u8>, u64)>::empty());
        assert(vs(sorted@) =~= Seq::<(Seq<u8>, u64)>::empty());
        assert(vs(sorted@).to_set() =~= cv.take(0).to_set());
    }
    let mut i: usize = 0;
    while i < a.len()
        invariant
            0 <= i <= a@.len(),
            cv == vs(a@) + vs(b@),
            a@.len() + b@.len() <= usize::MAX,
            distinct_draws(cv),
            sorted@.len() == i,
            sorted_desc(vs(sorted@)),
            distinct_draws(vs(sorted@)),
            vs(sorted@).to_set() == cv.take(i as int).to_set(),
        decreases a@.len() - i,
    {
        let ghost pre = cv.take(i as int);
        let ghost sv = vs(sorted@);
        proof {
            assert(cv[i as int] == vs(a@)[i as int]);
            assert forall|j: int| 0 <= j < sv.len() implies (#[trigger] sv[j]).0
                != cv[i as int].0 by {
                assert(sv.to_set().contains(sv[j]));
                assert(pre.contains(sv[j]));
                let jj = choose|jj: int| 0 <= jj < pre.len() && pre[jj] == sv[j];
                assert(cv[jj] == sv[j]);
            }
        }
        let e = a[i].duplicate();
        assert(e@ == cv[i as int]);
        insert_by_count(&mut sorted, e);
        proof {
            let post = cv.take(i as int + 1);
            assert(post =~= pre.push(cv[i as int]));
            pre.lemma_push_to_set_commute(cv[i as int]);
            assert(vs(sorted@).to_set() =~= post.to_set()) by {
                assert forall|x: (Seq<u8>, u64)| vs(sorted@).to_set().contains(x)
                    <==> post.to_set().contains(x) by {
                    assert(vs(sorted@).contains(x) <==> (sv.contains(x) || x == cv[i as int]));
                    assert(sv.contains(x) <==> sv.to_set().contains(x));
                    assert(pre.contains(x) <==> pre.to_set().contains(x));
                }
            }
        }
        i += 1;
    }
    let mut j: usize = 0;
    while j < b.len()
        invariant
            0 <= j <= b@.len(),
            cv == vs(a@) + vs(b@),
            a@.len() + b@.len() <= usize::MAX,
            distinct_draws(cv),
            sorted@.len() == a@.len() + j,
            sorted_desc(vs(sorted@)),
            distinct_draws(vs(sorted@)),
            vs(sorted@).to_set() == cv.take(a@.len() + j).to_set(),
        decreases b@.len() - j,
    {
        let ghost t = a@.len() + j;
        let ghost pre = cv.take(t);
        let ghost sv = vs(sorted@);
        proof {
            assert(cv[t] == vs(b@)[j as int]);
            assert forall|jj: int| 0 <= jj < sv.len() implies (#[trigger] sv[jj]).0
                != cv[t].0 by {
                assert(sv.to_set().contains(sv[jj]));
                assert(pre.contains(sv[jj]));
                let j2 = choose|j2: int| 0 <= j2 < pre.len() && pre[j2] == sv[jj];
                assert(cv[j2] == sv[jj]);
            }
        }
        let e = b[j].duplicate();
        assert(e@ == cv[t]);
        insert_by_count(&mut sorted, e);
        proof {
            let post = cv.take(t + 1);
            assert(post =~= pre.push(cv[t]));
            pre.lemma_push_to_set_commute(cv[t]);
            assert(vs(sorted@).to_set() =~= post.to_set()) by {
                assert forall|x: (Seq<u8>, u64)| vs(sorted@).to_set().contains(x)
                    <==> post.to_set().contains(x) by {
                    assert(vs(sorted@).contains(x) <==> (sv.contains(x) || x == cv[t]));
                    assert(sv.contains(x) <==> sv.to_set().contains(x));
                    assert(pre.contains(x) <==> pre.to_set().contains(x));
                }
            }
        }
        j += 1;
    }
    proof {
        assert(cv.take(cv.len() as int) =~= cv);
        assert(vs(sorted@).to_set() == cv.to_set());
        assert forall|x: (Seq<u8>, u64), y: (Seq<u8>, u64)|
            #![trigger cv.contains(x), vs(sorted@).contains(y)]
            cv.contains(x) && !vs(sorted@).contains(x) && vs(sorted@).contains(y) implies x.1
            <= y.1 by {
            assert(cv.to_set().contains(x));
            assert(vs(sorted@).to_set().contains(x));
            assert(vs(sorted@).contains(x));
        }
    }
    while sorted.len() > k
        invariant
            cv == vs(a@) + vs(b@),
            sorted_desc(vs(sorted@)),
            distinct_draws(vs(sorted@)),
            vs(sorted@).to_set().subset_of(cv.to_set()),
            sorted@.len() <= cv.len(),
            sorted@.len() >= min_len(k as int, cv.len() as int),
            forall|x: (Seq<u8>, u64), y: (Seq<u8>, u64)|
                #![trigger cv.contains(x), vs(sorted@).contains(y)]
                cv.contains(x) && !vs(sorted@).contains(x) && vs(sorted@).contains(y) ==> x.1
                    <= y.1,
        decreases sorted@.len(),
    {
        let ghost os = vs(sorted@);
        let last = sorted.len() - 1;
        let ghost z = os[last as int];
        let _dropped = sorted.remove(last);
        proof {
            let ns = vs(sorted@);
            assert(ns =~= os.drop_last());
            assert forall|x: (Seq<u8>, u64)| ns.contains(x) implies os.contains(x) by {
                let i2 = choose|i2: int| 0 <= i2 < ns.len() && ns[i2] == x;
                assert(os[i2] == x);
            }
            assert(!ns.contains(z)) by {
                if ns.contains(z) {
                    let i2 = choose|i2: int| 0 <= i2 < ns.len() && ns[i2] == z;
                    assert(os[i2].0 == os[last as int].0);
                    assert(false);
                }
            }
            assert forall|y: (Seq<u8>, u64)| os.contains(y) implies z.1 <= y.1 by {
                let i2 = choose|i2: int| 0 <= i2 < os.len() && os[i2] == y;
                if i2 < last {
                    assert(os[i2].1 >= os[last as int].1);
                }
            }
            assert forall|x: (Seq<u8>, u64), y: (Seq<u8>, u64)|
                #![trigger cv.contains(x), ns.contains(y)]
                cv.contains(x) && !ns.contains(x) && ns.contains(y) implies x.1 <= y.1 by {
                assert(os.contains(y));
                if os.contains(x) {
                    // x must be the dropped minimum
                    assert(x == z) by {
                        let i2 = choose|i2: int| 0 <= i2 < os.len() && os[i2] == x;
                        if i2 < last {
                            assert(ns[i2] == x);
                            assert(false);
                        }
                    }
                    assert(z.1 <= y.1);
                } else {
                    assert(x.1 <= y.1);
                }
            }
            assert(ns.to_set().subset_of(cv.to_set())) by {
                assert forall|x: (Seq<u8>, u64)| ns.to_set().contains(x)
                    implies cv.to_set().contains(x) by {
                    assert(os.contains(x));
                    assert(os.to_set().contains(x));
                }
            }
        }
    }
    proof {
        assert(vs(sorted@).len() == min_len(k as int, cv.len() as int));
        assert(vs(sorted@).to_set().subset_of(cv.to_set()));
        assert forall|x: (Seq<u8>, u64), y: (Seq<u8>, u64)|
            #![trigger cv.contains(x), vs(sorted@).contains(y)]
            cv.contains(x) && !vs(sorted@).contains(x) && vs(sorted@).contains(y) implies x.1
            <= y.1 by {}
    }
    sorted
}

/// The entry views of a list of shards.
pub open spec fn shard_views(s: Seq<Vec<TopKEntry>>) -> Seq<Seq<(Seq<u8>, u64)>> {
    s.map_values(|v: Vec<TopKEntry>| vs(v@))
}

/// All shards' entries, in shard order.
pub open spec fn flatv(ss: Seq<Seq<(Seq<u8>, u64)>>) -> Seq<(Seq<u8>, u64)>
    decreases ss.len(),
{
    if ss.len() == 0 {
        Seq::empty()
    } else {
        flatv(ss.drop_last()) + ss.last()
    }
}

/// A flattened prefix of the shards is a prefix of the flattened
/// whole.
proof fn lemma_flatv_take_prefix(ss: Seq<Seq<(Seq<u8>, u64)>>, t: int)
    requires
        0 <= t <= ss.len(),
    ensures
        flatv(ss.take(t)).len() <= flatv(ss).len(),
        flatv(ss.take(t)) == flatv(ss).take(flatv(ss.take(t)).len() as int),
    decreases ss.len() - t,
{
    if t == ss.len() {
        assert(ss.take(t) =~= ss);
        assert(flatv(ss).take(flatv(ss).len() as int) =~= flatv(ss));
    } else {
        lemma_flatv_take_prefix(ss, t + 1);
        let a = flatv(ss.take(t));
        let b = flatv(ss.take(t + 1));
        assert(ss.take(t + 1).drop_last() =~= ss.take(t));
        assert(ss.take(t + 1).last() == ss[t]);
        assert(b == a + ss[t]);
        assert(a =~= b.take(a.len() as int));
        assert(b == flatv(ss).take(b.len() as int));
        assert(a =~= flatv(ss).take(a.len() as int));
    }
}

/// Splits the entries into consecutive shards of at most the given
/// size, preserving order.
pub fn split_shards(entries: &Vec<TopKEntry>, shard_size: usize) -> (r: Vec<Vec<TopKEntry>>)
    requires
        shard_size >= 1,
    ensures
        flatv(shard_views(r@)) == vs(entries@),
{
    let ghost ev = vs(entries@);
    let mut r: Vec<Vec<TopKEntry>> = Vec::new();
    proof {
        assert(shard_views(r@).len() == 0);
        assert(flatv(shard_views(r@)) =~= ev.take(0));
    }
    let mut i: usize = 0;
    while i < entries.len()
        invariant
            0 <= i <= entries@.len(),
            ev == vs(entries@),
            shard_size >= 1,
            flatv(shard_views(r@)) == ev.take(i as int),
        decreases entries@.len() - i,
    {
        let ghost st = i as int;
        let ghost prevr = r@;
        let mut shard: Vec<TopKEntry> = Vec::new();
        let mut j: usize = 0;
        proof {
            assert(vs(shard@) =~= ev.subrange(st, st));
        }
        while j < shard_size && i < entries.len()
            invariant
                0 <= st <= i <= entries@.len(),
                i - st == j,
                ev == vs(entries@),
                shard@.len() == i - st,
                vs(shard@) == ev.subrange(st, i as int),
            decreases entries@.len() - i,
        {
            let ghost osh = vs(shard@);
            let e = entries[i].duplicate();
            shard.push(e);
            proof {
                assert(shard@.len() == (i - st) + 1);
                assert forall|m: int| 0 <= m < shard@.len() implies #[trigger] vs(shard@)[m]
                    == ev[st + m] by {
                    if m < shard@.len() - 1 {
                        assert(vs(shard@)[m] == osh[m]);
                        assert(osh[m] == ev.subrange(st, i as int)[m]);
                    } else {
                        assert(shard@[m]@ == entries@[i as int]@);
                    }
                }
                assert(vs(shard@) =~= ev.subrange(st, i as int + 1));
            }
            i += 1;
            j += 1;
        }
        r.push(shard);
        proof {
            let sv = shard_views(r@);
            assert(sv.drop_last() =~= shard_views(prevr));
            assert(sv.last() == vs(r@.last()@));
            assert(flatv(sv) == flatv(shard_views(prevr)) + ev.subrange(st, i as int));
            assert(ev.take(i as int) =~= ev.take(st) + ev.subrange(st, i as int));
        }
    }
    proof {
        assert(ev.take(entries@.len() as int) =~= ev);
    }
    r
}

/// Relies on rayon's parallel iterator over a Vec with `map` and
/// `collect`: the verified per-shard selector runs on every shard and
/// the results are collected in shard order.
#[verifier::external_body]
fn select_shards_parallel(shards: &Vec<Vec<TopKEntry>>, k: usize) -> (r: Vec<Vec<TopKEntry>>)
    requires
        forall|i: int| 0 <= i < shards@.len() ==> distinct_draws(vs(#[trigger] shards@[i]@)),
    ensures
        r@.len() == shards@.len(),
        forall|i: int|
            0 <= i < r@.len() ==> topk_sel(vs(shards@[i]@), vs(#[trigger] r@[i]@), k as int),
{
    shards.par_iter().map(|s| select_top_k(s, k)).collect()
}

/// One merge round: folding a shard's selection into the running
/// selection keeps a top-k selection of all entries seen so far.
proof fn lemma_excl_branch(
    src: Seq<(Seq<u8>, u64)>,
    sel: Seq<(Seq<u8>, u64)>,
    ml: Seq<(Seq<u8>, u64)>,
    r: Seq<(Seq<u8>, u64)>,
    k: int,
    x: (Seq<u8>, u64),
    y: (Seq<u8>, u64),
)
    requires
        k >= 0,
        distinct_draws(src),
        topk_sel(src, sel, k),
        topk_sel(ml, r, k),
        sel.to_set().subset_of(ml.to_set()),
        src.contains(x),
        !sel.contains(x),
        r.contains(y),
    ensures
        x.1 <= y.1,
{
    lemma_distinct_no_dup(sel);
    lemma_distinct_no_dup(src);
    lemma_distinct_no_dup(r);
    assert(sel.to_set().subset_of(src.to_set().remove(x))) by {
        assert forall|w: (Seq<u8>, u64)| sel.to_set().contains(w)
            implies src.to_set().remove(x).contains(w) by {
            assert(sel.contains(w));
            assert(src.to_set().contains(w));
            assert(w != x);
        }
    }
    assert(src.to_set().contains(x));
    lemma_len_subset(sel.to_set(), src.to_set().remove(x));
    assert(sel.len() < src.len());
    assert(sel.len() == k);
    lemma_len_subset(sel.to_set(), ml.to_set());
    ml.lemma_cardinality_of_set();
    assert(r.len() == k);
    if exists|z: (Seq<u8>, u64)| sel.contains(z) && !r.contains(z) {
        let z = choose|z: (Seq<u8>, u64)| sel.contains(z) && !r.contains(z);
        assert(ml.to_set().contains(z));
        assert(ml.contains(z));
        assert(z.1 <= y.1);
        assert(x.1 <= z.1);
    } else {
        assert(sel.to_set().subset_of(r.to_set())) by {
            assert forall|w: (Seq<u8>, u64)| sel.to_set().contains(w)
                implies r.to_set().contains(w) by {
                assert(sel.contains(w));
                assert(r.contains(w));
            }
        }
        lemma_subset_equality(sel.to_set(), r.to_set());
        assert(sel.to_set().contains(y));
        assert(sel.contains(y));
        assert(x.1 <= y.1);
    }
}

/// Folding one shard's top-k into the running top-k of the entries
/// processed so far yields a top-k of their concatenation.
proof fn lemma_merge_step(
    p: Seq<(Seq<u8>, u64)>,
    s: Seq<(Seq<u8>, u64)>,
    m: Seq<(Seq<u8>, u64)>,
    l: Seq<(Seq<u8>, u64)>,
    r: Seq<(Seq<u8>, u64)>,
    k: int,
)
    requires
        k >= 0,
        distinct_draws(p + s),
        topk_sel(p, m, k),
        topk_sel(s, l, k),
        topk_sel(m + l, r, k),
    ensures
        topk_sel(p + s, r, k),
{
    let e = p + s;
    let ml = m + l;
    assert(distinct_draws(p)) by {
        assert(forall|i: int| 0 <= i < p.len() ==> #[trigger] p[i] == e[i]);
    }
    assert(distinct_draws(s)) by {
        assert(forall|i: int| 0 <= i < s.len() ==> #[trigger] s[i] == e[p.len() + i]);
    }
    assert(m.to_set().subset_of(ml.to_set())) by {
        assert forall|w: (Seq<u8>, u64)| m.to_set().contains(w)
            implies ml.to_set().contains(w) by {
            let i = choose|i: int| 0 <= i < m.len() && m[i] == w;
            assert(ml[i] == w);
            assert(ml.contains(w));
        }
    }
    assert(l.to_set().subset_of(ml.to_set())) by {
        assert forall|w: (Seq<u8>, u64)| l.to_set().contains(w)
            implies ml.to_set().contains(w) by {
            let i = choose|i: int| 0 <= i < l.len() && l[i] == w;
            assert(ml[m.len() + i] == w);
            assert(ml.contains(w));
        }
    }
    assert(p.to_set().subset_of(e.to_set())) by {
        assert forall|w: (Seq<u8>, u64)| p.to_set().contains(w)
            implies e.to_set().contains(w) by {
            let i = choose|i: int| 0 <= i < p.len() && p[i] == w;
            assert(e[i] == w);
            assert(e.contains(w));
        }
    }
    assert(s.to_set().subset_of(e.to_set())) by {
        assert forall|w: (Seq<u8>, u64)| s.to_set().contains(w)
            implies e.to_set().contains(w) by {
            let i = choose|i: int| 0 <= i < s.len() && s[i] == w;
            assert(e[p.len() + i] == w);
            assert(e.contains(w));
        }
    }
    assert(r.to_set().subset_of(e.to_set())) by {
        assert forall|w: (Seq<u8>, u64)| r.to_set().contains(w)
            implies e.to_set().contains(w) by {
            assert(ml.to_set().contains(w));
            let i = choose|i: int| 0 <= i < ml.len() && ml[i] == w;
            if i < m.len() {
                assert(m[i] == w);
                assert(m.to_set().contains(w));
                assert(p.to_set().contains(w));
            } else {
                assert(l[i - m.len()] == w);
                assert(l.to_set().contains(w));
                assert(s.to_set().contains(w));
            }
        }
    }
    assert(r.len() == min_len(k, e.len() as int));
    assert forall|x: (Seq<u8>, u64), y: (Seq<u8>, u64)|
        #![trigger e.contains(x), r.contains(y)]
        e.contains(x) && !r.contains(x) && r.contains(y) implies x.1 <= y.1 by {
        if ml.contains(x) {
            assert(x.1 <= y.1);
        } else {
            assert(!m.contains(x)) by {
                if m.contains(x) {
                    let i = choose|i: int| 0 <= i < m.len() && m[i] == x;
                    assert(ml[i] == x);
                    assert(ml.contains(x));
                }
            }
            assert(!l.contains(x)) by {
                if l.contains(x) {
                    let i = choose|i: int| 0 <= i < l.len() && l[i] == x;
                    assert(ml[m.len() + i] == x);
                    assert(ml.contains(x));
                }
            }
            let i = choose|i: int| 0 <= i < e.len() && e[i] == x;
            if i < p.len() {
                assert(p[i] == x);
                assert(p.contains(x));
                lemma_excl_branch(p, m, ml, r, k, x, y);
            } else {
                assert(s[i - p.len()] == x);
                assert(s.contains(x));
                lemma_excl_branch(s, l, ml, r, k, x, y);
            }
        }
    }
}

/// Selects the k highest-count entries by sharding the entries,
/// selecting within each shard in parallel, and merging the shard
/// selections pairwise.
pub fn select_top_k_parallel(entries: &Vec<TopKEntry>, k: usize) -> (r: Vec<TopKEntry>)
    requires
        distinct_draws(vs(entries@)),
    ensures
        topk_sel(vs(entries@), vs(r@), k as int),
{
    let shards = split_shards(entries, 1024);
    let ghost svs = shard_views(shards@);
    let ghost ev = vs(entries@);
    proof {
        assert(flatv(svs) == ev);
        assert forall|i: int| 0 <= i < shards@.len() implies distinct_draws(
            vs(#[trigger] shards@[i]@),
        ) by {
            lemma_flatv_take_prefix(svs, i);
            lemma_flatv_take_prefix(svs, i + 1);
            let a = flatv(svs.take(i));
            let b = flatv(svs.take(i + 1));
            assert(svs.take(i + 1).drop_last() =~= svs.take(i));
            assert(svs.take(i + 1).last() == svs[i]);
            assert(b == a + svs[i]);
            let sh = vs(shards@[i]@);
            assert(svs[i] == sh);
            assert forall|x: int, y: int| 0 <= x < y < sh.len() implies (#[trigger] sh[x]).0
                != (#[trigger] sh[y]).0 by {
                assert(b[a.len() + x] == sh[x]);
                assert(b[a.len() + y] == sh[y]);
                assert(ev[a.len() + x] == sh[x]);
                assert(ev[a.len() + y] == sh[y]);
            }
        }
    }
    let locals = select_shards_parallel(&shards, k);
    let n_entries = entries.len();
    proof {
        assert(ev.len() == n_entries as int);
    }
    let mut m: Vec<TopKEntry> = Vec::new();
    proof {
        assert(svs.take(0).len() == 0);
        assert(flatv(svs.take(0)) =~= Seq::<(Seq<u8>, u64)>::empty());
        assert(vs(m@) =~= Seq::<(Seq<u8>, u64)>::empty());
        assert(topk_sel(flatv(svs.take(0)), vs(m@), k as int));
    }
    let mut t: usize = 0;
    while t < locals.len()
        invariant
            0 <= t <= locals@.len(),
            locals@.len() == shards@.len(),
            svs == shard_views(shards@),
            ev == vs(entries@),
            ev.len() <= usize::MAX,
            flatv(svs) == ev,
            distinct_draws(ev),
            forall|i: int|
                0 <= i < locals@.len() ==> topk_sel(
                    vs(shards@[i]@),
                    vs(#[trigger] locals@[i]@),
                    k as int,
                ),
            topk_sel(flatv(svs.take(t as int)), vs(m@), k as int),
            m@.len() <= k,
        decreases locals@.len() - t,
    {
        let ghost pfx = flatv(svs.take(t as int));
        let ghost sh = svs[t as int];
        let ghost nxt = flatv(svs.take(t as int + 1));
        proof {
            assert(svs.take(t as int + 1).drop_last() =~= svs.take(t as int));
            assert(svs.take(t as int + 1).last() == svs[t as int]);
            assert(nxt == pfx + sh);
            lemma_flatv_take_prefix(svs, t as int + 1);
            // the next flattened prefix inherits distinct draws from
            // the full entry list
            assert(distinct_draws(nxt)) by {
                assert(nxt == ev.take(nxt.len() as int));
                assert forall|x: int, y: int| 0 <= x < y < nxt.len() implies (
                #[trigger] nxt[x]).0 != (#[trigger] nxt[y]).0 by {
                    assert(nxt[x] == ev[x] && nxt[y] == ev[y]);
                }
            }
            assert(sh == vs(shards@[t as int]@));
            assert(topk_sel(sh, vs(locals@[t as int]@), k as int));
            // the running selection and the shard selection never
            // share a draw
            let mv = vs(m@);
            let lv = vs(locals@[t as int]@);
            assert(distinct_draws(mv + lv)) by {
                assert forall|x: int, y: int| 0 <= x < y < (mv + lv).len() implies (#[trigger] (mv
                    + lv)[x]).0 != (#[trigger] (mv + lv)[y]).0 by {
                    let xv = (mv + lv)[x];
                    let yv = (mv + lv)[y];
                    if y < mv.len() {
                        assert(xv == mv[x] && yv == mv[y]);
                    } else if x >= mv.len() {
                        assert(xv == lv[x - mv.len()] && yv == lv[y - mv.len()]);
                    } else {
                        assert(xv == mv[x] && yv == lv[y - mv.len()]);
                        assert(mv.to_set().contains(mv[x]));
                        assert(pfx.to_set().contains(xv));
                        assert(pfx.contains(xv));
                        let i1 = choose|i1: int| 0 <= i1 < pfx.len() && pfx[i1] == xv;
                        assert(lv.to_set().contains(lv[y - mv.len()]));
                        assert(sh.to_set().contains(yv));
                        assert(sh.contains(yv));
                        let i2 = choose|i2: int| 0 <= i2 < sh.len() && sh[i2] == yv;
                        assert(nxt[i1] == xv);
                        assert(nxt[pfx.len() + i2] == yv);
                    }
                }
            }
        }
        proof {
            assert(m@.len() <= pfx.len());
            assert(locals@[t as int]@.len() <= sh.len());
            assert(pfx.len() + sh.len() == nxt.len());
            assert(nxt.len() <= ev.len());
        }
        let local = &locals[t];
        let merged = merge_top_k(&m, local, k);
        proof {
            lemma_merge_step(
                pfx,
                sh,
                vs(m@),
                vs(locals@[t as int]@),
                vs(merged@),
                k as int,
            );
            assert(topk_sel(nxt, vs(merged@), k as int));
        }
        m = merged;
        t += 1;
    }
    proof {
        assert(svs.take(locals@.len() as int) =~= svs);
    }
    m
}

/// Law: two top-k selections from the same entries keep exactly the
/// same set of (draw, count) pairs whenever no entry left out by the
/// first ties with an entry it kept - in particular, the sequential
/// and the parallel selector agree on the set when there is no tie at
/// the k-th boundary, and so do two runs of either selector.
pub proof fn lemma_topk_set_unique(
    e: Seq<(Seq<u8>, u64)>,
    a: Seq<(Seq<u8>, u64)>,
    b: Seq<(Seq<u8>, u64)>,
    k: int,
)
    requires
        k >= 0,
        distinct_draws(e),
        topk_sel(e, a, k),
        topk_sel(e, b, k),
        forall|x: (Seq<u8>, u64), y: (Seq<u8>, u64)|
            #![trigger e.contains(x), a.contains(y)]
            e.contains(x) && !a.contains(x) && a.contains(y) ==> x.1 != y.1,
    ensures
        a.to_set() == b.to_set(),
{
    lemma_distinct_no_dup(a);
    lemma_distinct_no_dup(b);
    assert forall|x: (Seq<u8>, u64)| b.to_set().contains(x) implies a.to_set().contains(x) by {
        if !a.contains(x) {
            assert(b.contains(x));
            assert(e.to_set().contains(x));
            assert(e.contains(x));
            if forall|w: (Seq<u8>, u64)| a.to_set().contains(w) ==> b.to_set().contains(w) {
                assert(a.to_set().subset_of(b.to_set()));
                lemma_subset_equality(a.to_set(), b.to_set());
                assert(a.to_set().contains(x));
                assert(a.contains(x));
                assert(false);
            } else {
                let w = choose|w: (Seq<u8>, u64)|
                    a.to_set().contains(w) && !b.to_set().contains(w);
                assert(a.contains(w) && !b.contains(w));
                assert(e.to_set().contains(w));
                assert(e.contains(w));
                assert(w.1 <= x.1);
                assert(x.1 <= w.1);
                assert(x.1 != w.1);
                assert(false);
            }
        }
        assert(a.to_set().contains(x));
    }
    assert(b.to_set().subset_of(a.to_set()));
    lemma_len_subset(b.to_set(), a.to_set());
    lemma_subset_equality(b.to_set(), a.to_set());
}

/// Two strictly count-descending lists with the same element set are
/// the same list.
proof fn lemma_strict_sorted_unique(a: Seq<(Seq<u8>, u64)>, b: Seq<(Seq<u8>, u64)>)
    requires
        a.to_set() == b.to_set(),
        a.len() == b.len(),
        forall|i: int, j: int|
            0 <= i < j < a.len() ==> (#[trigger] a[i]).1 > (#[trigger] a[j]).1,
        forall|i: int, j: int|
            0 <= i < j < b.len() ==> (#[trigger] b[i]).1 > (#[trigger] b[j]).1,
    ensures
        a == b,
    decreases a.len(),
{
    if a.len() == 0 {
        assert(a =~= b);
    } else {
        assert(a.to_set().contains(a[0]));
        assert(b.contains(a[0]));
        let j = choose|j: int| 0 <= j < b.len() && b[j] == a[0];
        assert(b.to_set().contains(b[0]));
        assert(a.contains(b[0]));
        let i = choose|i: int| 0 <= i < a.len() && a[i] == b[0];
        assert(a[0] == b[0]) by {
            if j != 0 {
                assert(b[0].1 > b[j].1);
                if i == 0 {
                    assert(false);
                } else {
                    assert(a[0].1 > a[i].1);
                    assert(false);
                }
            }
        }
        let at = a.drop_first();
        let bt = b.drop_first();
        assert(forall|m: int| 0 <= m < at.len() ==> #[trigger] at[m] == a[m + 1]);
        assert(forall|m: int| 0 <= m < bt.len() ==> #[trigger] bt[m] == b[m + 1]);
        assert(at.to_set() =~= bt.to_set()) by {
            assert forall|x: (Seq<u8>, u64)| at.to_set().contains(x)
                <==> bt.to_set().contains(x) by {
                if at.to_set().contains(x) {
                    let m = choose|m: int| 0 <= m < at.len() && at[m] == x;
                    assert(a[m + 1] == x);
                    assert(x.1 < a[0].1);
                    assert(a.contains(x));
                    assert(b.to_set().contains(x));
                    let n = choose|n: int| 0 <= n < b.len() && b[n] == x;
                    assert(n != 0);
                    assert(bt[n - 1] == x);
                    assert(bt.contains(x));
                }
                if bt.to_set().contains(x) {
                    let m = choose|m: int| 0 <= m < bt.len() && bt[m] == x;
                    assert(b[m + 1] == x);
                    assert(x.1 < b[0].1);
                    assert(b.contains(x));
                    assert(a.to_set().contains(x));
                    let n = choose|n: int| 0 <= n < a.len() && a[n] == x;
                    assert(n != 0);
                    assert(at[n - 1] == x);
                    assert(at.contains(x));
                }
            }
        }
        lemma_strict_sorted_unique(at, bt);
        assert forall|m: int| 0 <= m < a.len() implies a[m] == b[m] by {
            if m > 0 {
                assert(at[m - 1] == a[m] && bt[m - 1] == b[m]);
            }
        }
        assert(a =~= b);
    }
}

/// Law: recomputing the selection from an unchanged snapshot whose
/// counts are pairwise distinct returns the very same list, whichever
/// selector ran and however its work was sharded.
pub proof fn lemma_topk_list_unique(
    e: Seq<(Seq<u8>, u64)>,
    a: Seq<(Seq<u8>, u64)>,
    b: Seq<(Seq<u8>, u64)>,
    k: int,
)
    requires
        k >= 0,
        distinct_draws(e),
        forall|i: int, j: int|
            0 <= i < j < e.len() ==> (#[trigger] e[i]).1 != (#[trigger] e[j]).1,
        topk_sel(e, a, k),
        topk_sel(e, b, k),
    ensures
        a == b,
{
    lemma_distinct_no_dup(e);
    assert forall|x: (Seq<u8>, u64), y: (Seq<u8>, u64)|
        #![trigger e.contains(x), a.contains(y)]
        e.contains(x) && !a.contains(x) && a.contains(y) implies x.1 != y.1 by {
        assert(a.to_set().contains(y));
        assert(e.to_set().contains(y));
        assert(e.contains(y));
        let i1 = choose|i1: int| 0 <= i1 < e.len() && e[i1] == x;
        let i2 = choose|i2: int| 0 <= i2 < e.len() && e[i2] == y;
        assert(x != y);
        assert(i1 != i2);
    }
    lemma_topk_set_unique(e, a, b, k);
    lemma_distinct_no_dup(a);
    lemma_distinct_no_dup(b);
    assert forall|i: int, j: int| 0 <= i < j < a.len() implies (#[trigger] a[i]).1 > (
    #[trigger] a[j]).1 by {
        assert(a.contains(a[i]) && a.contains(a[j]));
        assert(a.to_set().contains(a[i]) && a.to_set().contains(a[j]));
        assert(e.contains(a[i]) && e.contains(a[j]));
        let i1 = choose|i1: int| 0 <= i1 < e.len() && e[i1] == a[i];
        let i2 = choose|i2: int| 0 <= i2 < e.len() && e[i2] == a[j];
        assert(a[i] != a[j]) by {
            assert(a[i].0 != a[j].0);
        }
        assert(i1 != i2);
        assert(a[i].1 != a[j].1);
    }
    assert forall|i: int, j: int| 0 <= i < j < b.len() implies (#[trigger] b[i]).1 > (
    #[trigger] b[j]).1 by {
        assert(b.contains(b[i]) && b.contains(b[j]));
        assert(b.to_set().contains(b[i]) && b.to_set().contains(b[j]));
        assert(e.contains(b[i]) && e.contains(b[j]));
        let i1 = choose|i1: int| 0 <= i1 < e.len() && e[i1] == b[i];
        let i2 = choose|i2: int| 0 <= i2 < e.len() && e[i2] == b[j];
        assert(b[i] != b[j]) by {
            assert(b[i].0 != b[j].0);
        }
        assert(i1 != i2);
        assert(b[i].1 != b[j].1);
    }
    lemma_strict_sorted_unique(a, b);
}

} // verus!
