use vstd::prelude::*;

verus! {

/// Entropy source for the draw generator: rand's thread-local
/// generator, opaque to verification.
#[verifier::external_type_specification]
#[verifier::external_body]
pub struct ExThreadRng(rand::rngs::ThreadRng);

/// Relies on rand::thread_rng: returns a handle to the thread-local
/// random number generator.
#[verifier::external_body]
pub fn fresh_rng() -> rand::rngs::ThreadRng {
    rand::thread_rng()
}

/// Relies on rand::Rng::gen_range over the half-open range `lo..hi`:
/// the sample lies in the range. The range is required nonempty, since
/// gen_range panics on an empty range. Nothing more is assumed of a
/// random sample.
#[verifier::external_body]
fn random_in(rng: &mut rand::rngs::ThreadRng, lo: u8, hi: u8) -> (r: u8)
    requires
        lo < hi,
    ensures
        lo <= r < hi,
{
    rand::Rng::gen_range(rng, lo..hi)
}

/// A strictly ascending byte sequence.
pub open spec fn sorted_strict(s: Seq<u8>) -> bool {
    forall|i: int, j: int| 0 <= i < j < s.len() ==> #[trigger] s[i] < #[trigger] s[j]
}

/// One lottery combination: 5 main numbers, pairwise distinct, each in
/// [1,50], stored in ascending order, followed by 2 bonus numbers,
/// distinct from each other, each in [1,10], in generation order.
///
/// The type itself only fixes the length at 7, since draws recovered
/// from a checkpoint file may hold any byte values; `valid()` states
/// the full shape that the generator guarantees.
#[derive(Debug)]
pub struct Draw {
    pub numbers: Vec<u8>,
}

impl View for Draw {
    type V = Seq<u8>;

    open spec fn view(&self) -> Seq<u8> {
        self.numbers@
    }
}

impl Draw {
    /// Every draw holds exactly 7 numbers.
    pub open spec fn wf(self) -> bool {
        self@.len() == 7
    }

    /// The full invariant of a generated draw: main numbers strictly
    /// ascending in [1,50], bonus numbers distinct in [1,10].
    pub open spec fn valid(self) -> bool {
        &&& self@.len() == 7
        &&& forall|i: int, j: int| 0 <= i < j < 5 ==> #[trigger] self@[i] < #[trigger] self@[j]
        &&& forall|i: int| 0 <= i < 5 ==> 1 <= #[trigger] self@[i] <= 50
        &&& 1 <= self@[5] <= 10
        &&& 1 <= self@[6] <= 10
        &&& self@[5] != self@[6]
    }

    pub fn new(numbers: Vec<u8>) -> (d: Draw)
        requires
            numbers@.len() == 7,
        ensures
            d@ == numbers@,
            d.wf(),
    {
        Draw { numbers }
    }
}

/// The numbers of a draw read as one base-256 integer, most
/// significant byte first: a unique key for each 7-number draw.
pub open spec fn key_of(s: Seq<u8>) -> int
    decreases s.len(),
{
    if s.len() == 0 {
        0
    } else {
        key_of(s.drop_last()) * 256 + s.last()
    }
}

pub open spec fn pow256(n: nat) -> int
    decreases n,
{
    if n == 0 {
        1
    } else {
        256 * pow256((n - 1) as nat)
    }
}

pub proof fn lemma_key_of_bound(s: Seq<u8>)
    ensures
        0 <= key_of(s) < pow256(s.len()),
    decreases s.len(),
{
    if s.len() > 0 {
        lemma_key_of_bound(s.drop_last());
    }
}

pub proof fn lemma_key_of_injective(a: Seq<u8>, b: Seq<u8>)
    requires
        a.len() == b.len(),
        key_of(a) == key_of(b),
    ensures
        a == b,
    decreases a.len(),
{
    if a.len() == 0 {
        assert(a =~= b);
    } else {
        lemma_key_of_bound(a.drop_last());
        lemma_key_of_bound(b.drop_last());
        let ka = key_of(a.drop_last());
        let kb = key_of(b.drop_last());
        vstd::arithmetic::div_mod::lemma_fundamental_div_mod_converse(
            key_of(a),
            256,
            ka,
            a.last() as int,
        );
        vstd::arithmetic::div_mod::lemma_fundamental_div_mod_converse(
            key_of(b),
            256,
            kb,
            b.last() as int,
        );
        lemma_key_of_injective(a.drop_last(), b.drop_last());
        assert(a.last() == b.last());
        assert forall|i: int| 0 <= i < a.len() implies a[i] == b[i] by {
            if i < a.len() - 1 {
                assert(a[i] == a.drop_last()[i]);
                assert(b[i] == b.drop_last()[i]);
            } else {
                assert(a[i] == a.last() && b[i] == b.last());
            }
        }
        assert(a =~= b);
    }
}

/// `key_of` of a 7-number draw, as the u64 used to key the frequency
/// table.
pub open spec fn key64(s: Seq<u8>) -> u64 {
    key_of(s) as u64
}

pub proof fn lemma_key64_injective(a: Seq<u8>, b: Seq<u8>)
    requires
        a.len() == 7,
        b.len() == 7,
        key64(a) == key64(b),
    ensures
        a == b,
{
    lemma_key_of_bound(a);
    lemma_key_of_bound(b);
    assert(pow256(7) == 0x100_0000_0000_0000) by {
        reveal_with_fuel(pow256, 8);
    }
    lemma_key_of_injective(a, b);
}

impl Draw {
    /// The u64 frequency-table key of this draw.
    pub fn key(&self) -> (k: u64)
        requires
            self.wf(),
        ensures
            k == key64(self@),
    {
        let n = &self.numbers;
        let k0: u64 = n[0] as u64;
        let k1: u64 = k0 * 256 + n[1] as u64;
        let k2: u64 = k1 * 256 + n[2] as u64;
        let k3: u64 = k2 * 256 + n[3] as u64;
        let k4: u64 = k3 * 256 + n[4] as u64;
        let k5: u64 = k4 * 256 + n[5] as u64;
        let k6: u64 = k5 * 256 + n[6] as u64;
        proof {
            let s = self@;
            assert forall|i: int| 1 <= i <= 7 implies #[trigger] key_of(s.take(i)) == key_of(
                s.take(i - 1),
            ) * 256 + s[i - 1] by {
                assert(s.take(i).drop_last() =~= s.take(i - 1));
                assert(s.take(i).last() == s[i - 1]);
            }
            assert(key_of(s.take(0)) == 0);
            assert(s.take(7) =~= s);
            lemma_key_of_bound(s);
        }
        k6
    }

    /// Makes an identical copy of this draw.
    pub fn duplicate(&self) -> (d: Draw)
        ensures
            d@ == self@,
    {
        let mut v: Vec<u8> = Vec::new();
        let mut i: usize = 0;
        while i < self.numbers.len()
            invariant
                0 <= i <= self.numbers@.len(),
                v@ == self.numbers@.take(i as int),
            decreases self.numbers@.len() - i,
        {
            let x = self.numbers[i];
            v.push(x);
            proof {
                assert(v@ =~= self.numbers@.take(i as int + 1));
            }
            i += 1;
        }
        proof {
            assert(v@ =~= self.numbers@);
        }
        Draw { numbers: v }
    }
}

/// Inserts `v` into a strictly ascending vector, keeping it strictly
/// ascending.
fn insert_ascending(xs: &mut Vec<u8>, v: u8)
    requires
        sorted_strict(old(xs)@),
        !old(xs)@.contains(v),
        old(xs)@.len() < usize::MAX,
    ensures
        sorted_strict(final(xs)@),
        final(xs)@.len() == old(xs)@.len() + 1,
        forall|w: u8| final(xs)@.contains(w) <==> (old(xs)@.contains(w) || w == v),
{
    let ghost orig = xs@;
    let mut p: usize = 0;
    while p < xs.len() && xs[p] < v
        invariant
            0 <= p <= xs@.len(),
            xs@ == orig,
            forall|i: int| 0 <= i < p ==> #[trigger] xs@[i] < v,
        decreases xs@.len() - p,
    {
        p += 1;
    }
    assert forall|i: int| p <= i < orig.len() implies v < #[trigger] orig[i] by {
        assert(orig[i] != v) by {
            assert(orig.contains(v) == false);
        }
        if i > p {
            assert(orig[p as int] <= orig[i]);
        }
        assert(orig[i] >= v);
    }
    xs.insert(p, v);
    assert(xs@ == orig.insert(p as int, v));
    assert(xs@[p as int] == v);
    assert forall|i: int| 0 <= i < p implies #[trigger] xs@[i] == orig[i] by {}
    assert forall|i: int| p < i < xs@.len() implies #[trigger] xs@[i] == orig[i - 1] by {}
    assert forall|i: int, j: int| 0 <= i < j < xs@.len() implies #[trigger] xs@[i]
        < #[trigger] xs@[j] by {
        if j < p {
            assert(xs@[i] == orig[i] && xs@[j] == orig[j]);
        } else if i < p && j == p {
            assert(xs@[i] == orig[i] && orig[i] < v);
        } else if i < p && j > p {
            assert(xs@[i] == orig[i] && xs@[j] == orig[j - 1]);
            assert(orig[i] < v && v < orig[j - 1]);
        } else if i == p && j > p {
            assert(xs@[j] == orig[j - 1] && v < orig[j - 1]);
        } else {
            assert(xs@[i] == orig[i - 1] && xs@[j] == orig[j - 1]);
        }
    }
    assert forall|w: u8| xs@.contains(w) <==> (orig.contains(w) || w == v) by {
        if orig.contains(w) {
            let i = choose|i: int| 0 <= i < orig.len() && orig[i] == w;
            if i < p {
                assert(xs@[i] == w);
            } else {
                assert(xs@[i + 1] == w);
            }
        }
        if xs@.contains(w) {
            let i = choose|i: int| 0 <= i < xs@.len() && xs@[i] == w;
            if i < p {
                assert(orig[i] == w);
            } else if i == p {
                assert(w == v);
            } else {
                assert(orig[i - 1] == w);
            }
        }
    }
}

/// Produces one fresh draw. The main numbers are sampled without
/// replacement from a candidate pool of [1,50] and kept in ascending
/// order; the bonus numbers are sampled without replacement from
/// [1,10].
pub fn generate_draw(rng: &mut rand::rngs::ThreadRng) -> (d: Draw)
    ensures
        d.valid(),
{
    let mut pool: Vec<u8> = Vec::new();
    let mut n: u8 = 1;
    while n <= 50
        invariant
            1 <= n <= 51,
            pool@.len() == n - 1,
            forall|i: int| 0 <= i < pool@.len() ==> #[trigger] pool@[i] == i + 1,
        decreases 51 - n,
    {
        pool.push(n);
        n += 1;
    }
    assert(sorted_strict(pool@));
    assert forall|w: u8| pool@.contains(w) implies 1 <= w <= 50 by {
        let i = choose|i: int| 0 <= i < pool@.len() && pool@[i] == w;
    }

    let mut main: Vec<u8> = Vec::new();
    let mut k: usize = 0;
    while k < 5
        invariant
            0 <= k <= 5,
            main@.len() == k,
            pool@.len() == 50 - k,
            sorted_strict(pool@),
            sorted_strict(main@),
            forall|w: u8| #[trigger] main@.contains(w) ==> 1 <= w <= 50,
            forall|w: u8| #[trigger] pool@.contains(w) ==> 1 <= w <= 50,
            forall|i: int, j: int|
                0 <= i < pool@.len() && 0 <= j < main@.len() ==> #[trigger] pool@[i]
                    != #[trigger] main@[j],
        decreases 5 - k,
    {
        let len8: u8 = pool.len() as u8;
        let idx8: u8 = random_in(rng, 0, len8);
        let idx: usize = idx8 as usize;
        let ghost oldpool = pool@;
        let v = pool.remove(idx);
        assert(oldpool.contains(v));
        assert(pool@ == oldpool.remove(idx as int));
        assert forall|a: int| 0 <= a < pool@.len() implies #[trigger] pool@[a] == (if a < idx {
            oldpool[a]
        } else {
            oldpool[a + 1]
        }) by {}
        assert(sorted_strict(pool@)) by {
            assert forall|a: int, b: int| 0 <= a < b < pool@.len() implies #[trigger] pool@[a]
                < #[trigger] pool@[b] by {
                if a < idx && b >= idx {
                    assert(oldpool[a] < oldpool[b + 1]);
                }
            }
        }
        assert forall|w: u8| #[trigger] pool@.contains(w) implies oldpool.contains(w) by {
            let i = choose|i: int| 0 <= i < pool@.len() && pool@[i] == w;
            assert(pool@ == oldpool.remove(idx as int));
            if i < idx {
                assert(oldpool[i] == w);
            } else {
                assert(oldpool[i + 1] == w);
            }
        }
        assert(!main@.contains(v)) by {
            if main@.contains(v) {
                let j = choose|j: int| 0 <= j < main@.len() && main@[j] == v;
                assert(oldpool[idx as int] != main@[j]);
            }
        }
        let ghost oldmain = main@;
        insert_ascending(&mut main, v);
        assert forall|i: int, j: int|
            0 <= i < pool@.len() && 0 <= j < main@.len() implies #[trigger] pool@[i]
            != #[trigger] main@[j] by {
            let w = main@[j];
            assert(main@.contains(w));
            assert(oldmain.contains(w) || w == v);
            if oldmain.contains(w) {
                let jj = choose|jj: int| 0 <= jj < oldmain.len() && oldmain[jj] == w;
                assert(oldpool.contains(pool@[i]));
                let ii = choose|ii: int| 0 <= ii < oldpool.len() && oldpool[ii] == pool@[i];
                assert(oldpool[ii] != oldmain[jj]);
            } else {
                assert(!pool@.contains(v)) by {
                    if pool@.contains(v) {
                        assert(sorted_strict(oldpool));
                        let i2 = choose|i2: int| 0 <= i2 < pool@.len() && pool@[i2] == v;
                        assert(pool@ == oldpool.remove(idx as int));
                        if i2 < idx {
                            assert(oldpool[i2] == v && oldpool[idx as int] == v);
                        } else {
                            assert(oldpool[i2 + 1] == v && oldpool[idx as int] == v);
                        }
                    }
                }
                assert(pool@.contains(pool@[i]));
            }
        }
        assert forall|w: u8| #[trigger] main@.contains(w) implies 1 <= w <= 50 by {
            assert(oldmain.contains(w) || w == v);
        }
        k += 1;
    }

    let b1: u8 = random_in(rng, 1, 11);
    let r: u8 = random_in(rng, 1, 10);
    let b2: u8 = if r < b1 {
        r
    } else {
        r + 1
    };

    let ghost m5 = main@;
    let mut numbers = main;
    numbers.push(b1);
    numbers.push(b2);
    let d = Draw { numbers };
    assert(d.valid()) by {
        assert(d@ == m5.push(b1).push(b2));
        assert(d@.len() == 7);
        assert forall|i: int| 0 <= i < 5 implies 1 <= #[trigger] d@[i] <= 50 by {
            assert(d@[i] == m5[i]);
            assert(m5.contains(m5[i]));
        }
        assert forall|i: int, j: int| 0 <= i < j < 5 implies #[trigger] d@[i]
            < #[trigger] d@[j] by {
            assert(d@[i] == m5[i] && d@[j] == m5[j]);
        }
        assert(d@[5] == b1 && d@[6] == b2);
    }
    d
}

} // verus!
