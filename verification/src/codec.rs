use vstd::prelude::*;

use crate::draw::Draw;
use crate::topk::TopKEntry;

verus! {

/// Whitespace bytes that separate tokens within a line.
pub open spec fn is_ws(b: u8) -> bool {
    b == 32 || b == 9 || b == 11 || b == 12 || b == 13
}

pub open spec fn is_digit(b: u8) -> bool {
    48 <= b <= 57
}

pub open spec fn all_digits(s: Seq<u8>) -> bool {
    forall|i: int| 0 <= i < s.len() ==> is_digit(#[trigger] s[i])
}

/// The index of the first whitespace byte, or the length when there
/// is none.
pub open spec fn first_ws(s: Seq<u8>) -> int
    decreases s.len(),
{
    if s.len() == 0 {
        0
    } else if is_ws(s[0]) {
        0
    } else {
        1 + first_ws(s.drop_first())
    }
}

/// The index of the first line-feed byte, or the length when there is
/// none.
pub open spec fn first_nl(s: Seq<u8>) -> int
    decreases s.len(),
{
    if s.len() == 0 {
        0
    } else if s[0] == 10 {
        0
    } else {
        1 + first_nl(s.drop_first())
    }
}

proof fn lemma_first_ws_bounds(s: Seq<u8>)
    ensures
        0 <= first_ws(s) <= s.len(),
    decreases s.len(),
{
    if s.len() > 0 && !is_ws(s[0]) {
        lemma_first_ws_bounds(s.drop_first());
    }
}

proof fn lemma_first_nl_bounds(s: Seq<u8>)
    ensures
        0 <= first_nl(s) <= s.len(),
    decreases s.len(),
{
    if s.len() > 0 && s[0] != 10 {
        lemma_first_nl_bounds(s.drop_first());
    }
}

/// Pins the first-whitespace index of a sequence whose prefix is
/// whitespace-free.
proof fn lemma_first_ws_prefix(s: Seq<u8>, m: int)
    requires
        0 <= m <= s.len(),
        forall|i: int| 0 <= i < m ==> !is_ws(#[trigger] s[i]),
        m == s.len() || is_ws(s[m]),
    ensures
        first_ws(s) == m,
    decreases m,
{
    if m == 0 {
    } else {
        assert(!is_ws(s[0]));
        assert(forall|i: int| 0 <= i < m - 1 ==> #[trigger] s.drop_first()[i] == s[i + 1]);
        lemma_first_ws_prefix(s.drop_first(), m - 1);
    }
}

proof fn lemma_first_nl_prefix(s: Seq<u8>, m: int)
    requires
        0 <= m <= s.len(),
        forall|i: int| 0 <= i < m ==> #[trigger] s[i] != 10,
        m == s.len() || s[m] == 10,
    ensures
        first_nl(s) == m,
    decreases m,
{
    if m == 0 {
    } else {
        assert(s[0] != 10);
        assert(forall|i: int| 0 <= i < m - 1 ==> #[trigger] s.drop_first()[i] == s[i + 1]);
        lemma_first_nl_prefix(s.drop_first(), m - 1);
    }
}

/// The whitespace-separated tokens of a line.
pub open spec fn tokens_of(s: Seq<u8>) -> Seq<Seq<u8>>
    decreases s.len(),
    via tokens_of_decreases
{
    if s.len() == 0 {
        Seq::empty()
    } else if is_ws(s[0]) {
        tokens_of(s.drop_first())
    } else {
        seq![s.take(first_ws(s))] + tokens_of(s.skip(first_ws(s)))
    }
}

#[via_fn]
proof fn tokens_of_decreases(s: Seq<u8>) {
    if s.len() > 0 && !is_ws(s[0]) {
        lemma_first_ws_bounds(s.drop_first());
        assert(first_ws(s) >= 1);
    }
}

/// The lines of a byte stream, split at line feeds; a trailing line
/// feed closes the last line.
pub open spec fn lines_of(s: Seq<u8>) -> Seq<Seq<u8>>
    decreases s.len(),
    via lines_of_decreases
{
    if s.len() == 0 {
        Seq::empty()
    } else if first_nl(s) == s.len() {
        seq![s]
    } else {
        seq![s.take(first_nl(s))] + lines_of(s.skip(first_nl(s) + 1))
    }
}

#[via_fn]
proof fn lines_of_decreases(s: Seq<u8>) {
    if s.len() > 0 {
        lemma_first_nl_bounds(s);
    }
}

/// The numeric value of a digit string.
pub open spec fn val_of(s: Seq<u8>) -> int
    decreases s.len(),
{
    if s.len() == 0 {
        0
    } else {
        val_of(s.drop_last()) * 10 + (s.last() - 48)
    }
}

/// A token read as one stored number: it must be non-empty, all
/// digits, and fit in a byte.
pub open spec fn token_value(t: Seq<u8>) -> Option<u8> {
    if t.len() > 0 && all_digits(t) && val_of(t) <= 255 {
        Some(val_of(t) as u8)
    } else {
        None
    }
}

/// A line read as one draw: it is accepted exactly when it splits
/// into 7 tokens that all read as stored numbers.
pub open spec fn line_draw(line: Seq<u8>) -> Option<Seq<u8>> {
    let ts = tokens_of(line);
    if ts.len() == 7 && (forall|i: int| 0 <= i < 7 ==> token_value(#[trigger] ts[i]) is Some) {
        Some(Seq::new(7, |i: int| token_value(ts[i]).unwrap()))
    } else {
        None
    }
}

/// The accepted draws of a line list, in order; rejected lines are
/// skipped.
pub open spec fn draws_of(lines: Seq<Seq<u8>>) -> Seq<Seq<u8>>
    decreases lines.len(),
{
    if lines.len() == 0 {
        Seq::empty()
    } else {
        (match line_draw(lines[0]) {
            Some(d) => seq![d],
            None => Seq::empty(),
        }) + draws_of(lines.drop_first())
    }
}

/// What a persisted byte stream holds: the accepted draws of its
/// lines, in file order.
pub open spec fn parse_spec(s: Seq<u8>) -> Seq<Seq<u8>> {
    draws_of(lines_of(s))
}

/// The decimal digits of a number, most significant first.
pub open spec fn dec_digits(n: nat) -> Seq<u8>
    decreases n,
{
    if n < 10 {
        seq![(48 + n) as u8]
    } else {
        dec_digits(n / 10).push((48 + n % 10) as u8)
    }
}

/// One draw as a line: its numbers in decimal, separated by single
/// spaces.
pub open spec fn render_nums(d: Seq<u8>) -> Seq<u8>
    decreases d.len(),
{
    if d.len() == 0 {
        Seq::empty()
    } else if d.len() == 1 {
        dec_digits(d[0] as nat)
    } else {
        dec_digits(d[0] as nat) + seq![32u8] + render_nums(d.drop_first())
    }
}

/// A draw list as a byte stream: one line per draw, each closed by a
/// line feed.
pub open spec fn render_spec(ds: Seq<Seq<u8>>) -> Seq<u8>
    decreases ds.len(),
{
    if ds.len() == 0 {
        Seq::empty()
    } else {
        render_nums(ds[0]) + seq![10u8] + render_spec(ds.drop_first())
    }
}

proof fn lemma_dec_digits(n: nat)
    ensures
        dec_digits(n).len() >= 1,
        all_digits(dec_digits(n)),
        val_of(dec_digits(n)) == n,
    decreases n,
{
    if n < 10 {
        let d = dec_digits(n);
        assert(d.len() == 1);
        assert(d.drop_last() =~= Seq::<u8>::empty());
        assert(d.last() == 48 + n);
        assert(val_of(d.drop_last()) == 0);
        assert(val_of(d) == val_of(d.drop_last()) * 10 + (d.last() - 48));
        assert(val_of(d) == n);
    } else {
        lemma_dec_digits(n / 10);
        let p = dec_digits(n / 10);
        let d = dec_digits(n);
        assert(d == p.push((48 + n % 10) as u8));
        assert(d.drop_last() =~= p);
        assert(d.last() == 48 + n % 10);
        assert(0 <= n % 10 < 10);
        assert(val_of(d) == val_of(p) * 10 + n % 10);
        assert((n / 10) * 10 + n % 10 == n) by {
            vstd::arithmetic::div_mod::lemma_fundamental_div_mod(n as int, 10);
        }
        assert(val_of(d) == n);
        assert forall|i: int| 0 <= i < d.len() implies is_digit(#[trigger] d[i]) by {
            if i < p.len() {
                assert(d[i] == p[i]);
            }
        }
    }
}

proof fn lemma_val_nonneg(t: Seq<u8>)
    requires
        all_digits(t),
    ensures
        val_of(t) >= 0,
    decreases t.len(),
{
    if t.len() > 0 {
        assert(forall|i: int| 0 <= i < t.len() - 1 ==> #[trigger] t.drop_last()[i] == t[i]);
        lemma_val_nonneg(t.drop_last());
        assert(is_digit(t.last()));
    }
}

/// The value of a digit string never falls below the value of any of
/// its prefixes.
proof fn lemma_val_monotone(t: Seq<u8>, i: int)
    requires
        all_digits(t),
        0 <= i <= t.len(),
    ensures
        val_of(t) >= val_of(t.take(i)),
    decreases t.len() - i,
{
    if i < t.len() {
        lemma_val_monotone(t, i + 1);
        assert(t.take(i + 1).drop_last() =~= t.take(i));
        assert(t.take(i + 1).last() == t[i]);
        assert(forall|j: int| 0 <= j < i ==> #[trigger] t.take(i)[j] == t[j]);
        assert(all_digits(t.take(i))) by {
            assert(forall|j: int| 0 <= j < i ==> #[trigger] t.take(i)[j] == t[j]);
        }
        lemma_val_nonneg(t.take(i));
        assert(is_digit(t[i]));
        assert(val_of(t.take(i + 1)) == val_of(t.take(i)) * 10 + (t[i] - 48));
        assert(val_of(t.take(i + 1)) >= val_of(t.take(i)));
    } else {
        assert(t.take(i) =~= t);
    }
}

/// Peeling one token off the front of a token stream.
proof fn lemma_tokens_peel(t: Seq<u8>, rest: Seq<u8>)
    requires
        t.len() >= 1,
        forall|i: int| 0 <= i < t.len() ==> !is_ws(#[trigger] t[i]),
        rest.len() == 0 || is_ws(rest[0]),
    ensures
        tokens_of(t + rest) == seq![t] + tokens_of(rest),
{
    let s = t + rest;
    assert(forall|i: int| 0 <= i < t.len() ==> #[trigger] s[i] == t[i]);
    lemma_first_ws_prefix(s, t.len() as int);
    assert(s.len() > 0 && !is_ws(s[0]));
    assert(s.take(t.len() as int) =~= t);
    assert(s.skip(t.len() as int) =~= rest);
}

/// A leading whitespace byte never changes the tokens.
proof fn lemma_tokens_ws(w: u8, rest: Seq<u8>)
    requires
        is_ws(w),
    ensures
        tokens_of(seq![w] + rest) == tokens_of(rest),
{
    let s = seq![w] + rest;
    assert(s.len() > 0 && is_ws(s[0]));
    assert(s.drop_first() =~= rest);
}

/// A rendered line holds only digits and spaces.
proof fn lemma_render_nums_bytes(d: Seq<u8>)
    ensures
        forall|i: int|
            0 <= i < render_nums(d).len() ==> (is_digit(#[trigger] render_nums(d)[i])
                || render_nums(d)[i] == 32),
    decreases d.len(),
{
    if d.len() == 0 {
    } else if d.len() == 1 {
        lemma_dec_digits(d[0] as nat);
    } else {
        lemma_dec_digits(d[0] as nat);
        lemma_render_nums_bytes(d.drop_first());
        let h = dec_digits(d[0] as nat);
        let r = render_nums(d.drop_first());
        assert forall|i: int| 0 <= i < render_nums(d).len() implies (is_digit(
            #[trigger] render_nums(d)[i],
        ) || render_nums(d)[i] == 32) by {
            if i < h.len() {
                assert(render_nums(d)[i] == h[i]);
            } else if i == h.len() {
                assert(render_nums(d)[i] == 32);
            } else {
                assert(render_nums(d)[i] == r[i - h.len() - 1]);
            }
        }
    }
}

/// The tokens of a rendered line are exactly the digit strings of its
/// numbers.
proof fn lemma_tokens_render_nums(d: Seq<u8>)
    ensures
        tokens_of(render_nums(d)) == Seq::new(d.len(), |i: int| dec_digits(d[i] as nat)),
    decreases d.len(),
{
    if d.len() == 0 {
        assert(tokens_of(render_nums(d)) =~= Seq::new(d.len(), |i: int| dec_digits(d[i] as nat)));
    } else if d.len() == 1 {
        lemma_dec_digits(d[0] as nat);
        let h = dec_digits(d[0] as nat);
        assert(h + Seq::<u8>::empty() =~= h);
        assert forall|i: int| 0 <= i < h.len() implies !is_ws(#[trigger] h[i]) by {
            assert(is_digit(h[i]));
        }
        lemma_tokens_peel(h, Seq::empty());
        assert(tokens_of(Seq::<u8>::empty()) =~= Seq::<Seq<u8>>::empty());
        assert(tokens_of(render_nums(d)) =~= Seq::new(d.len(), |i: int| dec_digits(d[i] as nat)));
    } else {
        lemma_dec_digits(d[0] as nat);
        lemma_tokens_render_nums(d.drop_first());
        let h = dec_digits(d[0] as nat);
        let tail = render_nums(d.drop_first());
        assert(render_nums(d) == h + seq![32u8] + tail);
        assert(h + seq![32u8] + tail =~= h + (seq![32u8] + tail));
        assert forall|i: int| 0 <= i < h.len() implies !is_ws(#[trigger] h[i]) by {
            assert(is_digit(h[i]));
        }
        assert((seq![32u8] + tail)[0] == 32);
        lemma_tokens_peel(h, seq![32u8] + tail);
        lemma_tokens_ws(32, tail);
        let expect = Seq::new(d.len(), |i: int| dec_digits(d[i] as nat));
        let tailexp = Seq::new(
            d.drop_first().len(),
            |i: int| dec_digits(d.drop_first()[i] as nat),
        );
        assert(tokens_of(render_nums(d)) == seq![h] + tailexp);
        assert(seq![h] + tailexp =~= expect);
    }
}

/// A rendered line reads back as exactly its draw.
proof fn lemma_line_round(d: Seq<u8>)
    requires
        d.len() == 7,
    ensures
        line_draw(render_nums(d)) == Some(d),
{
    lemma_tokens_render_nums(d);
    let ts = tokens_of(render_nums(d));
    assert(ts.len() == 7);
    assert forall|i: int| 0 <= i < 7 implies token_value(#[trigger] ts[i]) == Some(d[i]) by {
        assert(ts[i] == dec_digits(d[i] as nat));
        lemma_dec_digits(d[i] as nat);
        assert(val_of(ts[i]) == d[i] as int);
    }
    assert(Seq::new(7, |i: int| token_value(ts[i]).unwrap()) =~= d);
}

/// Peeling one line off the front of a byte stream.
proof fn lemma_lines_peel(l: Seq<u8>, rest: Seq<u8>)
    requires
        forall|i: int| 0 <= i < l.len() ==> #[trigger] l[i] != 10,
    ensures
        lines_of(l + seq![10u8] + rest) == seq![l] + lines_of(rest),
{
    let s = l + seq![10u8] + rest;
    assert(forall|i: int| 0 <= i < l.len() ==> #[trigger] s[i] == l[i]);
    assert(s[l.len() as int] == 10);
    lemma_first_nl_prefix(s, l.len() as int);
    assert(s.len() > 0);
    assert(first_nl(s) == l.len() < s.len());
    assert(s.take(l.len() as int) =~= l);
    assert(s.skip(l.len() as int + 1) =~= rest);
}

/// Law: a saved top-K list reads back as exactly its draws, in the
/// same order.
pub proof fn lemma_round_trip(ds: Seq<Seq<u8>>)
    requires
        forall|i: int| 0 <= i < ds.len() ==> (#[trigger] ds[i]).len() == 7,
    ensures
        parse_spec(render_spec(ds)) == ds,
    decreases ds.len(),
{
    if ds.len() == 0 {
        assert(lines_of(render_spec(ds)) =~= Seq::<Seq<u8>>::empty());
        assert(parse_spec(render_spec(ds)) =~= ds);
    } else {
        let d0 = ds[0];
        let line = render_nums(d0);
        let rest = render_spec(ds.drop_first());
        assert(render_spec(ds) == line + seq![10u8] + rest);
        lemma_render_nums_bytes(d0);
        assert forall|i: int| 0 <= i < line.len() implies #[trigger] line[i] != 10 by {
            assert(is_digit(line[i]) || line[i] == 32);
        }
        lemma_lines_peel(line, rest);
        let ls = seq![line] + lines_of(rest);
        assert(ls.len() > 0);
        assert(ls[0] == line);
        assert(ls.drop_first() =~= lines_of(rest));
        lemma_line_round(d0);
        assert(draws_of(ls) == seq![d0] + draws_of(lines_of(rest)));
        assert(forall|i: int|
            0 <= i < ds.drop_first().len() ==> (#[trigger] ds.drop_first()[i]).len() == 7);
        lemma_round_trip(ds.drop_first());
        assert(seq![d0] + ds.drop_first() =~= ds);
    }
}

proof fn lemma_render_spec_snoc(ds: Seq<Seq<u8>>, d: Seq<u8>)
    ensures
        render_spec(ds.push(d)) == render_spec(ds) + render_nums(d) + seq![10u8],
    decreases ds.len(),
{
    if ds.len() == 0 {
        assert(ds.push(d)[0] == d);
        assert(ds.push(d).drop_first() =~= Seq::<Seq<u8>>::empty());
        assert(render_spec(ds.push(d).drop_first()) =~= Seq::<u8>::empty());
        assert(render_spec(ds.push(d)) == render_nums(d) + seq![10u8] + Seq::<u8>::empty());
        assert(render_spec(ds) =~= Seq::<u8>::empty());
        assert(render_nums(d) + seq![10u8] + Seq::<u8>::empty() =~= render_spec(ds)
            + render_nums(d) + seq![10u8]);
    } else {
        assert(ds.push(d)[0] == ds[0]);
        assert(ds.push(d).drop_first() =~= ds.drop_first().push(d));
        lemma_render_spec_snoc(ds.drop_first(), d);
        assert(render_spec(ds.push(d)) == render_nums(ds[0]) + seq![10u8] + (render_spec(
            ds.drop_first(),
        ) + render_nums(d) + seq![10u8]));
        assert(render_nums(ds[0]) + seq![10u8] + (render_spec(ds.drop_first()) + render_nums(d)
            + seq![10u8]) =~= render_spec(ds) + render_nums(d) + seq![10u8]);
    }
}

proof fn lemma_render_nums_snoc(d: Seq<u8>, v: u8)
    ensures
        d.len() == 0 ==> render_nums(d.push(v)) == dec_digits(v as nat),
        d.len() > 0 ==> render_nums(d.push(v)) == render_nums(d) + seq![32u8] + dec_digits(
            v as nat,
        ),
    decreases d.len(),
{
    if d.len() == 0 {
        assert(d.push(v).len() == 1);
        assert(d.push(v)[0] == v);
    } else if d.len() == 1 {
        assert(d.push(v)[0] == d[0]);
        assert(d.push(v).drop_first() =~= seq![v]);
        assert(render_nums(seq![v]) == dec_digits(v as nat));
        assert(render_nums(d) == dec_digits(d[0] as nat));
    } else {
        assert(d.push(v)[0] == d[0]);
        assert(d.push(v).drop_first() =~= d.drop_first().push(v));
        lemma_render_nums_snoc(d.drop_first(), v);
        assert(dec_digits(d[0] as nat) + seq![32u8] + (render_nums(d.drop_first()) + seq![32u8]
            + dec_digits(v as nat)) =~= render_nums(d) + seq![32u8] + dec_digits(v as nat));
    }
}

/// The decimal digits of one stored number.
fn u8_digits(n: u8) -> (r: Vec<u8>)
    ensures
        r@ == dec_digits(n as nat),
{
    let mut r: Vec<u8> = Vec::new();
    if n >= 100 {
        r.push(48 + n / 100);
        r.push(48 + (n / 10) % 10);
        r.push(48 + n % 10);
        proof {
            assert(n / 10 < 100 && n / 10 >= 10);
            assert(n / 10 / 10 == n / 100) by (nonlinear_arith);
            assert(dec_digits(n as nat) == dec_digits((n / 10) as nat).push((48 + n % 10) as u8));
            assert(dec_digits((n / 10) as nat) == dec_digits((n / 100) as nat).push(
                (48 + (n / 10) % 10) as u8,
            ));
            assert(dec_digits((n / 100) as nat) =~= seq![(48 + n / 100) as u8]);
            assert(r@ =~= dec_digits(n as nat));
        }
    } else if n >= 10 {
        r.push(48 + n / 10);
        r.push(48 + n % 10);
        proof {
            assert(dec_digits(n as nat) == dec_digits((n / 10) as nat).push((48 + n % 10) as u8));
            assert(dec_digits((n / 10) as nat) =~= seq![(48 + n / 10) as u8]);
            assert(r@ =~= dec_digits(n as nat));
        }
    } else {
        r.push(48 + n);
        proof {
            assert(r@ =~= dec_digits(n as nat));
        }
    }
    r
}

/// The draws of a top-K list, in list order.
pub open spec fn entry_draws(s: Seq<TopKEntry>) -> Seq<Seq<u8>> {
    Seq::new(s.len(), |i: int| s[i]@.0)
}

/// Serializes a top-K list for the checkpoint: one line of 7
/// numbers per entry, counts omitted, in list order.
pub fn render_checkpoint(list: &Vec<TopKEntry>) -> (out: Vec<u8>)
    ensures
        out@ == render_spec(entry_draws(list@)),
{
    let ghost ds = entry_draws(list@);
    let mut out: Vec<u8> = Vec::new();
    let mut i: usize = 0;
    proof {
        assert(ds.take(0) =~= Seq::<Seq<u8>>::empty());
        assert(out@ =~= render_spec(ds.take(0)));
    }
    while i < list.len()
        invariant
            0 <= i <= list@.len(),
            ds == entry_draws(list@),
            out@ == render_spec(ds.take(i as int)),
        decreases list@.len() - i,
    {
        let e = &list[i];
        let ghost d = ds[i as int];
        let ghost line_start = out@;
        let mut j: usize = 0;
        let ghost out_before = out@;
        while j < e.draw.numbers.len()
            invariant
                0 <= j <= e.draw.numbers@.len(),
                d == e.draw@,
                out@ == out_before + render_nums(d.take(j as int)),
            decreases e.draw.numbers@.len() - j,
        {
            if j > 0 {
                out.push(32);
            }
            let digits = u8_digits(e.draw.numbers[j]);
            let mut q: usize = 0;
            let ghost out_mid = out@;
            while q < digits.len()
                invariant
                    0 <= q <= digits@.len(),
                    out@ == out_mid + digits@.take(q as int),
                decreases digits@.len() - q,
            {
                let b = digits[q];
                out.push(b);
                proof {
                    assert(out@ =~= out_mid + digits@.take(q as int + 1));
                }
                q += 1;
            }
            proof {
                assert(digits@.take(digits@.len() as int) =~= digits@);
                assert(d.take(j as int + 1) =~= d.take(j as int).push(d[j as int]));
                lemma_render_nums_snoc(d.take(j as int), d[j as int]);
                assert(digits@ == dec_digits(d[j as int] as nat));
                if j == 0 {
                    assert(out@ =~= out_before + render_nums(d.take(j as int + 1)));
                } else {
                    assert(out@ =~= out_before + render_nums(d.take(j as int + 1)));
                }
            }
            j += 1;
        }
        out.push(10);
        proof {
            assert(d.take(d.len() as int) =~= d);
            assert(ds.take(i as int + 1) =~= ds.take(i as int).push(d));
            lemma_render_spec_snoc(ds.take(i as int), d);
            assert(out@ =~= render_spec(ds.take(i as int + 1)));
        }
        i += 1;
    }
    proof {
        assert(ds.take(list@.len() as int) =~= ds);
    }
    out
}

/// Reads one token as a stored number.
fn token_to_u8(t: &Vec<u8>) -> (r: Option<u8>)
    ensures
        r == token_value(t@),
{
    if t.len() == 0 {
        return None;
    }
    let mut v: u32 = 0;
    let mut i: usize = 0;
    while i < t.len()
        invariant
            0 <= i <= t@.len(),
            t@.len() > 0,
            v == val_of(t@.take(i as int)),
            v <= 255,
            all_digits(t@.take(i as int)),
        decreases t@.len() - i,
    {
        let b = t[i];
        if b < 48 || b > 57 {
            proof {
                assert(!is_digit(t@[i as int]));
                assert(!all_digits(t@));
            }
            return None;
        }
        proof {
            assert(t@.take(i as int + 1).drop_last() =~= t@.take(i as int));
            assert(t@.take(i as int + 1).last() == t@[i as int]);
            assert(all_digits(t@.take(i as int + 1))) by {
                assert(forall|m: int|
                    0 <= m < i ==> #[trigger] t@.take(i as int + 1)[m] == t@.take(i as int)[m]);
            }
        }
        let nv: u32 = v * 10 + (b - 48) as u32;
        if nv > 255 {
            proof {
                assert(val_of(t@.take(i as int + 1)) == nv);
                if all_digits(t@) {
                    lemma_val_monotone(t@, i as int + 1);
                    assert(val_of(t@) > 255);
                }
            }
            return None;
        }
        v = nv;
        i += 1;
    }
    proof {
        assert(t@.take(t@.len() as int) =~= t@);
        lemma_val_nonneg(t@);
    }
    Some(v as u8)
}

/// Splits a line into its whitespace-separated tokens.
fn tokenize(line: &Vec<u8>) -> (r: Vec<Vec<u8>>)
    ensures
        r@.map_values(|t: Vec<u8>| t@) == tokens_of(line@),
{
    let mut r: Vec<Vec<u8>> = Vec::new();
    let mut p: usize = 0;
    let ghost lv = line@;
    proof {
        assert(r@.map_values(|t: Vec<u8>| t@) =~= Seq::<Seq<u8>>::empty());
        assert(lv.skip(0) =~= lv);
        assert(Seq::<Seq<u8>>::empty() + tokens_of(lv) =~= tokens_of(lv));
    }
    while p < line.len()
        invariant
            0 <= p <= lv.len(),
            lv == line@,
            r@.map_values(|t: Vec<u8>| t@) + tokens_of(lv.skip(p as int)) == tokens_of(lv),
        decreases lv.len() - p,
    {
        let b = line[p];
        if b == 32 || b == 9 || b == 11 || b == 12 || b == 13 {
            proof {
                assert(is_ws(lv.skip(p as int)[0]));
                assert(lv.skip(p as int).drop_first() =~= lv.skip(p as int + 1));
            }
            p += 1;
        } else {
            let mut q: usize = p;
            while q < line.len() && !(line[q] == 32 || line[q] == 9 || line[q] == 11 || line[q]
                == 12 || line[q] == 13)
                invariant
                    0 <= p <= q <= lv.len(),
                    lv == line@,
                    forall|m: int| p <= m < q ==> !is_ws(#[trigger] lv[m]),
                decreases lv.len() - q,
            {
                q += 1;
            }
            let mut tok: Vec<u8> = Vec::new();
            let mut m: usize = p;
            while m < q
                invariant
                    p <= m <= q <= lv.len(),
                    lv == line@,
                    tok@ == lv.subrange(p as int, m as int),
                decreases q - m,
            {
                let c = line[m];
                tok.push(c);
                proof {
                    assert(tok@ =~= lv.subrange(p as int, m as int + 1));
                }
                m += 1;
            }
            let ghost oldtoks = r@;
            r.push(tok);
            proof {
                let t = lv.subrange(p as int, q as int);
                let rest = lv.skip(q as int);
                assert(t.len() >= 1);
                assert(forall|mm: int| 0 <= mm < t.len() ==> #[trigger] t[mm] == lv[p + mm]);
                assert(forall|mm: int| 0 <= mm < t.len() ==> !is_ws(#[trigger] t[mm]));
                assert(rest.len() == 0 || is_ws(rest[0]));
                assert(t + rest =~= lv.skip(p as int));
                lemma_tokens_peel(t, rest);
                assert(r@.map_values(|t2: Vec<u8>| t2@) =~= oldtoks.map_values(
                    |t2: Vec<u8>| t2@,
                ).push(t));
                assert(oldtoks.map_values(|t2: Vec<u8>| t2@).push(t) + tokens_of(rest)
                    =~= oldtoks.map_values(|t2: Vec<u8>| t2@) + (seq![t] + tokens_of(rest)));
            }
            p = q;
        }
    }
    proof {
        assert(lv.skip(lv.len() as int) =~= Seq::<u8>::empty());
        assert(tokens_of(Seq::<u8>::empty()) =~= Seq::<Seq<u8>>::empty());
        assert(r@.map_values(|t: Vec<u8>| t@) + Seq::<Seq<u8>>::empty() =~= r@.map_values(
            |t: Vec<u8>| t@,
        ));
    }
    r
}

/// Reads one line as a draw, if it is well formed.
pub fn parse_line(line: &Vec<u8>) -> (r: Option<Draw>)
    ensures
        match r {
            Some(d) => line_draw(line@) == Some(d@) && d.wf(),
            None => line_draw(line@) is None,
        },
{
    let toks = tokenize(line);
    let ghost ts = tokens_of(line@);
    if toks.len() != 7 {
        return None;
    }
    let mut vals: Vec<u8> = Vec::new();
    let mut i: usize = 0;
    while i < 7
        invariant
            0 <= i <= 7,
            toks@.len() == 7,
            ts == tokens_of(line@),
            toks@.map_values(|t: Vec<u8>| t@) == ts,
            vals@.len() == i,
            forall|j: int| 0 <= j < i ==> token_value(#[trigger] ts[j]) == Some(vals@[j]),
        decreases 7 - i,
    {
        let t = &toks[i];
        proof {
            assert(t@ == ts[i as int]);
        }
        match token_to_u8(t) {
            Some(v) => {
                vals.push(v);
            },
            None => {
                proof {
                    assert(token_value(ts[i as int]) is None);
                }
                return None;
            },
        }
        i += 1;
    }
    proof {
        assert(line_draw(line@) == Some(Seq::new(7, |j: int| token_value(ts[j]).unwrap())));
        assert(vals@ =~= Seq::new(7, |j: int| token_value(ts[j]).unwrap()));
    }
    Some(Draw::new(vals))
}

/// Reads a persisted checkpoint: each line parsed on its own,
/// malformed lines skipped, accepted draws in file order.
pub fn parse_checkpoint(data: &Vec<u8>) -> (r: Vec<Draw>)
    ensures
        r@.map_values(|d: Draw| d@) == parse_spec(data@),
        forall|i: int| 0 <= i < r@.len() ==> (#[trigger] r@[i]).wf(),
{
    let ghost dv = data@;
    let mut r: Vec<Draw> = Vec::new();
    let mut p: usize = 0;
    proof {
        assert(r@.map_values(|d: Draw| d@) =~= Seq::<Seq<u8>>::empty());
        assert(dv.skip(0) =~= dv);
        assert(Seq::<Seq<u8>>::empty() + draws_of(lines_of(dv)) =~= draws_of(lines_of(dv)));
    }
    while p < data.len()
        invariant
            0 <= p <= dv.len(),
            dv == data@,
            r@.map_values(|d: Draw| d@) + draws_of(lines_of(dv.skip(p as int))) == parse_spec(
                dv,
            ),
            forall|i: int| 0 <= i < r@.len() ==> (#[trigger] r@[i]).wf(),
        decreases dv.len() - p,
    {
        let mut q: usize = p;
        while q < data.len() && data[q] != 10
            invariant
                0 <= p <= q <= dv.len(),
                dv == data@,
                forall|m: int| p <= m < q ==> #[trigger] dv[m] != 10,
            decreases dv.len() - q,
        {
            q += 1;
        }
        let mut line: Vec<u8> = Vec::new();
        let mut m: usize = p;
        while m < q
            invariant
                p <= m <= q <= dv.len(),
                dv == data@,
                line@ == dv.subrange(p as int, m as int),
            decreases q - m,
        {
            let c = data[m];
            line.push(c);
            proof {
                assert(line@ =~= dv.subrange(p as int, m as int + 1));
            }
            m += 1;
        }
        let ghost oldr = r@;
        let parsed = parse_line(&line);
        let ghost gparsed = parsed;
        match parsed {
            Some(d) => {
                r.push(d);
            },
            None => {},
        }
        proof {
            let l = dv.subrange(p as int, q as int);
            let suffix = dv.skip(p as int);
            assert(forall|mm: int| 0 <= mm < l.len() ==> #[trigger] l[mm] == dv[p + mm]);
            assert(forall|mm: int| 0 <= mm < l.len() ==> #[trigger] l[mm] != 10);
            if q < dv.len() {
                assert(dv[q as int] == 10);
                let rest = dv.skip(q as int + 1);
                assert(l + seq![10u8] + rest =~= suffix);
                lemma_lines_peel(l, rest);
                assert(lines_of(suffix) == seq![l] + lines_of(rest));
                assert((seq![l] + lines_of(rest))[0] == l);
                assert((seq![l] + lines_of(rest)).drop_first() =~= lines_of(rest));
                assert(draws_of(lines_of(suffix)) == (match line_draw(l) {
                    Some(d2) => seq![d2],
                    None => Seq::<Seq<u8>>::empty(),
                }) + draws_of(lines_of(rest)));
            } else {
                assert(l =~= suffix);
                assert(suffix.len() > 0);
                lemma_first_nl_prefix(suffix, suffix.len() as int);
                assert(lines_of(suffix) == seq![suffix]);
                assert((seq![suffix])[0] == suffix);
                assert((seq![suffix]).drop_first() =~= Seq::<Seq<u8>>::empty());
                assert(draws_of(lines_of(suffix)) == (match line_draw(l) {
                    Some(d2) => seq![d2],
                    None => Seq::<Seq<u8>>::empty(),
                }) + Seq::<Seq<u8>>::empty());
            }
            match gparsed {
                Some(d) => {
                    assert(r@.map_values(|d2: Draw| d2@) =~= oldr.map_values(|d2: Draw| d2@).push(
                        d@,
                    ));
                    assert(oldr.map_values(|d2: Draw| d2@).push(d@) + draws_of(
                        lines_of(dv.skip(if q < dv.len() {
                            q as int + 1
                        } else {
                            q as int
                        })),
                    ) =~= oldr.map_values(|d2: Draw| d2@) + draws_of(lines_of(suffix)));
                },
                None => {
                    assert(r@ == oldr);
                    assert(oldr.map_values(|d2: Draw| d2@) + draws_of(
                        lines_of(dv.skip(if q < dv.len() {
                            q as int + 1
                        } else {
                            q as int
                        })),
                    ) =~= oldr.map_values(|d2: Draw| d2@) + draws_of(lines_of(suffix)));
                },
            }
        }
        if q < data.len() {
            p = q + 1;
        } else {
            p = q;
        }
    }
    proof {
        assert(dv.skip(dv.len() as int) =~= Seq::<u8>::empty());
        assert(lines_of(Seq::<u8>::empty()) =~= Seq::<Seq<u8>>::empty());
        assert(r@.map_values(|d: Draw| d@) + Seq::<Seq<u8>>::empty() =~= r@.map_values(
            |d: Draw| d@,
        ));
    }
    r
}

} // verus!
