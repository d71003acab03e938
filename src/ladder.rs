use vstd::prelude::*;
use vstd::arithmetic::div_mod::{lemma_div_is_ordered, lemma_div_by_multiple};
use vstd::arithmetic::mul::lemma_mul_inequality;
use crate::param::{SCALE, abs};
use crate::radical::{Nucleus, Radical};
use crate::error::SimError;

verus! {

// ---------------------------------------------------------------------------
// The stick spectrum as mathematics.
//
// Index 1 of a ladder of `points` slots starts with one unit of intensity.
// Every equivalent copy of every nucleus, in list order, splits each tick at
// index `h` into itself plus `n` copies at `h + offset(k)`, `k = 1..=n`, where
// `n = floor(2 * spin)` and `offset(k) = floor(k * |hpf| / step)` with
// `step = sweep / (points - 1)`.
// ---------------------------------------------------------------------------

/// Number of extra ticks a tick splits into: `floor(2 * spin)`.
pub open spec fn splits(spin: i64) -> nat {
    if spin > 0 {
        ((2 * spin) as int / SCALE as int) as nat
    } else {
        0
    }
}

/// Each split multiplies the total intensity by this factor.
pub open spec fn factor(spin: i64) -> int {
    1 + splits(spin) as int
}

/// Number of equivalent copies: the integer part of `eqs`, at least 0.
pub open spec fn copies(eqs: i64) -> nat {
    if eqs > 0 {
        (eqs as int / SCALE as int) as nat
    } else {
        0
    }
}

/// Index distance of the `k`-th split tick for coupling magnitude `c`.
pub open spec fn offset(k: nat, c: nat, points: nat, sweep: nat) -> nat
    recommends
        sweep > 0,
{
    (k * c * (points - 1) / (sweep as int)) as nat
}

/// What one splitting pass adds at index `j`: the intensities at
/// `j - offset(k)`, `k = 1..=n`, of the sources in `(lo, hi]`.
pub open spec fn gain(
    old: Seq<int>,
    n: nat,
    c: nat,
    points: nat,
    sweep: nat,
    j: int,
    lo: int,
    hi: int,
) -> int
    decreases n,
{
    if n == 0 {
        0
    } else {
        let t = j - offset(n, c, points, sweep);
        gain(old, (n - 1) as nat, c, points, sweep, j, lo, hi) + if lo < t <= hi {
            old[t]
        } else {
            0
        }
    }
}

/// One equivalent copy of a nucleus applied to the ladder `old`.
pub open spec fn pass(old: Seq<int>, n: nat, c: nat, points: nat, sweep: nat) -> Seq<int> {
    Seq::new(old.len(), |j: int| old[j] + gain(old, n, c, points, sweep, j, 0, old.len() - 1))
}

/// `e` equivalent copies of a nucleus applied in turn.
pub open spec fn pass_copies(s: Seq<int>, n: nat, c: nat, points: nat, sweep: nat, e: nat) -> Seq<int>
    decreases e,
{
    if e == 0 {
        s
    } else {
        pass(pass_copies(s, n, c, points, sweep, (e - 1) as nat), n, c, points, sweep)
    }
}

/// All nuclei of `nucs`, in order, applied to `s`.
pub open spec fn pass_nucs(s: Seq<int>, nucs: Seq<Nucleus>, points: nat, sweep: nat) -> Seq<int>
    decreases nucs.len(),
{
    if nucs.len() == 0 {
        s
    } else {
        let m = nucs.last();
        pass_copies(
            pass_nucs(s, nucs.drop_last(), points, sweep),
            splits(m.spin.val),
            abs(m.hpf.val as int) as nat,
            points,
            sweep,
            copies(m.eqs.val),
        )
    }
}

/// The starting ladder: one unit of intensity at index 1.
pub open spec fn unit_ladder(points: nat) -> Seq<int> {
    Seq::new(points, |j: int| if j == 1 { 1int } else { 0int })
}

/// The uncentred stick spectrum of the nuclei `nucs`.
pub open spec fn ladder(nucs: Seq<Nucleus>, points: nat, sweep: nat) -> Seq<int> {
    pass_nucs(unit_ladder(points), nucs, points, sweep)
}

/// Highest populated index of the uncentred ladder.
pub open spec fn peak(nucs: Seq<Nucleus>, points: nat, sweep: nat) -> int
    decreases nucs.len(),
{
    if nucs.len() == 0 {
        1
    } else {
        let m = nucs.last();
        peak(nucs.drop_last(), points, sweep) + copies(m.eqs.val) * offset(
            splits(m.spin.val),
            abs(m.hpf.val as int) as nat,
            points,
            sweep,
        )
    }
}

pub open spec fn power(b: int, e: nat) -> int
    decreases e,
{
    if e == 0 {
        1
    } else {
        b * power(b, (e - 1) as nat)
    }
}

/// Total intensity of the ladder: every split multiplies it by `1 + n`.
pub open spec fn growth(nucs: Seq<Nucleus>) -> int
    decreases nucs.len(),
{
    if nucs.len() == 0 {
        1
    } else {
        let m = nucs.last();
        growth(nucs.drop_last()) * power(factor(m.spin.val), copies(m.eqs.val))
    }
}

/// The ladder `l` moved up by `(points - pk) / 2` slots, so that its
/// populated range `[1, pk]` sits in the middle of `points` slots.
pub open spec fn centered(l: Seq<int>, pk: int, points: nat) -> Seq<int> {
    let shift = (points - pk) / 2;
    Seq::new(points, |t: int| if t >= shift { l[t - shift] } else { 0 })
}

/// Sum of `s` over the indices `(lo, hi]`.
pub open spec fn sum_from(s: Seq<int>, lo: int, hi: int) -> int
    decreases hi - lo,
{
    if lo >= hi {
        0
    } else {
        s[lo + 1] + sum_from(s, lo + 1, hi)
    }
}

pub open spec fn total(s: Seq<int>) -> int {
    sum_from(s, -1, s.len() - 1)
}

pub open spec fn as_ints(v: Seq<u64>) -> Seq<int> {
    v.map_values(|x: u64| x as int)
}

pub open spec fn nonneg(s: Seq<int>) -> bool {
    forall|j: int| 0 <= j < s.len() ==> s[j] >= 0
}

// ---------------------------------------------------------------------------
// Lemmas on sums.
// ---------------------------------------------------------------------------

proof fn lemma_sum_update(s: Seq<int>, lo: int, hi: int, t: int, x: int)
    requires
        -1 <= lo,
        hi < s.len(),
        0 <= t < s.len(),
    ensures
        sum_from(s.update(t, x), lo, hi) == sum_from(s, lo, hi) + if lo < t <= hi {
            x - s[t]
        } else {
            0
        },
    decreases hi - lo,
{
    if lo < hi {
        lemma_sum_update(s, lo + 1, hi, t, x);
    }
}

proof fn lemma_sum_extend(s: Seq<int>, lo: int, hi: int)
    requires
        -1 <= lo <= hi,
        hi + 1 < s.len(),
    ensures
        sum_from(s, lo, hi + 1) == sum_from(s, lo, hi) + s[hi + 1],
    decreases hi - lo,
{
    if lo < hi {
        lemma_sum_extend(s, lo + 1, hi);
    } else {
        assert(sum_from(s, lo + 1, hi + 1) == 0);
    }
}

proof fn lemma_sum_split(s: Seq<int>, a: int, b: int, c: int)
    requires
        -1 <= a <= b <= c,
        c < s.len(),
    ensures
        sum_from(s, a, c) == sum_from(s, a, b) + sum_from(s, b, c),
    decreases b - a,
{
    if a < b {
        lemma_sum_split(s, a + 1, b, c);
    }
}

proof fn lemma_sum_zero(s: Seq<int>, lo: int, hi: int)
    requires
        -1 <= lo,
        hi < s.len(),
        forall|j: int| lo < j <= hi ==> s[j] == 0,
    ensures
        sum_from(s, lo, hi) == 0,
    decreases hi - lo,
{
    if lo < hi {
        lemma_sum_zero(s, lo + 1, hi);
    }
}

proof fn lemma_sum_nonneg(s: Seq<int>, lo: int, hi: int)
    requires
        -1 <= lo,
        hi < s.len(),
        nonneg(s),
    ensures
        sum_from(s, lo, hi) >= 0,
    decreases hi - lo,
{
    if lo < hi {
        lemma_sum_nonneg(s, lo + 1, hi);
    }
}

/// A sum over a sub-range of a non-negative sequence is at most its total.
proof fn lemma_sum_within(s: Seq<int>, lo: int, hi: int)
    requires
        -1 <= lo <= hi,
        hi < s.len(),
        nonneg(s),
    ensures
        sum_from(s, lo, hi) <= total(s),
{
    lemma_sum_split(s, -1, lo, s.len() - 1);
    lemma_sum_split(s, lo, hi, s.len() - 1);
    lemma_sum_nonneg(s, -1, lo);
    lemma_sum_nonneg(s, hi, s.len() - 1);
}

proof fn lemma_entry_within(s: Seq<int>, t: int)
    requires
        0 <= t < s.len(),
        nonneg(s),
    ensures
        s[t] <= total(s),
{
    lemma_sum_split(s, -1, t - 1, s.len() - 1);
    lemma_sum_split(s, t - 1, t, s.len() - 1);
    lemma_sum_nonneg(s, -1, t - 1);
    lemma_sum_nonneg(s, t, s.len() - 1);
}

// ---------------------------------------------------------------------------
// Lemmas on offsets, gains, peaks and growth.
// ---------------------------------------------------------------------------

proof fn lemma_offset_mono(k1: nat, k2: nat, c: nat, points: nat, sweep: nat)
    requires
        k1 <= k2,
        sweep > 0,
        points >= 1,
    ensures
        offset(k1, c, points, sweep) <= offset(k2, c, points, sweep),
{
    assert(k1 * c * (points - 1) <= k2 * c * (points - 1)) by (nonlinear_arith)
        requires
            k1 <= k2,
            points >= 1,
    ;
    assert(k1 * c * (points - 1) >= 0) by (nonlinear_arith)
        requires
            points >= 1,
    ;
    lemma_div_is_ordered(k1 * c * (points - 1), k2 * c * (points - 1), sweep as int);
}

/// Sources at or above `j` contribute nothing at `j`.
proof fn lemma_gain_below(old: Seq<int>, n: nat, c: nat, points: nat, sweep: nat, j: int, lo: int, hi: int)
    requires
        lo >= j,
    ensures
        gain(old, n, c, points, sweep, j, lo, hi) == 0,
    decreases n,
{
    if n > 0 {
        lemma_gain_below(old, (n - 1) as nat, c, points, sweep, j, lo, hi);
    }
}

/// The sources `(lo, hi]` split into `(lo, m]` and `(m, hi]`.
proof fn lemma_gain_split(old: Seq<int>, n: nat, c: nat, points: nat, sweep: nat, j: int, lo: int, m: int, hi: int)
    requires
        lo <= m <= hi,
    ensures
        gain(old, n, c, points, sweep, j, lo, hi) == gain(old, n, c, points, sweep, j, lo, m) + gain(
            old,
            n,
            c,
            points,
            sweep,
            j,
            m,
            hi,
        ),
    decreases n,
{
    if n > 0 {
        lemma_gain_split(old, (n - 1) as nat, c, points, sweep, j, lo, m, hi);
    }
}

/// Sources that hold nothing contribute nothing.
proof fn lemma_gain_zero(old: Seq<int>, n: nat, c: nat, points: nat, sweep: nat, j: int, lo: int, hi: int)
    requires
        forall|t: int| lo < t <= hi ==> old[t] == 0,
    ensures
        gain(old, n, c, points, sweep, j, lo, hi) == 0,
    decreases n,
{
    if n > 0 {
        lemma_gain_zero(old, (n - 1) as nat, c, points, sweep, j, lo, hi);
    }
}

/// No source of `(lo, hi]` reaches `j` when `j - offset(n) > hi`.
proof fn lemma_gain_above(
    old: Seq<int>,
    n: nat,
    top: nat,
    c: nat,
    points: nat,
    sweep: nat,
    j: int,
    lo: int,
    hi: int,
)
    requires
        n <= top,
        sweep > 0,
        points >= 1,
        j - offset(top, c, points, sweep) > hi,
    ensures
        gain(old, n, c, points, sweep, j, lo, hi) == 0,
    decreases n,
{
    if n > 0 {
        lemma_offset_mono(n, top, c, points, sweep);
        lemma_gain_above(old, (n - 1) as nat, top, c, points, sweep, j, lo, hi);
    }
}

proof fn lemma_gain_nonneg(old: Seq<int>, n: nat, c: nat, points: nat, sweep: nat, j: int, lo: int, hi: int)
    requires
        -1 <= lo,
        hi < old.len(),
        nonneg(old),
    ensures
        gain(old, n, c, points, sweep, j, lo, hi) >= 0,
    decreases n,
{
    if n > 0 {
        lemma_gain_nonneg(old, (n - 1) as nat, c, points, sweep, j, lo, hi);
    }
}

proof fn lemma_peak_mono(nucs: Seq<Nucleus>, i: int, points: nat, sweep: nat)
    requires
        0 <= i <= nucs.len(),
    ensures
        peak(nucs.take(i), points, sweep) <= peak(nucs, points, sweep),
    decreases nucs.len(),
{
    if i < nucs.len() {
        let d = nucs.drop_last();
        assert(d.take(i) == nucs.take(i));
        lemma_peak_mono(d, i, points, sweep);
        let m = nucs.last();
        let e = copies(m.eqs.val);
        let o = offset(splits(m.spin.val), abs(m.hpf.val as int) as nat, points, sweep);
        assert(e * o >= 0) by (nonlinear_arith)
            requires
                e >= 0,
                o >= 0,
        ;
    } else {
        assert(nucs.take(i) == nucs);
    }
}

proof fn lemma_power_pos(b: int, e: nat)
    requires
        b >= 1,
    ensures
        power(b, e) >= 1,
    decreases e,
{
    if e > 0 {
        lemma_power_pos(b, (e - 1) as nat);
        lemma_mul_inequality(1, b, power(b, (e - 1) as nat));
    }
}

proof fn lemma_power_mono(b: int, e1: nat, e2: nat)
    requires
        b >= 1,
        e1 <= e2,
    ensures
        power(b, e1) <= power(b, e2),
    decreases e2,
{
    if e1 < e2 {
        lemma_power_mono(b, e1, (e2 - 1) as nat);
        lemma_power_pos(b, (e2 - 1) as nat);
        lemma_mul_inequality(1, b, power(b, (e2 - 1) as nat));
    }
}

proof fn lemma_power_one(e: nat)
    ensures
        power(1, e) == 1,
    decreases e,
{
    if e > 0 {
        lemma_power_one((e - 1) as nat);
    }
}

proof fn lemma_growth_pos(nucs: Seq<Nucleus>)
    ensures
        growth(nucs) >= 1,
    decreases nucs.len(),
{
    if nucs.len() > 0 {
        let m = nucs.last();
        lemma_growth_pos(nucs.drop_last());
        lemma_power_pos(factor(m.spin.val), copies(m.eqs.val));
        lemma_mul_inequality(1, growth(nucs.drop_last()), power(factor(m.spin.val), copies(m.eqs.val)));
    }
}

/// The growth of a prefix, times any partial power of the next factor,
/// is at most the growth of the whole list.
proof fn lemma_growth_mono(nucs: Seq<Nucleus>, i: int, q: nat)
    requires
        0 <= i < nucs.len(),
        q <= copies(nucs[i].eqs.val),
    ensures
        growth(nucs.take(i)) * power(factor(nucs[i].spin.val), q) <= growth(nucs),
    decreases nucs.len(),
{
    let b = factor(nucs[i].spin.val);
    let e = copies(nucs[i].eqs.val);
    let g = growth(nucs.take(i));
    lemma_power_mono(b, q, e);
    lemma_growth_pos(nucs.take(i));
    let pq = power(b, q);
    let pe = power(b, e);
    assert(g * pq <= g * pe) by (nonlinear_arith)
        requires
            pq <= pe,
            g >= 1,
    ;
    if i == nucs.len() - 1 {
        assert(nucs.drop_last() == nucs.take(i));
    } else {
        let d = nucs.drop_last();
        assert(d.take(i) == nucs.take(i));
        lemma_growth_mono(d, i, q);
        let m = nucs.last();
        let pl = power(factor(m.spin.val), copies(m.eqs.val));
        let gd = growth(d);
        lemma_power_pos(factor(m.spin.val), copies(m.eqs.val));
        lemma_growth_pos(d);
        assert(gd <= gd * pl) by (nonlinear_arith)
            requires
                pl >= 1,
                gd >= 1,
        ;
    }
}

// ---------------------------------------------------------------------------
// Executable stick spectrum.
// ---------------------------------------------------------------------------

/// A centred stick spectrum: one intensity per output point, and the total
/// intensity that normalises the lineshape.
pub struct Sticks {
    pub ticks: Vec<u64>,
    pub total: u64,
}

fn splits_of(spin: i64) -> (r: u64)
    ensures
        r == splits(spin),
{
    if spin > 0 {
        let x: i128 = 2 * (spin as i128);
        assert(x / (SCALE as i128) <= x);
        (x / (SCALE as i128)) as u64
    } else {
        0
    }
}

fn copies_of(eqs: i64) -> (r: u64)
    ensures
        r == copies(eqs),
{
    if eqs > 0 {
        (eqs / SCALE) as u64
    } else {
        0
    }
}

fn coupling_of(h: i64) -> (r: u64)
    ensures
        r == abs(h as int),
{
    if h < 0 {
        (-(h as i128)) as u64
    } else {
        h as u64
    }
}

/// The offset of the `k`-th split tick when it falls inside the ladder.
fn tick_offset(k: u64, c: u64, points: usize, sweep: u64) -> (r: Option<usize>)
    requires
        sweep > 0,
        points >= 1,
    ensures
        match r {
            Some(o) => o == offset(k as nat, c as nat, points as nat, sweep as nat) && o < points,
            None => offset(k as nat, c as nat, points as nat, sweep as nat) >= points,
        },
{
    assert(k * c <= u64::MAX * u64::MAX) by (nonlinear_arith)
        requires
            k <= u64::MAX,
            c <= u64::MAX,
    ;
    let a: u128 = (k as u128) * (c as u128);
    let span: u128 = (points - 1) as u128;
    match a.checked_mul(span) {
        None => {
            proof {
                let ps = points as int * sweep as int;
                let pi = points as int;
                let si = sweep as int;
                assert(pi * si <= 0xffff_ffff_ffff_ffffint * 0xffff_ffff_ffff_ffffint) by (nonlinear_arith)
                    requires
                        0 <= pi <= 0xffff_ffff_ffff_ffffint,
                        0 <= si <= 0xffff_ffff_ffff_ffffint,
                ;
                assert(k as int * c as int * (points - 1) == a as int * span as int);
                lemma_div_is_ordered(ps, a as int * span as int, sweep as int);
                lemma_div_by_multiple(points as int, sweep as int);
            }
            None
        },
        Some(b) => {
            let o = b / (sweep as u128);
            assert(k as int * c as int * (points - 1) == b as int);
            if o < points as u128 {
                Some(o as usize)
            } else {
                None
            }
        },
    }
}

fn zeros(n: usize) -> (v: Vec<u64>)
    ensures
        v@.len() == n,
        forall|j: int| 0 <= j < n ==> v@[j] == 0,
{
    let mut v: Vec<u64> = Vec::new();
    let mut i: usize = 0;
    while i < n
        invariant
            i <= n,
            v@.len() == i,
            forall|j: int| 0 <= j < i ==> v@[j] == 0,
        decreases n - i,
    {
        v.push(0);
        i += 1;
    }
    v
}

proof fn lemma_as_ints_update(v: Seq<u64>, t: int, x: u64)
    requires
        0 <= t < v.len(),
    ensures
        as_ints(v.update(t, x)) == as_ints(v).update(t, x as int),
        nonneg(as_ints(v)),
{
    assert(as_ints(v.update(t, x)) =~= as_ints(v).update(t, x as int));
}

/// The peak index of the uncentred ladder, when it lies below `points`.
fn find_peak(nucs: &Vec<Nucleus>, points: usize, sweep: u64) -> (r: Option<usize>)
    requires
        points >= 2,
        sweep > 0,
    ensures
        match r {
            Some(pk) => pk == peak(nucs@, points as nat, sweep as nat) && pk < points,
            None => peak(nucs@, points as nat, sweep as nat) >= points,
        },
{
    let mut pk: usize = 1;
    let mut i: usize = 0;
    while i < nucs.len()
        invariant
            points >= 2,
            sweep > 0,
            i <= nucs@.len(),
            pk == peak(nucs@.take(i as int), points as nat, sweep as nat),
            pk < points,
        decreases nucs@.len() - i,
    {
        let m = nucs[i];
        let e = copies_of(m.eqs.val);
        proof {
            assert(nucs@.take(i + 1).drop_last() == nucs@.take(i as int));
            assert(nucs@.take(i + 1).last() == m);
        }
        if e > 0 {
            match tick_offset(splits_of(m.spin.val), coupling_of(m.hpf.val), points, sweep) {
                None => {
                    proof {
                        let o = offset(splits(m.spin.val), abs(m.hpf.val as int) as nat, points as nat, sweep as nat);
                        assert(e * o >= o) by (nonlinear_arith)
                            requires
                                e >= 1,
                                o >= 0,
                        ;
                        lemma_peak_mono(nucs@, i + 1, points as nat, sweep as nat);
                    }
                    return None;
                },
                Some(o) => {
                    let room: u128 = (points - 1 - pk) as u128;
                    assert(e * o <= u64::MAX * u64::MAX) by (nonlinear_arith)
                        requires
                            e <= u64::MAX,
                            o <= u64::MAX,
                    ;
                    let add: u128 = (e as u128) * (o as u128);
                    if add > room {
                        proof {
                            lemma_peak_mono(nucs@, i + 1, points as nat, sweep as nat);
                        }
                        return None;
                    }
                    pk = pk + add as usize;
                    assert(pk == peak(nucs@.take(i + 1), points as nat, sweep as nat));
                },
            }
        } else {
            let ghost o = offset(splits(m.spin.val), abs(m.hpf.val as int) as nat, points as nat, sweep as nat);
            assert(copies(m.eqs.val) * o == 0) by (nonlinear_arith)
                requires
                    copies(m.eqs.val) == 0,
            ;
        }
        i += 1;
    }
    proof {
        assert(nucs@.take(nucs@.len() as int) == nucs@);
    }
    Some(pk)
}

/// Whether the total intensity of the ladder fits in `u64`.
fn growth_fits(nucs: &Vec<Nucleus>) -> (r: bool)
    ensures
        r == (growth(nucs@) <= u64::MAX),
{
    let mut g: u64 = 1;
    let mut i: usize = 0;
    while i < nucs.len()
        invariant
            i <= nucs@.len(),
            g == growth(nucs@.take(i as int)),
        decreases nucs@.len() - i,
    {
        let m = nucs[i];
        let n = splits_of(m.spin.val);
        let e = copies_of(m.eqs.val);
        assert(n <= u64::MAX / 2) by {
            if m.spin.val > 0 {
                lemma_div_is_ordered(2 * m.spin.val as int, 2 * i64::MAX as int, SCALE as int);
            }
        }
        let b: u64 = 1 + n;
        proof {
            assert(nucs@.take(i + 1).drop_last() == nucs@.take(i as int));
            assert(nucs@.take(i + 1).last() == m);
            assert(nucs@.take(i + 1).len() == i + 1);
            assert(nucs@[i as int] == m);
        }
        if b > 1 {
            let mut q: u64 = 0;
            while q < e
                invariant
                    i < nucs@.len(),
                    nucs@[i as int] == m,
                    b == factor(m.spin.val),
                    b > 1,
                    e == copies(m.eqs.val),
                    q <= e,
                    g == growth(nucs@.take(i as int)) * power(b as int, q as nat),
                decreases e - q,
            {
                let ghost g0 = growth(nucs@.take(i as int));
                let ghost pq = power(b as int, q as nat);
                assert(g * b == g0 * power(b as int, (q + 1) as nat)) by (nonlinear_arith)
                    requires
                        g == g0 * pq,
                        power(b as int, (q + 1) as nat) == b * pq,
                ;
                match g.checked_mul(b) {
                    None => {
                        proof {
                            lemma_growth_mono(nucs@, i as int, (q + 1) as nat);
                        }
                        return false;
                    },
                    Some(x) => {
                        g = x;
                    },
                }
                q += 1;
            }
        } else {
            proof {
                lemma_power_one(e as nat);
            }
        }
        i += 1;
    }
    proof {
        assert(nucs@.take(nucs@.len() as int) == nucs@);
    }
    true
}

/// One equivalent copy of a nucleus applied in place: every tick at `h` in
/// `[1, pf0]`, scanned from the top down, adds its intensity at
/// `h + offset(k)` for `k = 1..=n`, and the same amount to the running total.
fn split_pass(cur: &mut Vec<u64>, tot: &mut u64, pf0: usize, n: u64, c: u64, points: usize, sweep: u64)
    requires
        sweep > 0,
        points >= 2,
        old(cur)@.len() == points,
        pf0 + offset(n as nat, c as nat, points as nat, sweep as nat) < points,
        forall|j: int| pf0 < j < points ==> old(cur)@[j] == 0,
        old(cur)@[0] == 0,
        *old(tot) == total(as_ints(old(cur)@)),
        (1 + n) * *old(tot) <= u64::MAX,
        n < u64::MAX,
    ensures
        final(cur)@.len() == points,
        final(cur)@[0] == 0,
        as_ints(final(cur)@) == pass(as_ints(old(cur)@), n as nat, c as nat, points as nat, sweep as nat),
        *final(tot) == total(as_ints(final(cur)@)),
        *final(tot) == (1 + n) * *old(tot),
        old(cur)@[pf0 as int] > 0 ==> final(cur)@[pf0 + offset(n as nat, c as nat, points as nat, sweep as nat)] > 0,
        forall|j: int|
            pf0 + offset(n as nat, c as nat, points as nat, sweep as nat) < j < points ==> final(cur)@[j] == 0,
{
    let ghost old_s = as_ints(cur@);
    let ghost t0 = *tot as int;
    let ghost nn = n as nat;
    let ghost cc = c as nat;
    let ghost pp = points as nat;
    let ghost sw = sweep as nat;
    let ghost off_n = offset(nn, cc, pp, sw);
    let mut acc: u64 = *tot;
    let mut h: usize = pf0;
    proof {
        assert forall|j: int| 0 <= j < points implies cur@[j] as int == old_s[j] + gain(old_s, nn, cc, pp, sw, j, h as int, pf0 as int) by {
            lemma_gain_zero(old_s, nn, cc, pp, sw, j, pf0 as int, pf0 as int);
        }
        lemma_as_ints_update(cur@, 0, cur@[0]);
        assert(sum_from(old_s, pf0 as int, pf0 as int) == 0);
        assert(n * 0 == 0);
    }
    while h > 0
        invariant
            sweep > 0,
            points >= 2,
            cur@.len() == points,
            nn == n as nat,
            cc == c as nat,
            pp == points as nat,
            sw == sweep as nat,
            off_n == offset(nn, cc, pp, sw),
            h <= pf0,
            pf0 + off_n < points,
            old_s.len() == points,
            nonneg(old_s),
            forall|j: int| pf0 < j < points ==> old_s[j] == 0,
            old_s[0] == 0,
            t0 == total(old_s),
            (1 + n) * t0 <= u64::MAX,
            n < u64::MAX,
            forall|j: int|
                0 <= j < points ==> cur@[j] as int == old_s[j] + gain(old_s, nn, cc, pp, sw, j, h as int, pf0 as int),
            acc as int == t0 + n * sum_from(old_s, h as int, pf0 as int),
            acc as int == total(as_ints(cur@)),
        decreases h,
    {
        let v = cur[h];
        let ghost r_h = sum_from(old_s, h as int, pf0 as int);
        proof {
            lemma_gain_below(old_s, nn, cc, pp, sw, h as int, h as int, pf0 as int);
            assert(v == old_s[h as int]);
            lemma_sum_within(old_s, h - 1, pf0 as int);
            lemma_sum_nonneg(old_s, h as int, pf0 as int);
            assert(sum_from(old_s, h - 1, pf0 as int) == v + r_h);
        }
        if v != 0 {
            let mut k: u64 = 1;
            while k <= n
                invariant
                    sweep > 0,
                    points >= 2,
                    cur@.len() == points,
                    nn == n as nat,
                    cc == c as nat,
                    pp == points as nat,
                    sw == sweep as nat,
                    off_n == offset(nn, cc, pp, sw),
                    1 <= h <= pf0,
                    pf0 + off_n < points,
                    old_s.len() == points,
                    nonneg(old_s),
                    (1 + n) * t0 <= u64::MAX,
                    v == old_s[h as int],
                    r_h + v <= t0,
                    r_h >= 0,
                    1 <= k <= n + 1,
                    n < u64::MAX,
                    forall|j: int|
                        0 <= j < points ==> cur@[j] as int == old_s[j] + gain(old_s, nn, cc, pp, sw, j, h as int, pf0 as int)
                            + gain(old_s, (k - 1) as nat, cc, pp, sw, j, h - 1, h as int),
                    acc as int == t0 + n * r_h + (k - 1) * v,
                    acc as int == total(as_ints(cur@)),
                decreases n + 1 - k,
            {
                proof {
                    lemma_offset_mono(k as nat, nn, cc, pp, sw);
                }
                let o = tick_offset(k, c, points, sweep).unwrap();
                let t = h + o;
                let x = cur[t];
                let ghost prev = cur@;
                proof {
                    lemma_entry_within(as_ints(prev), t as int);
                    lemma_as_ints_update(prev, t as int, x);
                    let kk = k as int;
                    let nni = n as int;
                    assert(t0 + nni * r_h + kk * v <= (1 + nni) * t0) by (nonlinear_arith)
                        requires
                            kk <= nni,
                            r_h + v <= t0,
                            v >= 0,
                            r_h >= 0,
                            nni >= 0,
                    ;
                    assert((kk - 1) * v + v == kk * v) by (nonlinear_arith);
                }
                cur.set(t, x + v);
                acc = acc + v;
                proof {
                    lemma_as_ints_update(prev, t as int, (x + v) as u64);
                    lemma_sum_update(as_ints(prev), -1, points - 1, t as int, (x + v) as int);
                    assert forall|j: int| 0 <= j < points implies cur@[j] as int == old_s[j] + gain(old_s, nn, cc, pp, sw, j, h as int, pf0 as int)
                        + gain(old_s, k as nat, cc, pp, sw, j, h - 1, h as int) by {
                    }
                }
                k += 1;
            }
            proof {
                let nni = n as int;
                assert(nni * r_h + nni * v == nni * (r_h + v)) by (nonlinear_arith);
                assert forall|j: int| 0 <= j < points implies cur@[j] as int == old_s[j] + gain(old_s, nn, cc, pp, sw, j, h - 1, pf0 as int) by {
                    lemma_gain_split(old_s, nn, cc, pp, sw, j, h - 1, h as int, pf0 as int);
                }
            }
        } else {
            proof {
                assert forall|j: int| 0 <= j < points implies cur@[j] as int == old_s[j] + gain(old_s, nn, cc, pp, sw, j, h - 1, pf0 as int) by {
                    lemma_gain_split(old_s, nn, cc, pp, sw, j, h - 1, h as int, pf0 as int);
                    lemma_gain_zero(old_s, nn, cc, pp, sw, j, h - 1, h as int);
                }
            }
        }
        h -= 1;
    }
    proof {
        assert forall|j: int| 0 <= j < points implies cur@[j] as int == old_s[j] + gain(old_s, nn, cc, pp, sw, j, 0, points - 1) by {
            lemma_gain_split(old_s, nn, cc, pp, sw, j, 0, pf0 as int, points - 1);
            lemma_gain_zero(old_s, nn, cc, pp, sw, j, pf0 as int, points - 1);
        }
        assert(as_ints(cur@) =~= pass(old_s, nn, cc, pp, sw));
        assert forall|j: int| pf0 + off_n < j < points implies cur@[j] == 0 by {
            lemma_gain_above(old_s, nn, nn, cc, pp, sw, j, 0, pf0 as int);
        }
        let nni = n as int;
        let r0 = sum_from(old_s, 0, pf0 as int);
        lemma_sum_split(old_s, -1, 0, points - 1);
        lemma_sum_split(old_s, 0, pf0 as int, points - 1);
        lemma_sum_zero(old_s, pf0 as int, points - 1);
        assert(sum_from(old_s, -1, 0) == old_s[0]);
        assert(r0 == t0);
        assert(t0 + nni * r0 == (1 + nni) * t0) by (nonlinear_arith)
            requires
                r0 == t0,
        ;
        lemma_gain_below(old_s, nn, cc, pp, sw, 0, 0, pf0 as int);
        if old_s[pf0 as int] > 0 {
            let top = pf0 + off_n;
            assert(pf0 > 0);
            assert(cur@[top] as int == old_s[top] + gain(old_s, nn, cc, pp, sw, top, 0, points - 1));
            assert(old_s[top] >= 0);
            if n > 0 {
                lemma_gain_nonneg(old_s, (nn - 1) as nat, cc, pp, sw, top, 0, points - 1);
                assert(gain(old_s, nn, cc, pp, sw, top, 0, points - 1) == gain(old_s, (nn - 1) as nat, cc, pp, sw, top, 0, points - 1) + old_s[pf0 as int]);
            } else {
                assert(nn * cc * (pp - 1) == 0) by (nonlinear_arith)
                    requires
                        nn == 0,
                ;
                assert(off_n == 0);
            }
        }
    }
    *tot = acc;
}

/// The uncentred ladder of `nucs`, given that its peak lies below `points`
/// and its total intensity fits in `u64`.
fn split_all(nucs: &Vec<Nucleus>, points: usize, sweep: u64, pk: usize) -> (r: (Vec<u64>, u64))
    requires
        points >= 2,
        sweep > 0,
        pk == peak(nucs@, points as nat, sweep as nat),
        pk < points,
        growth(nucs@) <= u64::MAX,
    ensures
        r.0@.len() == points,
        as_ints(r.0@) == ladder(nucs@, points as nat, sweep as nat),
        r.1 == total(as_ints(r.0@)),
        r.1 == growth(nucs@),
        r.0@[pk as int] > 0,
        forall|j: int| pk < j < points ==> r.0@[j] == 0,
{
    let ghost pp = points as nat;
    let ghost sw = sweep as nat;
    let mut cur = zeros(points);
    proof {
        lemma_as_ints_update(cur@, 1, 1);
        lemma_sum_zero(as_ints(cur@), -1, points - 1);
        lemma_sum_update(as_ints(cur@), -1, points - 1, 1, 1);
    }
    cur.set(1, 1);
    let mut tot: u64 = 1;
    let mut hi: usize = 1;
    proof {
        assert(as_ints(cur@) =~= unit_ladder(pp));
        assert(nucs@.take(0) =~= Seq::<Nucleus>::empty());
    }
    let mut i: usize = 0;
    while i < nucs.len()
        invariant
            points >= 2,
            sweep > 0,
            pp == points as nat,
            sw == sweep as nat,
            pk == peak(nucs@, pp, sw),
            pk < points,
            growth(nucs@) <= u64::MAX,
            i <= nucs@.len(),
            cur@.len() == points,
            as_ints(cur@) == pass_nucs(unit_ladder(pp), nucs@.take(i as int), pp, sw),
            hi == peak(nucs@.take(i as int), pp, sw),
            forall|j: int| hi < j < points ==> cur@[j] == 0,
            tot == total(as_ints(cur@)),
            tot == growth(nucs@.take(i as int)),
            cur@[0] == 0,
            cur@[hi as int] > 0,
        decreases nucs@.len() - i,
    {
        let m = nucs[i];
        let n = splits_of(m.spin.val);
        let c = coupling_of(m.hpf.val);
        let e = copies_of(m.eqs.val);
        let ghost before = as_ints(cur@);
        let ghost g0 = growth(nucs@.take(i as int));
        let ghost off_n = offset(n as nat, c as nat, pp, sw);
        proof {
            assert(nucs@.take(i + 1).drop_last() == nucs@.take(i as int));
            assert(nucs@.take(i + 1).last() == m);
            assert(nucs@[i as int] == m);
            lemma_peak_mono(nucs@, i + 1, pp, sw);
            lemma_growth_pos(nucs@.take(i as int));
            assert(n <= u64::MAX / 2) by {
                if m.spin.val > 0 {
                    lemma_div_is_ordered(2 * m.spin.val as int, 2 * i64::MAX as int, SCALE as int);
                }
            }
        }
        if e > 0 {
            proof {
                assert(e * off_n >= off_n) by (nonlinear_arith)
                    requires
                        e >= 1,
                        off_n >= 0,
                ;
            }
            let off = tick_offset(n, c, points, sweep).unwrap();
            let mut q: u64 = 0;
            while q < e
                invariant
                    points >= 2,
                    sweep > 0,
                    pp == points as nat,
                    sw == sweep as nat,
                    pk < points,
                    i < nucs@.len(),
                    nucs@[i as int] == m,
                    n == splits(m.spin.val),
                    n <= u64::MAX / 2,
                    c == abs(m.hpf.val as int),
                    e == copies(m.eqs.val),
                    off == off_n,
                    off_n == offset(n as nat, c as nat, pp, sw),
                    peak(nucs@.take(i as int), pp, sw) + e * off_n <= pk,
                    g0 == growth(nucs@.take(i as int)),
                    g0 >= 1,
                    growth(nucs@) <= u64::MAX,
                    q <= e,
                    cur@.len() == points,
                    as_ints(cur@) == pass_copies(before, n as nat, c as nat, pp, sw, q as nat),
                    hi == peak(nucs@.take(i as int), pp, sw) + q * off_n,
                    forall|j: int| hi < j < points ==> cur@[j] == 0,
                    tot == total(as_ints(cur@)),
                    tot == g0 * power(factor(m.spin.val), q as nat),
                    cur@[0] == 0,
                    cur@[hi as int] > 0,
                decreases e - q,
            {
                let ghost gq = g0 * power(factor(m.spin.val), q as nat);
                proof {
                    let qi = q as int;
                    let ei = e as int;
                    assert(qi * off_n + off_n <= ei * off_n) by (nonlinear_arith)
                        requires
                            qi < ei,
                            off_n >= 0,
                    ;
                    lemma_growth_mono(nucs@, i as int, (q + 1) as nat);
                    let b = factor(m.spin.val);
                    let pq = power(b, q as nat);
                    let t = tot as int;
                    assert(b * t == g0 * power(b, (q + 1) as nat)) by (nonlinear_arith)
                        requires
                            t == g0 * pq,
                            power(b, (q + 1) as nat) == b * pq,
                            b >= 1,
                    ;
                }
                split_pass(&mut cur, &mut tot, hi, n, c, points, sweep);
                proof {
                    let b = factor(m.spin.val);
                    assert(tot == g0 * power(b, (q + 1) as nat));
                }
                hi = hi + off;
                proof {
                    let qi = q as int;
                    assert((qi + 1) * off_n == qi * off_n + off_n) by (nonlinear_arith);
                }
                q += 1;
            }
        } else {
            proof {
                assert(e * off_n == 0) by (nonlinear_arith)
                    requires
                        e == 0,
                ;
            }
        }
        proof {
            lemma_power_one(0);
        }
        i += 1;
    }
    proof {
        assert(nucs@.take(nucs@.len() as int) == nucs@);
    }
    (cur, tot)
}

/// The stick spectrum of one radical on `points` output points spanning a
/// field width of `sweep`: the ladder of its nuclei, moved up so that its
/// populated range sits in the middle of the window, with its total intensity.
///
/// Fails with `DimensionMismatch` when `points < 2`, when `sweep <= 0`, or
/// when the hyperfine spread does not fit the window; with
/// `IntensityOverflow` when the total intensity exceeds `u64`.
pub fn stick_spectrum(rad: &Radical, sweep: i64, points: usize) -> (r: Result<Sticks, SimError>)
    ensures
        points < 2 || sweep <= 0 ==> r == Err::<Sticks, SimError>(SimError::DimensionMismatch),
        points >= 2 && sweep > 0 ==> {
            let pk = peak(rad.nucs@, points as nat, sweep as nat);
            &&& pk >= points ==> r == Err::<Sticks, SimError>(SimError::DimensionMismatch)
            &&& pk < points && growth(rad.nucs@) > u64::MAX ==> r == Err::<Sticks, SimError>(
                SimError::IntensityOverflow,
            )
            &&& pk < points && growth(rad.nucs@) <= u64::MAX ==> {
                &&& r is Ok
                &&& as_ints(r->Ok_0.ticks@) == centered(
                    ladder(rad.nucs@, points as nat, sweep as nat),
                    pk,
                    points as nat,
                )
                &&& r->Ok_0.total == total(as_ints(r->Ok_0.ticks@))
                &&& r->Ok_0.total == growth(rad.nucs@)
                &&& r->Ok_0.ticks@[pk + (points - pk) / 2] > 0
                &&& forall|j: int| pk + (points - pk) / 2 < j < points ==> r->Ok_0.ticks@[j] == 0
            }
        },
{
    if points < 2 || sweep <= 0 {
        return Err(SimError::DimensionMismatch);
    }
    let sw = sweep as u64;
    let pk = match find_peak(&rad.nucs, points, sw) {
        Some(pk) => pk,
        None => return Err(SimError::DimensionMismatch),
    };
    if !growth_fits(&rad.nucs) {
        return Err(SimError::IntensityOverflow);
    }
    let (lad, tot) = split_all(&rad.nucs, points, sw, pk);
    let ghost l = as_ints(lad@);
    let shift: usize = (points - pk) / 2;
    let mut out = zeros(points);
    proof {
        lemma_sum_zero(as_ints(out@), -1, points - 1);
    }
    let mut t: usize = shift;
    while t < points
        invariant
            points >= 2,
            pk < points,
            shift == (points - pk) / 2,
            shift <= t <= points,
            lad@.len() == points,
            l == as_ints(lad@),
            out@.len() == points,
            forall|j: int| 0 <= j < points ==> out@[j] as int == if shift <= j < t {
                l[j - shift]
            } else {
                0
            },
            total(as_ints(out@)) == sum_from(l, -1, t - shift - 1),
        decreases points - t,
    {
        let x = lad[t - shift];
        let ghost prev = out@;
        proof {
            lemma_as_ints_update(prev, t as int, x);
            lemma_sum_update(as_ints(prev), -1, points - 1, t as int, x as int);
            lemma_sum_extend(l, -1, t - shift - 1);
        }
        out.set(t, x);
        t += 1;
    }
    proof {
        assert(as_ints(out@) =~= centered(l, pk as int, points as nat));
        lemma_sum_split(l, -1, points - shift - 1, points - 1);
        lemma_sum_zero(l, points - shift - 1, points - 1);
    }
    Ok(Sticks { ticks: out, total: tot })
}

/// Where sample `k` of a lineshape kernel, applied to the tick at index
/// `tick`, lands in the output: `tick + k - points / 2`, when that index lies
/// in `[0, points)`; contributions outside are dropped.
pub fn conv_target(tick: usize, k: usize, points: usize) -> (r: Option<usize>)
    ensures
        match r {
            Some(x) => x == tick + k - points / 2 && x < points,
            None => !(0 <= tick + k - points / 2 < points),
        },
{
    let half = points / 2;
    if k >= half {
        let d = k - half;
        if d < points && tick < points - d {
            Some(tick + d)
        } else {
            None
        }
    } else {
        let d = half - k;
        if tick >= d && tick - d < points {
            Some(tick - d)
        } else {
            None
        }
    }
}

/// A radical without nuclei yields a single tick of unit intensity, in the
/// middle of the window: at index `1 + (points - 1) / 2`, which is
/// `points / 2` for an even number of points.
pub proof fn lemma_bare_radical(nucs: Seq<Nucleus>, points: nat, sweep: nat)
    requires
        nucs.len() == 0,
        points >= 2,
        sweep > 0,
    ensures
        peak(nucs, points, sweep) == 1,
        growth(nucs) == 1,
        centered(ladder(nucs, points, sweep), 1, points) == Seq::new(
            points,
            |t: int| if t == 1 + (points - 1) / 2 { 1int } else { 0int },
        ),
        total(centered(ladder(nucs, points, sweep), 1, points)) == 1,
{
    let c = centered(ladder(nucs, points, sweep), 1, points);
    let m = 1 + (points - 1) / 2;
    assert(c =~= Seq::new(points, |t: int| if t == m { 1int } else { 0int }));
    lemma_sum_split(c, -1, m - 1, points - 1);
    lemma_sum_split(c, m - 1, m, points - 1);
    lemma_sum_zero(c, -1, m - 1);
    lemma_sum_zero(c, m, points - 1);
}

/// Synthesis is deterministic: two stick spectra of the same nuclei on the
/// same window hold the same intensities.
pub proof fn lemma_sticks_deterministic(a: Seq<u64>, b: Seq<u64>, nucs: Seq<Nucleus>, points: nat, sweep: nat)
    requires
        as_ints(a) == centered(ladder(nucs, points, sweep), peak(nucs, points, sweep), points),
        as_ints(b) == centered(ladder(nucs, points, sweep), peak(nucs, points, sweep), points),
    ensures
        a == b,
{
    assert(a.len() == as_ints(a).len());
    assert(b.len() == as_ints(b).len());
    assert forall|i: int| 0 <= i < a.len() implies a[i] == b[i] by {
        assert(as_ints(a)[i] == a[i] as int);
        assert(as_ints(b)[i] == b[i] as int);
        assert(as_ints(a)[i] == as_ints(b)[i]);
    }
    assert(a =~= b);
}

} // verus!
