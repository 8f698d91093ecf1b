//! Resampling of the angle/bin matrix onto a fixed angular grid, with the
//! interpolation of short gaps.
use vstd::prelude::*;
use crate::text::MAX_MILLI;
use crate::ingest::{AngleBinMatrix, TICKS_PER_TURN, lemma_mean_bound};
use vstd::arithmetic::div_mod::lemma_fundamental_div_mod_converse;

verus! {

/// Thousandths of a degree in a full revolution.
pub const MDEG_PER_TURN: u64 = 360_000;

/// A full revolution of `slots.len()` equal sectors; slot `i` covers the
/// angles `[i, i + 1) * 360° / slots.len()`. A slot holds `n_bins` bins, or is
/// absent.
#[derive(Clone, Debug)]
pub struct RegularGrid {
    pub slots: Vec<Option<Vec<u64>>>,
    pub n_bins: usize,
}

/// A grid as a mathematical value.
pub open spec fn slots_view(s: Seq<Option<Vec<u64>>>) -> Seq<Option<Seq<u64>>> {
    s.map_values(|o: Option<Vec<u64>>| match o {
        Some(v) => Some(v@),
        None => None,
    })
}

/// Every slot is absent or holds `n` bins of at most `MAX_MILLI`.
pub open spec fn slots_wf(g: Seq<Option<Seq<u64>>>, n: nat) -> bool {
    forall|i: int|
        0 <= i < g.len() && (#[trigger] g[i]).is_some() ==> g[i].unwrap().len() == n && forall|
            j: int,
        | 0 <= j < n ==> g[i].unwrap()[j] <= MAX_MILLI
}

impl RegularGrid {
    pub open spec fn view(&self) -> Seq<Option<Seq<u64>>> {
        slots_view(self.slots@)
    }

    pub open spec fn wf(&self) -> bool {
        slots_wf(self.view(), self.n_bins as nat)
    }
}

/// The slot of `pulses` that a tick falls in.
pub open spec fn slot_of_tick(t: nat, pulses: nat) -> nat {
    (t * pulses / (TICKS_PER_TURN as nat)) as nat
}

/// What slot `i` receives from the first `k` rows: the row of the last of
/// them (in ascending tick order) whose tick falls in the slot.
pub open spec fn placed_upto(ticks: Seq<u32>, rows: Seq<Seq<u64>>, pulses: nat, i: nat, k: int) -> Option<
    Seq<u64>,
>
    decreases k,
{
    if k <= 0 {
        None
    } else if slot_of_tick(ticks[k - 1] as nat, pulses) == i {
        Some(rows[k - 1])
    } else {
        placed_upto(ticks, rows, pulses, i, k - 1)
    }
}

/// The grid before gap filling.
pub open spec fn placed(m: AngleBinMatrix, pulses: nat) -> Seq<Option<Seq<u64>>> {
    Seq::new(
        pulses,
        |i: int| placed_upto(m.ticks@, m.rows@.map_values(|r: Vec<u64>| r@), pulses, i as nat, m.ticks@.len() as int),
    )
}

/// Steps back from slot `i` to the nearest present slot, searching from `d`
/// steps on; the grid's length when there is none.
pub open spec fn prev_dist(g: Seq<Option<Seq<u64>>>, i: int, d: int) -> int
    decreases g.len() - d,
{
    if d >= g.len() || d < 1 {
        g.len() as int
    } else if g[(i - d) % (g.len() as int)].is_some() {
        d
    } else {
        prev_dist(g, i, d + 1)
    }
}

/// Steps forward from slot `i` to the nearest present slot, searching from
/// `d` steps on; the grid's length when there is none.
pub open spec fn next_dist(g: Seq<Option<Seq<u64>>>, i: int, d: int) -> int
    decreases g.len() - d,
{
    if d >= g.len() || d < 1 {
        g.len() as int
    } else if g[(i + d) % (g.len() as int)].is_some() {
        d
    } else {
        next_dist(g, i, d + 1)
    }
}

/// Linear interpolation at `dp` steps after `a` and `dn` steps before `b`,
/// rounded down.
pub open spec fn interp(a: nat, b: nat, dp: nat, dn: nat) -> nat {
    (a * dn + b * dp) / (dp + dn)
}

/// A gap of `steps` slots out of `pulses` is bridged when its angular width
/// is at most `gap_mdeg` thousandths of a degree.
pub open spec fn bridged(steps: int, pulses: int, gap_mdeg: int) -> bool {
    steps * (MDEG_PER_TURN as int) <= gap_mdeg * pulses
}

/// Slot `i` after gap filling. A present slot stays. An absent slot between
/// two distinct present slots `prev` and `next` is filled by interpolation
/// when the gap from `prev` to `next` is bridged; otherwise it stays absent.
pub open spec fn filled_slot(g: Seq<Option<Seq<u64>>>, i: int, gap_mdeg: int) -> Option<Seq<u64>> {
    let p = g.len() as int;
    if g[i].is_some() {
        g[i]
    } else {
        let dp = prev_dist(g, i, 1);
        let dn = next_dist(g, i, 1);
        if dp + dn < p && bridged(dp + dn, p, gap_mdeg) {
            let a = g[(i - dp) % p].unwrap();
            let b = g[(i + dn) % p].unwrap();
            Some(Seq::new(a.len(), |j: int| interp(a[j] as nat, b[j] as nat, dp as nat, dn as nat) as u64))
        } else {
            None
        }
    }
}

/// The regularized grid: the placed grid with its gaps filled.
pub open spec fn regular(m: AngleBinMatrix, pulses: nat, gap_mdeg: int) -> Seq<Option<Seq<u64>>> {
    let g = placed(m, pulses);
    Seq::new(pulses, |i: int| filled_slot(g, i, gap_mdeg))
}

pub proof fn lemma_wrap(x: int, p: int)
    requires
        p > 0,
        -p <= x < 2 * p,
    ensures
        x % p == if x < 0 {
            x + p
        } else if x >= p {
            x - p
        } else {
            x
        },
{
    if x < 0 {
        lemma_fundamental_div_mod_converse(x, p, -1, x + p);
    } else if x >= p {
        lemma_fundamental_div_mod_converse(x, p, 1, x - p);
    } else {
        lemma_fundamental_div_mod_converse(x, p, 0, x);
    }
}

/// A copy of a row of bins.
pub fn copy_row(v: &Vec<u64>) -> (r: Vec<u64>)
    ensures
        r@ == v@,
{
    let mut r: Vec<u64> = Vec::new();
    let mut j: usize = 0;
    while j < v.len()
        invariant
            j <= v@.len(),
            r@ == v@.take(j as int),
        decreases v@.len() - j,
    {
        r.push(v[j]);
        j = j + 1;
        assert(r@ =~= v@.take(j as int));
    }
    assert(v@.take(v@.len() as int) =~= v@);
    r
}

/// Puts each row of the matrix into the slot its tick falls in; of two rows
/// in one slot, the one with the larger tick stays.
fn place(m: &AngleBinMatrix, pulses: usize) -> (r: Vec<Option<Vec<u64>>>)
    requires
        m.wf(),
        pulses >= 1,
    ensures
        slots_view(r@) == placed(*m, pulses as nat),
        slots_wf(slots_view(r@), m.n_bins as nat),
{
    let ghost rows = m.rows@.map_values(|r: Vec<u64>| r@);
    let mut g: Vec<Option<Vec<u64>>> = Vec::new();
    while g.len() < pulses
        invariant
            g@.len() <= pulses,
            forall|i: int| 0 <= i < g@.len() ==> g@[i].is_none(),
        decreases pulses - g@.len(),
    {
        g.push(None);
    }
    let mut k: usize = 0;
    while k < m.ticks.len()
        invariant
            m.wf(),
            pulses >= 1,
            rows == m.rows@.map_values(|r: Vec<u64>| r@),
            k <= m.ticks@.len(),
            g@.len() == pulses,
            forall|i: int|
                0 <= i < pulses ==> slots_view(g@)[i] == placed_upto(
                    m.ticks@,
                    rows,
                    pulses as nat,
                    i as nat,
                    k as int,
                ),
            slots_wf(slots_view(g@), m.n_bins as nat),
        decreases m.ticks@.len() - k,
    {
        let t = m.ticks[k];
        assert(m.ticks@[k as int] < TICKS_PER_TURN);
        assert((t as int) * (pulses as int) <= 8192 * (usize::MAX as int)) by (nonlinear_arith)
            requires
                t < 8192,
                pulses <= usize::MAX,
        ;
        let s128 = (t as u128) * (pulses as u128) / (TICKS_PER_TURN as u128);
        assert(s128 < pulses) by (nonlinear_arith)
            requires
                s128 == (t as int) * (pulses as int) / 8192,
                t < 8192,
                pulses >= 1,
        ;
        let s = s128 as usize;
        assert(slot_of_tick(t as nat, pulses as nat) == s);
        let ghost before = g@;
        g.set(s, Some(copy_row(&m.rows[k])));
        assert(m.rows@[k as int]@.len() == m.n_bins);
        assert forall|i: int| 0 <= i < pulses && i != s implies slots_view(g@)[i] == slots_view(
            before,
        )[i] by {
            assert(g@[i] == before[i]);
        }
        assert(slots_view(g@)[s as int] == Some(m.rows@[k as int]@));
        assert(slots_wf(slots_view(g@), m.n_bins as nat)) by {
            assert forall|i: int|
                0 <= i < pulses && (#[trigger] slots_view(g@)[i]).is_some() implies slots_view(
                g@,
            )[i].unwrap().len() == m.n_bins && forall|j: int|
                0 <= j < m.n_bins ==> slots_view(g@)[i].unwrap()[j] <= MAX_MILLI by {
                if i != s {
                    assert(slots_view(before)[i].is_some());
                }
            }
        }
        assert forall|i: int| 0 <= i < pulses implies slots_view(g@)[i] == placed_upto(
            m.ticks@,
            rows,
            pulses as nat,
            i as nat,
            k + 1,
        ) by {
            assert(rows[k as int] == m.rows@[k as int]@);
            assert(m.ticks@[k as int] == t);
            if i == s {
                assert(slot_of_tick(m.ticks@[k as int] as nat, pulses as nat) == i as nat);
                assert(placed_upto(m.ticks@, rows, pulses as nat, i as nat, k + 1) == Some(
                    rows[k as int],
                ));
            } else {
                assert(slot_of_tick(m.ticks@[k as int] as nat, pulses as nat) != i as nat);
                assert(placed_upto(m.ticks@, rows, pulses as nat, i as nat, k + 1) == placed_upto(
                    m.ticks@,
                    rows,
                    pulses as nat,
                    i as nat,
                    k as int,
                ));
                assert(slots_view(g@)[i] == slots_view(before)[i]);
            }
        }
        k = k + 1;
    }
    assert(slots_view(g@) =~= placed(*m, pulses as nat));
    g
}

proof fn lemma_prev_found(g: Seq<Option<Seq<u64>>>, i: int, d: int)
    requires
        1 <= d,
        prev_dist(g, i, d) < g.len(),
    ensures
        g[(i - prev_dist(g, i, d)) % (g.len() as int)].is_some(),
    decreases g.len() - d,
{
    if d < g.len() && g[(i - d) % (g.len() as int)].is_none() {
        lemma_prev_found(g, i, d + 1);
    }
}

proof fn lemma_next_found(g: Seq<Option<Seq<u64>>>, i: int, d: int)
    requires
        1 <= d,
        next_dist(g, i, d) < g.len(),
    ensures
        g[(i + next_dist(g, i, d)) % (g.len() as int)].is_some(),
    decreases g.len() - d,
{
    if d < g.len() && g[(i + d) % (g.len() as int)].is_none() {
        lemma_next_found(g, i, d + 1);
    }
}

/// Steps back from slot `i` to the nearest present slot.
fn find_prev(g: &Vec<Option<Vec<u64>>>, i: usize) -> (r: usize)
    requires
        i < g@.len(),
    ensures
        r as int == prev_dist(slots_view(g@), i as int, 1),
        1 <= r <= g@.len(),
{
    let ghost v = slots_view(g@);
    let p = g.len();
    let mut d: usize = 1;
    while d < p
        invariant
            v == slots_view(g@),
            p == g@.len(),
            i < p,
            1 <= d <= p,
            prev_dist(v, i as int, 1) == prev_dist(v, i as int, d as int),
        decreases p - d,
    {
        proof {
            lemma_wrap(i - d, p as int);
        }
        let idx = if d <= i {
            i - d
        } else {
            p - (d - i)
        };
        if g[idx].is_some() {
            return d;
        }
        d = d + 1;
    }
    p
}

/// Steps forward from slot `i` to the nearest present slot.
fn find_next(g: &Vec<Option<Vec<u64>>>, i: usize) -> (r: usize)
    requires
        i < g@.len(),
    ensures
        r as int == next_dist(slots_view(g@), i as int, 1),
        1 <= r <= g@.len(),
{
    let ghost v = slots_view(g@);
    let p = g.len();
    let mut d: usize = 1;
    while d < p
        invariant
            v == slots_view(g@),
            p == g@.len(),
            i < p,
            1 <= d <= p,
            next_dist(v, i as int, 1) == next_dist(v, i as int, d as int),
        decreases p - d,
    {
        proof {
            lemma_wrap(i + d, p as int);
        }
        let idx = if d < p - i {
            i + d
        } else {
            d - (p - i)
        };
        if g[idx].is_some() {
            return d;
        }
        d = d + 1;
    }
    p
}

/// The row interpolated `dp` steps after `a` and `dn` steps before `b`.
fn interp_row(a: &Vec<u64>, b: &Vec<u64>, dp: usize, dn: usize) -> (r: Vec<u64>)
    requires
        a@.len() == b@.len(),
        dp + dn > 0,
        forall|j: int| 0 <= j < a@.len() ==> a@[j] <= MAX_MILLI && b@[j] <= MAX_MILLI,
    ensures
        r@ == Seq::new(
            a@.len(),
            |j: int| interp(a@[j] as nat, b@[j] as nat, dp as nat, dn as nat) as u64,
        ),
        forall|j: int| 0 <= j < r@.len() ==> r@[j] <= MAX_MILLI,
{
    let ghost want = Seq::new(
        a@.len(),
        |j: int| interp(a@[j] as nat, b@[j] as nat, dp as nat, dn as nat) as u64,
    );
    let mut r: Vec<u64> = Vec::new();
    let mut j: usize = 0;
    while j < a.len()
        invariant
            a@.len() == b@.len(),
            dp + dn > 0,
            forall|q: int| 0 <= q < a@.len() ==> a@[q] <= MAX_MILLI && b@[q] <= MAX_MILLI,
            j <= a@.len(),
            want == Seq::new(
                a@.len(),
                |j: int| interp(a@[j] as nat, b@[j] as nat, dp as nat, dn as nat) as u64,
            ),
            r@ == want.take(j as int),
            forall|q: int| 0 <= q < r@.len() ==> r@[q] <= MAX_MILLI,
        decreases a@.len() - j,
    {
        let x = a[j] as u128;
        let y = b[j] as u128;
        let gap = (dp as u128) + (dn as u128);
        assert(x * (dn as u128) + y * (dp as u128) <= gap * (MAX_MILLI as u128)) by (nonlinear_arith)
            requires
                x <= MAX_MILLI,
                y <= MAX_MILLI,
                gap == dp + dn,
        ;
        assert(gap * (MAX_MILLI as u128) <= 2 * (usize::MAX as int) * MAX_MILLI) by (nonlinear_arith)
            requires
                gap <= 2 * (usize::MAX as int),
        ;
        let num = x * (dn as u128) + y * (dp as u128);
        proof {
            lemma_mean_bound(num as nat, gap as nat, MAX_MILLI as nat);
        }
        assert(num as int == a@[j as int] as int * dn as int + b@[j as int] as int * dp as int);
        let v = (num / gap) as u64;
        assert(v as nat == interp(a@[j as int] as nat, b@[j as int] as nat, dp as nat, dn as nat));
        assert(want[j as int] == v);
        r.push(v);
        j = j + 1;
        assert(r@ =~= want.take(j as int));
    }
    assert(want.take(a@.len() as int) =~= want);
    r
}

/// Resamples the matrix onto `pulses` slots and fills the gaps bridged by
/// `gap_mdeg` thousandths of a degree.
pub fn regularize(m: &AngleBinMatrix, pulses: usize, gap_mdeg: u64) -> (r: RegularGrid)
    requires
        m.wf(),
        pulses >= 1,
    ensures
        r.wf(),
        r.n_bins == m.n_bins,
        r.slots@.len() == pulses,
        r.view() == regular(*m, pulses as nat, gap_mdeg as int),
{
    let g = place(m, pulses);
    let ghost v = slots_view(g@);
    let mut out: Vec<Option<Vec<u64>>> = Vec::new();
    let mut i: usize = 0;
    while i < pulses
        invariant
            g@.len() == pulses,
            v == slots_view(g@),
            v == placed(*m, pulses as nat),
            slots_wf(v, m.n_bins as nat),
            i <= pulses,
            out@.len() == i,
            forall|q: int| 0 <= q < i ==> slots_view(out@)[q] == filled_slot(v, q, gap_mdeg as int),
            slots_wf(slots_view(out@), m.n_bins as nat),
        decreases pulses - i,
    {
        let ghost before = out@;
        let slot: Option<Vec<u64>> = match &g[i] {
            Some(row) => {
                assert(v[i as int] == Some(row@));
                let c = copy_row(row);
                assert(filled_slot(v, i as int, gap_mdeg as int) == Some(c@));
                Some(c)
            },
            None => {
                assert(v[i as int].is_none());
                let dp = find_prev(&g, i);
                let dn = find_next(&g, i);
                let near = dp < pulses && dn < pulses && dp < pulses - dn;
                let ok = near && {
                    assert((gap_mdeg as int) * (pulses as int) <= (u64::MAX as int) * (
                    usize::MAX as int)) by (nonlinear_arith)
                        requires
                            gap_mdeg <= u64::MAX,
                            pulses <= usize::MAX,
                    ;
                    assert((u64::MAX as int) * (usize::MAX as int) <= u128::MAX) by (nonlinear_arith);
                    ((dp + dn) as u128) * (MDEG_PER_TURN as u128) <= (gap_mdeg as u128) * (
                    pulses as u128)
                };
                if ok {
                    proof {
                        lemma_wrap(i - dp, pulses as int);
                        lemma_wrap(i + dn, pulses as int);
                        lemma_prev_found(v, i as int, 1);
                        lemma_next_found(v, i as int, 1);
                    }
                    let ia = if dp <= i {
                        i - dp
                    } else {
                        pulses - (dp - i)
                    };
                    let ib = if dn < pulses - i {
                        i + dn
                    } else {
                        dn - (pulses - i)
                    };
                    match (&g[ia], &g[ib]) {
                        (Some(a), Some(b)) => {
                            assert(ia as int == (i - dp) % (pulses as int));
                            assert(ib as int == (i + dn) % (pulses as int));
                            assert(v[ia as int] == Some(a@));
                            assert(v[ib as int] == Some(b@));
                            let row = interp_row(a, b, dp, dn);
                            assert(filled_slot(v, i as int, gap_mdeg as int) == Some(row@));
                            Some(row)
                        },
                        _ => {
                            assert(false);
                            None
                        },
                    }
                } else {
                    assert(!(dp + dn < pulses && bridged(dp + dn, pulses as int, gap_mdeg as int)));
                    assert(filled_slot(v, i as int, gap_mdeg as int) == None::<Seq<u64>>);
                    None
                }
            },
        };
        assert(slots_view(seq![slot])[0] == filled_slot(v, i as int, gap_mdeg as int));
        out.push(slot);
        assert(out@[i as int] == slot);
        assert forall|q: int| 0 <= q < i + 1 implies slots_view(out@)[q] == filled_slot(
            v,
            q,
            gap_mdeg as int,
        ) by {
            if q < i {
                assert(out@[q] == before[q]);
            }
        }
        assert(slots_wf(slots_view(out@), m.n_bins as nat)) by {
            assert forall|q: int|
                0 <= q < out@.len() && (#[trigger] slots_view(out@)[q]).is_some() implies slots_view(
                out@,
            )[q].unwrap().len() == m.n_bins && forall|j: int|
                0 <= j < m.n_bins ==> slots_view(out@)[q].unwrap()[j] <= MAX_MILLI by {
                if q < i {
                    assert(out@[q] == before[q]);
                    assert(slots_view(before)[q].is_some());
                }
            }
        }
        i = i + 1;
    }
    let r = RegularGrid { slots: out, n_bins: m.n_bins };
    assert(r.view() =~= regular(*m, pulses as nat, gap_mdeg as int));
    r
}

/// An interpolated value lies between its two ends; when the ends differ by
/// at least the gap's width in slots, strictly between.
pub proof fn lemma_interp_between(a: nat, b: nat, dp: nat, dn: nat)
    requires
        dp >= 1,
        dn >= 1,
    ensures
        a <= b ==> a <= interp(a, b, dp, dn) <= b,
        b <= a ==> b <= interp(a, b, dp, dn) <= a,
        a < b && b - a >= dp + dn ==> a < interp(a, b, dp, dn) < b,
        b < a && a - b >= dp + dn ==> b < interp(a, b, dp, dn) < a,
{
    let g = dp + dn;
    let v = interp(a, b, dp, dn);
    if a <= b {
        let e = (b - a) as nat;
        assert(a * dn + b * dp == a * g + e * dp) by (nonlinear_arith)
            requires
                g == dp + dn,
                e == b - a,
        ;
        lemma_div_shift(a, e * dp, g);
        assert(e * dp <= e * g) by (nonlinear_arith)
            requires
                dp <= g,
        ;
        assert((e * dp) / g <= e) by (nonlinear_arith)
            requires
                e * dp <= e * g,
                g > 0,
        ;
        if a < b && e >= g {
            assert(e * dp >= g) by (nonlinear_arith)
                requires
                    e >= g,
                    dp >= 1,
            ;
            assert((e * dp) / g >= 1) by (nonlinear_arith)
                requires
                    e * dp >= g,
                    g > 0,
            ;
            assert((e * dp) / g < e) by (nonlinear_arith)
                requires
                    dp < g,
                    e > 0,
                    g > 0,
            ;
        }
    } else {
        let e = (a - b) as nat;
        assert(a * dn + b * dp == b * g + e * dn) by (nonlinear_arith)
            requires
                g == dp + dn,
                e == a - b,
        ;
        lemma_div_shift(b, e * dn, g);
        assert(e * dn <= e * g) by (nonlinear_arith)
            requires
                dn <= g,
        ;
        assert((e * dn) / g <= e) by (nonlinear_arith)
            requires
                e * dn <= e * g,
                g > 0,
        ;
        if e >= g {
            assert(e * dn >= g) by (nonlinear_arith)
                requires
                    e >= g,
                    dn >= 1,
            ;
            assert((e * dn) / g >= 1) by (nonlinear_arith)
                requires
                    e * dn >= g,
                    g > 0,
            ;
            assert((e * dn) / g < e) by (nonlinear_arith)
                requires
                    dn < g,
                    e > 0,
                    g > 0,
            ;
        }
    }
}

proof fn lemma_div_shift(a: nat, r: nat, g: nat)
    requires
        g > 0,
    ensures
        (a * g + r) / g == a + r / g,
{
    assert((a * g + r) / g == a + r / g) by (nonlinear_arith)
        requires
            g > 0,
    ;
}

/// Gap filling: an absent slot lying between two distinct present slots `A`
/// (`dp` slots back) and `B` (`dn` slots on) is filled when the gap from `A`
/// to `B` is at most the threshold, every bin lying between `A`'s and `B`'s
/// (strictly when they differ by at least the gap's width in slots); when the
/// gap is wider, the slot stays absent.
pub proof fn lemma_gap_fill(m: AngleBinMatrix, pulses: nat, gap_mdeg: int, i: int, j: int)
    requires
        m.wf(),
        pulses >= 1,
        0 <= i < pulses,
        placed(m, pulses)[i].is_none(),
        prev_dist(placed(m, pulses), i, 1) + next_dist(placed(m, pulses), i, 1) < pulses,
        0 <= j < m.n_bins,
    ensures
        ({
            let g = placed(m, pulses);
            let dp = prev_dist(g, i, 1);
            let dn = next_dist(g, i, 1);
            let a = g[(i - dp) % (pulses as int)].unwrap()[j] as nat;
            let b = g[(i + dn) % (pulses as int)].unwrap()[j] as nat;
            let r = regular(m, pulses, gap_mdeg)[i];
            &&& bridged(dp + dn, pulses as int, gap_mdeg) ==> {
                &&& r.is_some()
                &&& r.unwrap()[j] as nat == interp(a, b, dp as nat, dn as nat)
                &&& (a <= b ==> a <= r.unwrap()[j] <= b)
                &&& (b <= a ==> b <= r.unwrap()[j] <= a)
                &&& (a < b && b - a >= dp + dn ==> a < r.unwrap()[j] < b)
                &&& (b < a && a - b >= dp + dn ==> b < r.unwrap()[j] < a)
            }
            &&& !bridged(dp + dn, pulses as int, gap_mdeg) ==> r.is_none()
        }),
{
    let g = placed(m, pulses);
    let p = pulses as int;
    let dp = prev_dist(g, i, 1);
    let dn = next_dist(g, i, 1);
    lemma_dist_positive(g, i);
    lemma_prev_found(g, i, 1);
    lemma_next_found(g, i, 1);
    lemma_placed_wf(m, pulses);
    lemma_wrap(i - dp, p);
    lemma_wrap(i + dn, p);
    let a = g[(i - dp) % p].unwrap()[j] as nat;
    let b = g[(i + dn) % p].unwrap()[j] as nat;
    lemma_interp_between(a, b, dp as nat, dn as nat);
    let mx = MAX_MILLI as nat;
    if a <= b {
        assert(interp(a, b, dp as nat, dn as nat) <= mx);
    } else {
        assert(interp(a, b, dp as nat, dn as nat) <= mx);
    }
}

proof fn lemma_dist_positive(g: Seq<Option<Seq<u64>>>, i: int)
    requires
        g.len() >= 1,
    ensures
        prev_dist(g, i, 1) >= 1,
        next_dist(g, i, 1) >= 1,
{
    lemma_prev_ge(g, i, 1);
    lemma_next_ge(g, i, 1);
}

proof fn lemma_prev_ge(g: Seq<Option<Seq<u64>>>, i: int, d: int)
    requires
        d >= 1,
    ensures
        prev_dist(g, i, d) >= d || prev_dist(g, i, d) == g.len(),
        prev_dist(g, i, d) >= 1 || g.len() == 0,
    decreases g.len() - d,
{
    if d < g.len() && g[(i - d) % (g.len() as int)].is_none() {
        lemma_prev_ge(g, i, d + 1);
    }
}

proof fn lemma_next_ge(g: Seq<Option<Seq<u64>>>, i: int, d: int)
    requires
        d >= 1,
    ensures
        next_dist(g, i, d) >= d || next_dist(g, i, d) == g.len(),
        next_dist(g, i, d) >= 1 || g.len() == 0,
    decreases g.len() - d,
{
    if d < g.len() && g[(i + d) % (g.len() as int)].is_none() {
        lemma_next_ge(g, i, d + 1);
    }
}

proof fn lemma_placed_upto_wf(m: AngleBinMatrix, pulses: nat, i: nat, k: int)
    requires
        m.wf(),
        k <= m.ticks@.len(),
    ensures
        ({
            let o = placed_upto(m.ticks@, m.rows@.map_values(|r: Vec<u64>| r@), pulses, i, k);
            o.is_some() ==> o.unwrap().len() == m.n_bins && forall|j: int|
                0 <= j < m.n_bins ==> o.unwrap()[j] <= MAX_MILLI
        }),
    decreases k,
{
    if k > 0 {
        lemma_placed_upto_wf(m, pulses, i, k - 1);
        assert(m.ticks@[k - 1] < TICKS_PER_TURN);
    }
}

proof fn lemma_placed_wf(m: AngleBinMatrix, pulses: nat)
    requires
        m.wf(),
    ensures
        slots_wf(placed(m, pulses), m.n_bins as nat),
{
    assert forall|i: int|
        0 <= i < placed(m, pulses).len() && (#[trigger] placed(m, pulses)[i]).is_some() implies placed(
        m,
        pulses,
    )[i].unwrap().len() == m.n_bins && forall|j: int|
        0 <= j < m.n_bins ==> placed(m, pulses)[i].unwrap()[j] <= MAX_MILLI by {
        lemma_placed_upto_wf(m, pulses, i as nat, m.ticks@.len() as int);
    }
}

} // verus!
