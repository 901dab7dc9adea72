//! Per-axis resampling coefficients: for each destination index, the first
//! source index it reads and the fixed-point weights of the source samples.
//!
//! Positions are exact rationals. A crop interval is `[lo / q, hi / q]`
//! source pixels; destination index `i` is centred at
//! `lo / q + (i + 1/2) * scale` with `scale = (hi - lo) / (q * out)`. The
//! kernel's support is widened by `scale` when shrinking.

use vstd::prelude::*;
use vstd::arithmetic::div_mod::lemma_fundamental_div_mod;
use crate::format::{filter_support2, ImageError, PILFilter};
use crate::image::MAX_EXTENT;
use crate::kernel::{floor_div, kernel_value, kernel_value_exec, lemma_kernel_whole, FIX_ONE};
use vstd::arithmetic::div_mod::lemma_fundamental_div_mod_converse_div;

verus! {

/// One in the fixed-point units of normalized weights.
pub const WEIGHT_ONE: i128 = 4194304;

/// Largest magnitude of a crop coordinate numerator, and of its denominator.
pub const CROP_LIMIT: i128 = 0x8000_0000;

pub open spec fn max(a: int, b: int) -> int {
    if a >= b {
        a
    } else {
        b
    }
}

pub open spec fn min(a: int, b: int) -> int {
    if a <= b {
        a
    } else {
        b
    }
}

/// Twice the centre of destination index `i`, times `q * out`.
pub open spec fn axis_center(out: int, lo: int, hi: int, i: int) -> int {
    2 * out * lo + (2 * i + 1) * (hi - lo)
}

/// The widened scale, times `q * out`.
pub open spec fn axis_scale(out: int, lo: int, hi: int, q: int) -> int {
    max(hi - lo, q * out)
}

/// First source index of the window of destination index `i`.
pub open spec fn window_lo(f: PILFilter, out: int, lo: int, hi: int, q: int, i: int) -> int {
    let s = filter_support2(f) * axis_scale(out, lo, hi, q);
    max(0, (axis_center(out, lo, hi, i) - s + q * out) / (2 * q * out))
}

/// One past the last source index of the window of destination index `i`.
pub open spec fn window_hi(f: PILFilter, in_size: int, out: int, lo: int, hi: int, q: int, i: int) -> int {
    let s = filter_support2(f) * axis_scale(out, lo, hi, q);
    min(in_size, (axis_center(out, lo, hi, i) + s + q * out) / (2 * q * out))
}

/// The kernel weight of source index `j` for destination index `i`: the
/// kernel at the distance between their centres, in units of the widened
/// scale.
pub open spec fn tap_weight(f: PILFilter, out: int, lo: int, hi: int, q: int, i: int, j: int) -> int {
    kernel_value(f, (2 * j + 1) * q * out - axis_center(out, lo, hi, i), 2 * axis_scale(out, lo, hi, q))
}

/// The kernel weights over the window of destination index `i`.
pub open spec fn raw_weights(f: PILFilter, in_size: int, out: int, lo: int, hi: int, q: int, i: int) -> Seq<int> {
    let a = window_lo(f, out, lo, hi, q, i);
    let b = window_hi(f, in_size, out, lo, hi, q, i);
    Seq::new(if b > a { (b - a) as nat } else { 0 }, |t: int| tap_weight(f, out, lo, hi, q, i, a + t))
}

pub open spec fn seq_sum(s: Seq<int>) -> int
    decreases s.len(),
{
    if s.len() == 0 {
        0
    } else {
        seq_sum(s.drop_last()) + s.last()
    }
}

/// Weights scaled so that they sum to one in `WEIGHT_ONE` units, each
/// rounded to the nearest unit.
pub open spec fn rounded(raw: Seq<int>) -> Seq<int> {
    Seq::new(raw.len(), |t: int| (raw[t] * 2 * WEIGHT_ONE + seq_sum(raw)) / (2 * seq_sum(raw)))
}

/// The first place of a largest weight among the first `n`.
pub open spec fn peak_upto(raw: Seq<int>, n: int) -> int
    decreases n,
{
    if n <= 1 {
        0
    } else {
        let p = peak_upto(raw, n - 1);
        if raw[n - 1] > raw[p] {
            n - 1
        } else {
            p
        }
    }
}

/// The rounded weights, with what rounding lost or gained given back to the
/// weight of the largest kernel value, so that they sum to exactly one.
pub open spec fn normalize(raw: Seq<int>) -> Seq<int> {
    let r = rounded(raw);
    let p = peak_upto(raw, raw.len() as int);
    r.update(p, r[p] + WEIGHT_ONE - seq_sum(r))
}

/// Destination index `i` has no source sample, or weights that do not sum
/// to a positive number.
pub open spec fn entry_degenerate(f: PILFilter, in_size: int, out: int, lo: int, hi: int, q: int, i: int) -> bool {
    f != PILFilter::Nearest && seq_sum(raw_weights(f, in_size, out, lo, hi, q, i)) <= 0
}

/// First source index and weights of destination index `i`: the normalized
/// window without the zero weights at its two ends. Nearest reads the one
/// source pixel that holds the centre, clamped to the image.
pub open spec fn coeff_entry(f: PILFilter, in_size: int, out: int, lo: int, hi: int, q: int, i: int) -> (int, Seq<int>) {
    if f == PILFilter::Nearest {
        (min(in_size - 1, max(0, axis_center(out, lo, hi, i) / (2 * q * out))), seq![WEIGHT_ONE as int])
    } else {
        let ws = normalize(raw_weights(f, in_size, out, lo, hi, q, i));
        (window_lo(f, out, lo, hi, q, i) + lead_from(ws, 0), ws.subrange(lead_from(ws, 0), end_from(ws, ws.len() as int)))
    }
}

/// The first place from `t` on that holds a non-zero weight, or the length.
pub open spec fn lead_from(ws: Seq<int>, t: int) -> int
    decreases ws.len() - t,
{
    if t >= ws.len() || t < 0 || ws[t] != 0 {
        t
    } else {
        lead_from(ws, t + 1)
    }
}

/// One past the last place before `t` that holds a non-zero weight, or zero.
pub open spec fn end_from(ws: Seq<int>, t: int) -> int
    decreases t,
{
    if t <= 0 || t > ws.len() || ws[t - 1] != 0 {
        t
    } else {
        end_from(ws, t - 1)
    }
}

/// Whether there is a destination sample, the interval is not empty and no
/// destination index is degenerate.
pub open spec fn axis_ok(f: PILFilter, in_size: int, out: int, lo: int, hi: int, q: int) -> bool {
    1 <= out && lo < hi && forall|i: int| 0 <= i < out ==> !#[trigger] entry_degenerate(f, in_size, out, lo, hi, q, i)
}

/// The coefficients of a whole axis.
pub open spec fn axis_coeffs(f: PILFilter, in_size: int, out: int, lo: int, hi: int, q: int) -> Seq<(int, Seq<int>)> {
    Seq::new(out as nat, |i: int| coeff_entry(f, in_size, out, lo, hi, q, i))
}

/// The inputs that coefficient computation accepts.
pub open spec fn axis_args(in_size: int, out: int, lo: int, hi: int, q: int) -> bool {
    &&& 1 <= in_size <= MAX_EXTENT
    &&& 0 <= out <= MAX_EXTENT
    &&& 1 <= q <= CROP_LIMIT
    &&& -CROP_LIMIT <= lo <= CROP_LIMIT
    &&& -CROP_LIMIT <= hi <= CROP_LIMIT
}

/// The first source index and the weights of one destination index.
pub struct CoeffEntry {
    pub start: usize,
    pub weights: Vec<i64>,
}

impl CoeffEntry {
    pub open spec fn view(&self) -> (int, Seq<int>) {
        (self.start as int, self.weights@.map_values(|w: i64| w as int))
    }
}

pub open spec fn entries_view(es: Seq<CoeffEntry>) -> Seq<(int, Seq<int>)> {
    es.map_values(|e: CoeffEntry| e.view())
}

/// Bound on the magnitude of a rounded weight before the residual is added.
pub const NUM_LIMIT: i128 = 0x8080_0000_0000;

/// Bound on the magnitude of a normalized weight.
pub const WEIGHT_LIMIT: i128 = 0x1_0000_0000_0000;

/// Every entry reads a non-empty run of source samples inside the source,
/// with weights of bounded size.
pub open spec fn coeffs_fit(cs: Seq<(int, Seq<int>)>, in_size: int) -> bool {
    forall|i: int|
        0 <= i < cs.len() ==> {
            &&& 0 <= #[trigger] cs[i].0
            &&& 1 <= cs[i].1.len()
            &&& cs[i].0 + cs[i].1.len() <= in_size
            &&& forall|t: int| 0 <= t < cs[i].1.len() ==> -WEIGHT_LIMIT <= #[trigger] cs[i].1[t] <= WEIGHT_LIMIT
        }
}

pub proof fn lemma_sum_push(s: Seq<int>, t: int)
    requires
        0 <= t < s.len(),
    ensures
        seq_sum(s.take(t + 1)) == seq_sum(s.take(t)) + s[t],
{
    assert(s.take(t + 1).drop_last() =~= s.take(t));
}

/// A sum of `n` terms of magnitude at most `b` has magnitude at most `n * b`.
proof fn lemma_sum_bound(s: Seq<int>, b: int)
    requires
        b >= 0,
        forall|t: int| 0 <= t < s.len() ==> -b <= #[trigger] s[t] <= b,
    ensures
        -(s.len() * b) <= seq_sum(s) <= s.len() * b,
    decreases s.len(),
{
    if s.len() > 0 {
        let d = s.drop_last();
        assert forall|t: int| 0 <= t < d.len() implies -b <= #[trigger] d[t] <= b by {
            assert(d[t] == s[t]);
        }
        lemma_sum_bound(d, b);
        assert(s.len() * b == d.len() * b + b) by (nonlinear_arith)
            requires
                s.len() == d.len() + 1,
        ;
    }
}

/// Computes the coefficients of destination index `i`, or `None` where the
/// entry is degenerate.
#[verifier::rlimit(60)]
fn axis_entry(f: PILFilter, in_size: usize, out: usize, lo: i32, hi: i32, q: u32, i: usize) -> (r: Option<CoeffEntry>)
    requires
        axis_args(in_size as int, out as int, lo as int, hi as int, q as int),
        lo < hi,
        i < out,
    ensures
        r.is_none() <==> entry_degenerate(f, in_size as int, out as int, lo as int, hi as int, q as int, i as int),
        r.is_some() ==> r.unwrap().view() == coeff_entry(f, in_size as int, out as int, lo as int, hi as int, q as int, i as int),
        r.is_some() ==> coeffs_fit(seq![r.unwrap().view()], in_size as int),
{
    let ghost (ii, oi, li, hi_, qi) = (in_size as int, out as int, lo as int, hi as int, q as int);
    let in_w = in_size as i128;
    let out_w = out as i128;
    let lo_w = lo as i128;
    let hi_w = hi as i128;
    let q_w = q as i128;
    let i_w = i as i128;
    proof {
        assert(1 <= q_w * out_w <= CROP_LIMIT * (MAX_EXTENT as int)) by (nonlinear_arith)
            requires
                1 <= q_w <= CROP_LIMIT,
                1 <= out_w <= MAX_EXTENT,
        ;
        assert(-2 * (MAX_EXTENT as int) * CROP_LIMIT <= 2 * out_w * lo_w <= 2 * (MAX_EXTENT as int) * CROP_LIMIT) by (nonlinear_arith)
            requires
                1 <= out_w <= MAX_EXTENT,
                -CROP_LIMIT <= lo_w <= CROP_LIMIT,
        ;
        assert(0 < (2 * i_w + 1) * (hi_w - lo_w) <= 2 * (MAX_EXTENT as int) * 2 * CROP_LIMIT) by (nonlinear_arith)
            requires
                0 <= i_w < MAX_EXTENT,
                0 < hi_w - lo_w <= 2 * CROP_LIMIT,
        ;
    }
    let qo = q_w * out_w;
    let span = hi_w - lo_w;
    let center = 2 * out_w * lo_w + (2 * i_w + 1) * span;
    let m = if span >= qo {
        span
    } else {
        qo
    };
    let d = 2 * qo;
    proof {
        assert(qo == qi * oi);
        assert(d == 2 * qi * oi) by (nonlinear_arith)
            requires
                d == 2 * qo,
                qo == qi * oi,
        ;
    }
    assert(1 <= m <= CROP_LIMIT * (MAX_EXTENT as int));
    assert(center == axis_center(oi, li, hi_, i as int));
    assert(m == axis_scale(oi, li, hi_, qi));
    if f == PILFilter::Nearest {
        let c = floor_div(center, d);
        let s0 = if c < 0 {
            0
        } else {
            c
        };
        let s = if s0 > in_w - 1 {
            in_w - 1
        } else {
            s0
        };
        let mut weights: Vec<i64> = Vec::new();
        weights.push(WEIGHT_ONE as i64);
        let e = CoeffEntry { start: s as usize, weights };
        assert(e.view().1 =~= seq![WEIGHT_ONE as int]);
        return Some(e);
    }
    let s2 = f.support2() as i128;
    proof {
        assert(0 <= s2 * m <= 6 * CROP_LIMIT * (MAX_EXTENT as int)) by (nonlinear_arith)
            requires
                0 <= s2 <= 6,
                1 <= m <= CROP_LIMIT * (MAX_EXTENT as int),
        ;
    }
    let sup = s2 * m;
    let a0 = floor_div(center - sup + qo, d);
    let a = if a0 < 0 {
        0
    } else {
        a0
    };
    let b0 = floor_div(center + sup + qo, d);
    let b = if b0 > in_w {
        in_w
    } else {
        b0
    };
    let ghost raw = raw_weights(f, ii, oi, li, hi_, qi, i as int);
    assert(a == window_lo(f, oi, li, hi_, qi, i as int));
    assert(b == window_hi(f, ii, oi, li, hi_, qi, i as int));
    if b <= a {
        assert(raw.len() == 0);
        assert(seq_sum(raw) == 0);
        return None;
    }
    let n = (b - a) as usize;
    let mut raws: Vec<i128> = Vec::new();
    let mut total: i128 = 0;
    let mut t: usize = 0;
    while t < n
        invariant
            t <= n,
            n == raw.len(),
            0 <= a,
            b <= in_w,
            n == b - a,
            in_w == in_size,
            in_w <= MAX_EXTENT,
            raw == raw_weights(f, ii, oi, li, hi_, qi, i as int),
            a == window_lo(f, oi, li, hi_, qi, i as int),
            1 <= qo <= CROP_LIMIT * (MAX_EXTENT as int),
            qo == qi * oi,
            -2 * (MAX_EXTENT as int) * CROP_LIMIT - 4 * (MAX_EXTENT as int) * CROP_LIMIT <= center,
            center <= 2 * (MAX_EXTENT as int) * CROP_LIMIT + 4 * (MAX_EXTENT as int) * CROP_LIMIT,
            center == axis_center(oi, li, hi_, i as int),
            m == axis_scale(oi, li, hi_, qi),
            1 <= m <= CROP_LIMIT * (MAX_EXTENT as int),
            raws@.len() == t,
            forall|tt: int| 0 <= tt < t ==> #[trigger] raws@[tt] == raw[tt],
            total == seq_sum(raw.take(t as int)),
            -(t * FIX_ONE) <= total <= t * FIX_ONE,
        decreases n - t,
    {
        let j = a + t as i128;
        proof {
            assert(0 <= (2 * j + 1) * qo <= 0x1_0000_0000_0000_0000_0000_0000) by (nonlinear_arith)
                requires
                    0 <= j < 0x8000_0000,
                    1 <= qo <= 0x4000_0000_0000_0000,
            ;
            assert((2 * j + 1) * qo == (2 * j + 1) * qi * oi) by (nonlinear_arith)
                requires
                    qo == qi * oi,
            ;
        }
        let w = kernel_value_exec(f, (2 * j + 1) * qo - center, 2 * m);
        assert(w == raw[t as int]);
        proof {
            lemma_sum_push(raw, t as int);
            assert((t + 1) * FIX_ONE == t * FIX_ONE + FIX_ONE) by (nonlinear_arith);
        }
        raws.push(w);
        total = total + w;
        t = t + 1;
    }
    assert(raw.take(n as int) =~= raw);
    if total <= 0 {
        return None;
    }
    let mut weights: Vec<i64> = Vec::new();
    let mut sum: i128 = 0;
    let mut best: usize = 0;
    let ghost rw = rounded(raw);
    let mut t: usize = 0;
    while t < n
        invariant
            t <= n,
            n == raw.len(),
            rw == rounded(raw),
            raws@.len() == n,
            forall|tt: int| 0 <= tt < n ==> #[trigger] raws@[tt] == raw[tt],
            forall|tt: int| 0 <= tt < n ==> -FIX_ONE <= #[trigger] raw[tt] <= FIX_ONE,
            total == seq_sum(raw),
            1 <= total <= n * FIX_ONE,
            n <= MAX_EXTENT,
            weights@.len() == t,
            forall|tt: int| 0 <= tt < t ==> #[trigger] weights@[tt] as int == rw[tt],
            forall|tt: int| 0 <= tt < t ==> -NUM_LIMIT <= #[trigger] weights@[tt] <= NUM_LIMIT,
            sum == seq_sum(rw.take(t as int)),
            -(t * NUM_LIMIT) <= sum <= t * NUM_LIMIT,
            t > 0 ==> best == peak_upto(raw, t as int),
            t > 0 ==> best < t,
        decreases n - t,
    {
        let w = raws[t];
        proof {
            assert(-FIX_ONE * 2 * WEIGHT_ONE <= w * 2 * WEIGHT_ONE <= FIX_ONE * 2 * WEIGHT_ONE) by (nonlinear_arith)
                requires
                    -FIX_ONE <= w <= FIX_ONE,
            ;
            assert(total <= (MAX_EXTENT as int) * FIX_ONE) by (nonlinear_arith)
                requires
                    total <= n * FIX_ONE,
                    n <= MAX_EXTENT,
            ;
        }
        let num = w * 2 * WEIGHT_ONE + total;
        let k = floor_div(num, 2 * total);
        proof {
            assert(-NUM_LIMIT <= k <= NUM_LIMIT) by (nonlinear_arith)
                requires
                    k == (num as int) / (2 * total),
                    -NUM_LIMIT <= num <= NUM_LIMIT,
                    total >= 1,
            ;
            lemma_sum_push(rw, t as int);
            assert((t + 1) * NUM_LIMIT == t * NUM_LIMIT + NUM_LIMIT) by (nonlinear_arith);
            assert(t * NUM_LIMIT <= (MAX_EXTENT as int) * NUM_LIMIT) by (nonlinear_arith)
                requires
                    t <= MAX_EXTENT,
            ;
        }
        if t == 0 || raws[t] > raws[best] {
            best = t;
        }
        weights.push(k as i64);
        sum = sum + k;
        t = t + 1;
    }
    proof {
        assert(rw.take(n as int) =~= rw);
        lemma_rounding_error(raw);
        assert(n <= MAX_EXTENT);
    }
    let residual = WEIGHT_ONE - sum;
    let adjusted = weights[best] as i128 + residual;
    weights.set(best, adjusted as i64);
    let ghost ws = normalize(raw);
    assert(weights@.map_values(|w: i64| w as int) =~= ws);
    proof {
        lemma_normalize_sum(raw);
        lemma_trim(ws);
    }
    let (lead, kept) = trim_zeros(&weights);
    let e = CoeffEntry { start: (a as usize) + lead, weights: kept };
    Some(e)
}

/// Drops the zero weights at both ends; returns how many went from the front.
fn trim_zeros(weights: &Vec<i64>) -> (r: (usize, Vec<i64>))
    requires
        seq_sum(weights@.map_values(|w: i64| w as int)) == WEIGHT_ONE,
    ensures
        r.0 == lead_from(weights@.map_values(|w: i64| w as int), 0),
        r.1@.map_values(|w: i64| w as int) == weights@.map_values(|w: i64| w as int).subrange(
            lead_from(weights@.map_values(|w: i64| w as int), 0),
            end_from(weights@.map_values(|w: i64| w as int), weights@.len() as int),
        ),
{
    let ghost ws = weights@.map_values(|w: i64| w as int);
    let n = weights.len();
    proof {
        lemma_lead(ws, 0);
        lemma_end(ws, ws.len() as int);
        lemma_trim(ws);
    }
    let mut lead: usize = 0;
    while lead < n && weights[lead] == 0
        invariant
            lead <= n,
            n == ws.len(),
            weights@.len() == n,
            forall|tt: int| 0 <= tt < n ==> #[trigger] weights@[tt] as int == ws[tt],
            lead_from(ws, lead as int) == lead_from(ws, 0),
        decreases n - lead,
    {
        lead = lead + 1;
    }
    assert(lead == lead_from(ws, 0));
    let mut end: usize = n;
    while end > lead && weights[end - 1] == 0
        invariant
            lead <= end <= n,
            lead == lead_from(ws, 0),
            n == ws.len(),
            weights@.len() == n,
            forall|tt: int| 0 <= tt < n ==> #[trigger] weights@[tt] as int == ws[tt],
            end_from(ws, end as int) == end_from(ws, n as int),
            lead < end_from(ws, n as int),
        decreases end,
    {
        end = end - 1;
    }
    proof {
        lemma_end(ws, end as int);
        assert(end == end_from(ws, end as int));
    }
    let mut kept: Vec<i64> = Vec::new();
    let mut t: usize = lead;
    while t < end
        invariant
            lead <= t <= end <= n,
            n == ws.len(),
            weights@.len() == n,
            kept@.len() == t - lead,
            forall|tt: int| 0 <= tt < t - lead ==> #[trigger] kept@[tt] == weights@[lead + tt],
        decreases end - t,
    {
        kept.push(weights[t]);
        t = t + 1;
    }
    assert(kept@.map_values(|w: i64| w as int) =~= ws.subrange(lead as int, end as int));
    (lead, kept)
}

/// The places before `lead_from` are zero, and the one it names is not.
proof fn lemma_lead(ws: Seq<int>, t: int)
    requires
        0 <= t <= ws.len(),
    ensures
        t <= lead_from(ws, t) <= ws.len(),
        forall|u: int| t <= u < lead_from(ws, t) ==> #[trigger] ws[u] == 0,
        lead_from(ws, t) < ws.len() ==> ws[lead_from(ws, t)] != 0,
    decreases ws.len() - t,
{
    if t < ws.len() && ws[t] == 0 {
        lemma_lead(ws, t + 1);
    }
}

/// The places from `end_from` up to `t` are zero, and the one before it is not.
proof fn lemma_end(ws: Seq<int>, t: int)
    requires
        0 <= t <= ws.len(),
    ensures
        0 <= end_from(ws, t) <= t,
        forall|u: int| end_from(ws, t) <= u < t ==> #[trigger] ws[u] == 0,
        end_from(ws, t) > 0 ==> ws[end_from(ws, t) - 1] != 0,
    decreases t,
{
    if t > 0 && ws[t - 1] == 0 {
        lemma_end(ws, t - 1);
    }
}

/// A sum is the sum of its first `m` terms and of the rest.
proof fn lemma_sum_split(s: Seq<int>, m: int)
    requires
        0 <= m <= s.len(),
    ensures
        seq_sum(s) == seq_sum(s.take(m)) + seq_sum(s.subrange(m, s.len() as int)),
    decreases s.len(),
{
    if m == s.len() {
        assert(s.take(m) =~= s);
        assert(s.subrange(m, s.len() as int) =~= Seq::<int>::empty());
    } else {
        let d = s.drop_last();
        lemma_sum_split(d, m);
        assert(d.take(m) =~= s.take(m));
        assert(s.subrange(m, s.len() as int).drop_last() =~= d.subrange(m, d.len() as int));
    }
}

/// Weights that sum to one lose nothing when the zeros at their ends go.
proof fn lemma_trim(ws: Seq<int>)
    requires
        seq_sum(ws) == WEIGHT_ONE,
    ensures
        lead_from(ws, 0) < end_from(ws, ws.len() as int) <= ws.len(),
        seq_sum(ws.subrange(lead_from(ws, 0), end_from(ws, ws.len() as int))) == WEIGHT_ONE,
{
    let a = lead_from(ws, 0);
    let b = end_from(ws, ws.len() as int);
    lemma_lead(ws, 0);
    lemma_end(ws, ws.len() as int);
    if a == ws.len() {
        lemma_sum_zero(ws);
    }
    assert(ws[a] != 0);
    assert(a < b);
    lemma_sum_split(ws, a);
    assert forall|t: int| 0 <= t < ws.take(a).len() implies #[trigger] ws.take(a)[t] == 0 by {}
    lemma_sum_zero(ws.take(a));
    let rest = ws.subrange(a, ws.len() as int);
    lemma_sum_split(rest, b - a);
    let tail = rest.subrange(b - a, rest.len() as int);
    assert forall|t: int| 0 <= t < tail.len() implies #[trigger] tail[t] == 0 by {
        assert(tail[t] == ws[b + t]);
    }
    lemma_sum_zero(tail);
    assert(rest.take(b - a) =~= ws.subrange(a, b));
}

/// The coefficients of every destination index of an axis with `in_size`
/// source and `out` destination samples, over the crop interval
/// `[lo / q, hi / q]`.
pub fn precompute_coeffs(f: PILFilter, in_size: usize, out: usize, lo: i32, hi: i32, q: u32) -> (r: Result<Vec<CoeffEntry>, ImageError>)
    requires
        axis_args(in_size as int, out as int, lo as int, hi as int, q as int),
    ensures
        r.is_ok() <==> axis_ok(f, in_size as int, out as int, lo as int, hi as int, q as int),
        r.is_err() ==> r == Err::<Vec<CoeffEntry>, ImageError>(ImageError::DegenerateKernel),
        r.is_ok() ==> entries_view(r.unwrap()@) == axis_coeffs(f, in_size as int, out as int, lo as int, hi as int, q as int),
        r.is_ok() ==> coeffs_fit(entries_view(r.unwrap()@), in_size as int),
{
    if out == 0 || lo >= hi {
        return Err(ImageError::DegenerateKernel);
    }
    let ghost target = axis_coeffs(f, in_size as int, out as int, lo as int, hi as int, q as int);
    let mut entries: Vec<CoeffEntry> = Vec::new();
    let mut i: usize = 0;
    while i < out
        invariant
            axis_args(in_size as int, out as int, lo as int, hi as int, q as int),
            lo < hi,
            i <= out,
            target == axis_coeffs(f, in_size as int, out as int, lo as int, hi as int, q as int),
            entries@.len() == i,
            forall|ii: int| 0 <= ii < i ==> !#[trigger] entry_degenerate(f, in_size as int, out as int, lo as int, hi as int, q as int, ii),
            forall|ii: int| 0 <= ii < i ==> #[trigger] entries@[ii].view() == target[ii],
            coeffs_fit(entries_view(entries@), in_size as int),
        decreases out - i,
    {
        match axis_entry(f, in_size, out, lo, hi, q, i) {
            Some(e) => {
                let ghost ev = e.view();
                let ghost before = entries_view(entries@);
                assert(coeffs_fit(seq![ev], in_size as int));
                assert(seq![ev][0] == ev);
                entries.push(e);
                assert(entries_view(entries@) =~= before.push(ev));
                assert forall|ii: int| 0 <= ii < entries_view(entries@).len() implies {
                    let c = #[trigger] entries_view(entries@)[ii];
                    &&& 0 <= c.0
                    &&& 1 <= c.1.len()
                    &&& c.0 + c.1.len() <= in_size
                    &&& forall|t: int| 0 <= t < c.1.len() ==> -WEIGHT_LIMIT <= #[trigger] c.1[t] <= WEIGHT_LIMIT
                } by {
                    if ii < i {
                        assert(entries_view(entries@)[ii] == before[ii]);
                    } else {
                        assert(entries_view(entries@)[ii] == seq![ev][0]);
                    }
                }
            },
            None => {
                return Err(ImageError::DegenerateKernel);
            },
        }
        i = i + 1;
    }
    assert(entries_view(entries@) =~= target);
    Ok(entries)
}

/// Rounding each normalized weight moves a prefix of `m` weights by at most
/// `m / 2` units from the exact share of the total.
proof fn lemma_normalize_prefix(raw: Seq<int>, m: int)
    requires
        seq_sum(raw) > 0,
        0 <= m <= raw.len(),
    ensures
        2 * seq_sum(raw) * seq_sum(rounded(raw).take(m)) <= 2 * WEIGHT_ONE * seq_sum(raw.take(m)) + m * seq_sum(raw),
        2 * seq_sum(raw) * seq_sum(rounded(raw).take(m)) >= 2 * WEIGHT_ONE * seq_sum(raw.take(m)) - m * seq_sum(raw),
    decreases m,
{
    let tot = seq_sum(raw);
    let ks = rounded(raw);
    if m == 0 {
        assert(raw.take(0) =~= Seq::<int>::empty());
        assert(ks.take(0) =~= Seq::<int>::empty());
    } else {
        lemma_normalize_prefix(raw, m - 1);
        lemma_sum_push(raw, m - 1);
        lemma_sum_push(ks, m - 1);
        let r = raw[m - 1];
        let k = ks[m - 1];
        let num = r * 2 * WEIGHT_ONE + tot;
        lemma_fundamental_div_mod(num, 2 * tot);
        assert(k == num / (2 * tot));
        let rem = num % (2 * tot);
        assert(2 * tot * k <= 2 * WEIGHT_ONE * r + tot && 2 * tot * k >= 2 * WEIGHT_ONE * r - tot) by (nonlinear_arith)
            requires
                num == (2 * tot) * k + rem,
                0 <= rem < 2 * tot,
                num == r * 2 * WEIGHT_ONE + tot,
        ;
        let sk = seq_sum(ks.take(m - 1));
        let sr = seq_sum(raw.take(m - 1));
        assert(2 * tot * (sk + k) == 2 * tot * sk + 2 * tot * k) by (nonlinear_arith);
        assert(2 * WEIGHT_ONE * (sr + r) == 2 * WEIGHT_ONE * sr + 2 * WEIGHT_ONE * r) by (nonlinear_arith);
        assert(m * tot == (m - 1) * tot + tot) by (nonlinear_arith);
    }
}

/// Rounding each weight moves their sum by at most half a unit per weight.
proof fn lemma_rounding_error(raw: Seq<int>)
    requires
        seq_sum(raw) > 0,
    ensures
        2 * (seq_sum(rounded(raw)) - WEIGHT_ONE) <= raw.len(),
        2 * (WEIGHT_ONE - seq_sum(rounded(raw))) <= raw.len(),
{
    {
        let ws = rounded(raw);
        let tot = seq_sum(raw);
        let n = raw.len() as int;
        lemma_normalize_prefix(raw, n);
        assert(raw.take(n) =~= raw);
        assert(rounded(raw).take(n) =~= rounded(raw));
        let s = seq_sum(ws);
        assert(2 * (s - WEIGHT_ONE) <= n && 2 * (WEIGHT_ONE - s) <= n) by (nonlinear_arith)
            requires
                tot > 0,
                2 * tot * s <= 2 * WEIGHT_ONE * tot + n * tot,
                2 * tot * s >= 2 * WEIGHT_ONE * tot - n * tot,
        ;
    }
}

/// A sequence that is zero but at one place sums to the value there.
proof fn lemma_sum_single(s: Seq<int>, at: int)
    requires
        0 <= at < s.len(),
        forall|t: int| 0 <= t < s.len() && t != at ==> #[trigger] s[t] == 0,
    ensures
        seq_sum(s) == s[at],
    decreases s.len(),
{
    let d = s.drop_last();
    if at == s.len() - 1 {
        lemma_sum_zero(d);
    } else {
        assert forall|t: int| 0 <= t < d.len() && t != at implies #[trigger] d[t] == 0 by {
            assert(d[t] == s[t]);
        }
        lemma_sum_single(d, at);
    }
}

proof fn lemma_sum_zero(s: Seq<int>)
    requires
        forall|t: int| 0 <= t < s.len() ==> #[trigger] s[t] == 0,
    ensures
        seq_sum(s) == 0,
    decreases s.len(),
{
    if s.len() > 0 {
        let d = s.drop_last();
        assert forall|t: int| 0 <= t < d.len() implies #[trigger] d[t] == 0 by {
            assert(d[t] == s[t]);
        }
        lemma_sum_zero(d);
    }
}

/// An axis resampled to its own length over its whole extent gives
/// destination index `i` the full weight on source index `i` and none on
/// its neighbours, for every filter.
pub proof fn lemma_identity_entry(f: PILFilter, n: int, i: int)
    requires
        1 <= n <= MAX_EXTENT,
        0 <= i < n,
    ensures
        !entry_degenerate(f, n, n, 0, n, 1, i),
        0 <= coeff_entry(f, n, n, 0, n, 1, i).0 <= i,
        i < coeff_entry(f, n, n, 0, n, 1, i).0 + coeff_entry(f, n, n, 0, n, 1, i).1.len(),
        forall|t: int| 0 <= t < coeff_entry(f, n, n, 0, n, 1, i).1.len() ==>
            #[trigger] coeff_entry(f, n, n, 0, n, 1, i).1[t] == if coeff_entry(f, n, n, 0, n, 1, i).0 + t == i {
                WEIGHT_ONE as int
            } else {
                0
            },
{
    let c = axis_center(n, 0, n, i);
    assert(c == i * (2 * 1 * n) + n) by (nonlinear_arith)
        requires
            c == 2 * n * 0 + (2 * i + 1) * (n - 0),
    ;
    if f == PILFilter::Nearest {
        lemma_fundamental_div_mod_converse_div(c, 2 * 1 * n, i, n);
        return;
    }
    let r2 = filter_support2(f) as int;
    assert(1 <= r2 <= 6);
    assert(axis_scale(n, 0, n, 1) == n);
    let sp = r2 * n;
    let a_num = c - sp + 1 * n;
    let b_num = c + sp + 1 * n;
    assert(a_num < (i + 1) * (2 * 1 * n) && b_num >= (i + 1) * (2 * 1 * n)) by (nonlinear_arith)
        requires
            c == i * (2 * 1 * n) + n,
            sp == r2 * n,
            r2 >= 1,
            n >= 1,
            a_num == c - sp + 1 * n,
            b_num == c + sp + 1 * n,
    ;
    vstd::arithmetic::div_mod::lemma_fundamental_div_mod(a_num, 2 * 1 * n);
    vstd::arithmetic::div_mod::lemma_fundamental_div_mod(b_num, 2 * 1 * n);
    let qa = a_num / (2 * 1 * n);
    let qb = b_num / (2 * 1 * n);
    assert(qa <= i && qb >= i + 1) by (nonlinear_arith)
        requires
            a_num == (2 * 1 * n) * qa + a_num % (2 * 1 * n),
            b_num == (2 * 1 * n) * qb + b_num % (2 * 1 * n),
            0 <= a_num % (2 * 1 * n) < 2 * 1 * n,
            0 <= b_num % (2 * 1 * n) < 2 * 1 * n,
            a_num < (i + 1) * (2 * 1 * n),
            b_num >= (i + 1) * (2 * 1 * n),
            n >= 1,
    ;
    let lo_w = window_lo(f, n, 0, n, 1, i);
    let hi_w = window_hi(f, n, n, 0, n, 1, i);
    assert(lo_w == max(0, qa));
    assert(hi_w == min(n, qb));
    let raw = raw_weights(f, n, n, 0, n, 1, i);
    let at = i - lo_w;
    assert forall|t: int| 0 <= t < raw.len() implies #[trigger] raw[t] == tap_weight(f, n, 0, n, 1, i, lo_w + t)
        && (t == at ==> 0 < raw[t] <= FIX_ONE) && (t != at ==> raw[t] == 0) by {
        let j = lo_w + t;
        assert((2 * j + 1) * 1 * n - c == 2 * (j - i) * n) by (nonlinear_arith)
            requires
                c == i * (2 * 1 * n) + n,
        ;
        lemma_kernel_whole(f, j - i, n);
    }
    assert forall|t: int| 0 <= t < raw.len() && t != at implies #[trigger] raw[t] == 0 by {}
    lemma_sum_single(raw, at);
    let tot = seq_sum(raw);
    assert(tot == raw[at]);
    let ws = rounded(raw);
    assert forall|t: int| 0 <= t < ws.len() implies #[trigger] ws[t] == if lo_w + t == i { WEIGHT_ONE as int } else { 0 } by {
        if t == at {
            assert(raw[t] * 2 * WEIGHT_ONE + tot == WEIGHT_ONE * (2 * tot) + tot) by (nonlinear_arith)
                requires
                    raw[t] == tot,
            ;
            lemma_fundamental_div_mod_converse_div(raw[t] * 2 * WEIGHT_ONE + tot, 2 * tot, WEIGHT_ONE as int, tot);
        } else {
            assert(raw[t] * 2 * WEIGHT_ONE + tot == tot) by (nonlinear_arith)
                requires
                    raw[t] == 0,
            ;
            lemma_fundamental_div_mod_converse_div(tot, 2 * tot, 0, tot);
        }
    }
    assert forall|t: int| 0 <= t < ws.len() && t != at implies #[trigger] ws[t] == 0 by {}
    lemma_sum_single(ws, at);
    lemma_peak_in_range(raw, raw.len() as int);
    assert(normalize(raw) =~= ws);
    lemma_lead(ws, 0);
    lemma_end(ws, ws.len() as int);
    lemma_trim(ws);
    let la = lead_from(ws, 0);
    let lb = end_from(ws, ws.len() as int);
    assert(ws[at] != 0);
    assert(la <= at < lb);
}

/// The largest weight's place is a place of the sequence.
proof fn lemma_peak_in_range(raw: Seq<int>, n: int)
    requires
        1 <= n <= raw.len(),
    ensures
        0 <= peak_upto(raw, n) < n,
    decreases n,
{
    if n > 1 {
        lemma_peak_in_range(raw, n - 1);
    }
}

/// Changing one term by `d` changes the sum by `d`.
proof fn lemma_sum_update(s: Seq<int>, at: int, d: int)
    requires
        0 <= at < s.len(),
    ensures
        seq_sum(s.update(at, s[at] + d)) == seq_sum(s) + d,
    decreases s.len(),
{
    let u = s.update(at, s[at] + d);
    if at == s.len() - 1 {
        assert(u.drop_last() =~= s.drop_last());
    } else {
        lemma_sum_update(s.drop_last(), at, d);
        assert(u.drop_last() =~= s.drop_last().update(at, s.drop_last()[at] + d));
    }
}

/// The weights of every entry sum to exactly one (`WEIGHT_ONE`).
pub proof fn lemma_weights_normalized(f: PILFilter, in_size: int, out: int, lo: int, hi: int, q: int, i: int)
    requires
        axis_args(in_size, out, lo, hi, q),
        lo < hi,
        0 <= i < out,
        !entry_degenerate(f, in_size, out, lo, hi, q, i),
    ensures
        seq_sum(coeff_entry(f, in_size, out, lo, hi, q, i).1) == WEIGHT_ONE,
{
    let ws = coeff_entry(f, in_size, out, lo, hi, q, i).1;
    if f == PILFilter::Nearest {
        assert(ws =~= seq![WEIGHT_ONE as int]);
        assert(ws.drop_last() =~= Seq::<int>::empty());
        assert(seq_sum(ws.drop_last()) == 0);
        assert(seq_sum(ws) == WEIGHT_ONE);
    } else {
        let raw = raw_weights(f, in_size, out, lo, hi, q, i);
        if raw.len() == 0 {
            assert(seq_sum(raw) == 0);
        }
        lemma_normalize_sum(raw);
        lemma_trim(normalize(raw));
    }
}

/// Normalized weights sum to exactly one.
proof fn lemma_normalize_sum(raw: Seq<int>)
    requires
        seq_sum(raw) > 0,
    ensures
        seq_sum(normalize(raw)) == WEIGHT_ONE,
{
    if raw.len() == 0 {
        assert(seq_sum(raw) == 0);
    }
    lemma_peak_in_range(raw, raw.len() as int);
    let r = rounded(raw);
    let p = peak_upto(raw, raw.len() as int);
    lemma_sum_update(r, p, WEIGHT_ONE - seq_sum(r));
}

/// Every entry of an axis that is not degenerate reads a non-empty run of
/// source samples inside the source, with weights that sum to one.
pub proof fn lemma_entry_fits(f: PILFilter, in_size: int, out: int, lo: int, hi: int, q: int, i: int)
    requires
        axis_args(in_size, out, lo, hi, q),
        lo < hi,
        0 <= i < out,
        !entry_degenerate(f, in_size, out, lo, hi, q, i),
    ensures
        0 <= coeff_entry(f, in_size, out, lo, hi, q, i).0,
        1 <= coeff_entry(f, in_size, out, lo, hi, q, i).1.len(),
        coeff_entry(f, in_size, out, lo, hi, q, i).0 + coeff_entry(f, in_size, out, lo, hi, q, i).1.len() <= in_size,
        seq_sum(coeff_entry(f, in_size, out, lo, hi, q, i).1) == WEIGHT_ONE,
{
    lemma_weights_normalized(f, in_size, out, lo, hi, q, i);
    if f != PILFilter::Nearest {
        let raw = raw_weights(f, in_size, out, lo, hi, q, i);
        if raw.len() == 0 {
            assert(seq_sum(raw) == 0);
        }
        lemma_normalize_sum(raw);
        let ws = normalize(raw);
        lemma_trim(ws);
        lemma_lead(ws, 0);
        let a = window_lo(f, out, lo, hi, q, i);
        let b = window_hi(f, in_size, out, lo, hi, q, i);
        assert(a >= 0);
        assert(b > a && raw.len() == b - a);
        assert(b <= in_size);
        lemma_peak_in_range(raw, raw.len() as int);
        assert(ws.len() == raw.len());
    }
}

} // verus!
