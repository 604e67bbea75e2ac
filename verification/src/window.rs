//! The geometry of one axis: for every destination coordinate, the window
//! of source indices it draws on and the weight of each.
//!
//! With `s` source samples and `t` destination samples the scale is
//! `s / t`, and destination `d` is centred on the source position
//! `(d + 1/2) s / t - 1/2`. All of it is computed on integers: positions
//! are held as numerators over `2 t`, kernel distances as numerators
//! over `2 max(s, t)`.

use crate::arith::{clamp, floor_div, lemma_product_range, DIVISOR_MAX};
use crate::kernel::{kernel_weight, kernel_weight_fixed, non_negative, WEIGHT_MAX};
use crate::sums::{
    lemma_sum_at_least, lemma_sum_negated, lemma_sum_non_negative, lemma_sum_push,
    lemma_sum_unit, negated, sum,
};
use crate::types::PILFilter;
use vstd::arithmetic::div_mod::{lemma_div_is_ordered, lemma_fundamental_div_mod};
use vstd::prelude::*;

verus! {

/// A window: the first source index it covers and the weight of each
/// index from there on. The normalised weight of an index is its weight
/// divided by the sum of all of them.
pub struct Window {
    pub start: int,
    pub weights: Seq<int>,
}

/// The centre of destination `d`, as a numerator over `2 t`.
pub open spec fn centre_num(s: int, t: int, d: int) -> int {
    (2 * d + 1) * s - t
}

/// The larger of the two extents. The support radius is the kernel's
/// own when enlarging, and grows with the scale when reducing: as a
/// numerator over `2 t` it is `reach * span`.
pub open spec fn span(s: int, t: int) -> int {
    if s > t {
        s
    } else {
        t
    }
}

/// The first index of the window of `d`: the centre less the support,
/// rounded down, and kept inside the source.
pub open spec fn window_first(s: int, t: int, d: int, f: PILFilter) -> int {
    clamp((centre_num(s, t, d) - f.reach() * span(s, t)) / (2 * t), 0, s - 1)
}

/// The last index of the window of `d`: the centre plus the support,
/// rounded up, and kept inside the source.
pub open spec fn window_last(s: int, t: int, d: int, f: PILFilter) -> int {
    clamp((centre_num(s, t, d) + f.reach() * span(s, t) + 2 * t - 1) / (2 * t), 0, s - 1)
}

/// The distance of source index `i` from the centre of `d` in units of
/// the kernel, as a numerator over `2 span(s, t)`.
pub open spec fn offset_num(s: int, t: int, d: int, i: int) -> int {
    2 * t * i - centre_num(s, t, d)
}

/// The kernel's weight for each index of the window of `d`.
pub open spec fn raw_weights(s: int, t: int, d: int, f: PILFilter) -> Seq<int> {
    Seq::new(
        (window_last(s, t, d, f) - window_first(s, t, d, f) + 1) as nat,
        |j: int| kernel_weight(f, offset_num(s, t, d, window_first(s, t, d, f) + j), span(s, t)),
    )
}

/// The source index nearest to the centre of `d`.
pub open spec fn nearest_index(s: int, t: int, d: int) -> int {
    ((2 * d + 1) * s) / (2 * t)
}

/// The window the kernel gives destination `d` when `s` samples are
/// resampled to `t`: the kernel's weights over the window, with the
/// sign that makes their sum positive. A kernel with negative lobes
/// could in principle weigh a clipped window to a sum of zero, which
/// cannot be normalised; such a window falls back on the nearest sample
/// alone.
pub open spec fn filtered_window(s: int, t: int, d: int, f: PILFilter) -> Window {
    let raw = raw_weights(s, t, d, f);
    if sum(raw) > 0 {
        Window { start: window_first(s, t, d, f), weights: raw }
    } else if sum(raw) < 0 {
        Window { start: window_first(s, t, d, f), weights: negated(raw) }
    } else {
        Window {
            start: clamp(nearest_index(s, t, d), window_first(s, t, d, f), window_last(s, t, d, f)),
            weights: seq![1int],
        }
    }
}

/// The window of destination `d` when `s` samples are resampled to `t`.
/// Equal extents copy: the window is the sample itself. Otherwise it is
/// the window the kernel gives.
pub open spec fn axis_window(s: int, t: int, d: int, f: PILFilter) -> Window {
    if s == t {
        Window { start: d, weights: seq![1int] }
    } else {
        filtered_window(s, t, d, f)
    }
}

/// The window of a destination coordinate starts before it ends, and
/// both ends lie inside the source.
pub proof fn lemma_window_ends(s: int, t: int, d: int, f: PILFilter)
    requires
        s > 0,
        t > 0,
    ensures
        0 <= window_first(s, t, d, f) <= window_last(s, t, d, f) <= s - 1,
{
    let a = centre_num(s, t, d);
    let r = f.reach() * span(s, t);
    assert(r >= 0) by (nonlinear_arith)
        requires
            r == f.reach() * span(s, t),
            f.reach() >= 1,
            span(s, t) >= 1,
    ;
    lemma_div_is_ordered(a - r, a + r + 2 * t - 1, 2 * t);
}

/// Every window lies inside the source, is not empty, and has weights
/// of positive sum: the normalised weights exist, and add up to one.
pub proof fn lemma_axis_window_normalised(s: int, t: int, d: int, f: PILFilter)
    requires
        s > 0,
        t > 0,
        0 <= d < t,
    ensures
        axis_window(s, t, d, f).weights.len() >= 1,
        0 <= axis_window(s, t, d, f).start,
        axis_window(s, t, d, f).start + axis_window(s, t, d, f).weights.len() <= s,
        sum(axis_window(s, t, d, f).weights) > 0,
{
    lemma_window_ends(s, t, d, f);
    let raw = raw_weights(s, t, d, f);
    lemma_sum_negated(raw);
    lemma_sum_unit();
}

/// The windows of a filter without negative weights have none.
pub proof fn lemma_axis_window_non_negative(s: int, t: int, d: int, f: PILFilter)
    requires
        s > 0,
        t > 0,
        0 <= d < t,
        non_negative(f),
    ensures
        forall|j: int|
            0 <= j < axis_window(s, t, d, f).weights.len() ==> axis_window(s, t, d, f).weights[j]
                >= 0,
{
    let raw = raw_weights(s, t, d, f);
    assert forall|j: int| 0 <= j < raw.len() implies raw[j] >= 0 by {}
    lemma_sum_non_negative(raw);
}

/// The sample nearest to the centre lies inside the source and inside
/// the window, whatever the filter, and its distance from the centre is
/// `t` less the remainder of `(2 d + 1) s` by `2 t`, over `2 span`.
pub proof fn lemma_nearest_in_window(s: int, t: int, d: int, f: PILFilter)
    requires
        s > 0,
        t > 0,
        0 <= d < t,
    ensures
        0 <= window_first(s, t, d, f) <= nearest_index(s, t, d) <= window_last(s, t, d, f) <= s
            - 1,
        offset_num(s, t, d, nearest_index(s, t, d)) == t - ((2 * d + 1) * s) % (2 * t),
        0 <= ((2 * d + 1) * s) % (2 * t) < 2 * t,
{
    let a = centre_num(s, t, d);
    let m = span(s, t);
    let reach = f.reach();
    let whole = (2 * d + 1) * s;
    let near = whole / (2 * t);
    let rest = whole % (2 * t);
    lemma_window_ends(s, t, d, f);
    lemma_fundamental_div_mod(whole, 2 * t);
    assert(0 <= whole <= (2 * t) * (s - 1) + (2 * t - 1)) by (nonlinear_arith)
        requires
            whole == (2 * d + 1) * s,
            0 <= d < t,
            s > 0,
    ;
    assert((2 * t) * near == 2 * t * near) by (nonlinear_arith);
    assert(0 <= near <= s - 1) by (nonlinear_arith)
        requires
            whole == (2 * t) * near + rest,
            0 <= rest < 2 * t,
            0 <= whole <= (2 * t) * (s - 1) + (2 * t - 1),
            t > 0,
    ;
    assert(reach * m >= m) by (nonlinear_arith)
        requires
            reach >= 1,
            m >= 1,
    ;
    lemma_div_is_ordered(a - reach * m, whole, 2 * t);
    lemma_div_is_ordered(whole, a + reach * m + 2 * t - 1, 2 * t);
}

/// Under `Nearest`, `Box_` or `Bilinear` the fallback on the nearest
/// sample is never taken: the kernel gives the sample nearest to the
/// centre a positive weight and none a negative one, so that every
/// window holds the kernel's own weights.
pub proof fn lemma_kernel_window_positive(s: int, t: int, d: int, f: PILFilter)
    requires
        s > 0,
        t > 0,
        0 <= d < t,
        non_negative(f),
    ensures
        sum(raw_weights(s, t, d, f)) > 0,
        filtered_window(s, t, d, f) == (Window {
            start: window_first(s, t, d, f),
            weights: raw_weights(s, t, d, f),
        }),
{
    let m = span(s, t);
    let near = nearest_index(s, t, d);
    let raw = raw_weights(s, t, d, f);
    lemma_nearest_in_window(s, t, d, f);
    let off = offset_num(s, t, d, near);
    assert(-t < off <= t);
    let at = near - window_first(s, t, d, f);
    assert(raw[at] == kernel_weight(f, off, m));
    assert(raw[at] > 0);
    assert forall|j: int| 0 <= j < raw.len() implies raw[j] >= 0 by {}
    lemma_sum_at_least(raw, at);
}

/// A window ready for use: where it starts, its weights, and their sum.
pub struct AxisWindow {
    pub start: usize,
    pub weights: Vec<i64>,
    pub total: i128,
}

impl View for AxisWindow {
    type V = Window;

    open spec fn view(&self) -> Window {
        Window { start: self.start as int, weights: self.weights@.map_values(|w: i64| w as int) }
    }
}

impl AxisWindow {
    /// The window lies inside a source of `extent` samples, `total` is
    /// the sum of the weights and positive, and no weight exceeds
    /// `WEIGHT_MAX` in magnitude, which bounds the sum by `DIVISOR_MAX`.
    pub open spec fn wf(&self, extent: int) -> bool {
        &&& extent <= i32::MAX
        &&& self.weights@.len() >= 1
        &&& self.start + self.weights@.len() <= extent
        &&& self.total == sum(self@.weights)
        &&& 0 < self.total <= DIVISOR_MAX
        &&& forall|j: int|
            0 <= j < self.weights@.len() ==> -WEIGHT_MAX <= #[trigger] self.weights@[j]
                <= WEIGHT_MAX
    }
}

/// The window of one sample with weight one.
fn unit_window(at: usize) -> (win: AxisWindow)
    ensures
        win@ == (Window { start: at as int, weights: seq![1int] }),
        win.total == 1,
        win.weights@.len() == 1,
        win.weights@[0] == 1,
        win.start == at,
{
    let mut weights: Vec<i64> = Vec::new();
    weights.push(1);
    let win = AxisWindow { start: at, weights, total: 1 };
    assert(win@.weights =~= seq![1int]);
    win
}

/// Computes the window of destination `d` when `s` samples are
/// resampled to `t`.
pub fn axis_window_at(s: i32, t: i32, d: i32, f: PILFilter) -> (win: AxisWindow)
    requires
        s > 0,
        t > 0,
        0 <= d < t,
    ensures
        win.wf(s as int),
        win@ == axis_window(s as int, t as int, d as int, f),
{
    proof {
        lemma_axis_window_normalised(s as int, t as int, d as int, f);
        lemma_sum_unit();
    }
    if s == t {
        return unit_window(d as usize);
    }
    let ghost si = s as int;
    let ghost ti = t as int;
    let ghost di = d as int;
    let ws: i128 = s as i128;
    let wt: i128 = t as i128;
    let wd: i128 = d as i128;
    let m: i128 = if s > t {
        ws
    } else {
        wt
    };
    let reach: i128 = f.doubled_radius() as i128;
    proof {
        lemma_product_range(2 * wd + 1, ws as int, 0x1_0000_0000, 0x8000_0000);
        lemma_product_range(reach as int, m as int, 6, 0x8000_0000);
        lemma_window_ends(si, ti, di, f);
    }
    let centre: i128 = (2 * wd + 1) * ws - wt;
    let radius: i128 = reach * m;
    let first: i128 = clamp_wide(floor_div(centre - radius, 2 * wt), 0, ws - 1);
    let last: i128 = clamp_wide(floor_div(centre + radius + 2 * wt - 1, 2 * wt), 0, ws - 1);
    assert(first == window_first(si, ti, di, f));
    assert(last == window_last(si, ti, di, f));
    let ghost raw = raw_weights(si, ti, di, f);
    let mut weights: Vec<i64> = Vec::new();
    let mut total: i128 = 0;
    let ghost mut seen: Seq<int> = Seq::empty();
    let mut i: i128 = first;
    while i <= last
        invariant
            0 < s <= i32::MAX,
            0 < t <= i32::MAX,
            0 <= d < t,
            si == s,
            ti == t,
            di == d,
            ws == s,
            wt == t,
            wd == d,
            m == span(si, ti),
            centre == centre_num(si, ti, di),
            -0x8000_0000 <= centre <= 0x8000_0000_0000_0000,
            first == window_first(si, ti, di, f),
            last == window_last(si, ti, di, f),
            0 <= first <= last <= s - 1,
            first <= i <= last + 1,
            raw == raw_weights(si, ti, di, f),
            seen.len() == i - first,
            weights@.len() == i - first,
            forall|j: int| 0 <= j < i - first ==> seen[j] == raw[j],
            forall|j: int| 0 <= j < i - first ==> weights@[j] == #[trigger] seen[j],
            forall|j: int|
                0 <= j < i - first ==> -WEIGHT_MAX <= #[trigger] weights@[j] <= WEIGHT_MAX,
            total == sum(seen),
            -(i - first) * WEIGHT_MAX <= total <= (i - first) * WEIGHT_MAX,
        decreases last + 1 - i,
    {
        proof {
            lemma_product_range(2 * wt, i as int, 0x1_0000_0000, 0x8000_0000);
            assert(2 * ti * i == (2 * wt) * i) by (nonlinear_arith)
                requires
                    ti == wt,
            ;
        }
        let n: i128 = 2 * wt * i - centre;
        let w: i64 = kernel_weight_fixed(f, n, m as i64);
        proof {
            assert(raw[i - first] == w);
            lemma_sum_push(seen, w as int);
            seen = seen.push(w as int);
            assert((i + 1 - first) * WEIGHT_MAX == (i - first) * WEIGHT_MAX + WEIGHT_MAX)
                by (nonlinear_arith);
        }
        weights.push(w);
        total = total + w as i128;
        i = i + 1;
    }
    proof {
        assert(seen =~= raw);
        assert((last + 1 - first) * WEIGHT_MAX <= 0x8000_0000 * WEIGHT_MAX) by (nonlinear_arith)
            requires
                0 <= last + 1 - first <= 0x8000_0000,
        ;
    }
    if total == 0 {
        let near: i128 = (2 * wd + 1) * ws / (2 * wt);
        return unit_window(clamp_wide(near, first, last) as usize);
    }
    if total < 0 {
        let len: usize = weights.len();
        let mut k: usize = 0;
        while k < len
            invariant
                len == weights@.len(),
                len == raw.len(),
                0 <= k <= len,
                forall|j: int| 0 <= j < k ==> weights@[j] == -raw[j],
                forall|j: int| k <= j < len ==> weights@[j] == raw[j],
                forall|j: int|
                    0 <= j < len ==> -WEIGHT_MAX <= #[trigger] weights@[j] <= WEIGHT_MAX,
            decreases len - k,
        {
            let w: i64 = weights[k];
            weights.set(k, -w);
            k = k + 1;
        }
        total = -total;
        proof {
            lemma_sum_negated(raw);
        }
    }
    let win = AxisWindow { start: first as usize, weights, total };
    proof {
        if sum(raw) > 0 {
            assert(win@.weights =~= raw);
        } else {
            assert(win@.weights =~= negated(raw));
        }
    }
    win
}

/// `v` limited to the range from `lo` to `hi`.
fn clamp_wide(v: i128, lo: i128, hi: i128) -> (r: i128)
    ensures
        r == clamp(v as int, lo as int, hi as int),
{
    if v < lo {
        lo
    } else if v > hi {
        hi
    } else {
        v
    }
}

/// Computes the windows of all `t` destination coordinates when `s`
/// samples are resampled to `t`.
pub fn axis_windows(s: i32, t: i32, f: PILFilter) -> (wins: Vec<AxisWindow>)
    requires
        s > 0,
        t > 0,
    ensures
        wins@.len() == t,
        forall|d: int|
            0 <= d < t ==> (#[trigger] wins@[d]).wf(s as int) && wins@[d]@ == axis_window(
                s as int,
                t as int,
                d,
                f,
            ),
{
    let mut wins: Vec<AxisWindow> = Vec::new();
    let mut d: i32 = 0;
    while d < t
        invariant
            s > 0,
            0 <= d <= t,
            wins@.len() == d,
            forall|e: int|
                0 <= e < d ==> (#[trigger] wins@[e]).wf(s as int) && wins@[e]@ == axis_window(
                    s as int,
                    t as int,
                    e,
                    f,
                ),
        decreases t - d,
    {
        let win = axis_window_at(s, t, d, f);
        wins.push(win);
        d = d + 1;
    }
    wins
}

} // verus!
