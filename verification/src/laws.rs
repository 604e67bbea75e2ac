//! What holds of every resize. A filter without negative weights keeps
//! each output sample within the range of the samples it draws on, and
//! makes the order of the two passes matter by no more than a rounding
//! step; a uniform image stays uniform under every filter; at equal
//! extents every kernel copies by itself; and enlarging by whole factors
//! with a flat kernel repeats pixels, whichever pass comes first.

use crate::arith::{
    lemma_round_div_error, lemma_round_div_exact, lemma_round_div_range, round_div,
};
use crate::image::Raster;
use crate::kernel::{lemma_kernel_at_whole_steps, non_negative, peak};
use crate::resample::{
    column, lane, lemma_resample_same_length, resample_at, resampled_columns, resampled_rows,
    settle,
};
use crate::sums::{
    lemma_single_weight, lemma_weighted_sum_bounds, lemma_weighted_sum_constant,
    lemma_weighted_sum_exchange, lemma_weighted_sum_gap, sum, weighted_sum,
};
use crate::types::{PILFilter, PILType};
use crate::window::{
    axis_window, centre_num, filtered_window, lemma_axis_window_non_negative,
    lemma_axis_window_normalised, lemma_nearest_in_window, lemma_window_ends, offset_num,
    raw_weights, span, window_first, window_last, Window,
};
use vstd::arithmetic::div_mod::{
    lemma_div_is_ordered, lemma_fundamental_div_mod, lemma_fundamental_div_mod_converse,
};
use vstd::prelude::*;

verus! {

/// A window without negative weights yields a sample between the least
/// and the greatest of the samples it covers.
pub proof fn lemma_settle_within(win: Window, sig: Seq<int>, ty: PILType, lo: int, hi: int)
    requires
        win.weights.len() >= 1,
        sum(win.weights) > 0,
        forall|j: int| 0 <= j < win.weights.len() ==> win.weights[j] >= 0,
        forall|j: int|
            0 <= j < win.weights.len() ==> lo <= #[trigger] sig[win.start + j] <= hi,
        forall|j: int|
            0 <= j < win.weights.len() ==> ty.lowest() <= #[trigger] sig[win.start + j]
                <= ty.highest(),
    ensures
        lo <= settle(win, sig, ty) <= hi,
        ty.lowest() <= settle(win, sig, ty) <= ty.highest(),
        settle(win, sig, ty) == round_div(
            weighted_sum(win.weights, sig, win.start, win.weights.len() as int),
            sum(win.weights),
            ty.ties_to_even(),
        ),
{
    let n = win.weights.len() as int;
    let total = sum(win.weights);
    let acc = weighted_sum(win.weights, sig, win.start, n);
    assert(win.weights.take(n) =~= win.weights);
    let first = sig[win.start + 0];
    let least = if lo < ty.lowest() {
        ty.lowest()
    } else {
        lo
    };
    let most = if hi > ty.highest() {
        ty.highest()
    } else {
        hi
    };
    assert(least <= first <= most);
    lemma_weighted_sum_bounds(win.weights, sig, win.start, n, least, most);
    lemma_round_div_range(acc, total, least, most, ty.ties_to_even());
}

/// A window over samples that are all `c` yields `c`.
pub proof fn lemma_settle_constant(win: Window, sig: Seq<int>, ty: PILType, c: int)
    requires
        sum(win.weights) > 0,
        forall|j: int| 0 <= j < win.weights.len() ==> #[trigger] sig[win.start + j] == c,
        ty.lowest() <= c <= ty.highest(),
    ensures
        settle(win, sig, ty) == c,
{
    let n = win.weights.len() as int;
    assert(win.weights.take(n) =~= win.weights);
    lemma_weighted_sum_constant(win.weights, sig, win.start, n, c);
    lemma_round_div_exact(c, sum(win.weights), ty.ties_to_even());
}

/// Range preservation along one axis. Under `Nearest`, `Box_` or
/// `Bilinear`, a resampled sample lies between any two bounds that
/// enclose the samples of its window: there is no overshoot.
pub proof fn lemma_resample_at_within(
    sig: Seq<int>,
    t: int,
    d: int,
    f: PILFilter,
    ty: PILType,
    lo: int,
    hi: int,
)
    requires
        sig.len() > 0,
        t > 0,
        0 <= d < t,
        non_negative(f),
        forall|j: int|
            0 <= j < axis_window(sig.len() as int, t, d, f).weights.len() ==> lo
                <= #[trigger] sig[axis_window(sig.len() as int, t, d, f).start + j] <= hi,
        forall|i: int| 0 <= i < sig.len() ==> ty.lowest() <= #[trigger] sig[i] <= ty.highest(),
    ensures
        lo <= resample_at(sig, t, d, f, ty) <= hi,
{
    let win = axis_window(sig.len() as int, t, d, f);
    lemma_axis_window_normalised(sig.len() as int, t, d, f);
    lemma_axis_window_non_negative(sig.len() as int, t, d, f);
    lemma_settle_within(win, sig, ty, lo, hi);
}

/// A uniform signal stays uniform: resampled with any filter to any
/// length, every sample is the constant.
pub proof fn lemma_resample_at_constant(
    sig: Seq<int>,
    t: int,
    d: int,
    f: PILFilter,
    ty: PILType,
    c: int,
)
    requires
        sig.len() > 0,
        t > 0,
        0 <= d < t,
        forall|i: int| 0 <= i < sig.len() ==> #[trigger] sig[i] == c,
        ty.lowest() <= c <= ty.highest(),
    ensures
        resample_at(sig, t, d, f, ty) == c,
{
    let win = axis_window(sig.len() as int, t, d, f);
    lemma_axis_window_normalised(sig.len() as int, t, d, f);
    lemma_settle_constant(win, sig, ty, c);
}

/// The pixel an element of a row belongs to, and its lane in it.
pub proof fn lemma_element_of_pixel(r: Raster, width: int, k: int)
    requires
        0 <= k < r.mode.row_elements(width),
    ensures
        0 <= k / r.mode.lanes() < width,
        0 <= k % r.mode.lanes() < r.mode.lanes(),
        (k / r.mode.lanes()) * r.mode.lanes() + k % r.mode.lanes() == k,
{
    if r.mode.lanes() == 1 {
        assert(k / 1 == k && k % 1 == 0);
    } else {
        assert(r.mode.lanes() == 4);
        assert(0 <= k / 4 < width && (k / 4) * 4 + k % 4 == k);
    }
}

/// Range preservation. When an image is resized under `Nearest`, `Box_`
/// or `Bilinear`, element `k` of output row `y` lies between any two
/// bounds that enclose the source elements it draws on: those of its
/// lane, in the columns of its horizontal window and the rows of its
/// vertical window.
pub proof fn lemma_resized_within(
    r: Raster,
    tx: int,
    ty: int,
    f: PILFilter,
    y: int,
    k: int,
    lo: int,
    hi: int,
)
    requires
        r.valid(),
        tx > 0,
        ty > 0,
        non_negative(f),
        0 <= y < ty,
        0 <= k < r.mode.row_elements(tx),
        forall|j: int, i: int|
            0 <= j < axis_window(r.height, ty, y, f).weights.len() && 0 <= i < axis_window(
                r.width,
                tx,
                k / r.mode.lanes(),
                f,
            ).weights.len() ==> lo <= #[trigger] r.samples[axis_window(r.height, ty, y, f).start
                + j][(axis_window(r.width, tx, k / r.mode.lanes(), f).start + i) * r.mode.lanes()
                + k % r.mode.lanes()] <= hi,
    ensures
        lo <= r.resized(tx, ty, f).samples[y][k] <= hi,
{
    let lanes = r.mode.lanes();
    let kind = r.mode.element();
    let d = k / lanes;
    let l = k % lanes;
    lemma_element_of_pixel(r, tx, k);
    let xw = axis_window(r.width, tx, d, f);
    let yw = axis_window(r.height, ty, y, f);
    lemma_axis_window_normalised(r.width, tx, d, f);
    lemma_axis_window_normalised(r.height, ty, y, f);
    let mid = r.resized_horizontally(tx, f);
    assert(tx * lanes == r.mode.row_elements(tx)) by {
        if lanes == 1 {
        } else {
            assert(lanes == 4);
        }
    }
    let col = column(mid.samples, k);
    assert forall|j: int| 0 <= j < col.len() implies kind.lowest() <= #[trigger] col[j]
        <= kind.highest() by {
        let sig = lane(r.samples[j], r.width, lanes, l);
        assert(col[j] == resample_at(sig, tx, d, f, kind));
    }
    assert forall|j: int| 0 <= j < yw.weights.len() implies lo <= #[trigger] col[yw.start + j]
        <= hi by {
        let row = yw.start + j;
        let sig = lane(r.samples[row], r.width, lanes, l);
        assert(col[row] == resample_at(sig, tx, d, f, kind));
        assert(r.samples[row].len() == r.row_len());
        assert forall|i: int| 0 <= i < sig.len() implies kind.lowest() <= #[trigger] sig[i]
            <= kind.highest() by {
            assert(0 <= i * lanes + l < r.row_len()) by (nonlinear_arith)
                requires
                    0 <= i < r.width,
                    0 <= l < lanes,
                    r.row_len() == r.width * lanes,
            ;
        }
        assert forall|i: int| 0 <= i < xw.weights.len() implies lo <= #[trigger] sig[xw.start
            + i] <= hi by {
            assert(sig[xw.start + i] == r.samples[yw.start + j][(xw.start + i) * lanes + l]);
        }
        lemma_resample_at_within(sig, tx, d, f, kind, lo, hi);
    }
    lemma_resample_at_within(col, ty, y, f, kind, lo, hi);
}

/// A uniform image stays uniform. When lane `l` of every pixel of an
/// image holds the same value, lane `l` of every pixel of the resized
/// image holds it too, whatever the filter and the target size.
pub proof fn lemma_resized_uniform(
    r: Raster,
    tx: int,
    ty: int,
    f: PILFilter,
    l: int,
    c: int,
    y: int,
    x: int,
)
    requires
        r.valid(),
        tx > 0,
        ty > 0,
        0 <= l < r.mode.lanes(),
        forall|j: int, i: int|
            0 <= j < r.height && 0 <= i < r.width ==> #[trigger] r.samples[j][i * r.mode.lanes()
                + l] == c,
        0 <= y < ty,
        0 <= x < tx,
    ensures
        r.resized(tx, ty, f).samples[y][x * r.mode.lanes() + l] == c,
{
    let lanes = r.mode.lanes();
    let kind = r.mode.element();
    let k = x * lanes + l;
    assert(0 <= k < tx * lanes) by (nonlinear_arith)
        requires
            0 <= x < tx,
            0 <= l < lanes,
            k == x * lanes + l,
    ;
    assert(tx * lanes == r.mode.row_elements(tx) && r.width * lanes == r.row_len()) by {
        if lanes == 1 {
        } else {
            assert(lanes == 4);
        }
    }
    lemma_element_of_pixel(r, tx, k);
    assert(k / lanes == x && k % lanes == l) by {
        if lanes == 1 {
        } else {
            assert(lanes == 4);
        }
    }
    assert(r.samples[0].len() == r.row_len());
    assert(0 <= 0 * lanes + l < r.row_len()) by (nonlinear_arith)
        requires
            0 < r.width,
            0 <= l < lanes,
            r.row_len() == r.width * lanes,
    ;
    assert(r.samples[0][0 * lanes + l] == c);
    assert(kind.lowest() <= c <= kind.highest());
    let mid = r.resized_horizontally(tx, f);
    let col = column(mid.samples, k);
    assert forall|j: int| 0 <= j < col.len() implies #[trigger] col[j] == c by {
        let sig = lane(r.samples[j], r.width, lanes, l);
        assert(col[j] == resample_at(sig, tx, x, f, kind));
        assert forall|i: int| 0 <= i < sig.len() implies #[trigger] sig[i] == c by {
            assert(sig[i] == r.samples[j][i * lanes + l]);
        }
        lemma_resample_at_constant(sig, tx, x, f, kind, c);
    }
    lemma_resample_at_constant(col, ty, y, f, kind, c);
}

/// The two orders of the passes agree within rounding. Let one sample
/// be computed from a table twice: along the rows with `a`, rounded,
/// then across with `b`, rounded; and along the columns with `b`,
/// rounded, then across with `a`, rounded. With no negative weight the
/// two results differ by at most 1 when halfway values round upwards,
/// and by at most 2 when they round to even.
pub proof fn lemma_two_pass_gap(
    a: Seq<int>,
    b: Seq<int>,
    xs: int,
    ys: int,
    rows: Seq<Seq<int>>,
    cols: Seq<Seq<int>>,
    u: Seq<int>,
    v: Seq<int>,
    ties_to_even: bool,
)
    requires
        sum(a) > 0,
        sum(b) > 0,
        forall|i: int| 0 <= i < a.len() ==> a[i] >= 0,
        forall|j: int| 0 <= j < b.len() ==> b[j] >= 0,
        0 <= xs,
        0 <= ys,
        xs + a.len() <= cols.len(),
        ys + b.len() <= rows.len(),
        forall|j: int, i: int|
            0 <= j < b.len() && 0 <= i < a.len() ==> #[trigger] rows[ys + j][xs + i] == cols[xs
                + i][ys + j],
        forall|j: int|
            0 <= j < b.len() ==> #[trigger] u[ys + j] == round_div(
                weighted_sum(a, rows[ys + j], xs, a.len() as int),
                sum(a),
                ties_to_even,
            ),
        forall|i: int|
            0 <= i < a.len() ==> #[trigger] v[xs + i] == round_div(
                weighted_sum(b, cols[xs + i], ys, b.len() as int),
                sum(b),
                ties_to_even,
            ),
    ensures
        ({
            let across_rows = round_div(
                weighted_sum(b, u, ys, b.len() as int),
                sum(b),
                ties_to_even,
            );
            let across_cols = round_div(
                weighted_sum(a, v, xs, a.len() as int),
                sum(a),
                ties_to_even,
            );
            let slack: int = if ties_to_even {
                2
            } else {
                1
            };
            -slack <= across_rows - across_cols <= slack
        }),
{
    let m = a.len() as int;
    let n = b.len() as int;
    let ta = sum(a);
    let tb = sum(b);
    let hrow = Seq::new(rows.len(), |j: int| weighted_sum(a, rows[j], xs, m));
    let gcol = Seq::new(cols.len(), |i: int| weighted_sum(b, cols[i], ys, n));
    let p = weighted_sum(b, u, ys, n);
    let q = weighted_sum(a, v, xs, m);
    let x = round_div(p, tb, ties_to_even);
    let y = round_div(q, ta, ties_to_even);
    let elo: int = if ties_to_even {
        -ta
    } else {
        1 - ta
    };
    let flo: int = if ties_to_even {
        -tb
    } else {
        1 - tb
    };
    assert(a.take(m) =~= a);
    assert(b.take(n) =~= b);
    assert forall|j: int| 0 <= j < n implies #[trigger] hrow[ys + j] == weighted_sum(
        a,
        rows[ys + j],
        xs,
        m,
    ) by {}
    assert forall|i: int| 0 <= i < m implies #[trigger] gcol[xs + i] == weighted_sum(
        b,
        cols[xs + i],
        ys,
        n,
    ) by {}
    lemma_weighted_sum_exchange(a, b, xs, ys, n, rows, cols, hrow, gcol);
    let e = weighted_sum(b, hrow, ys, n);
    assert forall|j: int| 0 <= j < n implies elo <= 2 * (ta * #[trigger] u[ys + j]) - 2 * hrow[ys
        + j] <= ta by {
        lemma_round_div_error(hrow[ys + j], ta, ties_to_even);
    }
    lemma_weighted_sum_gap(b, u, hrow, ys, n, ta, elo, ta);
    assert forall|i: int| 0 <= i < m implies flo <= 2 * (tb * #[trigger] v[xs + i]) - 2 * gcol[xs
        + i] <= tb by {
        lemma_round_div_error(gcol[xs + i], tb, ties_to_even);
    }
    lemma_weighted_sum_gap(a, v, gcol, xs, m, tb, flo, tb);
    lemma_round_div_error(p, tb, ties_to_even);
    lemma_round_div_error(q, ta, ties_to_even);
    lemma_two_pass_margin(ta, tb, p, e, x, elo, flo);
    lemma_two_pass_margin(tb, ta, q, e, y, flo, elo);
    assert(tb * ta == ta * tb && tb * elo == elo * tb && flo * ta == ta * flo)
        by (nonlinear_arith);
    lemma_close_multiples(ta, tb, x, y, e, ties_to_even);
}

/// One order of the passes against the unrounded double sum `e`. If the
/// inner pass, of total `ta`, keeps `2 (ta p - e)` between `elo tb` and
/// `ta tb`, and the outer rounding keeps `2 (tb x - p)` between `flo`
/// and `tb`, then `2 (ta tb x - e)` lies between `ta flo + elo tb` and
/// `2 ta tb`.
pub proof fn lemma_two_pass_margin(
    ta: int,
    tb: int,
    p: int,
    e: int,
    x: int,
    elo: int,
    flo: int,
)
    requires
        ta > 0,
        elo * tb <= 2 * (ta * p) - 2 * e <= ta * tb,
        flo <= 2 * (tb * x) - 2 * p <= tb,
    ensures
        ta * flo + elo * tb <= 2 * (ta * tb * x) - 2 * e <= 2 * (ta * tb),
{
    let g = 2 * (tb * x) - 2 * p;
    assert(ta * flo <= ta * g <= ta * tb) by (nonlinear_arith)
        requires
            ta > 0,
            flo <= g <= tb,
    ;
    assert(ta * g == 2 * (ta * tb * x) - 2 * (ta * p)) by (nonlinear_arith)
        requires
            g == 2 * (tb * x) - 2 * p,
    ;
}

/// Two integers whose multiples by `ta tb` lie in one interval of width
/// `4 ta tb` differ by at most 2, and by at most 1 when the interval is
/// shorter by `ta + tb`.
pub proof fn lemma_close_multiples(ta: int, tb: int, x: int, y: int, e: int, wide: bool)
    requires
        ta > 0,
        tb > 0,
        (if wide {
            ta * (-tb) + (-ta) * tb
        } else {
            ta * (1 - tb) + (1 - ta) * tb
        }) <= 2 * (ta * tb * x) - 2 * e <= 2 * (ta * tb),
        (if wide {
            ta * (-tb) + (-ta) * tb
        } else {
            ta * (1 - tb) + (1 - ta) * tb
        }) <= 2 * (ta * tb * y) - 2 * e <= 2 * (ta * tb),
    ensures
        wide ==> -2 <= x - y <= 2,
        !wide ==> -1 <= x - y <= 1,
{
    let ab = ta * tb;
    let dd = x - y;
    assert(ab > 0) by (nonlinear_arith)
        requires
            ta > 0,
            tb > 0,
            ab == ta * tb,
    ;
    assert(ta * (-tb) + (-ta) * tb == -2 * ab && ta * (1 - tb) + (1 - ta) * tb == ta + tb - 2
        * ab) by (nonlinear_arith)
        requires
            ab == ta * tb,
    ;
    assert(2 * (ab * x) - 2 * (ab * y) == 2 * (ab * dd)) by (nonlinear_arith)
        requires
            dd == x - y,
    ;
    if wide {
        assert(-4 * ab <= 2 * (ab * dd) <= 4 * ab);
        assert(-2 <= dd <= 2) by (nonlinear_arith)
            requires
                ab > 0,
                -2 * ab <= ab * dd <= 2 * ab,
        ;
    } else {
        assert(-(4 * ab - ta - tb) <= 2 * (ab * dd) <= 4 * ab - ta - tb);
        assert(-1 <= dd <= 1) by (nonlinear_arith)
            requires
                ab > 0,
                -2 * ab < ab * dd < 2 * ab,
        ;
    }
}

/// A sample of the horizontal pass under a filter without negative
/// weights: the rounded quotient itself, which lies in the range of the
/// element type without being cut to it.
pub proof fn lemma_unclamped_row_sample(
    g: Seq<Seq<int>>,
    width: int,
    lanes: int,
    t: int,
    f: PILFilter,
    ty: PILType,
    j: int,
    k: int,
)
    requires
        width > 0,
        t > 0,
        lanes == 1 || lanes == 4,
        non_negative(f),
        0 <= j < g.len(),
        0 <= k < t * lanes,
        g[j].len() == width * lanes,
        forall|i: int| 0 <= i < width * lanes ==> ty.lowest() <= #[trigger] g[j][i] <= ty.highest(),
    ensures
        ({
            let win = axis_window(width, t, k / lanes, f);
            let sig = lane(g[j], width, lanes, k % lanes);
            let out = resampled_rows(g, width, lanes, t, f, ty)[j][k];
            out == round_div(
                weighted_sum(win.weights, sig, win.start, win.weights.len() as int),
                sum(win.weights),
                ty.ties_to_even(),
            ) && ty.lowest() <= out <= ty.highest()
        }),
{
    let d = k / lanes;
    let l = k % lanes;
    assert(0 <= d < t && 0 <= l < lanes) by {
        if lanes == 1 {
        } else {
            assert(lanes == 4);
        }
    }
    let win = axis_window(width, t, d, f);
    let sig = lane(g[j], width, lanes, l);
    lemma_axis_window_normalised(width, t, d, f);
    lemma_axis_window_non_negative(width, t, d, f);
    assert forall|i: int| 0 <= i < win.weights.len() implies ty.lowest() <= #[trigger] sig[win.start
        + i] <= ty.highest() by {
        let c = win.start + i;
        assert(0 <= c * lanes + l < width * lanes) by (nonlinear_arith)
            requires
                0 <= c < width,
                0 <= l < lanes,
        ;
        assert(sig[c] == g[j][c * lanes + l]);
    }
    lemma_settle_within(win, sig, ty, ty.lowest(), ty.highest());
    assert(resampled_rows(g, width, lanes, t, f, ty)[j][k] == resample_at(sig, t, d, f, ty));
}

/// A sample of the vertical pass under a filter without negative
/// weights: the rounded quotient itself, which lies in the range of the
/// element type without being cut to it.
pub proof fn lemma_unclamped_column_sample(
    g: Seq<Seq<int>>,
    row_len: int,
    t: int,
    f: PILFilter,
    ty: PILType,
    d: int,
    k: int,
)
    requires
        g.len() > 0,
        t > 0,
        non_negative(f),
        0 <= d < t,
        0 <= k < row_len,
        forall|j: int| 0 <= j < g.len() ==> ty.lowest() <= #[trigger] g[j][k] <= ty.highest(),
    ensures
        ({
            let win = axis_window(g.len() as int, t, d, f);
            let sig = column(g, k);
            let out = resampled_columns(g, row_len, t, f, ty)[d][k];
            out == round_div(
                weighted_sum(win.weights, sig, win.start, win.weights.len() as int),
                sum(win.weights),
                ty.ties_to_even(),
            ) && ty.lowest() <= out <= ty.highest()
        }),
{
    let win = axis_window(g.len() as int, t, d, f);
    let sig = column(g, k);
    lemma_axis_window_normalised(g.len() as int, t, d, f);
    lemma_axis_window_non_negative(g.len() as int, t, d, f);
    assert forall|j: int| 0 <= j < win.weights.len() implies ty.lowest() <= #[trigger] sig[win.start
        + j] <= ty.highest() by {
        assert(sig[win.start + j] == g[win.start + j][k]);
    }
    lemma_settle_within(win, sig, ty, ty.lowest(), ty.highest());
    assert(resampled_columns(g, row_len, t, f, ty)[d][k] == resample_at(sig, t, d, f, ty));
}

/// The order of the passes. Under `Nearest`, `Box_` or `Bilinear`,
/// resizing with the horizontal pass first and resizing with the
/// vertical pass first give images that differ in no element by more
/// than 1 level where halfway values round upwards (`Uint8`), nor by
/// more than 2 where they round to even (`Int32`).
pub proof fn lemma_pass_order(r: Raster, tx: int, ty: int, f: PILFilter, y: int, k: int)
    requires
        r.valid(),
        tx > 0,
        ty > 0,
        non_negative(f),
        0 <= y < ty,
        0 <= k < r.mode.row_elements(tx),
    ensures
        ({
            let first = r.resized(tx, ty, f).samples[y][k];
            let second = r.resized_vertical_first(tx, ty, f).samples[y][k];
            let slack: int = if r.mode.element().ties_to_even() {
                2
            } else {
                1
            };
            -slack <= first - second <= slack
        }),
{
    let lanes = r.mode.lanes();
    let kind = r.mode.element();
    let d = k / lanes;
    let l = k % lanes;
    let g = r.samples;
    lemma_element_of_pixel(r, tx, k);
    assert(tx * lanes == r.mode.row_elements(tx) && r.width * lanes == r.row_len()) by {
        if lanes == 1 {
        } else {
            assert(lanes == 4);
        }
    }
    let xw = axis_window(r.width, tx, d, f);
    let yw = axis_window(r.height, ty, y, f);
    lemma_axis_window_normalised(r.width, tx, d, f);
    lemma_axis_window_normalised(r.height, ty, y, f);
    lemma_axis_window_non_negative(r.width, tx, d, f);
    lemma_axis_window_non_negative(r.height, ty, y, f);
    let rows = Seq::new(r.height as nat, |j: int| lane(g[j], r.width, lanes, l));
    let cols = Seq::new(r.width as nat, |i: int| column(g, i * lanes + l));
    let mid = resampled_rows(g, r.width, lanes, tx, f, kind);
    let midv = resampled_columns(g, r.row_len(), ty, f, kind);
    let u = column(mid, k);
    let v = lane(midv[y], r.width, lanes, l);
    assert forall|j: int| 0 <= j < r.height implies kind.lowest() <= (#[trigger] mid[j])[k]
        <= kind.highest() && u[j] == round_div(
        weighted_sum(xw.weights, rows[j], xw.start, xw.weights.len() as int),
        sum(xw.weights),
        kind.ties_to_even(),
    ) by {
        assert(g[j].len() == r.row_len());
        lemma_unclamped_row_sample(g, r.width, lanes, tx, f, kind, j, k);
    }
    assert forall|i: int| 0 <= i < r.width * lanes implies kind.lowest() <= #[trigger] midv[y][i]
        <= kind.highest() by {
        assert forall|j: int| 0 <= j < g.len() implies kind.lowest() <= #[trigger] g[j][i]
            <= kind.highest() by {
            assert(g[j].len() == r.row_len());
        }
        lemma_unclamped_column_sample(g, r.row_len(), ty, f, kind, y, i);
    }
    assert forall|i: int| 0 <= i < r.width implies #[trigger] v[i] == round_div(
        weighted_sum(yw.weights, cols[i], yw.start, yw.weights.len() as int),
        sum(yw.weights),
        kind.ties_to_even(),
    ) by {
        let c = i * lanes + l;
        assert(0 <= c < r.row_len()) by (nonlinear_arith)
            requires
                0 <= i < r.width,
                0 <= l < lanes,
                r.row_len() == r.width * lanes,
                c == i * lanes + l,
        ;
        assert forall|j: int| 0 <= j < g.len() implies kind.lowest() <= #[trigger] g[j][c]
            <= kind.highest() by {
            assert(g[j].len() == r.row_len());
        }
        lemma_unclamped_column_sample(g, r.row_len(), ty, f, kind, y, c);
    }
    let first = r.resized(tx, ty, f).samples[y][k];
    let second = r.resized_vertical_first(tx, ty, f).samples[y][k];
    assert(first == round_div(
        weighted_sum(yw.weights, u, yw.start, yw.weights.len() as int),
        sum(yw.weights),
        kind.ties_to_even(),
    )) by {
        assert(mid.len() == r.height);
        lemma_unclamped_column_sample(mid, tx * lanes, ty, f, kind, y, k);
        assert(r.resized(tx, ty, f).samples == resampled_columns(mid, tx * lanes, ty, f, kind));
    }
    assert(second == round_div(
        weighted_sum(xw.weights, v, xw.start, xw.weights.len() as int),
        sum(xw.weights),
        kind.ties_to_even(),
    )) by {
        assert(midv.len() == ty);
        assert(midv[y].len() == r.width * lanes);
        lemma_unclamped_row_sample(midv, r.width, lanes, tx, f, kind, y, k);
        assert(r.resized_vertical_first(tx, ty, f).samples == resampled_rows(
            midv,
            r.width,
            lanes,
            tx,
            f,
            kind,
        ));
    }
    assert forall|j: int, i: int|
        0 <= j < yw.weights.len() && 0 <= i < xw.weights.len() implies #[trigger] rows[yw.start
        + j][xw.start + i] == cols[xw.start + i][yw.start + j] by {
        let row = yw.start + j;
        let c = xw.start + i;
        assert(rows[row][c] == g[row][c * lanes + l]);
        assert(cols[c][row] == g[row][c * lanes + l]);
    }
    assert forall|j: int| 0 <= j < yw.weights.len() implies #[trigger] u[yw.start + j]
        == round_div(
        weighted_sum(xw.weights, rows[yw.start + j], xw.start, xw.weights.len() as int),
        sum(xw.weights),
        kind.ties_to_even(),
    ) by {}
    assert forall|i: int| 0 <= i < xw.weights.len() implies #[trigger] v[xw.start + i]
        == round_div(
        weighted_sum(yw.weights, cols[xw.start + i], yw.start, yw.weights.len() as int),
        sum(yw.weights),
        kind.ties_to_even(),
    ) by {}
    lemma_two_pass_gap(
        xw.weights,
        yw.weights,
        xw.start,
        yw.start,
        rows,
        cols,
        u,
        v,
        kind.ties_to_even(),
    );
}

/// Equal extents need no special case: at a scale of one every kernel
/// weighs only the sample at the destination coordinate, so the window
/// it gives yields that sample exactly.
pub proof fn lemma_kernel_copies_at_equal_extents(
    sig: Seq<int>,
    d: int,
    f: PILFilter,
    ty: PILType,
)
    requires
        0 <= d < sig.len(),
        ty.lowest() <= sig[d] <= ty.highest(),
    ensures
        settle(filtered_window(sig.len() as int, sig.len() as int, d, f), sig, ty) == sig[d],
{
    let n = sig.len() as int;
    let reach = f.reach();
    let first = window_first(n, n, d, f);
    let last = window_last(n, n, d, f);
    let raw = raw_weights(n, n, d, f);
    let top = peak(f, n);
    lemma_window_ends(n, n, d, f);
    assert(centre_num(n, n, d) == 2 * d * n) by (nonlinear_arith)
        requires
            centre_num(n, n, d) == (2 * d + 1) * n - n,
    ;
    assert(reach * n >= 0) by (nonlinear_arith)
        requires
            reach >= 1,
            n >= 1,
    ;
    assert((2 * n) * d == 2 * d * n) by (nonlinear_arith);
    lemma_fundamental_div_mod_converse(2 * d * n, 2 * n, d, 0);
    lemma_div_is_ordered(2 * d * n - reach * n, 2 * d * n, 2 * n);
    lemma_div_is_ordered(2 * d * n, 2 * d * n + reach * n + 2 * n - 1, 2 * n);
    assert(first <= d <= last);
    let at = d - first;
    assert forall|j: int| 0 <= j < raw.len() implies raw[j] == (if j == at {
        top
    } else {
        0
    }) by {
        let i = first + j;
        assert(offset_num(n, n, d, i) == 2 * n * (i - d)) by (nonlinear_arith)
            requires
                offset_num(n, n, d, i) == 2 * n * i - 2 * d * n,
        ;
        lemma_kernel_at_whole_steps(f, i - d, n);
    }
    lemma_kernel_at_whole_steps(f, 0, n);
    let len = raw.len() as int;
    assert(raw.take(len) =~= raw);
    lemma_single_weight(raw, sig, first, len, at);
    assert(sum(raw) == top);
    let win = filtered_window(n, n, d, f);
    assert(win.start == first && win.weights == raw);
    assert(top * sig[d] == sig[d] * top) by (nonlinear_arith);
    lemma_round_div_exact(sig[d], top, ty.ties_to_even());
}

/// A filter that weighs every sample of its support alike.
pub open spec fn flat(f: PILFilter) -> bool {
    f == PILFilter::Nearest || f == PILFilter::Box_
}

/// Enlarging by a whole factor repeats samples. Under `Nearest` or
/// `Box_`, a signal resampled to `k` times its length holds each of its
/// samples `k` times over: sample `d` of the result is sample `d / k`
/// of the signal.
pub proof fn lemma_enlarging_repeats(
    sig: Seq<int>,
    k: int,
    d: int,
    f: PILFilter,
    ty: PILType,
)
    requires
        sig.len() > 0,
        k >= 1,
        0 <= d < k * sig.len(),
        flat(f),
        forall|i: int| 0 <= i < sig.len() ==> ty.lowest() <= #[trigger] sig[i] <= ty.highest(),
    ensures
        0 <= d / k < sig.len(),
        resample_at(sig, k * sig.len(), d, f, ty) == sig[d / k],
{
    let s = sig.len() as int;
    let t = k * s;
    let q = d / k;
    let r = d % k;
    lemma_fundamental_div_mod(d, k);
    assert(0 <= q < s) by (nonlinear_arith)
        requires
            d == k * q + r,
            0 <= r < k,
            0 <= d < k * s,
    ;
    if k == 1 {
        assert(t == s) by (nonlinear_arith)
            requires
                t == k * s,
                k == 1,
        ;
        assert(d == q);
        lemma_resample_same_length(sig, d, f, ty);
    } else {
        assert(t > s && t >= 2 * s) by (nonlinear_arith)
            requires
                t == k * s,
                k >= 2,
                s > 0,
        ;
        let whole = (2 * d + 1) * s;
        let rest = (2 * r + 1) * s;
        assert(whole == (2 * t) * q + rest && s <= rest <= 2 * t - s) by (nonlinear_arith)
            requires
                whole == (2 * d + 1) * s,
                rest == (2 * r + 1) * s,
                d == k * q + r,
                0 <= r < k,
                t == k * s,
                s > 0,
        ;
        lemma_fundamental_div_mod_converse(whole, 2 * t, q, rest);
        lemma_nearest_in_window(s, t, d, f);
        let first = window_first(s, t, d, f);
        let raw = raw_weights(s, t, d, f);
        let at = q - first;
        assert(f.reach() * span(s, t) == t) by (nonlinear_arith)
            requires
                f.reach() == 1,
                span(s, t) == t,
        ;
        assert forall|j: int| 0 <= j < raw.len() implies raw[j] == (if j == at {
            1int
        } else {
            0int
        }) by {
            let i = first + j;
            let off = offset_num(s, t, d, i);
            assert(off == 2 * t * (i - q) + (t - rest)) by (nonlinear_arith)
                requires
                    off == 2 * t * i - (whole - t),
                    whole == (2 * t) * q + rest,
            ;
            if i > q {
                assert(2 * t * (i - q) >= 2 * t) by (nonlinear_arith)
                    requires
                        i - q >= 1,
                        t > 0,
                ;
            } else if i < q {
                assert(2 * t * (i - q) <= -2 * t) by (nonlinear_arith)
                    requires
                        i - q <= -1,
                        t > 0,
                ;
            } else {
                assert(2 * t * (i - q) == 0) by (nonlinear_arith)
                    requires
                        i == q,
                ;
            }
        }
        let len = raw.len() as int;
        assert(raw.take(len) =~= raw);
        lemma_single_weight(raw, sig, first, len, at);
        let win = filtered_window(s, t, d, f);
        assert(win.start == first && win.weights == raw);
        assert(1 * sig[q] == sig[q] * 1) by (nonlinear_arith);
        lemma_round_div_exact(sig[q], 1, ty.ties_to_even());
    }
}

/// Enlarging an image by whole factors under `Nearest` or `Box_`
/// repeats its pixels, `kx` times across and `ky` times down, and does
/// so whichever pass comes first: for these sizes the order of the
/// passes changes nothing.
pub proof fn lemma_enlarged_by_whole_factors(
    r: Raster,
    kx: int,
    ky: int,
    f: PILFilter,
    y: int,
    x: int,
    l: int,
)
    requires
        r.valid(),
        kx >= 1,
        ky >= 1,
        flat(f),
        0 <= y < ky * r.height,
        0 <= x < kx * r.width,
        0 <= l < r.mode.lanes(),
    ensures
        0 <= y / ky < r.height,
        0 <= x / kx < r.width,
        r.resized(kx * r.width, ky * r.height, f).samples[y][x * r.mode.lanes() + l]
            == r.samples[y / ky][(x / kx) * r.mode.lanes() + l],
        r.resized_vertical_first(kx * r.width, ky * r.height, f).samples[y][x * r.mode.lanes()
            + l] == r.samples[y / ky][(x / kx) * r.mode.lanes() + l],
{
    let lanes = r.mode.lanes();
    let kind = r.mode.element();
    let g = r.samples;
    let tx = kx * r.width;
    let ty = ky * r.height;
    let k = x * lanes + l;
    let sx = x / kx;
    let sy = y / ky;
    let c = sx * lanes + l;
    lemma_fundamental_div_mod(x, kx);
    lemma_fundamental_div_mod(y, ky);
    assert(0 <= sx < r.width) by (nonlinear_arith)
        requires
            x == kx * sx + x % kx,
            0 <= x % kx < kx,
            0 <= x < kx * r.width,
    ;
    assert(0 <= sy < r.height) by (nonlinear_arith)
        requires
            y == ky * sy + y % ky,
            0 <= y % ky < ky,
            0 <= y < ky * r.height,
    ;
    assert(r.width * lanes == r.row_len()) by {
        if lanes == 1 {
        } else {
            assert(lanes == 4);
        }
    }
    assert(0 <= k < tx * lanes && 0 <= c < r.width * lanes) by (nonlinear_arith)
        requires
            0 <= x < tx,
            0 <= sx < r.width,
            0 <= l < lanes,
            k == x * lanes + l,
            c == sx * lanes + l,
    ;
    assert(k / lanes == x && k % lanes == l) by {
        assert(lanes * x == x * lanes) by (nonlinear_arith);
        lemma_fundamental_div_mod_converse(k, lanes, x, l);
    }
    assert forall|j: int, i: int| 0 <= j < r.height && 0 <= i < r.row_len() implies kind.lowest()
        <= #[trigger] g[j][i] <= kind.highest() by {}
    assert forall|j: int| 0 <= j < r.height implies (#[trigger] g[j]).len() == r.row_len() by {}
    let mid = resampled_rows(g, r.width, lanes, tx, f, kind);
    let midv = resampled_columns(g, r.row_len(), ty, f, kind);
    let u = column(mid, k);
    let v = lane(midv[y], r.width, lanes, l);
    assert forall|j: int| 0 <= j < r.height implies #[trigger] u[j] == g[j][c] && kind.lowest()
        <= u[j] <= kind.highest() by {
        let sig = lane(g[j], r.width, lanes, l);
        assert forall|i: int| 0 <= i < sig.len() implies kind.lowest() <= #[trigger] sig[i]
            <= kind.highest() by {
            assert(0 <= i * lanes + l < r.row_len()) by (nonlinear_arith)
                requires
                    0 <= i < r.width,
                    0 <= l < lanes,
                    r.row_len() == r.width * lanes,
            ;
        }
        lemma_enlarging_repeats(sig, kx, x, f, kind);
        assert(u[j] == resample_at(sig, tx, x, f, kind));
        assert(sig[sx] == g[j][c]);
    }
    lemma_enlarging_repeats(u, ky, y, f, kind);
    assert(r.resized(tx, ty, f).samples == resampled_columns(mid, tx * lanes, ty, f, kind));
    assert(r.resized(tx, ty, f).samples[y][k] == resample_at(u, ty, y, f, kind));
    assert forall|i: int| 0 <= i < r.width implies #[trigger] v[i] == g[sy][i * lanes + l]
        && kind.lowest() <= v[i] <= kind.highest() by {
        let e = i * lanes + l;
        assert(0 <= e < r.row_len()) by (nonlinear_arith)
            requires
                0 <= i < r.width,
                0 <= l < lanes,
                r.row_len() == r.width * lanes,
                e == i * lanes + l,
        ;
        let sig = column(g, e);
        assert forall|j: int| 0 <= j < sig.len() implies kind.lowest() <= #[trigger] sig[j]
            <= kind.highest() by {
            assert(sig[j] == g[j][e]);
        }
        lemma_enlarging_repeats(sig, ky, y, f, kind);
        assert(v[i] == midv[y][e]);
        assert(midv[y][e] == resample_at(sig, ty, y, f, kind));
        assert(sig[sy] == g[sy][e]);
    }
    lemma_enlarging_repeats(v, kx, x, f, kind);
    assert(r.resized_vertical_first(tx, ty, f).samples == resampled_rows(
        midv,
        r.width,
        lanes,
        tx,
        f,
        kind,
    ));
    assert(r.resized_vertical_first(tx, ty, f).samples[y][k] == resample_at(v, tx, x, f, kind));
}

} // verus!
