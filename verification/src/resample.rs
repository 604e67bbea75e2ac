//! The resize: every row resampled along x, then every column of the
//! result resampled along y, each sample rounded to its element type
//! after each pass.

use crate::arith::{
    clamp, lemma_product_bounds, lemma_round_div_exact, round_clamp, round_div, DIVIDEND_MAX,
    DIVISOR_MAX,
};
use crate::kernel::WEIGHT_MAX;
use crate::image::{PILImage, Raster};
use crate::types::{grid, levels, PILError, PILFilter, PILType, Sample};
use crate::sums::{lemma_sum_unit, sum, weighted_sum};
use crate::window::{axis_window, axis_windows, AxisWindow, Window};
use vstd::arithmetic::div_mod::lemma_fundamental_div_mod_converse;
use vstd::prelude::*;

verus! {

/// The sample a window yields on a signal: the weighted sum over the
/// sum of the weights, rounded to the nearest integer and limited to
/// the range of the element type.
pub open spec fn settle(win: Window, sig: Seq<int>, ty: PILType) -> int {
    clamp(
        round_div(
            weighted_sum(win.weights, sig, win.start, win.weights.len() as int),
            sum(win.weights),
            ty.ties_to_even(),
        ),
        ty.lowest(),
        ty.highest(),
    )
}

/// Sample `d` of a signal resampled to `t` samples.
pub open spec fn resample_at(sig: Seq<int>, t: int, d: int, f: PILFilter, ty: PILType) -> int {
    settle(axis_window(sig.len() as int, t, d, f), sig, ty)
}

/// Lane `l` of a row of `width` pixels: element `l` of every pixel.
pub open spec fn lane(row: Seq<int>, width: int, lanes: int, l: int) -> Seq<int> {
    Seq::new(width as nat, |i: int| row[i * lanes + l])
}

/// Column `k` of a stack of rows.
pub open spec fn column(g: Seq<Seq<int>>, k: int) -> Seq<int> {
    Seq::new(g.len(), |j: int| g[j][k])
}

/// The horizontal pass: every lane of every row resampled from `width`
/// to `t` pixels.
pub open spec fn resampled_rows(
    g: Seq<Seq<int>>,
    width: int,
    lanes: int,
    t: int,
    f: PILFilter,
    ty: PILType,
) -> Seq<Seq<int>> {
    Seq::new(
        g.len(),
        |y: int|
            Seq::new(
                (t * lanes) as nat,
                |k: int| resample_at(lane(g[y], width, lanes, k % lanes), t, k / lanes, f, ty),
            ),
    )
}

/// The vertical pass: every column of rows of `row_len` elements
/// resampled to `t` rows.
pub open spec fn resampled_columns(
    g: Seq<Seq<int>>,
    row_len: int,
    t: int,
    f: PILFilter,
    ty: PILType,
) -> Seq<Seq<int>> {
    Seq::new(
        t as nat,
        |d: int| Seq::new(row_len as nat, |k: int| resample_at(column(g, k), t, d, f, ty)),
    )
}

/// A window of one sample with weight one yields that sample.
pub proof fn lemma_settle_unit(sig: Seq<int>, at: int, ty: PILType)
    requires
        0 <= at < sig.len(),
        ty.lowest() <= sig[at] <= ty.highest(),
    ensures
        settle(Window { start: at, weights: seq![1int] }, sig, ty) == sig[at],
{
    let w = seq![1int];
    lemma_sum_unit();
    assert(weighted_sum(w, sig, at, 0) == 0);
    assert(weighted_sum(w, sig, at, 1) == weighted_sum(w, sig, at, 0) + w[0] * sig[at + 0]);
    assert(w[0] * sig[at] == sig[at] * 1) by (nonlinear_arith)
        requires
            w[0] == 1,
    ;
    lemma_round_div_exact(sig[at], 1, ty.ties_to_even());
}

/// Resampling a signal to its own length leaves every sample as it is.
pub proof fn lemma_resample_same_length(sig: Seq<int>, d: int, f: PILFilter, ty: PILType)
    requires
        0 <= d < sig.len(),
        ty.lowest() <= sig[d] <= ty.highest(),
    ensures
        resample_at(sig, sig.len() as int, d, f, ty) == sig[d],
{
    lemma_settle_unit(sig, d, ty);
}

/// The weighted sum of a window over lane `l` of a row.
fn gather_lane<T: Sample>(
    row: &Vec<T>,
    width: usize,
    lanes: usize,
    l: usize,
    win: &AxisWindow,
) -> (acc: i128)
    requires
        win.wf(width as int),
        1 <= lanes,
        l < lanes,
        row@.len() == width * lanes,
    ensures
        acc == weighted_sum(
            win@.weights,
            lane(levels(row@), width as int, lanes as int, l as int),
            win@.start,
            win@.weights.len() as int,
        ),
        -DIVIDEND_MAX <= acc <= DIVIDEND_MAX,
{
    let ghost sig = lane(levels(row@), width as int, lanes as int, l as int);
    let n: usize = win.weights.len();
    let room: usize = row.len();
    let mut acc: i128 = 0;
    let mut j: usize = 0;
    while j < n
        invariant
            win.wf(width as int),
            1 <= lanes,
            l < lanes,
            row@.len() == width * lanes,
            room == width * lanes,
            n == win.weights@.len(),
            0 <= j <= n,
            sig == lane(levels(row@), width as int, lanes as int, l as int),
            acc == weighted_sum(win@.weights, sig, win@.start, j as int),
            -j * 0x4000_0000_0000_0000_0000_0000 <= acc <= j * 0x4000_0000_0000_0000_0000_0000,
        decreases n - j,
    {
        let at: usize = win.start + j;
        assert(0 <= at * lanes && at * lanes + l < width * lanes) by (nonlinear_arith)
            requires
                0 <= at < width,
                0 <= l < lanes,
        ;
        let p: i64 = row[at * lanes + l].widen();
        let w: i64 = win.weights[j];
        proof {
            row@[at * lanes + l].level_bounds();
            lemma_product_bounds(w as int, p as int, WEIGHT_MAX as int, 0x1_0000_0000);
            assert(win@.weights[j as int] == w);
            assert(sig[win@.start + j] == p);
        }
        acc = acc + (w as i128) * (p as i128);
        j = j + 1;
    }
    assert(n * 0x4000_0000_0000_0000_0000_0000 <= 0x2000_0000_0000_0000_0000_0000_0000_0000)
        by (nonlinear_arith)
        requires
            0 <= n <= 0x8000_0000,
    ;
    acc
}

/// The weighted sum of a window over column `k` of a stack of rows.
fn gather_column<T: Sample>(rows: &Vec<Vec<T>>, row_len: usize, k: usize, win: &AxisWindow) -> (acc:
    i128)
    requires
        win.wf(rows@.len() as int),
        k < row_len,
        forall|y: int| 0 <= y < rows@.len() ==> (#[trigger] rows@[y])@.len() == row_len,
    ensures
        acc == weighted_sum(
            win@.weights,
            column(grid(rows@), k as int),
            win@.start,
            win@.weights.len() as int,
        ),
        -DIVIDEND_MAX <= acc <= DIVIDEND_MAX,
{
    let ghost sig = column(grid(rows@), k as int);
    let n: usize = win.weights.len();
    let mut acc: i128 = 0;
    let mut j: usize = 0;
    while j < n
        invariant
            win.wf(rows@.len() as int),
            k < row_len,
            forall|y: int| 0 <= y < rows@.len() ==> (#[trigger] rows@[y])@.len() == row_len,
            n == win.weights@.len(),
            0 <= j <= n,
            sig == column(grid(rows@), k as int),
            acc == weighted_sum(win@.weights, sig, win@.start, j as int),
            -j * 0x4000_0000_0000_0000_0000_0000 <= acc <= j * 0x4000_0000_0000_0000_0000_0000,
        decreases n - j,
    {
        let at: usize = win.start + j;
        let p: i64 = rows[at][k].widen();
        let w: i64 = win.weights[j];
        proof {
            rows@[at as int]@[k as int].level_bounds();
            lemma_product_bounds(w as int, p as int, WEIGHT_MAX as int, 0x1_0000_0000);
            assert(win@.weights[j as int] == w);
            assert(sig[win@.start + j] == p);
        }
        acc = acc + (w as i128) * (p as i128);
        j = j + 1;
    }
    assert(n * 0x4000_0000_0000_0000_0000_0000 <= 0x2000_0000_0000_0000_0000_0000_0000_0000)
        by (nonlinear_arith)
        requires
            0 <= n <= 0x8000_0000,
    ;
    acc
}

/// Rounds a weighted sum over the window's total into an element.
fn finish<T: Sample>(acc: i128, win: &AxisWindow, Ghost(sig): Ghost<Seq<int>>) -> (v: T)
    requires
        0 < win.total <= DIVISOR_MAX,
        win.total == sum(win@.weights),
        acc == weighted_sum(win@.weights, sig, win@.start, win@.weights.len() as int),
        -DIVIDEND_MAX <= acc <= DIVIDEND_MAX,
    ensures
        v.level() == settle(win@, sig, T::kind()),
{
    let lo: i64 = T::least();
    let hi: i64 = T::greatest();
    T::narrow(round_clamp(acc, win.total, T::rounds_to_even(), lo, hi))
}

/// A copy of a stack of rows.
pub fn copy_rows<T: Sample>(rows: &Vec<Vec<T>>) -> (out: Vec<Vec<T>>)
    ensures
        out@.len() == rows@.len(),
        forall|y: int| 0 <= y < rows@.len() ==> (#[trigger] out@[y])@ == rows@[y]@,
{
    let mut out: Vec<Vec<T>> = Vec::new();
    let mut y: usize = 0;
    while y < rows.len()
        invariant
            0 <= y <= rows@.len(),
            out@.len() == y,
            forall|j: int| 0 <= j < y ==> (#[trigger] out@[j])@ == rows@[j]@,
        decreases rows@.len() - y,
    {
        let row = &rows[y];
        let mut line: Vec<T> = Vec::new();
        let mut k: usize = 0;
        while k < row.len()
            invariant
                0 <= k <= row@.len(),
                line@.len() == k,
                forall|j: int| 0 <= j < k ==> line@[j] == row@[j],
            decreases row@.len() - k,
        {
            line.push(row[k]);
            k = k + 1;
        }
        assert(line@ =~= row@);
        out.push(line);
        y = y + 1;
    }
    out
}

/// The horizontal pass over a stack of rows of `width` pixels with
/// `lanes` elements each: every lane of every row resampled to `target`
/// pixels.
pub fn resample_rows<T: Sample>(
    rows: &Vec<Vec<T>>,
    width: i32,
    lanes: usize,
    target: i32,
    filter: PILFilter,
) -> (out: Vec<Vec<T>>)
    requires
        width > 0,
        target > 0,
        lanes >= 1,
        target * lanes <= i32::MAX,
        forall|y: int| 0 <= y < rows@.len() ==> (#[trigger] rows@[y])@.len() == width * lanes,
    ensures
        out@.len() == rows@.len(),
        forall|y: int| 0 <= y < out@.len() ==> (#[trigger] out@[y])@.len() == target * lanes,
        grid(out@) =~~= resampled_rows(
            grid(rows@),
            width as int,
            lanes as int,
            target as int,
            filter,
            T::kind(),
        ),
{
    let wins = axis_windows(width, target, filter);
    let ghost want = resampled_rows(
        grid(rows@),
        width as int,
        lanes as int,
        target as int,
        filter,
        T::kind(),
    );
    let mut out: Vec<Vec<T>> = Vec::new();
    let mut y: usize = 0;
    while y < rows.len()
        invariant
            width > 0,
            target > 0,
            lanes >= 1,
            target * lanes <= i32::MAX,
            forall|j: int| 0 <= j < rows@.len() ==> (#[trigger] rows@[j])@.len() == width * lanes,
            wins@.len() == target,
            forall|d: int|
                0 <= d < target ==> (#[trigger] wins@[d]).wf(width as int) && wins@[d]@
                    == axis_window(width as int, target as int, d, filter),
            want == resampled_rows(
                grid(rows@),
                width as int,
                lanes as int,
                target as int,
                filter,
                T::kind(),
            ),
            0 <= y <= rows@.len(),
            out@.len() == y,
            forall|j: int| 0 <= j < y ==> (#[trigger] out@[j])@.len() == target * lanes,
            forall|j: int| 0 <= j < y ==> levels((#[trigger] out@[j])@) =~= want[j],
        decreases rows@.len() - y,
    {
        let row = &rows[y];
        let mut line: Vec<T> = Vec::new();
        let mut d: usize = 0;
        assert(0 * lanes == 0) by (nonlinear_arith);
        while d < target as usize
            invariant
                width > 0,
                target > 0,
                lanes >= 1,
                target * lanes <= i32::MAX,
                0 <= y < rows@.len(),
                row@ == rows@[y as int]@,
                row@.len() == width * lanes,
                wins@.len() == target,
                forall|e: int|
                    0 <= e < target ==> (#[trigger] wins@[e]).wf(width as int) && wins@[e]@
                        == axis_window(width as int, target as int, e, filter),
                want == resampled_rows(
                    grid(rows@),
                    width as int,
                    lanes as int,
                    target as int,
                    filter,
                    T::kind(),
                ),
                0 <= d <= target,
                line@.len() == d * lanes,
                forall|k: int| 0 <= k < line@.len() ==> line@[k].level() == want[y as int][k],
            decreases target - d,
        {
            let win = &wins[d];
            let mut l: usize = 0;
            while l < lanes
                invariant
                    width > 0,
                    target > 0,
                    lanes >= 1,
                    target * lanes <= i32::MAX,
                    0 <= y < rows@.len(),
                    row@ == rows@[y as int]@,
                    row@.len() == width * lanes,
                    win.wf(width as int),
                    win@ == axis_window(width as int, target as int, d as int, filter),
                    want == resampled_rows(
                        grid(rows@),
                        width as int,
                        lanes as int,
                        target as int,
                        filter,
                        T::kind(),
                    ),
                    0 <= d < target,
                    0 <= l <= lanes,
                    line@.len() == d * lanes + l,
                    forall|k: int| 0 <= k < line@.len() ==> line@[k].level() == want[y as int][k],
                decreases lanes - l,
            {
                let ghost sig = lane(levels(row@), width as int, lanes as int, l as int);
                let acc: i128 = gather_lane(row, width as usize, lanes, l, win);
                let v: T = finish(acc, win, Ghost(sig));
                proof {
                    let k = d * lanes + l;
                    assert(lanes * d == d * lanes) by (nonlinear_arith);
                    lemma_fundamental_div_mod_converse(k as int, lanes as int, d as int, l as int);
                    assert(d * lanes + l < target * lanes) by (nonlinear_arith)
                        requires
                            0 <= d < target,
                            0 <= l < lanes,
                    ;
                    assert(grid(rows@)[y as int] == levels(row@));
                    assert(want[y as int][k as int] == resample_at(
                        lane(grid(rows@)[y as int], width as int, lanes as int, l as int),
                        target as int,
                        d as int,
                        filter,
                        T::kind(),
                    ));
                }
                line.push(v);
                l = l + 1;
            }
            assert(d * lanes + lanes == (d + 1) * lanes) by (nonlinear_arith);
            d = d + 1;
        }
        out.push(line);
        y = y + 1;
    }
    assert(grid(out@) =~~= want);
    out
}

/// The vertical pass over a stack of rows of `row_len` elements: every
/// column resampled to `target` rows.
pub fn resample_columns<T: Sample>(
    rows: &Vec<Vec<T>>,
    row_len: usize,
    target: i32,
    filter: PILFilter,
) -> (out: Vec<Vec<T>>)
    requires
        0 < rows@.len() <= i32::MAX,
        target > 0,
        forall|y: int| 0 <= y < rows@.len() ==> (#[trigger] rows@[y])@.len() == row_len,
    ensures
        out@.len() == target,
        forall|y: int| 0 <= y < out@.len() ==> (#[trigger] out@[y])@.len() == row_len,
        grid(out@) =~~= resampled_columns(
            grid(rows@),
            row_len as int,
            target as int,
            filter,
            T::kind(),
        ),
{
    let height: i32 = rows.len() as i32;
    let wins = axis_windows(height, target, filter);
    let ghost want = resampled_columns(
        grid(rows@),
        row_len as int,
        target as int,
        filter,
        T::kind(),
    );
    let mut out: Vec<Vec<T>> = Vec::new();
    let mut d: usize = 0;
    while d < target as usize
        invariant
            0 < rows@.len() <= i32::MAX,
            height == rows@.len(),
            target > 0,
            forall|j: int| 0 <= j < rows@.len() ==> (#[trigger] rows@[j])@.len() == row_len,
            wins@.len() == target,
            forall|e: int|
                0 <= e < target ==> (#[trigger] wins@[e]).wf(height as int) && wins@[e]@
                    == axis_window(height as int, target as int, e, filter),
            want == resampled_columns(
                grid(rows@),
                row_len as int,
                target as int,
                filter,
                T::kind(),
            ),
            0 <= d <= target,
            out@.len() == d,
            forall|j: int| 0 <= j < d ==> (#[trigger] out@[j])@.len() == row_len,
            forall|j: int| 0 <= j < d ==> levels((#[trigger] out@[j])@) =~= want[j],
        decreases target - d,
    {
        let win = &wins[d];
        let mut line: Vec<T> = Vec::new();
        let mut k: usize = 0;
        while k < row_len
            invariant
                0 < rows@.len() <= i32::MAX,
                height == rows@.len(),
                target > 0,
                forall|j: int| 0 <= j < rows@.len() ==> (#[trigger] rows@[j])@.len() == row_len,
                win.wf(height as int),
                win@ == axis_window(height as int, target as int, d as int, filter),
                want == resampled_columns(
                    grid(rows@),
                    row_len as int,
                    target as int,
                    filter,
                    T::kind(),
                ),
                0 <= d < target,
                0 <= k <= row_len,
                line@.len() == k,
                forall|j: int| 0 <= j < k ==> line@[j].level() == want[d as int][j],
            decreases row_len - k,
        {
            let ghost sig = column(grid(rows@), k as int);
            let acc: i128 = gather_column(rows, row_len, k, win);
            let v: T = finish(acc, win, Ghost(sig));
            line.push(v);
            k = k + 1;
        }
        out.push(line);
        d = d + 1;
    }
    assert(grid(out@) =~~= want);
    out
}

impl Raster {
    /// The image after the horizontal pass to a width of `t` pixels.
    pub open spec fn resized_horizontally(self, t: int, f: PILFilter) -> Raster {
        Raster {
            mode: self.mode,
            width: t,
            height: self.height,
            samples: resampled_rows(
                self.samples,
                self.width,
                self.mode.lanes(),
                t,
                f,
                self.mode.element(),
            ),
        }
    }

    /// The image after the vertical pass to a height of `t` rows.
    pub open spec fn resized_vertically(self, t: int, f: PILFilter) -> Raster {
        Raster {
            mode: self.mode,
            width: self.width,
            height: t,
            samples: resampled_columns(self.samples, self.row_len(), t, f, self.mode.element()),
        }
    }

    /// The image resized to `tx` by `ty` pixels: the horizontal pass,
    /// then the vertical pass on its result.
    pub open spec fn resized(self, tx: int, ty: int, f: PILFilter) -> Raster {
        self.resized_horizontally(tx, f).resized_vertically(ty, f)
    }

    /// The image resized with the passes in the other order: the
    /// vertical pass, then the horizontal pass on its result.
    pub open spec fn resized_vertical_first(self, tx: int, ty: int, f: PILFilter) -> Raster {
        self.resized_vertically(ty, f).resized_horizontally(tx, f)
    }
}

/// The horizontal pass to the width an image has leaves it unchanged.
pub proof fn lemma_same_width(r: Raster, f: PILFilter)
    requires
        r.valid(),
    ensures
        r.resized_horizontally(r.width, f) == r,
{
    let lanes = r.mode.lanes();
    let out = r.resized_horizontally(r.width, f);
    assert forall|y: int| 0 <= y < r.height implies #[trigger] out.samples[y] =~= r.samples[y] by {
        assert(r.samples[y].len() == r.row_len());
        assert forall|k: int| 0 <= k < r.row_len() implies out.samples[y][k]
            == r.samples[y][k] by {
            let sig = lane(r.samples[y], r.width, lanes, k % lanes);
            if lanes == 1 {
                assert(k / lanes == k && k % lanes == 0);
            } else {
                assert(lanes == 4);
                assert(0 <= k / lanes < r.width && (k / lanes) * lanes + k % lanes == k);
            }
            assert(sig[k / lanes] == r.samples[y][k]);
            lemma_resample_same_length(sig, k / lanes, f, r.mode.element());
        }
    }
    assert(out.samples =~= r.samples);
}

/// The vertical pass to the height an image has leaves it unchanged.
pub proof fn lemma_same_height(r: Raster, f: PILFilter)
    requires
        r.valid(),
    ensures
        r.resized_vertically(r.height, f) == r,
{
    let out = r.resized_vertically(r.height, f);
    assert forall|y: int| 0 <= y < r.height implies #[trigger] out.samples[y] =~= r.samples[y] by {
        assert(r.samples[y].len() == r.row_len());
        assert forall|k: int| 0 <= k < r.row_len() implies out.samples[y][k]
            == r.samples[y][k] by {
            let sig = column(r.samples, k);
            assert(sig[y] == r.samples[y][k]);
            lemma_resample_same_length(sig, y, f, r.mode.element());
        }
    }
    assert(out.samples =~= r.samples);
}

/// Resizing an image to its own dimensions reproduces it exactly,
/// whatever the filter and the element type.
pub proof fn lemma_resized_to_same_size(r: Raster, f: PILFilter)
    requires
        r.valid(),
    ensures
        r.resized(r.width, r.height, f) == r,
{
    lemma_same_width(r, f);
    lemma_same_height(r, f);
}

impl PILImage {
    /// The horizontal pass alone: the image resampled to a width of
    /// `new_xdim` pixels, its height unchanged. An image of `Float32`
    /// elements can only keep its width.
    pub fn resample_horizontal(&self, new_xdim: i32, filter: PILFilter) -> (r: Result<
        PILImage,
        PILError,
    >)
        requires
            self.wf(),
            new_xdim > 0 ==> self@.mode.line_bytes(new_xdim as int) <= i32::MAX,
        ensures
            new_xdim <= 0 ==> (r matches Err(PILError::InvalidDimension)),
            new_xdim > 0 && self@.mode.element() == PILType::Float32 && new_xdim != self@.width
                ==> (r matches Err(PILError::UnsupportedElementType)),
            new_xdim > 0 && (self@.mode.element() != PILType::Float32 || new_xdim == self@.width)
                ==> (r matches Ok(img) && img.wf() && img@ == self@.resized_horizontally(
                new_xdim as int,
                filter,
            )),
    {
        if new_xdim <= 0 {
            return Err(PILError::InvalidDimension);
        }
        let mode = self.mode();
        let width: i32 = self.x_size();
        let height: i32 = self.y_size();
        let lanes: usize = mode.lane_count();
        let same: bool = new_xdim == width;
        proof {
            if same {
                lemma_same_width(self@, filter);
            }
            assert(width * lanes == self@.row_len() && new_xdim * lanes == mode.row_elements(
                new_xdim as int,
            )) by (nonlinear_arith)
                requires
                    lanes == 1 || lanes == 4,
                    self@.row_len() == (if lanes == 1 {
                        width as int
                    } else {
                        4 * width
                    }),
                    mode.row_elements(new_xdim as int) == (if lanes == 1 {
                        new_xdim as int
                    } else {
                        4 * new_xdim
                    }),
            ;
        }
        match mode.element_type() {
            PILType::Uint8 => {
                let rows = if same {
                    copy_rows(self.byte_rows())
                } else {
                    resample_rows(self.byte_rows(), width, lanes, new_xdim, filter)
                };
                assert(grid(rows@) =~~= self@.resized_horizontally(
                    new_xdim as int,
                    filter,
                ).samples);
                Ok(PILImage::with_byte_rows(mode, new_xdim, height, rows))
            },
            PILType::Int32 => {
                let rows = if same {
                    copy_rows(self.int_rows())
                } else {
                    resample_rows(self.int_rows(), width, lanes, new_xdim, filter)
                };
                assert(grid(rows@) =~~= self@.resized_horizontally(
                    new_xdim as int,
                    filter,
                ).samples);
                Ok(PILImage::with_int_rows(mode, new_xdim, height, rows))
            },
            PILType::Float32 => {
                if !same {
                    return Err(PILError::UnsupportedElementType);
                }
                let rows = copy_rows(self.float_rows());
                assert(grid(rows@) =~~= self@.samples);
                Ok(PILImage::with_float_rows(mode, new_xdim, height, rows))
            },
        }
    }

    /// The vertical pass alone: the image resampled to a height of
    /// `new_ydim` rows, its width unchanged. An image of `Float32`
    /// elements can only keep its height.
    pub fn resample_vertical(&self, new_ydim: i32, filter: PILFilter) -> (r: Result<
        PILImage,
        PILError,
    >)
        requires
            self.wf(),
        ensures
            new_ydim <= 0 ==> (r matches Err(PILError::InvalidDimension)),
            new_ydim > 0 && self@.mode.element() == PILType::Float32 && new_ydim != self@.height
                ==> (r matches Err(PILError::UnsupportedElementType)),
            new_ydim > 0 && (self@.mode.element() != PILType::Float32 || new_ydim == self@.height)
                ==> (r matches Ok(img) && img.wf() && img@ == self@.resized_vertically(
                new_ydim as int,
                filter,
            )),
    {
        if new_ydim <= 0 {
            return Err(PILError::InvalidDimension);
        }
        let mode = self.mode();
        let width: i32 = self.x_size();
        let height: i32 = self.y_size();
        let row_len: usize = (width as usize) * mode.lane_count();
        let same: bool = new_ydim == height;
        proof {
            if same {
                lemma_same_height(self@, filter);
            }
        }
        assert(row_len == self@.row_len());
        match mode.element_type() {
            PILType::Uint8 => {
                let rows = if same {
                    copy_rows(self.byte_rows())
                } else {
                    resample_columns(self.byte_rows(), row_len, new_ydim, filter)
                };
                assert(grid(rows@) =~~= self@.resized_vertically(new_ydim as int, filter).samples);
                Ok(PILImage::with_byte_rows(mode, width, new_ydim, rows))
            },
            PILType::Int32 => {
                let rows = if same {
                    copy_rows(self.int_rows())
                } else {
                    resample_columns(self.int_rows(), row_len, new_ydim, filter)
                };
                assert(grid(rows@) =~~= self@.resized_vertically(new_ydim as int, filter).samples);
                Ok(PILImage::with_int_rows(mode, width, new_ydim, rows))
            },
            PILType::Float32 => {
                if !same {
                    return Err(PILError::UnsupportedElementType);
                }
                let rows = copy_rows(self.float_rows());
                assert(grid(rows@) =~~= self@.samples);
                Ok(PILImage::with_float_rows(mode, width, new_ydim, rows))
            },
        }
    }

    /// Resizes the image to `new_xdim` by `new_ydim` pixels with the
    /// given filter: the horizontal pass, then the vertical pass. The
    /// result has the mode of the image and the dimensions asked for. A
    /// dimension that is not positive is rejected before anything is
    /// allocated. An image of `Float32` elements can only keep its
    /// dimensions: its samples are not integers, and resampling them is
    /// left to floating-point code.
    pub fn resample(&self, new_xdim: i32, new_ydim: i32, filter: PILFilter) -> (r: Result<
        PILImage,
        PILError,
    >)
        requires
            self.wf(),
            new_xdim > 0 ==> self@.mode.line_bytes(new_xdim as int) <= i32::MAX,
        ensures
            new_xdim <= 0 || new_ydim <= 0 ==> (r matches Err(PILError::InvalidDimension)),
            new_xdim > 0 && new_ydim > 0 && self@.mode.element() == PILType::Float32 && (new_xdim
                != self@.width || new_ydim != self@.height) ==> (r matches Err(
                PILError::UnsupportedElementType,
            )),
            new_xdim > 0 && new_ydim > 0 && (self@.mode.element() != PILType::Float32 || (new_xdim
                == self@.width && new_ydim == self@.height)) ==> (r matches Ok(img) && img.wf()
                && img@ == self@.resized(new_xdim as int, new_ydim as int, filter) && img@.mode
                == self@.mode && img@.width == new_xdim && img@.height == new_ydim),
    {
        if new_xdim <= 0 || new_ydim <= 0 {
            return Err(PILError::InvalidDimension);
        }
        match self.pixel_type() {
            PILType::Float32 => {
                if new_xdim != self.x_size() || new_ydim != self.y_size() {
                    return Err(PILError::UnsupportedElementType);
                }
            },
            _ => {},
        }
        match self.resample_horizontal(new_xdim, filter) {
            Ok(mid) => mid.resample_vertical(new_ydim, filter),
            Err(e) => Err(e),
        }
    }
}

} // verus!
