//! Sums of weights, and sums of samples weighted by them.

use vstd::prelude::*;

verus! {

/// The sum of a sequence.
pub open spec fn sum(w: Seq<int>) -> int
    decreases w.len(),
{
    if w.len() == 0 {
        0
    } else {
        sum(w.drop_last()) + w.last()
    }
}

/// The sum of the first `n` weights, each times the sample it falls on:
/// weight `j` falls on sample `start + j`.
pub open spec fn weighted_sum(w: Seq<int>, sig: Seq<int>, start: int, n: int) -> int
    decreases n,
{
    if n <= 0 {
        0
    } else {
        weighted_sum(w, sig, start, n - 1) + w[n - 1] * sig[start + n - 1]
    }
}

/// Each weight with its sign reversed.
pub open spec fn negated(w: Seq<int>) -> Seq<int> {
    Seq::new(w.len(), |j: int| -w[j])
}

/// Appending a weight adds it to the sum.
pub proof fn lemma_sum_push(w: Seq<int>, x: int)
    ensures
        sum(w.push(x)) == sum(w) + x,
{
    assert(w.push(x).drop_last() =~= w);
}

/// The sum of a single weight of one is one.
pub proof fn lemma_sum_unit()
    ensures
        sum(seq![1int]) == 1,
{
    lemma_sum_push(Seq::<int>::empty(), 1);
    assert(Seq::<int>::empty().push(1) =~= seq![1int]);
}

/// Reversing every sign reverses the sign of the sum.
pub proof fn lemma_sum_negated(w: Seq<int>)
    ensures
        sum(negated(w)) == -sum(w),
    decreases w.len(),
{
    if w.len() > 0 {
        lemma_sum_negated(w.drop_last());
        assert(negated(w).drop_last() =~= negated(w.drop_last()));
    }
}

/// A sum of weights that are all non-negative is non-negative.
pub proof fn lemma_sum_non_negative(w: Seq<int>)
    requires
        forall|j: int| 0 <= j < w.len() ==> w[j] >= 0,
    ensures
        sum(w) >= 0,
    decreases w.len(),
{
    if w.len() > 0 {
        lemma_sum_non_negative(w.drop_last());
    }
}

/// The sum of the first `n` weights grows by weight `n` when `n` does.
pub proof fn lemma_sum_take_step(w: Seq<int>, n: int)
    requires
        0 <= n < w.len(),
    ensures
        sum(w.take(n + 1)) == sum(w.take(n)) + w[n],
{
    lemma_sum_push(w.take(n), w[n]);
    assert(w.take(n).push(w[n]) =~= w.take(n + 1));
}

/// A sum of weights that are all non-negative is at least each of
/// them.
pub proof fn lemma_sum_at_least(w: Seq<int>, at: int)
    requires
        forall|j: int| 0 <= j < w.len() ==> w[j] >= 0,
        0 <= at < w.len(),
    ensures
        sum(w) >= w[at],
    decreases w.len(),
{
    if at == w.len() - 1 {
        lemma_sum_non_negative(w.drop_last());
    } else {
        lemma_sum_at_least(w.drop_last(), at);
    }
}

/// With no negative weight, a weighted sum lies between the sum of the
/// weights times the least sample and times the greatest.
pub proof fn lemma_weighted_sum_bounds(
    w: Seq<int>,
    sig: Seq<int>,
    start: int,
    n: int,
    lo: int,
    hi: int,
)
    requires
        0 <= n <= w.len(),
        forall|j: int| 0 <= j < n ==> w[j] >= 0,
        forall|j: int| 0 <= j < n ==> lo <= #[trigger] sig[start + j] <= hi,
    ensures
        lo * sum(w.take(n)) <= weighted_sum(w, sig, start, n) <= hi * sum(w.take(n)),
    decreases n,
{
    if n == 0 {
        assert(w.take(0) =~= Seq::<int>::empty());
        assert(lo * 0 == 0 && hi * 0 == 0) by (nonlinear_arith);
    } else {
        lemma_weighted_sum_bounds(w, sig, start, n - 1, lo, hi);
        lemma_sum_take_step(w, n - 1);
        let a = w[n - 1];
        let p = sig[start + (n - 1)];
        let s = sum(w.take(n - 1));
        assert(lo * a <= a * p <= hi * a) by (nonlinear_arith)
            requires
                a >= 0,
                lo <= p <= hi,
        ;
        assert(lo * (s + a) == lo * s + lo * a && hi * (s + a) == hi * s + hi * a)
            by (nonlinear_arith);
    }
}

/// A weighted sum over samples that are all `c` is `c` times the sum of
/// the weights.
pub proof fn lemma_weighted_sum_constant(w: Seq<int>, sig: Seq<int>, start: int, n: int, c: int)
    requires
        0 <= n <= w.len(),
        forall|j: int| 0 <= j < n ==> #[trigger] sig[start + j] == c,
    ensures
        weighted_sum(w, sig, start, n) == c * sum(w.take(n)),
    decreases n,
{
    if n == 0 {
        assert(w.take(0) =~= Seq::<int>::empty());
        assert(c * 0 == 0) by (nonlinear_arith);
    } else {
        lemma_weighted_sum_constant(w, sig, start, n - 1, c);
        lemma_sum_take_step(w, n - 1);
        let a = w[n - 1];
        let s = sum(w.take(n - 1));
        assert(sig[start + (n - 1)] == c);
        assert(c * (s + a) == c * s + a * c) by (nonlinear_arith);
    }
}

/// When every weight but one is zero, the sum of the weights is that
/// weight and the weighted sum is that weight times its sample.
pub proof fn lemma_single_weight(w: Seq<int>, sig: Seq<int>, start: int, n: int, at: int)
    requires
        0 <= n <= w.len(),
        0 <= at,
        forall|j: int| 0 <= j < n && j != at ==> w[j] == 0,
    ensures
        sum(w.take(n)) == (if at < n {
            w[at]
        } else {
            0
        }),
        weighted_sum(w, sig, start, n) == (if at < n {
            w[at] * sig[start + at]
        } else {
            0
        }),
    decreases n,
{
    if n == 0 {
        assert(w.take(0) =~= Seq::<int>::empty());
    } else {
        lemma_single_weight(w, sig, start, n - 1, at);
        lemma_sum_take_step(w, n - 1);
        if at != n - 1 {
            assert(w[n - 1] * sig[start + (n - 1)] == 0) by (nonlinear_arith)
                requires
                    w[n - 1] == 0,
            ;
        }
    }
}

/// A weighted sum is linear in the signal: over `p + c q` it is the sum
/// over `p` plus `c` times the sum over `q`.
pub proof fn lemma_weighted_sum_combine(
    w: Seq<int>,
    p: Seq<int>,
    q: Seq<int>,
    pq: Seq<int>,
    c: int,
    start: int,
    n: int,
)
    requires
        0 <= n,
        forall|j: int|
            0 <= j < n ==> #[trigger] pq[start + j] == p[start + j] + c * q[start + j],
    ensures
        weighted_sum(w, pq, start, n) == weighted_sum(w, p, start, n) + c * weighted_sum(
            w,
            q,
            start,
            n,
        ),
    decreases n,
{
    if n == 0 {
        assert(c * 0 == 0) by (nonlinear_arith);
    } else {
        lemma_weighted_sum_combine(w, p, q, pq, c, start, n - 1);
        let a = w[n - 1];
        let x = p[start + (n - 1)];
        let z = q[start + (n - 1)];
        let rest = weighted_sum(w, q, start, n - 1);
        assert(pq[start + (n - 1)] == x + c * z);
        assert(a * (x + c * z) == a * x + c * (a * z)) by (nonlinear_arith);
        assert(c * (rest + a * z) == c * rest + c * (a * z)) by (nonlinear_arith);
    }
}

/// With no negative weight, if every sample of `u` times `scale` stays
/// within a margin of the matching sample of `h`, the weighted sums
/// stay within the margin times the sum of the weights.
pub proof fn lemma_weighted_sum_gap(
    w: Seq<int>,
    u: Seq<int>,
    h: Seq<int>,
    start: int,
    n: int,
    scale: int,
    elo: int,
    ehi: int,
)
    requires
        0 <= n <= w.len(),
        forall|j: int| 0 <= j < n ==> w[j] >= 0,
        forall|j: int|
            0 <= j < n ==> elo <= 2 * (scale * #[trigger] u[start + j]) - 2 * h[start + j] <= ehi,
    ensures
        elo * sum(w.take(n)) <= 2 * (scale * weighted_sum(w, u, start, n)) - 2 * weighted_sum(
            w,
            h,
            start,
            n,
        ) <= ehi * sum(w.take(n)),
    decreases n,
{
    if n == 0 {
        assert(w.take(0) =~= Seq::<int>::empty());
        assert(elo * 0 == 0 && ehi * 0 == 0 && scale * 0 == 0) by (nonlinear_arith);
    } else {
        lemma_weighted_sum_gap(w, u, h, start, n - 1, scale, elo, ehi);
        lemma_sum_take_step(w, n - 1);
        let a = w[n - 1];
        let x = u[start + (n - 1)];
        let z = h[start + (n - 1)];
        let s = sum(w.take(n - 1));
        let pu = weighted_sum(w, u, start, n - 1);
        let e = 2 * (scale * x) - 2 * z;
        assert(elo <= e <= ehi);
        assert(elo * a <= a * e <= ehi * a) by (nonlinear_arith)
            requires
                a >= 0,
                elo <= e <= ehi,
        ;
        assert(a * e == 2 * (scale * (a * x)) - 2 * (a * z)) by (nonlinear_arith)
            requires
                e == 2 * (scale * x) - 2 * z,
        ;
        assert(scale * (pu + a * x) == scale * pu + scale * (a * x)) by (nonlinear_arith);
        assert(elo * (s + a) == elo * s + elo * a && ehi * (s + a) == ehi * s + ehi * a)
            by (nonlinear_arith);
    }
}

/// Summation can be exchanged: weighting by `b` the sums that `a` draws
/// from the rows of a table gives what weighting by `a` the sums that
/// `b` draws from its columns gives.
pub proof fn lemma_weighted_sum_exchange(
    a: Seq<int>,
    b: Seq<int>,
    xs: int,
    ys: int,
    n: int,
    rows: Seq<Seq<int>>,
    cols: Seq<Seq<int>>,
    hrow: Seq<int>,
    gcol: Seq<int>,
)
    requires
        0 <= n,
        0 <= xs,
        xs + a.len() <= gcol.len(),
        forall|j: int, i: int|
            0 <= j < n && 0 <= i < a.len() ==> #[trigger] rows[ys + j][xs + i] == cols[xs + i][ys
                + j],
        forall|j: int|
            0 <= j < n ==> #[trigger] hrow[ys + j] == weighted_sum(
                a,
                rows[ys + j],
                xs,
                a.len() as int,
            ),
        forall|i: int|
            0 <= i < a.len() ==> #[trigger] gcol[xs + i] == weighted_sum(b, cols[xs + i], ys, n),
    ensures
        weighted_sum(b, hrow, ys, n) == weighted_sum(a, gcol, xs, a.len() as int),
    decreases n,
{
    let m = a.len() as int;
    if n == 0 {
        assert(a.take(m) =~= a);
        lemma_weighted_sum_constant(a, gcol, xs, m, 0);
        assert(0 * sum(a) == 0) by (nonlinear_arith);
    } else {
        let part = Seq::new(gcol.len(), |i: int| weighted_sum(b, cols[i], ys, n - 1));
        assert forall|i: int| 0 <= i < a.len() implies #[trigger] part[xs + i] == weighted_sum(
            b,
            cols[xs + i],
            ys,
            n - 1,
        ) by {}
        lemma_weighted_sum_exchange(a, b, xs, ys, n - 1, rows, cols, hrow, part);
        let last = rows[ys + (n - 1)];
        assert forall|i: int| 0 <= i < m implies #[trigger] gcol[xs + i] == part[xs + i] + b[n
            - 1] * last[xs + i] by {
            assert(rows[ys + (n - 1)][xs + i] == cols[xs + i][ys + (n - 1)]);
        }
        lemma_weighted_sum_combine(a, part, last, gcol, b[n - 1], xs, m);
        assert(hrow[ys + (n - 1)] == weighted_sum(a, last, xs, m));
    }
}

} // verus!
