//! An incremental ordinary-least-squares fit of `y = a + b * x`.
use vstd::prelude::*;

use crate::record::Ratio;

verus! {

/// Most points one accumulator takes.
pub const MAX_COUNT: i128 = 262_144;

/// Largest magnitude of an `x` coordinate.
pub const MAX_X: i64 = 262_144;

/// Largest magnitude of a `y` coordinate.
pub const MAX_Y: i64 = 16_777_216;

/// Sum of the `x` coordinates.
pub open spec fn sum_x(p: Seq<(int, int)>) -> int
    decreases p.len(),
{
    if p.len() == 0 { 0 } else { sum_x(p.drop_last()) + p.last().0 }
}

/// Sum of the `y` coordinates.
pub open spec fn sum_y(p: Seq<(int, int)>) -> int
    decreases p.len(),
{
    if p.len() == 0 { 0 } else { sum_y(p.drop_last()) + p.last().1 }
}

/// Sum of the squared `x` coordinates.
pub open spec fn sum_xx(p: Seq<(int, int)>) -> int
    decreases p.len(),
{
    if p.len() == 0 { 0 } else { sum_xx(p.drop_last()) + p.last().0 * p.last().0 }
}

/// Sum of the products `x * y`.
pub open spec fn sum_xy(p: Seq<(int, int)>) -> int
    decreases p.len(),
{
    if p.len() == 0 { 0 } else { sum_xy(p.drop_last()) + p.last().0 * p.last().1 }
}

/// Numerator of the fitted slope: `n * Σxy - Σx * Σy`.
pub open spec fn slope_num(p: Seq<(int, int)>) -> int {
    p.len() * sum_xy(p) - sum_x(p) * sum_y(p)
}

/// Denominator of the fitted slope: `n * Σx² - (Σx)²`; zero when there is
/// one point or all points share their `x`.
pub open spec fn slope_den(p: Seq<(int, int)>) -> int {
    p.len() * sum_xx(p) - sum_x(p) * sum_x(p)
}

/// Numerator of the prediction at `x`. With `b = slope_num / slope_den` and
/// `a = (Σy - b * Σx) / n`, the prediction `a + b * x` is
/// `(Σy * slope_den - slope_num * Σx + n * slope_num * x) / (n * slope_den)`.
/// Where the slope is undefined the prediction is the mean of the `y`
/// coordinates, `Σy / n`.
pub open spec fn predict_num(p: Seq<(int, int)>, x: int) -> int {
    if slope_den(p) > 0 {
        sum_y(p) * slope_den(p) - slope_num(p) * sum_x(p) + p.len() * slope_num(p) * x
    } else {
        sum_y(p)
    }
}

/// Denominator of the prediction; see `predict_num`.
pub open spec fn predict_den(p: Seq<(int, int)>) -> int {
    if slope_den(p) > 0 {
        p.len() * slope_den(p)
    } else {
        p.len() as int
    }
}

/// Sum over the points `p` of the residuals of the prediction fitted to
/// `q`, each scaled by the prediction's denominator:
/// `Σ (predict_den(q) * y - predict_num(q, x))`.
pub open spec fn residual_sum(p: Seq<(int, int)>, q: Seq<(int, int)>) -> int
    decreases p.len(),
{
    if p.len() == 0 {
        0
    } else {
        let (x, y) = p.last();
        residual_sum(p.drop_last(), q) + (predict_den(q) * y - predict_num(q, x))
    }
}

/// Sum over the points `p` of `x` times the scaled residual of the
/// prediction fitted to `q`: `Σ x * (predict_den(q) * y - predict_num(q, x))`.
pub open spec fn residual_moment(p: Seq<(int, int)>, q: Seq<(int, int)>) -> int
    decreases p.len(),
{
    if p.len() == 0 {
        0
    } else {
        let (x, y) = p.last();
        residual_moment(p.drop_last(), q) + x * (predict_den(q) * y - predict_num(q, x))
    }
}

/// The residual sums in terms of the power sums of `p`.
proof fn lemma_residuals_by_sums(p: Seq<(int, int)>, q: Seq<(int, int)>)
    requires
        slope_den(q) > 0,
    ensures
        ({
            let d = predict_den(q);
            let a = sum_y(q) * slope_den(q) - slope_num(q) * sum_x(q);
            let b = q.len() * slope_num(q);
            &&& residual_sum(p, q) == d * sum_y(p) - p.len() * a - b * sum_x(p)
            &&& residual_moment(p, q) == d * sum_xy(p) - a * sum_x(p) - b * sum_xx(p)
        }),
    decreases p.len(),
{
    if p.len() > 0 {
        let t = p.drop_last();
        lemma_residuals_by_sums(t, q);
        let (x, y) = p.last();
        let d = predict_den(q);
        let a = sum_y(q) * slope_den(q) - slope_num(q) * sum_x(q);
        let b = q.len() * slope_num(q);
        assert(predict_num(q, x) == a + b * x);
        assert(x * (d * y - (a + b * x)) == d * (x * y) - a * x - b * (x * x)) by (nonlinear_arith);
        assert(d * (sum_y(t) + y) == d * sum_y(t) + d * y) by (nonlinear_arith);
        assert((t.len() + 1) * a == t.len() * a + a) by (nonlinear_arith);
        assert(b * (sum_x(t) + x) == b * sum_x(t) + b * x) by (nonlinear_arith);
        assert(d * (sum_xy(t) + x * y) == d * sum_xy(t) + d * (x * y)) by (nonlinear_arith);
        assert(a * (sum_x(t) + x) == a * sum_x(t) + a * x) by (nonlinear_arith);
        assert(b * (sum_xx(t) + x * x) == b * sum_xx(t) + b * (x * x)) by (nonlinear_arith);
    }
}

proof fn lemma_moment_identity(n: int, sx: int, sy: int, sxx: int, sxy: int, bd: int, bn: int)
    requires
        bd == n * sxx - sx * sx,
        bn == n * sxy - sx * sy,
    ensures
        n * bd * sxy - (sy * bd - bn * sx) * sx - n * bn * sxx == 0,
{
    assert((sy * bd - bn * sx) * sx == bd * (sx * sy) - bn * (sx * sx)) by (nonlinear_arith);
    assert(n * bd * sxy == bd * (n * sxy)) by (nonlinear_arith);
    assert(n * bn * sxx == bn * (n * sxx)) by (nonlinear_arith);
    assert(bd * (n * sxy) - bd * (sx * sy) == bd * bn) by (nonlinear_arith)
        requires
            bn == n * sxy - sx * sy,
    ;
    assert(bn * (n * sxx) - bn * (sx * sx) == bn * bd) by (nonlinear_arith)
        requires
            bd == n * sxx - sx * sx,
    ;
    assert(bd * bn == bn * bd) by (nonlinear_arith);
}

/// The fitted line is the least-squares line: where the slope is defined,
/// its residuals over the points sum to zero and are uncorrelated with the
/// `x` coordinates (the normal equations of the fit).
pub proof fn lemma_prediction_is_least_squares(p: Seq<(int, int)>)
    requires
        slope_den(p) > 0,
    ensures
        residual_sum(p, p) == 0,
        residual_moment(p, p) == 0,
{
    lemma_residuals_by_sums(p, p);
    let n = p.len() as int;
    let sx = sum_x(p);
    let sy = sum_y(p);
    let sxx = sum_xx(p);
    let sxy = sum_xy(p);
    let bd = slope_den(p);
    let bn = slope_num(p);
    assert(n * bd * sy - n * (sy * bd - bn * sx) - n * bn * sx == 0) by (nonlinear_arith);
    lemma_moment_identity(n, sx, sy, sxx, sxy, bd, bn);
}

/// Points whose coordinates are within the accumulator's limits.
pub open spec fn points_bounded(p: Seq<(int, int)>) -> bool {
    forall|k: int|
        0 <= k < p.len() ==> -MAX_X <= (#[trigger] p[k]).0 <= MAX_X && -MAX_Y <= p[k].1 <= MAX_Y
}

proof fn lemma_mul_bound(a: int, b: int, ba: int, bb: int)
    requires
        -ba <= a <= ba,
        -bb <= b <= bb,
    ensures
        -(ba * bb) <= a * b <= ba * bb,
{
    assert(-(ba * bb) <= a * b <= ba * bb) by (nonlinear_arith)
        requires
            -ba <= a <= ba,
            -bb <= b <= bb,
    ;
}

/// The sums of bounded points are bounded by their count.
proof fn lemma_sum_bounds(p: Seq<(int, int)>)
    requires
        points_bounded(p),
    ensures
        -(p.len() * MAX_X) <= sum_x(p) <= p.len() * MAX_X,
        -(p.len() * MAX_Y) <= sum_y(p) <= p.len() * MAX_Y,
        0 <= sum_xx(p) <= p.len() * (MAX_X * MAX_X),
        -(p.len() * (MAX_X * MAX_Y)) <= sum_xy(p) <= p.len() * (MAX_X * MAX_Y),
    decreases p.len(),
{
    if p.len() > 0 {
        let q = p.drop_last();
        assert(points_bounded(q)) by {
            assert forall|k: int| 0 <= k < q.len() implies -MAX_X <= (#[trigger] q[k]).0 <= MAX_X
                && -MAX_Y <= q[k].1 <= MAX_Y by {
                assert(q[k] == p[k]);
            }
        }
        lemma_sum_bounds(q);
        let (x, y) = p.last();
        assert(p[p.len() - 1] == p.last());
        lemma_mul_bound(x, x, MAX_X as int, MAX_X as int);
        lemma_mul_bound(x, y, MAX_X as int, MAX_Y as int);
        assert(x * x >= 0) by (nonlinear_arith);
        let n = q.len() as int;
        assert((n + 1) * MAX_X == n * MAX_X + MAX_X) by (nonlinear_arith);
        assert((n + 1) * MAX_Y == n * MAX_Y + MAX_Y) by (nonlinear_arith);
        assert((n + 1) * (MAX_X * MAX_X) == n * (MAX_X * MAX_X) + MAX_X * MAX_X) by (nonlinear_arith);
        assert((n + 1) * (MAX_X * MAX_Y) == n * (MAX_X * MAX_Y) + MAX_X * MAX_Y) by (nonlinear_arith);
    }
}

/// Running sums sufficient for a least-squares line through the points
/// added so far.
pub struct SimpleRegression {
    n: i128,
    sum_x: i128,
    sum_y: i128,
    sum_xx: i128,
    sum_xy: i128,
    points: Ghost<Seq<(int, int)>>,
}

impl SimpleRegression {
    /// The points added so far, in order.
    pub closed spec fn points(&self) -> Seq<(int, int)> {
        self.points@
    }

    /// The sums are those of the points added so far, which are within the limits.
    pub closed spec fn wf(&self) -> bool {
        &&& self.n == self.points@.len()
        &&& self.n <= MAX_COUNT
        &&& points_bounded(self.points@)
        &&& self.sum_x == sum_x(self.points@)
        &&& self.sum_y == sum_y(self.points@)
        &&& self.sum_xx == sum_xx(self.points@)
        &&& self.sum_xy == sum_xy(self.points@)
    }

    /// An accumulator without points.
    pub fn new() -> (r: SimpleRegression)
        ensures
            r.wf(),
            r.points() == Seq::<(int, int)>::empty(),
    {
        SimpleRegression { n: 0, sum_x: 0, sum_y: 0, sum_xx: 0, sum_xy: 0, points: Ghost(Seq::empty()) }
    }

    /// Adds the point `(x, y)`.
    pub fn add_data(&mut self, x: i64, y: i64)
        requires
            old(self).wf(),
            old(self).points().len() < MAX_COUNT,
            -MAX_X <= x <= MAX_X,
            -MAX_Y <= y <= MAX_Y,
        ensures
            final(self).wf(),
            final(self).points() == old(self).points().push((x as int, y as int)),
    {
        proof {
            lemma_sum_bounds(self.points@);
            lemma_mul_bound(x as int, x as int, MAX_X as int, MAX_X as int);
            lemma_mul_bound(x as int, y as int, MAX_X as int, MAX_Y as int);
            let n = self.points@.len() as int;
            lemma_mul_bound(n, MAX_X as int * MAX_X as int, MAX_COUNT as int, MAX_X as int * MAX_X as int);
            lemma_mul_bound(n, MAX_X as int * MAX_Y as int, MAX_COUNT as int, MAX_X as int * MAX_Y as int);
            lemma_mul_bound(n, MAX_X as int, MAX_COUNT as int, MAX_X as int);
            lemma_mul_bound(n, MAX_Y as int, MAX_COUNT as int, MAX_Y as int);
        }
        let xw = x as i128;
        let yw = y as i128;
        self.n = self.n + 1;
        self.sum_x = self.sum_x + xw;
        self.sum_y = self.sum_y + yw;
        self.sum_xx = self.sum_xx + xw * xw;
        self.sum_xy = self.sum_xy + xw * yw;
        let ghost p = self.points@.push((x as int, y as int));
        proof {
            assert(p.drop_last() =~= self.points@);
            assert forall|k: int| 0 <= k < p.len() implies -MAX_X <= (#[trigger] p[k]).0 <= MAX_X
                && -MAX_Y <= p[k].1 <= MAX_Y by {
                if k < p.len() - 1 {
                    assert(p[k] == self.points@[k]);
                }
            }
        }
        self.points = Ghost(p);
    }

    /// The fitted line's value at `x`, as an exact fraction with a positive
    /// denominator; the mean of the `y` coordinates where the slope is undefined.
    pub fn predict(&self, x: i64) -> (r: Ratio)
        requires
            self.wf(),
            self.points().len() >= 1,
            -MAX_X <= x <= MAX_X,
        ensures
            r.num == predict_num(self.points(), x as int),
            r.den == predict_den(self.points()),
            r.den > 0,
    {
        let ghost p = self.points@;
        let ghost n = p.len() as int;
        proof {
            lemma_sum_bounds(p);
            lemma_mul_bound(n, MAX_X as int, MAX_COUNT as int, MAX_X as int);
            lemma_mul_bound(n, MAX_Y as int, MAX_COUNT as int, MAX_Y as int);
            lemma_mul_bound(n, MAX_X as int * MAX_X as int, MAX_COUNT as int, MAX_X as int * MAX_X as int);
            lemma_mul_bound(n, MAX_X as int * MAX_Y as int, MAX_COUNT as int, MAX_X as int * MAX_Y as int);
        }
        let sx = self.sum_x;
        let sy = self.sum_y;
        let nn = self.n;
        // Bounds on |Σx|, Σx², |Σy| and |Σxy|.
        let ghost b1: int = 68_719_476_736;
        let ghost b2: int = 18_014_398_509_481_984;
        let ghost b3: int = 4_398_046_511_104;
        let ghost b4: int = 1_152_921_504_606_846_976;
        proof {
            lemma_mul_bound(nn as int, self.sum_xx as int, MAX_COUNT as int, b2);
            lemma_mul_bound(sx as int, sx as int, b1, b1);
            lemma_mul_bound(nn as int, self.sum_xy as int, MAX_COUNT as int, b4);
            lemma_mul_bound(sx as int, sy as int, b1, b3);
        }
        let den = nn * self.sum_xx - sx * sx;
        let num = nn * self.sum_xy - sx * sy;
        if den > 0 {
            // Bounds on the magnitudes of the slope's denominator and numerator.
            let ghost bd: int = 9_444_732_965_739_290_427_392;
            let ghost bn: int = 604_462_909_807_314_587_353_088;
            proof {
                lemma_mul_bound(sy as int, den as int, b3, bd);
                lemma_mul_bound(num as int, sx as int, bn, b1);
                lemma_mul_bound(nn as int, num as int, MAX_COUNT as int, bn);
                lemma_mul_bound(nn * num, x as int, MAX_COUNT * bn, MAX_X as int);
                lemma_mul_bound(nn as int, den as int, MAX_COUNT as int, bd);
                assert(nn * den > 0) by (nonlinear_arith)
                    requires
                        nn >= 0,
                        den > 0,
                        nn >= 1,
                ;
            }
            Ratio { num: sy * den - num * sx + nn * num * (x as i128), den: nn * den }
        } else {
            Ratio { num: sy, den: nn }
        }
    }
}

} // verus!
