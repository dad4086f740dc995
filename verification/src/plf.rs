//! Piecewise linear functions: breakpoints, validation, evaluation, and the
//! geometric helpers (interpolation, clipping, line intersection) that the
//! algebra over such functions is built on.

use crate::frac::{
    frac_add, frac_div, frac_eq, frac_le, frac_lt, frac_mul, frac_neg, frac_sub,
    lemma_rat_le_lt_trans, lemma_rat_le_trans, lemma_rat_lt_le_trans, lemma_rat_lt_trans,
    rat_add, rat_div, rat_eq, rat_in_range, rat_le, rat_lt, rat_mul, rat_neg, rat_sub, rat_wf,
    Frac, Rat,
};
use vstd::prelude::*;

verus! {

/// The model of a breakpoint: a rational x and y.
pub ghost struct RatPt {
    pub x: Rat,
    pub y: Rat,
}

/// A breakpoint of a piecewise linear function.
#[derive(Clone, Copy, Debug, PartialEq, Eq, Structural)]
pub struct Coord {
    pub x: Frac,
    pub y: Frac,
}

impl View for Coord {
    type V = RatPt;

    open spec fn view(&self) -> RatPt {
        RatPt { x: self.x@, y: self.y@ }
    }
}

impl Coord {
    /// Both components are representable fractions.
    pub open spec fn wf(self) -> bool {
        self.x.wf() && self.y.wf()
    }
}

/// Both components of a model breakpoint have positive denominators.
pub open spec fn rpt_wf(p: RatPt) -> bool {
    rat_wf(p.x) && rat_wf(p.y)
}

/// Every model breakpoint of the sequence is well formed.
pub open spec fn pts_all_wf(s: Seq<RatPt>) -> bool {
    forall|i: int| 0 <= i < s.len() ==> rpt_wf(#[trigger] s[i])
}

/// The x coordinates are strictly increasing.
pub open spec fn pts_sorted(s: Seq<RatPt>) -> bool {
    forall|i: int| 0 <= i < s.len() - 1 ==> rat_lt((#[trigger] s[i]).x, s[i + 1].x)
}

/// A valid model of a piecewise linear function: at least two breakpoints,
/// all well formed, with strictly increasing x.
pub open spec fn pts_wf(s: Seq<RatPt>) -> bool {
    s.len() >= 2 && pts_all_wf(s) && pts_sorted(s)
}

/// A valid breakpoint vector: at least two points, all representable, with
/// strictly increasing x.
pub open spec fn valid_coords(s: Seq<Coord>) -> bool {
    &&& s.len() >= 2
    &&& forall|i: int| 0 <= i < s.len() ==> (#[trigger] s[i]).wf()
    &&& forall|i: int| 0 <= i < s.len() - 1 ==> rat_lt((#[trigger] s[i])@.x, s[i + 1]@.x)
}

/// `x` lies in the closed interval spanned by the first and last breakpoint.
pub open spec fn in_dom(s: Seq<RatPt>, x: Rat) -> bool {
    rat_le(s[0].x, x) && rat_le(x, s[s.len() - 1].x)
}

/// The two sequences have the same domain: equal first and equal last x.
pub open spec fn dom_eq(s: Seq<RatPt>, t: Seq<RatPt>) -> bool {
    rat_eq(s[0].x, t[0].x) && rat_eq(s[s.len() - 1].x, t[t.len() - 1].x)
}

/// The slope of the line through `p` and `q`.
pub open spec fn line_slope(p: RatPt, q: RatPt) -> Rat {
    rat_div(rat_sub(q.y, p.y), rat_sub(q.x, p.x))
}

/// The value at `x` of the line through `p` and `q`:
/// `p.y + (x - p.x) * slope`.
pub open spec fn interp(p: RatPt, q: RatPt, x: Rat) -> Rat {
    rat_add(p.y, rat_mul(rat_sub(x, p.x), line_slope(p, q)))
}

/// Every intermediate fraction of the interpolation at `x` is representable.
pub open spec fn interp_ok(p: RatPt, q: RatPt, x: Rat) -> bool {
    let dx = rat_sub(x, p.x);
    let dy = rat_sub(q.y, p.y);
    let dxx = rat_sub(q.x, p.x);
    let sl = rat_div(dy, dxx);
    let pr = rat_mul(dx, sl);
    &&& rat_in_range(dx)
    &&& rat_in_range(dy)
    &&& rat_in_range(dxx)
    &&& rat_in_range(sl)
    &&& rat_in_range(pr)
    &&& rat_in_range(rat_add(p.y, pr))
}

/// The value of the piecewise linear function `s` at `x`: interpolation on
/// the first segment whose end lies at or beyond `x`.
pub open spec fn plf_val(s: Seq<RatPt>, x: Rat) -> Rat
    decreases s.len(),
{
    if s.len() <= 2 || rat_le(x, s[1].x) {
        interp(s[0], s[1], x)
    } else {
        plf_val(s.drop_first(), x)
    }
}

/// Well-formedness of the arithmetic results on well-formed fractions.
proof fn lemma_sub_wf(a: Rat, b: Rat)
    by (nonlinear_arith)
    requires
        rat_wf(a),
        rat_wf(b),
    ensures
        rat_wf(rat_sub(a, b)),
        rat_wf(rat_add(a, b)),
        rat_wf(rat_mul(a, b)),
{
}

/// Well-formedness of a quotient by a positive fraction.
proof fn lemma_div_wf(a: Rat, b: Rat)
    by (nonlinear_arith)
    requires
        rat_wf(a),
        rat_wf(b),
        b.n > 0,
    ensures
        rat_wf(rat_div(a, b)),
{
}

/// A zero-numerator factor makes the product's numerator zero.
proof fn lemma_mul_zero(a: Rat, b: Rat)
    by (nonlinear_arith)
    requires
        a.n == 0,
    ensures
        rat_mul(a, b).n == 0,
{
}

/// Adding a zero-numerator fraction does not change the rational value.
proof fn lemma_rat_add_zero(a: Rat, z: Rat)
    by (nonlinear_arith)
    requires
        rat_wf(a),
        rat_wf(z),
        z.n == 0,
    ensures
        rat_eq(rat_add(a, z), a),
{
}

/// Multiplying by `b` after dividing by `b` gives back the dividend.
proof fn lemma_rat_mul_div_cancel(a: Rat, b: Rat)
    by (nonlinear_arith)
    requires
        rat_wf(a),
        rat_wf(b),
        b.n > 0,
    ensures
        rat_eq(rat_mul(b, rat_div(a, b)), a),
{
}

/// Addition respects rational equality in its second argument.
proof fn lemma_rat_add_congr(a: Rat, b: Rat, b2: Rat)
    by (nonlinear_arith)
    requires
        rat_wf(a),
        rat_wf(b),
        rat_wf(b2),
        rat_eq(b, b2),
    ensures
        rat_eq(rat_add(a, b), rat_add(a, b2)),
{
}

/// `a + (b - a)` is `b` as a rational value.
proof fn lemma_rat_add_sub(a: Rat, b: Rat)
    by (nonlinear_arith)
    requires
        rat_wf(a),
        rat_wf(b),
    ensures
        rat_eq(rat_add(a, rat_sub(b, a)), b),
{
}

/// The line through `p` and `q` passes through `p`: interpolation at `p.x`
/// gives `p.y` as a rational value.
pub proof fn lemma_interp_at_start(p: RatPt, q: RatPt)
    requires
        rpt_wf(p),
        rpt_wf(q),
        rat_lt(p.x, q.x),
    ensures
        rat_eq(interp(p, q, p.x), p.y),
{
    let dx = rat_sub(p.x, p.x);
    let dxx = rat_sub(q.x, p.x);
    let dy = rat_sub(q.y, p.y);
    let sl = line_slope(p, q);
    let pr = rat_mul(dx, sl);
    assert(dx.n == 0);
    assert(dxx.n > 0);
    lemma_mul_zero(dx, sl);
    lemma_sub_wf(q.y, p.y);
    lemma_sub_wf(q.x, p.x);
    lemma_div_wf(dy, dxx);
    lemma_sub_wf(p.x, p.x);
    lemma_sub_wf(dx, sl);
    lemma_rat_add_zero(p.y, pr);
}

/// The line through `p` and `q` passes through `q`: interpolation at `q.x`
/// gives `q.y` as a rational value.
pub proof fn lemma_interp_at_end(p: RatPt, q: RatPt)
    requires
        rpt_wf(p),
        rpt_wf(q),
        rat_lt(p.x, q.x),
    ensures
        rat_eq(interp(p, q, q.x), q.y),
{
    let dxx = rat_sub(q.x, p.x);
    let dy = rat_sub(q.y, p.y);
    let sl = line_slope(p, q);
    let pr = rat_mul(dxx, sl);
    assert(dxx.n > 0);
    lemma_sub_wf(q.x, p.x);
    lemma_sub_wf(q.y, p.y);
    lemma_div_wf(dy, dxx);
    lemma_mul_div_wf_helper(dxx, sl, pr);
    lemma_rat_mul_div_cancel(dy, dxx);
    assert(rat_eq(pr, dy));
    lemma_rat_add_congr(p.y, pr, dy);
    lemma_rat_add_sub(p.y, q.y);
    lemma_sub_wf(p.y, pr);
    lemma_sub_wf(p.y, dy);
    crate::frac::lemma_rat_eq_trans(rat_add(p.y, pr), rat_add(p.y, dy), q.y);
}

/// The product of a well-formed pair is well formed (restated with the
/// product named, so a caller can apply it to a bound value).
proof fn lemma_mul_div_wf_helper(a: Rat, b: Rat, r: Rat)
    by (nonlinear_arith)
    requires
        rat_wf(a),
        rat_wf(b),
        r == rat_mul(a, b),
    ensures
        rat_wf(r),
{
}

/// Evaluation at a breakpoint returns the stored y: the represented
/// function is continuous and passes through every breakpoint.
pub proof fn lemma_eval_at_breakpoint(s: Seq<RatPt>, p: int)
    requires
        pts_wf(s),
        0 <= p < s.len(),
    ensures
        rat_eq(plf_val(s, s[p].x), s[p].y),
    decreases s.len(),
{
    let x = s[p].x;
    if s.len() <= 2 || rat_le(x, s[1].x) {
        if p == 0 {
            lemma_interp_at_start(s[0], s[1]);
        } else if p == 1 {
            lemma_interp_at_end(s[0], s[1]);
        } else {
            lemma_x_chain(s, 1, p);
            assert(false);
        }
    } else {
        assert(p >= 1) by {
            if p == 0 {
                assert(rat_lt(s[0].x, s[1].x));
            }
        }
        let t = s.drop_first();
        assert(forall|i: int| 0 <= i < t.len() ==> #[trigger] t[i] == s[i + 1]);
        assert(pts_all_wf(t) && pts_sorted(t)) by {
            assert(forall|i: int| 0 <= i < t.len() ==> rpt_wf(#[trigger] t[i]));
            assert(forall|i: int|
                0 <= i < t.len() - 1 ==> rat_lt((#[trigger] t[i]).x, t[i + 1].x));
        }
        lemma_eval_at_breakpoint(t, p - 1);
        assert(t[p - 1] == s[p]);
    }
}

/// The index of the segment that [`plf_val`] evaluates at `x`.
pub open spec fn seg_index(s: Seq<RatPt>, x: Rat) -> int
    decreases s.len(),
{
    if s.len() <= 2 || rat_le(x, s[1].x) {
        0
    } else {
        1 + seg_index(s.drop_first(), x)
    }
}

/// Strictly increasing x extends from neighbours to any pair of indices.
pub proof fn lemma_x_chain(s: Seq<RatPt>, i: int, j: int)
    requires
        pts_all_wf(s),
        pts_sorted(s),
        0 <= i < j < s.len(),
    ensures
        rat_lt(s[i].x, s[j].x),
    decreases j - i,
{
    if j == i + 1 {
    } else {
        lemma_x_chain(s, i, j - 1);
        lemma_rat_lt_trans(s[i].x, s[j - 1].x, s[j].x);
    }
}

/// [`plf_val`] evaluates the segment named by [`seg_index`], and that index
/// is a valid segment index.
pub proof fn lemma_seg_index(s: Seq<RatPt>, x: Rat)
    requires
        s.len() >= 2,
    ensures
        0 <= seg_index(s, x) < s.len() - 1,
        plf_val(s, x) == interp(s[seg_index(s, x)], s[seg_index(s, x) + 1], x),
    decreases s.len(),
{
    if s.len() <= 2 || rat_le(x, s[1].x) {
    } else {
        lemma_seg_index(s.drop_first(), x);
        assert(s.drop_first()[seg_index(s, x) - 1] == s[seg_index(s, x)]);
        assert(s.drop_first()[seg_index(s, x)] == s[seg_index(s, x) + 1]);
    }
}

/// When the first `i - 1` interior breakpoints lie strictly below `x` and
/// `x` lies at or below the breakpoint at `i`, the evaluated segment is
/// `i - 1`.
pub proof fn lemma_seg_index_char(s: Seq<RatPt>, x: Rat, i: int)
    requires
        s.len() >= 2,
        1 <= i < s.len(),
        forall|m: int| 1 <= m < i ==> rat_lt((#[trigger] s[m]).x, x),
        rat_le(x, s[i].x),
    ensures
        seg_index(s, x) == i - 1,
    decreases i,
{
    if i == 1 {
    } else {
        assert(rat_lt(s[1].x, x));
        assert(!rat_le(x, s[1].x));
        let t = s.drop_first();
        assert(forall|m: int| 1 <= m < i - 1 ==> rat_lt((#[trigger] t[m]).x, x)) by {
            assert(forall|m: int| 1 <= m < i - 1 ==> t[m] == s[m + 1]);
        }
        assert(t[i - 1] == s[i]);
        lemma_seg_index_char(t, x, i - 1);
    }
}

/// A line segment between two breakpoints.
#[derive(Clone, Copy, Debug, PartialEq, Eq, Structural)]
pub struct Line {
    pub start: Coord,
    pub end: Coord,
}

impl Line {
    /// A usable segment: representable endpoints with ascending x.
    pub open spec fn wf(self) -> bool {
        self.start.wf() && self.end.wf() && rat_lt(self.start@.x, self.end@.x)
    }

    /// Builds a segment from its two endpoints.
    pub fn new(start: Coord, end: Coord) -> (r: Line)
        ensures
            r.start == start,
            r.end == end,
    {
        Line { start, end }
    }
}

/// The value of `line` at `x` by linear interpolation, or `None` when an
/// intermediate fraction is not representable.
pub fn y_at_x(line: &Line, x: Frac) -> (r: Option<Frac>)
    requires
        line.wf(),
        x.wf(),
    ensures
        r is Some <==> interp_ok(line.start@, line.end@, x@),
        r matches Some(v) ==> v.wf() && v@ == interp(line.start@, line.end@, x@),
{
    let dx = match frac_sub(x, line.start.x) {
        Some(v) => v,
        None => {
            return None;
        },
    };
    let dy = match frac_sub(line.end.y, line.start.y) {
        Some(v) => v,
        None => {
            return None;
        },
    };
    let dxx = match frac_sub(line.end.x, line.start.x) {
        Some(v) => v,
        None => {
            return None;
        },
    };
    let sl = match frac_div(dy, dxx) {
        Some(v) => v,
        None => {
            return None;
        },
    };
    let pr = match frac_mul(dx, sl) {
        Some(v) => v,
        None => {
            return None;
        },
    };
    frac_add(line.start.y, pr)
}

/// The x coordinate at which the infinite extensions of the two lines meet:
/// `(b2 - b1) / (m1 - m2)` over slopes and y intercepts.
pub open spec fn intersect_x(p1: RatPt, q1: RatPt, p2: RatPt, q2: RatPt) -> Rat {
    let m1 = line_slope(p1, q1);
    let m2 = line_slope(p2, q2);
    let b1 = rat_sub(p1.y, rat_mul(p1.x, m1));
    let b2 = rat_sub(p2.y, rat_mul(p2.x, m2));
    rat_div(rat_sub(b2, b1), rat_sub(m1, m2))
}

/// Every intermediate fraction of the intersection computation is
/// representable.
pub open spec fn intersect_ok(p1: RatPt, q1: RatPt, p2: RatPt, q2: RatPt) -> bool {
    let m1 = line_slope(p1, q1);
    let m2 = line_slope(p2, q2);
    let b1 = rat_sub(p1.y, rat_mul(p1.x, m1));
    let b2 = rat_sub(p2.y, rat_mul(p2.x, m2));
    &&& rat_in_range(rat_sub(q1.y, p1.y))
    &&& rat_in_range(rat_sub(q1.x, p1.x))
    &&& rat_in_range(m1)
    &&& rat_in_range(rat_mul(p1.x, m1))
    &&& rat_in_range(b1)
    &&& rat_in_range(rat_sub(q2.y, p2.y))
    &&& rat_in_range(rat_sub(q2.x, p2.x))
    &&& rat_in_range(m2)
    &&& rat_in_range(rat_mul(p2.x, m2))
    &&& rat_in_range(b2)
    &&& rat_in_range(rat_sub(b2, b1))
    &&& rat_in_range(rat_sub(m1, m2))
    &&& rat_in_range(intersect_x(p1, q1, p2, q2))
    &&& interp_ok(p1, q1, intersect_x(p1, q1, p2, q2))
}

/// The intersection point of the infinite extensions of the two segments.
///
/// The segments must not be parallel; its y is the value of `l1` at the
/// intersection x. Returns `None` when an intermediate fraction is not
/// representable.
pub fn line_intersect(l1: &Line, l2: &Line) -> (r: Option<(Frac, Frac)>)
    requires
        l1.wf(),
        l2.wf(),
        !rat_eq(line_slope(l1.start@, l1.end@), line_slope(l2.start@, l2.end@)),
    ensures
        r is Some <==> intersect_ok(l1.start@, l1.end@, l2.start@, l2.end@),
        r matches Some(p) ==> p.0.wf() && p.1.wf() && p.0@ == intersect_x(
            l1.start@,
            l1.end@,
            l2.start@,
            l2.end@,
        ) && p.1@ == interp(l1.start@, l1.end@, p.0@),
{
    let dy1 = match frac_sub(l1.end.y, l1.start.y) {
        Some(v) => v,
        None => {
            return None;
        },
    };
    let dx1 = match frac_sub(l1.end.x, l1.start.x) {
        Some(v) => v,
        None => {
            return None;
        },
    };
    let m1 = match frac_div(dy1, dx1) {
        Some(v) => v,
        None => {
            return None;
        },
    };
    let xm1 = match frac_mul(l1.start.x, m1) {
        Some(v) => v,
        None => {
            return None;
        },
    };
    let b1 = match frac_sub(l1.start.y, xm1) {
        Some(v) => v,
        None => {
            return None;
        },
    };
    let dy2 = match frac_sub(l2.end.y, l2.start.y) {
        Some(v) => v,
        None => {
            return None;
        },
    };
    let dx2 = match frac_sub(l2.end.x, l2.start.x) {
        Some(v) => v,
        None => {
            return None;
        },
    };
    let m2 = match frac_div(dy2, dx2) {
        Some(v) => v,
        None => {
            return None;
        },
    };
    let xm2 = match frac_mul(l2.start.x, m2) {
        Some(v) => v,
        None => {
            return None;
        },
    };
    let b2 = match frac_sub(l2.start.y, xm2) {
        Some(v) => v,
        None => {
            return None;
        },
    };
    let db = match frac_sub(b2, b1) {
        Some(v) => v,
        None => {
            return None;
        },
    };
    let dm = match frac_sub(m1, m2) {
        Some(v) => v,
        None => {
            return None;
        },
    };
    let xi = match frac_div(db, dm) {
        Some(v) => v,
        None => {
            return None;
        },
    };
    match y_at_x(l1, xi) {
        Some(yi) => Some((xi, yi)),
        None => None,
    }
}

/// The model of a breakpoint vector.
pub open spec fn coords_view(s: Seq<Coord>) -> Seq<RatPt> {
    s.map(|i: int, c: Coord| c@)
}

/// Every component of every model breakpoint is representable.
pub open spec fn pts_in_range(s: Seq<RatPt>) -> bool {
    forall|i: int| 0 <= i < s.len() ==> rat_in_range((#[trigger] s[i]).x) && rat_in_range(s[i].y)
}

/// A valid breakpoint vector has a well-formed, in-range model.
pub proof fn lemma_valid_coords_wf(s: Seq<Coord>)
    requires
        valid_coords(s),
    ensures
        pts_wf(coords_view(s)),
        pts_in_range(coords_view(s)),
{
    let v = coords_view(s);
    assert(forall|i: int| 0 <= i < v.len() ==> #[trigger] v[i] == s[i]@);
    assert(forall|i: int| 0 <= i < v.len() ==> rpt_wf(#[trigger] v[i]) && rat_in_range(v[i].x)
        && rat_in_range(v[i].y)) by {
        assert(forall|i: int| 0 <= i < s.len() ==> (#[trigger] s[i]).wf());
    }
}

/// A continuous piecewise linear function: an ordered breakpoint vector,
/// linear between consecutive breakpoints.
///
/// Invariant (`wf`): at least two breakpoints, all representable, with
/// strictly increasing x. The validating constructors establish it and every
/// operation preserves it.
#[derive(Clone, Debug)]
pub struct PiecewiseLinearFunction {
    /// Vector of points that make up the function.
    pub coordinates: Vec<Coord>,
}

impl View for PiecewiseLinearFunction {
    type V = Seq<RatPt>;

    open spec fn view(&self) -> Seq<RatPt> {
        coords_view(self.coordinates@)
    }
}

/// Copies a breakpoint vector.
pub(crate) fn copy_coords(v: &Vec<Coord>) -> (r: Vec<Coord>)
    ensures
        r@ == v@,
{
    let mut r: Vec<Coord> = Vec::new();
    let mut i: usize = 0;
    while i < v.len()
        invariant
            0 <= i <= v.len(),
            r@ == v@.take(i as int),
        decreases v.len() - i,
    {
        r.push(v[i]);
        assert(r@ =~= v@.take(i as int + 1));
        i += 1;
    }
    assert(r@ =~= v@);
    r
}

/// The y-negation of a model breakpoint sequence; x is unchanged.
pub open spec fn spec_negate(s: Seq<RatPt>) -> Seq<RatPt> {
    s.map(|i: int, p: RatPt| RatPt { x: p.x, y: rat_neg(p.y) })
}

impl PiecewiseLinearFunction {
    /// The invariant of every live function value.
    pub open spec fn wf(self) -> bool {
        valid_coords(self.coordinates@)
    }

    /// Creates a new `PiecewiseLinearFunction` from a vector of coordinates.
    ///
    /// Returns `None` exactly when the invariants are violated: fewer than
    /// two points, a component that is not a representable fraction, or
    /// x values that are not strictly increasing.
    pub fn new(coordinates: Vec<Coord>) -> (r: Option<PiecewiseLinearFunction>)
        ensures
            r is Some <==> valid_coords(coordinates@),
            r matches Some(f) ==> f.coordinates == coordinates && f.wf(),
    {
        if coordinates.len() < 2 {
            return None;
        }
        let mut i: usize = 0;
        while i < coordinates.len()
            invariant
                0 <= i <= coordinates@.len(),
                forall|m: int| 0 <= m < i ==> (#[trigger] coordinates@[m]).wf(),
            decreases coordinates.len() - i,
        {
            let c = coordinates[i];
            if !(c.x.den > 0 && c.x.num > i64::MIN && c.y.den > 0 && c.y.num > i64::MIN) {
                assert(!coordinates@[i as int].wf());
                return None;
            }
            i += 1;
        }
        let mut j: usize = 0;
        while j < coordinates.len() - 1
            invariant
                coordinates@.len() >= 2,
                0 <= j <= coordinates@.len(),
                forall|m: int| 0 <= m < coordinates@.len() ==> (#[trigger] coordinates@[m]).wf(),
                forall|m: int| 0 <= m < j && m < coordinates@.len() - 1 ==> rat_lt(
                    (#[trigger] coordinates@[m])@.x,
                    coordinates@[m + 1]@.x,
                ),
            decreases coordinates.len() - j,
        {
            if !frac_lt(&coordinates[j].x, &coordinates[j + 1].x) {
                assert(!rat_lt(coordinates@[j as int]@.x, coordinates@[j as int + 1]@.x));
                return None;
            }
            j += 1;
        }
        Some(PiecewiseLinearFunction { coordinates })
    }

    /// Returns a new constant function with the specified domain and value.
    ///
    /// Returns `None` exactly when the domain is not a valid interval
    /// (`domain.1 <= domain.0`) or a component is not representable.
    pub fn constant(domain: (Frac, Frac), value: Frac) -> (r: Option<PiecewiseLinearFunction>)
        ensures
            r is Some <==> domain.0.wf() && domain.1.wf() && value.wf() && rat_lt(
                domain.0@,
                domain.1@,
            ),
            r matches Some(f) ==> f.wf() && f.coordinates@ =~= seq![
                Coord { x: domain.0, y: value },
                Coord { x: domain.1, y: value },
            ],
    {
        if !(domain.0.is_wf() && domain.1.is_wf() && value.is_wf() && frac_lt(
            &domain.0,
            &domain.1,
        )) {
            return None;
        }
        let mut coordinates: Vec<Coord> = Vec::new();
        coordinates.push(Coord { x: domain.0, y: value });
        coordinates.push(Coord { x: domain.1, y: value });
        Some(PiecewiseLinearFunction { coordinates })
    }

    /// Returns the function's domain, represented as its minimum and maximum
    /// x. The bounds are in ascending order: the domain is never empty or a
    /// single point.
    pub fn domain(&self) -> (r: (Frac, Frac))
        requires
            self.wf(),
        ensures
            r.0 == self.coordinates@[0].x,
            r.1 == self.coordinates@[self.coordinates@.len() - 1].x,
            rat_lt(r.0@, r.1@),
    {
        proof {
            lemma_valid_coords_wf(self.coordinates@);
            lemma_x_chain(self@, 0, self@.len() - 1);
        }
        (self.coordinates[0].x, self.coordinates[self.coordinates.len() - 1].x)
    }

    /// Checks whether this function has the same domain as another one, by
    /// rational comparison of the endpoints.
    pub fn has_same_domain_as(&self, other: &PiecewiseLinearFunction) -> (r: bool)
        requires
            self.wf(),
            other.wf(),
        ensures
            r == dom_eq(self@, other@),
    {
        let r0 = frac_eq(&self.coordinates[0].x, &other.coordinates[0].x);
        let r1 = frac_eq(
            &self.coordinates[self.coordinates.len() - 1].x,
            &other.coordinates[other.coordinates.len() - 1].x,
        );
        r0 && r1
    }

    /// Returns a segment `((x1, y1), (x2, y2))` of this function such that
    /// `x1 <= x <= x2`, namely the one that evaluation at `x` uses.
    ///
    /// Returns `None` exactly when `x` is outside the domain.
    pub fn segment_at_x(&self, x: Frac) -> (r: Option<Line>)
        requires
            self.wf(),
            x.wf(),
        ensures
            r is Some <==> in_dom(self@, x@),
            r matches Some(l) ==> {
                let j = seg_index(self@, x@);
                &&& l.start == self.coordinates@[j]
                &&& l.end == self.coordinates@[j + 1]
                &&& l.wf()
                &&& rat_le(l.start@.x, x@)
                &&& rat_le(x@, l.end@.x)
            },
    {
        proof {
            lemma_valid_coords_wf(self.coordinates@);
        }
        let n = self.coordinates.len();
        if frac_lt(&x, &self.coordinates[0].x) {
            return None;
        }
        if frac_lt(&self.coordinates[n - 1].x, &x) {
            return None;
        }
        let mut i: usize = 1;
        while i < n - 1
            invariant
                self.wf(),
                x.wf(),
                n == self.coordinates@.len(),
                1 <= i <= n - 1,
                in_dom(self@, x@),
                forall|m: int| 1 <= m < i ==> rat_lt((#[trigger] self@[m]).x, x@),
            decreases n - 1 - i,
        {
            if frac_le(&x, &self.coordinates[i].x) {
                proof {
                    lemma_seg_index_char(self@, x@, i as int);
                    assert(self@[i as int - 1] == self.coordinates@[i as int - 1]@);
                    assert(self@[i as int] == self.coordinates@[i as int]@);
                    assert(rat_lt(self@[i as int - 1].x, self@[i as int].x));
                    if i == 1 {
                        assert(rat_le(self@[0].x, x@));
                    } else {
                        assert(rat_lt(self@[i as int - 1].x, x@));
                    }
                }
                return Some(Line::new(self.coordinates[i - 1], self.coordinates[i]));
            }
            i += 1;
        }
        proof {
            lemma_seg_index_char(self@, x@, n as int - 1);
            assert(self@[n as int - 2] == self.coordinates@[n as int - 2]@);
            assert(self@[n as int - 1] == self.coordinates@[n as int - 1]@);
            assert(rat_lt(self@[n as int - 2].x, self@[n as int - 1].x));
            if n == 2 {
                assert(rat_le(self@[0].x, x@));
            } else {
                assert(rat_lt(self@[n as int - 2].x, x@));
            }
        }
        Some(Line::new(self.coordinates[n - 2], self.coordinates[n - 1]))
    }

    /// Computes the value f(x) of this function.
    ///
    /// Returns `None` when `x` is outside the domain, or when an
    /// intermediate fraction of the interpolation is not representable.
    pub fn y_at_x(&self, x: Frac) -> (r: Option<Frac>)
        requires
            self.wf(),
            x.wf(),
        ensures
            r is Some <==> in_dom(self@, x@) && interp_ok(
                self@[seg_index(self@, x@)],
                self@[seg_index(self@, x@) + 1],
                x@,
            ),
            r matches Some(v) ==> v.wf() && v@ == plf_val(self@, x@),
    {
        proof {
            lemma_valid_coords_wf(self.coordinates@);
            lemma_seg_index(self@, x@);
        }
        match self.segment_at_x(x) {
            Some(line) => y_at_x(&line, x),
            None => None,
        }
    }

    /// Returns -f: every y negated, every x unchanged. Always succeeds.
    pub fn negate(&self) -> (r: PiecewiseLinearFunction)
        requires
            self.wf(),
        ensures
            r.wf(),
            r@ == spec_negate(self@),
    {
        proof {
            lemma_valid_coords_wf(self.coordinates@);
        }
        let mut coordinates: Vec<Coord> = Vec::new();
        let mut i: usize = 0;
        while i < self.coordinates.len()
            invariant
                self.wf(),
                0 <= i <= self.coordinates@.len(),
                coordinates@.len() == i,
                forall|m: int| 0 <= m < i ==> (#[trigger] coordinates@[m]).wf(),
                forall|m: int| 0 <= m < i ==> (#[trigger] coordinates@[m]).x
                    == self.coordinates@[m].x,
                forall|m: int| 0 <= m < i ==> (#[trigger] coordinates@[m])@.y == rat_neg(
                    self.coordinates@[m]@.y,
                ),
            decreases self.coordinates.len() - i,
        {
            let c = self.coordinates[i];
            coordinates.push(Coord { x: c.x, y: frac_neg(c.y) });
            i += 1;
        }
        let r = PiecewiseLinearFunction { coordinates };
        proof {
            assert(r@ =~= spec_negate(self@));
            assert(forall|m: int| 0 <= m < r.coordinates@.len() ==> (
            #[trigger] r.coordinates@[m]).wf());
        }
        r
    }
}


/// How [`PiecewiseLinearFunction::expand_domain`] synthesizes the added edge
/// values.
#[derive(Clone, Copy, Debug, PartialEq, Eq, Structural)]
pub enum ExpandDomainStrategy {
    /// Extend the segment at the edge of the function.
    ExtendSegment,
    /// Add a constant segment with the value of the edge point of the
    /// function.
    ExtendValue,
}

/// How the first domain relates to the second: equal, a superset, a subset,
/// or incomparable.
pub open spec fn spec_compare_domains(a0: Rat, a1: Rat, b0: Rat, b1: Rat) -> Option<
    core::cmp::Ordering,
> {
    if rat_eq(a0, b0) && rat_eq(a1, b1) {
        Some(core::cmp::Ordering::Equal)
    } else if rat_le(a0, b0) && rat_le(b1, a1) {
        Some(core::cmp::Ordering::Greater)
    } else if rat_le(b0, a0) && rat_le(a1, b1) {
        Some(core::cmp::Ordering::Less)
    } else {
        None
    }
}

/// Compares two domains: equal, superset, subset, or incomparable.
pub(crate) fn compare_domains(d1: (Frac, Frac), d2: (Frac, Frac)) -> (r: Option<
    core::cmp::Ordering,
>)
    requires
        d1.0.wf(),
        d1.1.wf(),
        d2.0.wf(),
        d2.1.wf(),
    ensures
        r == spec_compare_domains(d1.0@, d1.1@, d2.0@, d2.1@),
{
    if frac_eq(&d1.0, &d2.0) && frac_eq(&d1.1, &d2.1) {
        Some(core::cmp::Ordering::Equal)
    } else if frac_le(&d1.0, &d2.0) && frac_le(&d2.1, &d1.1) {
        Some(core::cmp::Ordering::Greater)
    } else if frac_le(&d2.0, &d1.0) && frac_le(&d1.1, &d2.1) {
        Some(core::cmp::Ordering::Less)
    } else {
        None
    }
}

/// The segment overlaps the open strip between `d0` and `d1` in more than a
/// single point.
pub open spec fn clip_overlaps(p: RatPt, q: RatPt, d0: Rat, d1: Rat) -> bool {
    !(rat_le(q.x, d0) || rat_le(d1, p.x))
}

/// The left endpoint of the restriction of the segment to `[d0, d1]`.
pub open spec fn clip_left(p: RatPt, q: RatPt, d0: Rat) -> RatPt {
    if rat_le(d0, p.x) {
        p
    } else {
        RatPt { x: d0, y: interp(p, q, d0) }
    }
}

/// The right endpoint of the restriction of the segment to `[d0, d1]`.
pub open spec fn clip_right(p: RatPt, q: RatPt, d1: Rat) -> RatPt {
    if rat_le(q.x, d1) {
        q
    } else {
        RatPt { x: d1, y: interp(p, q, d1) }
    }
}

/// Every intermediate fraction of the restriction is representable.
pub open spec fn clip_ok(p: RatPt, q: RatPt, d0: Rat, d1: Rat) -> bool {
    &&& (rat_le(d0, p.x) || interp_ok(p, q, d0))
    &&& (rat_le(q.x, d1) || interp_ok(p, q, d1))
}

/// The outcome of restricting one segment to a domain.
#[derive(Clone, Copy, Debug, PartialEq, Eq, Structural)]
pub enum ClipResult {
    /// The segment's intersection with the domain is empty or a single point.
    Outside,
    /// The restriction of the segment to the domain.
    Clipped(Line),
    /// An intermediate fraction of the restriction is not representable.
    Overflow,
}

/// Returns the restriction of segment `l` to the given domain, `Outside`
/// when the intersection is a single point or empty, and `Overflow` when an
/// intermediate fraction is not representable.
pub fn line_in_domain(l: &Line, domain: (Frac, Frac)) -> (r: ClipResult)
    requires
        l.wf(),
        domain.0.wf(),
        domain.1.wf(),
        rat_lt(domain.0@, domain.1@),
    ensures
        !clip_overlaps(l.start@, l.end@, domain.0@, domain.1@) <==> r is Outside,
        clip_overlaps(l.start@, l.end@, domain.0@, domain.1@) && clip_ok(
            l.start@,
            l.end@,
            domain.0@,
            domain.1@,
        ) <==> r is Clipped,
        r matches ClipResult::Clipped(c) ==> {
            &&& c.wf()
            &&& c.start@ == clip_left(l.start@, l.end@, domain.0@)
            &&& c.end@ == clip_right(l.start@, l.end@, domain.1@)
        },
{
    if frac_le(&l.end.x, &domain.0) || frac_le(&domain.1, &l.start.x) {
        return ClipResult::Outside;
    }
    let left: Coord = if frac_le(&domain.0, &l.start.x) {
        l.start
    } else {
        match y_at_x(l, domain.0) {
            Some(y) => Coord { x: domain.0, y },
            None => {
                return ClipResult::Overflow;
            },
        }
    };
    let right: Coord = if frac_le(&l.end.x, &domain.1) {
        l.end
    } else {
        match y_at_x(l, domain.1) {
            Some(y) => Coord { x: domain.1, y },
            None => {
                return ClipResult::Overflow;
            },
        }
    };
    proof {
        assert(rat_lt(left@.x, right@.x)) by {
            if rat_le(domain.0@, l.start@.x) {
                if rat_le(l.end@.x, domain.1@) {
                } else {
                    assert(rat_lt(l.start@.x, domain.1@));
                }
            } else {
                assert(rat_lt(l.start@.x, domain.0@));
                if rat_le(l.end@.x, domain.1@) {
                    assert(rat_lt(domain.0@, l.end@.x));
                } else {
                }
            }
        }
    }
    ClipResult::Clipped(Line::new(left, right))
}

/// The restricted breakpoints contributed by the segments from `j` on: for
/// each overlapping segment its clipped right endpoint, preceded by the
/// clipped left endpoint when the segment starts at or before `d0`. `None`
/// when an intermediate fraction is not representable.
pub open spec fn shrink_from(s: Seq<RatPt>, j: int, d0: Rat, d1: Rat) -> Option<Seq<RatPt>>
    decreases s.len() - j,
{
    if j < 0 || j >= s.len() - 1 {
        Some(Seq::empty())
    } else if !clip_overlaps(s[j], s[j + 1], d0, d1) {
        shrink_from(s, j + 1, d0, d1)
    } else if !clip_ok(s[j], s[j + 1], d0, d1) {
        None
    } else {
        let l = clip_left(s[j], s[j + 1], d0);
        let r = clip_right(s[j], s[j + 1], d1);
        let pre = if rat_le(s[j].x, d0) {
            seq![l, r]
        } else {
            seq![r]
        };
        match shrink_from(s, j + 1, d0, d1) {
            None => None,
            Some(rest) => Some(pre + rest),
        }
    }
}

/// The breakpoints of the function expanded to `[d0, d1]`: at most one point
/// is added or substituted on either side, following the strategy. `None`
/// when an intermediate fraction of the extended edge value is not
/// representable.
pub open spec fn expand_pts(s: Seq<RatPt>, d0: Rat, d1: Rat, strategy: ExpandDomainStrategy) -> Option<
    Seq<RatPt>,
> {
    let last = s.len() - 1;
    let left: Option<Seq<RatPt>> = if rat_lt(d0, s[0].x) {
        match strategy {
            ExpandDomainStrategy::ExtendSegment => if interp_ok(s[0], s[1], d0) {
                Some(seq![RatPt { x: d0, y: interp(s[0], s[1], d0) }])
            } else {
                None
            },
            ExpandDomainStrategy::ExtendValue => Some(seq![RatPt { x: d0, y: s[0].y }, s[0]]),
        }
    } else {
        Some(seq![s[0]])
    };
    let right: Option<Seq<RatPt>> = if rat_lt(s[last].x, d1) {
        match strategy {
            ExpandDomainStrategy::ExtendSegment => if interp_ok(s[last - 1], s[last], d1) {
                Some(seq![RatPt { x: d1, y: interp(s[last - 1], s[last], d1) }])
            } else {
                None
            },
            ExpandDomainStrategy::ExtendValue => Some(
                seq![s[last], RatPt { x: d1, y: s[last].y }],
            ),
        }
    } else {
        Some(seq![s[last]])
    };
    match left {
        None => None,
        Some(lp) => match right {
            None => None,
            Some(rp) => Some(lp + s.subrange(1, last) + rp),
        },
    }
}

/// Expanding a valid breakpoint sequence always yields a valid one: at
/// least two breakpoints, all representable, with strictly increasing x.
proof fn lemma_expand_valid(
    s: Seq<RatPt>,
    d0: Rat,
    d1: Rat,
    strategy: ExpandDomainStrategy,
    r: Seq<RatPt>,
)
    requires
        pts_wf(s),
        pts_in_range(s),
        rat_in_range(d0),
        rat_in_range(d1),
        expand_pts(s, d0, d1, strategy) == Some(r),
    ensures
        r.len() >= 2,
        forall|q: int|
            0 <= q < r.len() ==> rat_in_range((#[trigger] r[q]).x) && rat_in_range(r[q].y),
        forall|q: int| 0 <= q < r.len() - 1 ==> rat_lt((#[trigger] r[q]).x, r[q + 1].x),
{
    let last = s.len() - 1;
    let lp: Seq<RatPt> = if rat_lt(d0, s[0].x) {
        match strategy {
            ExpandDomainStrategy::ExtendSegment => seq![
                RatPt { x: d0, y: interp(s[0], s[1], d0) },
            ],
            ExpandDomainStrategy::ExtendValue => seq![RatPt { x: d0, y: s[0].y }, s[0]],
        }
    } else {
        seq![s[0]]
    };
    let rp: Seq<RatPt> = if rat_lt(s[last].x, d1) {
        match strategy {
            ExpandDomainStrategy::ExtendSegment => seq![
                RatPt { x: d1, y: interp(s[last - 1], s[last], d1) },
            ],
            ExpandDomainStrategy::ExtendValue => seq![s[last], RatPt { x: d1, y: s[last].y }],
        }
    } else {
        seq![s[last]]
    };
    let mid = s.subrange(1, last);
    assert(r == lp + mid + rp);
    let ll = lp.len() as int;
    let ml = mid.len() as int;
    assert(forall|q: int| 0 <= q < ll ==> #[trigger] r[q] == lp[q]);
    assert(forall|q: int| 0 <= q < ml ==> #[trigger] r[ll + q] == s[q + 1]);
    assert(forall|q: int| 0 <= q < rp.len() ==> #[trigger] r[ll + ml + q] == rp[q]);
    assert forall|q: int|
        0 <= q < r.len() implies rat_in_range((#[trigger] r[q]).x) && rat_in_range(r[q].y) by {
        if q < ll {
            assert(rat_in_range(s[0].x) && rat_in_range(s[0].y) && rat_in_range(s[1].y));
            if rat_lt(d0, s[0].x) && strategy == ExpandDomainStrategy::ExtendSegment {
                assert(interp_ok(s[0], s[1], d0));
            }
        } else if q < ll + ml {
            assert(rat_in_range(s[q - ll + 1].x) && rat_in_range(s[q - ll + 1].y));
        } else {
            assert(rat_in_range(s[last].x) && rat_in_range(s[last].y) && rat_in_range(
                s[last - 1].y,
            ));
            if rat_lt(s[last].x, d1) && strategy == ExpandDomainStrategy::ExtendSegment {
                assert(interp_ok(s[last - 1], s[last], d1));
            }
        }
    }
    assert forall|q: int| 0 <= q < r.len() - 1 implies rat_lt((#[trigger] r[q]).x, r[q + 1].x) by {
        let a = r[q].x;
        let b = r[q + 1].x;
        if q + 1 < ll {
            // inside the left part: (d0, s[0].y) then s[0]
            assert(rat_lt(d0, s[0].x));
        } else if q + 1 == ll {
            // from the left part's last element to the first element after it
            let nxt_is_mid = ml > 0;
            if rat_lt(d0, s[0].x) && strategy == ExpandDomainStrategy::ExtendSegment {
                // a == d0; chain through s[0]
                if nxt_is_mid {
                    assert(b == s[1].x);
                    assert(rat_lt(s[0].x, s[1].x));
                    lemma_rat_lt_trans(d0, s[0].x, s[1].x);
                } else {
                    // s has exactly two points; the next element is rp[0]
                    assert(b == rp[0].x);
                    assert(rat_lt(s[0].x, s[1].x));
                    lemma_rat_lt_trans(d0, s[0].x, s[1].x);
                    if rat_lt(s[last].x, d1) && strategy
                        == ExpandDomainStrategy::ExtendSegment {
                        assert(b == d1);
                        lemma_rat_lt_trans(d0, s[1].x, d1);
                    }
                }
            } else {
                // a == s[0].x
                if nxt_is_mid {
                    assert(b == s[1].x);
                } else {
                    assert(b == rp[0].x);
                    if rat_lt(s[last].x, d1) && strategy
                        == ExpandDomainStrategy::ExtendSegment {
                        assert(b == d1);
                        lemma_rat_lt_trans(s[0].x, s[1].x, d1);
                    }
                }
            }
        } else if q + 1 < ll + ml {
            // inside the middle: consecutive original breakpoints
            assert(a == s[q - ll + 1].x && b == s[q - ll + 2].x);
        } else if q + 1 == ll + ml {
            // from the middle's last element to the right part's first
            assert(a == s[last - 1].x && b == rp[0].x);
            if rat_lt(s[last].x, d1) && strategy == ExpandDomainStrategy::ExtendSegment {
                assert(b == d1);
                assert(rat_lt(s[last - 1].x, s[last].x));
                lemma_rat_lt_trans(s[last - 1].x, s[last].x, d1);
            }
        } else {
            // inside the right part: s[last] then (d1, s[last].y)
            assert(a == s[last].x && b == d1);
        }
    }
}

/// One trapezoid-rule term per segment, folded from `acc` over the segments
/// from `i` on: `x_span * ((y1 + y2) / 2)` for each. `None` when an
/// intermediate fraction is not representable.
pub open spec fn integ_from(s: Seq<RatPt>, i: int, acc: Rat) -> Option<Rat>
    decreases s.len() - i,
{
    if i < 0 || i >= s.len() - 1 {
        Some(acc)
    } else {
        let p = s[i];
        let q = s[i + 1];
        let span = rat_sub(q.x, p.x);
        let ysum = rat_add(p.y, q.y);
        let half = rat_div(ysum, Rat { n: 2, d: 1 });
        let area = rat_mul(span, half);
        let nxt = rat_add(acc, area);
        if rat_in_range(span) && rat_in_range(ysum) && rat_in_range(half) && rat_in_range(area)
            && rat_in_range(nxt) {
            integ_from(s, i + 1, nxt)
        } else {
            None
        }
    }
}

/// Structure returned by [`PiecewiseLinearFunction::segments_iter`]: yields
/// the segments between consecutive breakpoints, in order.
pub struct SegmentsIterator {
    /// The breakpoints walked over.
    pub pts: Vec<Coord>,
    /// The index of the next segment's start.
    pub idx: usize,
}

impl SegmentsIterator {
    /// A usable iterator: valid breakpoints, cursor within bounds.
    pub open spec fn wf(self) -> bool {
        valid_coords(self.pts@) && self.idx <= self.pts@.len()
    }

    /// Yields the next segment, or `None` when all segments have been
    /// yielded. The iterator yields at least one segment from the start.
    pub fn next(&mut self) -> (r: Option<Line>)
        requires
            old(self).wf(),
        ensures
            final(self).wf(),
            final(self).pts == old(self).pts,
            old(self).idx + 1 < old(self).pts@.len() ==> {
                &&& r matches Some(l)
                &&& (r matches Some(l) ==> l.start == old(self).pts@[old(self).idx as int]
                    && l.end == old(self).pts@[old(self).idx + 1] && l.wf())
                &&& final(self).idx == old(self).idx + 1
            },
            old(self).idx + 1 >= old(self).pts@.len() ==> r is None && final(self).idx == old(
                self,
            ).idx,
    {
        let n = self.pts.len();
        proof {
            assert(self.pts@.len() >= 2);
        }
        if self.idx < n - 1 {
            let l = Line::new(self.pts[self.idx], self.pts[self.idx + 1]);
            self.idx = self.idx + 1;
            Some(l)
        } else {
            None
        }
    }
}

impl PiecewiseLinearFunction {
    /// Returns an iterator over the segments of the function. It yields one
    /// segment per pair of consecutive breakpoints: at least one in total.
    pub fn segments_iter(&self) -> (r: SegmentsIterator)
        requires
            self.wf(),
        ensures
            r.wf(),
            r.pts@ == self.coordinates@,
            r.idx == 0,
    {
        SegmentsIterator { pts: copy_coords(&self.coordinates), idx: 0 }
    }

    /// Returns a new piecewise linear function that is the restriction of
    /// this function to the specified domain.
    ///
    /// Returns `None` exactly when `to_domain` is not a subset of the
    /// domain, or an intermediate fraction of the clipping is not
    /// representable.
    pub fn shrink_domain(&self, to_domain: (Frac, Frac)) -> (r: Option<PiecewiseLinearFunction>)
        requires
            self.wf(),
            to_domain.0.wf(),
            to_domain.1.wf(),
            rat_lt(to_domain.0@, to_domain.1@),
        ensures
            r is Some <==> {
                let cmp = spec_compare_domains(
                    self@[0].x,
                    self@[self@.len() - 1].x,
                    to_domain.0@,
                    to_domain.1@,
                );
                ||| cmp == Some(core::cmp::Ordering::Equal)
                ||| (cmp == Some(core::cmp::Ordering::Greater) && shrink_from(
                    self@,
                    0,
                    to_domain.0@,
                    to_domain.1@,
                ) is Some)
            },
            r matches Some(h) ==> h.wf() && {
                let cmp = spec_compare_domains(
                    self@[0].x,
                    self@[self@.len() - 1].x,
                    to_domain.0@,
                    to_domain.1@,
                );
                if cmp == Some(core::cmp::Ordering::Equal) {
                    h@ == self@
                } else {
                    h@ == shrink_from(self@, 0, to_domain.0@, to_domain.1@).unwrap()
                }
            },
    {
        proof {
            lemma_valid_coords_wf(self.coordinates@);
        }
        let d = self.domain();
        let order = compare_domains(d, to_domain);
        match order {
            Some(core::cmp::Ordering::Equal) => {
                let h = PiecewiseLinearFunction { coordinates: copy_coords(&self.coordinates) };
                proof {
                    assert(h@ =~= self@);
                }
                Some(h)
            },
            Some(core::cmp::Ordering::Greater) => {
                let ghost sv = self@;
                let ghost d0 = to_domain.0@;
                let ghost d1 = to_domain.1@;
                let n = self.coordinates.len();
                let mut new_points: Vec<Coord> = Vec::new();
                let mut j: usize = 0;
                while j < n - 1
                    invariant
                        self.wf(),
                        sv == self@,
                        to_domain.0.wf(),
                        to_domain.1.wf(),
                        d0 == to_domain.0@,
                        d1 == to_domain.1@,
                        rat_lt(d0, d1),
                        spec_compare_domains(sv[0].x, sv[sv.len() - 1].x, d0, d1) == Some(
                            core::cmp::Ordering::Greater,
                        ),
                        n == self.coordinates@.len(),
                        sv.len() == n,
                        pts_wf(sv),
                        0 <= j <= n - 1,
                        forall|m: int|
                            0 <= m < new_points@.len() ==> (#[trigger] new_points@[m]).wf(),
                        new_points@.len() == 0 ==> rat_le(sv[j as int].x, d0),
                        new_points@.len() != 0 ==> new_points@.len() >= 2 && rat_lt(
                            d0,
                            new_points@[new_points@.len() - 1]@.x,
                        ) && rat_le(new_points@[new_points@.len() - 1]@.x, sv[j as int].x),
                        forall|m: int|
                            0 <= m < new_points@.len() - 1 ==> rat_lt(
                                (#[trigger] new_points@[m])@.x,
                                new_points@[m + 1]@.x,
                            ),
                        shrink_from(sv, 0, d0, d1) == (match shrink_from(sv, j as int, d0, d1) {
                            None => None::<Seq<RatPt>>,
                            Some(rest) => Some(coords_view(new_points@) + rest),
                        }),
                    decreases n - 1 - j,
                {
                    proof {
                        assert(sv[j as int] == self.coordinates@[j as int]@);
                        assert(sv[j as int + 1] == self.coordinates@[j as int + 1]@);
                        assert(rat_lt(sv[j as int].x, sv[j as int + 1].x));
                    }
                    let ghost pre = coords_view(new_points@);
                    let segment = Line::new(self.coordinates[j], self.coordinates[j + 1]);
                    match line_in_domain(&segment, to_domain) {
                        ClipResult::Outside => {
                            proof {
                                let a = sv[j as int];
                                let b = sv[j as int + 1];
                                if new_points@.len() == 0 {
                                    // the whole segment still lies at or before d0
                                    if rat_le(d1, a.x) {
                                        lemma_rat_le_trans(d1, a.x, d0);
                                        assert(false);
                                    }
                                    assert(rat_le(b.x, d0));
                                } else {
                                    let lastx = new_points@[new_points@.len() - 1]@.x;
                                    lemma_rat_le_lt_trans(lastx, a.x, b.x);
                                    assert(rat_le(lastx, b.x));
                                }
                            }
                        },
                        ClipResult::Overflow => {
                            proof {
                                assert(shrink_from(sv, j as int, d0, d1) is None);
                                assert(shrink_from(sv, 0, d0, d1) is None);
                            }
                            return None;
                        },
                        ClipResult::Clipped(restricted) => {
                            proof {
                                let a = sv[j as int];
                                let b = sv[j as int + 1];
                                let lx = restricted.start@.x;
                                let rx = restricted.end@.x;
                                // the clipped right endpoint lies strictly above d0 and at
                                // or below the segment end
                                if rat_le(b.x, d1) {
                                    assert(rx == b.x);
                                    assert(rat_lt(d0, rx));
                                    assert(rat_le(rx, b.x));
                                } else {
                                    assert(rx == d1);
                                    assert(rat_lt(d0, rx));
                                    assert(rat_le(rx, b.x));
                                }
                                if new_points@.len() != 0 {
                                    // an earlier segment contributed, so this one starts
                                    // strictly after d0 and only its right endpoint is kept
                                    let lastx = new_points@[new_points@.len() - 1]@.x;
                                    if rat_le(a.x, d0) {
                                        lemma_rat_le_trans(lastx, a.x, d0);
                                        assert(false);
                                    }
                                    if rat_le(b.x, d1) {
                                        lemma_rat_le_lt_trans(lastx, a.x, b.x);
                                    } else {
                                        lemma_rat_le_lt_trans(lastx, a.x, d1);
                                    }
                                    assert(rat_lt(lastx, rx));
                                }
                            }
                            if frac_le(&segment.start.x, &to_domain.0) {
                                new_points.push(restricted.start);
                            }
                            new_points.push(restricted.end);
                            proof {
                                let l = clip_left(sv[j as int], sv[j as int + 1], d0);
                                let rr = clip_right(sv[j as int], sv[j as int + 1], d1);
                                if rat_le(sv[j as int].x, d0) {
                                    assert(coords_view(new_points@) =~= pre + seq![l, rr]);
                                } else {
                                    assert(coords_view(new_points@) =~= pre + seq![rr]);
                                }
                                let tail = shrink_from(sv, j as int + 1, d0, d1);
                                if tail is Some {
                                    let pp = if rat_le(sv[j as int].x, d0) {
                                        seq![l, rr]
                                    } else {
                                        seq![rr]
                                    };
                                    assert((pre + (pp + tail.unwrap())) =~= (coords_view(
                                        new_points@,
                                    ) + tail.unwrap()));
                                }
                            }
                        },
                    }
                    j += 1;
                }
                proof {
                    assert(shrink_from(sv, n as int - 1, d0, d1) == Some(Seq::<RatPt>::empty()));
                    assert(coords_view(new_points@) + Seq::<RatPt>::empty() =~= coords_view(
                        new_points@,
                    ));
                    assert(shrink_from(sv, 0, d0, d1) == Some(coords_view(new_points@)));
                    // a nonempty restriction always remains: the target's upper bound lies
                    // at or below the last breakpoint, above d0
                    if new_points@.len() == 0 {
                        lemma_rat_lt_le_trans(d0, d1, sv[n as int - 1].x);
                        assert(false);
                    }
                    assert(valid_coords(new_points@));
                }
                let ghost res = coords_view(new_points@);
                let ghost npv = new_points@;
                match PiecewiseLinearFunction::new(new_points) {
                    Some(h) => {
                        proof {
                            assert(h@ == res);
                        }
                        Some(h)
                    },
                    None => {
                        proof {
                            assert(valid_coords(npv));
                            assert(false);
                        }
                        None
                    },
                }
            },
            _ => None,
        }
    }
}


impl PiecewiseLinearFunction {
    /// Returns a new piecewise linear function that is the expansion of this
    /// function to the specified domain.
    ///
    /// At most one value is added on either side; see [`ExpandDomainStrategy`]
    /// for how the added edge values are picked. Returns `None` exactly when
    /// an intermediate fraction of an extended edge value is not
    /// representable, or the resulting breakpoints would not be valid.
    pub fn expand_domain(&self, to_domain: (Frac, Frac), strategy: ExpandDomainStrategy) -> (r:
        Option<PiecewiseLinearFunction>)
        requires
            self.wf(),
            to_domain.0.wf(),
            to_domain.1.wf(),
        ensures
            spec_compare_domains(
                self@[0].x,
                self@[self@.len() - 1].x,
                to_domain.0@,
                to_domain.1@,
            ) == Some(core::cmp::Ordering::Equal) ==> r is Some && (r matches Some(h) ==> h.wf()
                && h@ == self@),
            spec_compare_domains(
                self@[0].x,
                self@[self@.len() - 1].x,
                to_domain.0@,
                to_domain.1@,
            ) != Some(core::cmp::Ordering::Equal) ==> {
                &&& (r is Some <==> expand_pts(self@, to_domain.0@, to_domain.1@, strategy)
                    is Some)
                &&& (r matches Some(h) ==> h.wf() && h@ == expand_pts(
                    self@,
                    to_domain.0@,
                    to_domain.1@,
                    strategy,
                ).unwrap())
            },
    {
        proof {
            lemma_valid_coords_wf(self.coordinates@);
        }
        let d = self.domain();
        if let Some(core::cmp::Ordering::Equal) = compare_domains(d, to_domain) {
            let h = PiecewiseLinearFunction { coordinates: copy_coords(&self.coordinates) };
            proof {
                assert(h@ =~= self@);
            }
            return Some(h);
        }
        let ghost sv = self@;
        let ghost d0 = to_domain.0@;
        let ghost d1 = to_domain.1@;
        let n = self.coordinates.len();
        let mut new_points: Vec<Coord> = Vec::new();
        if frac_lt(&to_domain.0, &self.coordinates[0].x) {
            match strategy {
                ExpandDomainStrategy::ExtendSegment => {
                    let line = Line::new(self.coordinates[0], self.coordinates[1]);
                    match y_at_x(&line, to_domain.0) {
                        Some(y) => {
                            new_points.push(Coord { x: to_domain.0, y });
                        },
                        None => {
                            proof {
                                assert(expand_pts(sv, d0, d1, strategy) is None);
                            }
                            return None;
                        },
                    }
                },
                ExpandDomainStrategy::ExtendValue => {
                    new_points.push(Coord { x: to_domain.0, y: self.coordinates[0].y });
                    new_points.push(self.coordinates[0]);
                },
            }
        } else {
            new_points.push(self.coordinates[0]);
        }
        let ghost lp = coords_view(new_points@);
        proof {
            assert(sv[0] == self.coordinates@[0]@);
            assert(sv[1] == self.coordinates@[1]@);
            if rat_lt(d0, sv[0].x) {
                match strategy {
                    ExpandDomainStrategy::ExtendSegment => {
                        assert(lp =~= seq![RatPt { x: d0, y: interp(sv[0], sv[1], d0) }]);
                    },
                    ExpandDomainStrategy::ExtendValue => {
                        assert(lp =~= seq![RatPt { x: d0, y: sv[0].y }, sv[0]]);
                    },
                }
            } else {
                assert(lp =~= seq![sv[0]]);
            }
            assert(coords_view(new_points@) =~= lp + sv.subrange(1, 1));
        }
        let mut m: usize = 1;
        while m < n - 1
            invariant
                self.wf(),
                sv == self@,
                n == self.coordinates@.len(),
                sv.len() == n,
                n >= 2,
                1 <= m <= n - 1,
                forall|q: int| 0 <= q < new_points@.len() ==> (#[trigger] new_points@[q]).wf(),
                coords_view(new_points@) == lp + sv.subrange(1, m as int),
            decreases n - 1 - m,
        {
            proof {
                assert(sv[m as int] == self.coordinates@[m as int]@);
            }
            let ghost pre = coords_view(new_points@);
            new_points.push(self.coordinates[m]);
            proof {
                assert(coords_view(new_points@) =~= pre + seq![sv[m as int]]);
                assert(sv.subrange(1, m as int + 1) =~= sv.subrange(1, m as int) + seq![
                    sv[m as int],
                ]);
                assert((lp + sv.subrange(1, m as int)) + seq![sv[m as int]] =~= lp + sv.subrange(
                    1,
                    m as int + 1,
                ));
            }
            m += 1;
        }
        let ghost mid = coords_view(new_points@);
        proof {
            assert(sv[n as int - 2] == self.coordinates@[n as int - 2]@);
            assert(sv[n as int - 1] == self.coordinates@[n as int - 1]@);
        }
        let ghost rp: Seq<RatPt> = if rat_lt(sv[n as int - 1].x, d1) {
            match strategy {
                ExpandDomainStrategy::ExtendSegment => seq![
                    RatPt { x: d1, y: interp(sv[n as int - 2], sv[n as int - 1], d1) },
                ],
                ExpandDomainStrategy::ExtendValue => seq![
                    sv[n as int - 1],
                    RatPt { x: d1, y: sv[n as int - 1].y },
                ],
            }
        } else {
            seq![sv[n as int - 1]]
        };
        if frac_lt(&self.coordinates[n - 1].x, &to_domain.1) {
            match strategy {
                ExpandDomainStrategy::ExtendSegment => {
                    let line = Line::new(self.coordinates[n - 2], self.coordinates[n - 1]);
                    match y_at_x(&line, to_domain.1) {
                        Some(y) => {
                            new_points.push(Coord { x: to_domain.1, y });
                            proof {
                                assert(coords_view(new_points@) =~= mid + rp);
                            }
                        },
                        None => {
                            proof {
                                assert(expand_pts(sv, d0, d1, strategy) is None);
                            }
                            return None;
                        },
                    }
                },
                ExpandDomainStrategy::ExtendValue => {
                    new_points.push(self.coordinates[n - 1]);
                    new_points.push(Coord { x: to_domain.1, y: self.coordinates[n - 1].y });
                    proof {
                        assert(coords_view(new_points@) =~= mid + rp);
                    }
                },
            }
        } else {
            new_points.push(self.coordinates[n - 1]);
            proof {
                assert(coords_view(new_points@) =~= mid + rp);
            }
        }
        let ghost res = coords_view(new_points@);
        let ghost npv = new_points@;
        proof {
            assert(mid == lp + sv.subrange(1, n as int - 1));
            assert(expand_pts(sv, d0, d1, strategy) == Some(lp + sv.subrange(1, n as int - 1)
                + rp));
            assert(res =~= (lp + sv.subrange(1, n as int - 1)) + rp);
            assert((lp + sv.subrange(1, n as int - 1)) + rp =~= lp + sv.subrange(1, n as int - 1)
                + rp);
            assert(res == expand_pts(sv, d0, d1, strategy).unwrap());
            lemma_expand_valid(sv, d0, d1, strategy, res);
            assert(valid_coords(npv)) by {
                assert forall|q: int| 0 <= q < npv.len() implies (#[trigger] npv[q]).wf() by {
                    assert(res[q] == npv[q]@);
                }
                assert forall|q: int| 0 <= q < npv.len() - 1 implies rat_lt(
                    (#[trigger] npv[q])@.x,
                    npv[q + 1]@.x,
                ) by {
                    assert(res[q] == npv[q]@);
                    assert(res[q + 1] == npv[q + 1]@);
                }
            }
        }
        match PiecewiseLinearFunction::new(new_points) {
            Some(h) => {
                proof {
                    assert(h@ == res);
                }
                Some(h)
            },
            None => {
                proof {
                    assert(false);
                }
                None
            },
        }
    }

    /// Returns the integral of the function over its entire domain, by the
    /// trapezoid rule: one term `x_span * ((y1 + y2) / 2)` per segment,
    /// folded from zero.
    ///
    /// Returns `None` exactly when an intermediate fraction of the folded
    /// sum is not representable.
    pub fn integrate(&self) -> (r: Option<Frac>)
        requires
            self.wf(),
        ensures
            r is Some <==> integ_from(self@, 0, Rat { n: 0, d: 1 }) is Some,
            r matches Some(v) ==> v.wf() && integ_from(self@, 0, Rat { n: 0, d: 1 }) == Some(v@),
    {
        proof {
            lemma_valid_coords_wf(self.coordinates@);
        }
        let ghost sv = self@;
        let n = self.coordinates.len();
        let mut acc = Frac { num: 0, den: 1 };
        let mut i: usize = 0;
        while i < n - 1
            invariant
                self.wf(),
                sv == self@,
                n == self.coordinates@.len(),
                sv.len() == n,
                n >= 2,
                0 <= i <= n - 1,
                acc.wf(),
                integ_from(sv, 0, Rat { n: 0, d: 1 }) == integ_from(sv, i as int, acc@),
            decreases n - 1 - i,
        {
            proof {
                assert(sv[i as int] == self.coordinates@[i as int]@);
                assert(sv[i as int + 1] == self.coordinates@[i as int + 1]@);
            }
            let p = self.coordinates[i];
            let q = self.coordinates[i + 1];
            let span = match frac_sub(q.x, p.x) {
                Some(v) => v,
                None => {
                    return None;
                },
            };
            let ysum = match frac_add(p.y, q.y) {
                Some(v) => v,
                None => {
                    return None;
                },
            };
            let half = match frac_div(ysum, Frac { num: 2, den: 1 }) {
                Some(v) => v,
                None => {
                    return None;
                },
            };
            let area = match frac_mul(span, half) {
                Some(v) => v,
                None => {
                    return None;
                },
            };
            acc = match frac_add(acc, area) {
                Some(v) => v,
                None => {
                    return None;
                },
            };
            i += 1;
        }
        Some(acc)
    }
}

} // verus!
