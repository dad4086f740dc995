//! The multi-function merge engine and the algebra built on it.
//!
//! The engine walks several piecewise linear functions in lockstep and emits,
//! in strictly ascending x order, every x at which any input has a breakpoint,
//! paired with the interpolated value of every input at that x. Sum, pairwise
//! maximum and minimum, and absolute value are built on the emitted sequence.
//!
//! The model of the engine is a cursor state: one remaining-breakpoint
//! sequence per input, whose first element is the start of that input's
//! current segment. A step finds the smallest current segment end, evaluates
//! every current segment there, and advances the cursors that end there.

use crate::frac::{
    frac_add, frac_div, frac_eq, frac_le, frac_lt, frac_sub, lemma_rat_eq_trans,
    lemma_rat_le_trans, lemma_rat_lt_congruence, lemma_rat_lt_trans, rat_add, rat_eq,
    rat_in_range, rat_le, rat_lt, rat_sub, rat_wf, Frac, Rat,
};
use crate::plf::{
    coords_view, copy_coords, dom_eq, interp, interp_ok, intersect_ok, intersect_x,
    lemma_valid_coords_wf, line_intersect, line_slope, pts_all_wf, pts_sorted, rpt_wf,
    spec_negate, valid_coords, y_at_x, Coord, Line, PiecewiseLinearFunction, RatPt,
};
use vstd::prelude::*;

verus! {

/// A valid cursor state: at least one cursor, each holding at least one
/// breakpoint, each well formed with strictly increasing x.
pub open spec fn rems_wf(fss: Seq<Seq<RatPt>>) -> bool {
    &&& fss.len() >= 1
    &&& forall|i: int| 0 <= i < fss.len() ==> (#[trigger] fss[i]).len() >= 1
    &&& forall|i: int| 0 <= i < fss.len() ==> pts_all_wf(#[trigger] fss[i])
    &&& forall|i: int| 0 <= i < fss.len() ==> pts_sorted(#[trigger] fss[i])
}

/// A cursor that still has a current segment.
pub open spec fn cursor_active(s: Seq<RatPt>) -> bool {
    s.len() >= 2
}

/// Some cursor still has a current segment.
pub open spec fn has_active(fss: Seq<Seq<RatPt>>) -> bool {
    exists|i: int| 0 <= i < fss.len() && cursor_active(#[trigger] fss[i])
}

/// The first index at or after `i` of an active cursor whose current segment
/// ends first; ties keep the earlier index. Inactive cursors are skipped;
/// when none at or after `i` is active the result is the last index.
pub open spec fn min_end_idx(fss: Seq<Seq<RatPt>>, i: int) -> int
    decreases fss.len() - i,
{
    if i >= fss.len() - 1 {
        fss.len() - 1
    } else {
        let m = min_end_idx(fss, i + 1);
        if !cursor_active(fss[i]) {
            m
        } else if !cursor_active(fss[m]) {
            i
        } else if rat_le(fss[i][1].x, fss[m][1].x) {
            i
        } else {
            m
        }
    }
}

/// The x at which the engine emits its next joint breakpoint: the smallest
/// current segment end.
pub open spec fn next_x(fss: Seq<Seq<RatPt>>) -> Rat {
    fss[min_end_idx(fss, 0)][1].x
}

/// [`min_end_idx`] names an active cursor whose end is minimal among the
/// active cursors at or after `i`, provided one is active there.
pub proof fn lemma_min_end_idx(fss: Seq<Seq<RatPt>>, i: int)
    requires
        rems_wf(fss),
        0 <= i < fss.len(),
    ensures
        i <= min_end_idx(fss, i) < fss.len(),
        (exists|j: int| i <= j < fss.len() && cursor_active(#[trigger] fss[j])) ==> cursor_active(
            fss[min_end_idx(fss, i)],
        ),
        forall|j: int|
            i <= j < fss.len() && cursor_active(#[trigger] fss[j]) ==> rat_le(
                fss[min_end_idx(fss, i)][1].x,
                fss[j][1].x,
            ),
    decreases fss.len() - i,
{
    if i >= fss.len() - 1 {
    } else {
        lemma_min_end_idx(fss, i + 1);
        let m = min_end_idx(fss, i + 1);
        if cursor_active(fss[i]) && !cursor_active(fss[m]) {
            assert forall|j: int|
                i <= j < fss.len() && cursor_active(#[trigger] fss[j]) implies rat_le(
                fss[min_end_idx(fss, i)][1].x,
                fss[j][1].x,
            ) by {
                if j >= i + 1 {
                    assert(cursor_active(fss[m]));
                }
            }
        } else if cursor_active(fss[i]) && cursor_active(fss[m]) && rat_le(
            fss[i][1].x,
            fss[m][1].x,
        ) {
            assert forall|j: int|
                i <= j < fss.len() && cursor_active(#[trigger] fss[j]) implies rat_le(
                fss[i][1].x,
                fss[j][1].x,
            ) by {
                if j >= i + 1 {
                    assert(rat_le(fss[m][1].x, fss[j][1].x));
                    assert(rpt_wf(fss[i][1]) && rpt_wf(fss[m][1]) && rpt_wf(fss[j][1]));
                    lemma_rat_le_trans(fss[i][1].x, fss[m][1].x, fss[j][1].x);
                }
            }
        }
    }
}

/// The combined number of remaining breakpoints across all cursors.
pub open spec fn total_len(fss: Seq<Seq<RatPt>>) -> nat
    decreases fss.len(),
{
    if fss.len() == 0 {
        0
    } else {
        fss[0].len() + total_len(fss.drop_first())
    }
}

/// The cursor state after emitting at `x`: every active cursor whose current
/// segment ends at `x` moves to its next segment.
pub open spec fn advance(fss: Seq<Seq<RatPt>>, x: Rat) -> Seq<Seq<RatPt>> {
    Seq::new(
        fss.len(),
        |i: int|
            if cursor_active(fss[i]) && rat_eq(fss[i][1].x, x) {
                fss[i].drop_first()
            } else {
                fss[i]
            },
    )
}

/// A pointwise shorter-or-equal state with one strictly shorter cursor has a
/// strictly smaller combined length.
pub proof fn lemma_total_len_lt(a: Seq<Seq<RatPt>>, b: Seq<Seq<RatPt>>, w: int)
    requires
        a.len() == b.len(),
        forall|i: int| 0 <= i < a.len() ==> (#[trigger] a[i]).len() <= b[i].len(),
        0 <= w < a.len(),
        a[w].len() < b[w].len(),
    ensures
        total_len(a) < total_len(b),
    decreases a.len(),
{
    let at = a.drop_first();
    let bt = b.drop_first();
    assert(forall|i: int| 0 <= i < at.len() ==> (#[trigger] at[i]).len() <= bt[i].len()) by {
        assert(forall|i: int| 0 <= i < at.len() ==> at[i] == a[i + 1] && bt[i] == b[i + 1]);
    }
    if w == 0 {
        lemma_total_len_le(at, bt);
    } else {
        assert(at[w - 1] == a[w] && bt[w - 1] == b[w]);
        lemma_total_len_lt(at, bt, w - 1);
    }
}

/// A pointwise shorter-or-equal state has a shorter-or-equal combined length.
pub proof fn lemma_total_len_le(a: Seq<Seq<RatPt>>, b: Seq<Seq<RatPt>>)
    requires
        a.len() == b.len(),
        forall|i: int| 0 <= i < a.len() ==> (#[trigger] a[i]).len() <= b[i].len(),
    ensures
        total_len(a) <= total_len(b),
    decreases a.len(),
{
    if a.len() == 0 {
    } else {
        let at = a.drop_first();
        let bt = b.drop_first();
        assert(forall|i: int| 0 <= i < at.len() ==> (#[trigger] at[i]).len() <= bt[i].len()) by {
            assert(forall|i: int| 0 <= i < at.len() ==> at[i] == a[i + 1] && bt[i] == b[i + 1]);
        }
        lemma_total_len_le(at, bt);
    }
}

/// Advancing at the emitted x strictly shrinks the combined length.
pub proof fn lemma_total_len_advance(fss: Seq<Seq<RatPt>>)
    requires
        rems_wf(fss),
        has_active(fss),
    ensures
        total_len(advance(fss, next_x(fss))) < total_len(fss),
{
    let x = next_x(fss);
    let a = advance(fss, x);
    lemma_min_end_idx(fss, 0);
    let m = min_end_idx(fss, 0);
    assert(cursor_active(fss[m]));
    assert(rat_eq(fss[m][1].x, x));
    assert(a[m].len() < fss[m].len());
    assert(forall|i: int| 0 <= i < a.len() ==> (#[trigger] a[i]).len() <= fss[i].len());
    lemma_total_len_lt(a, fss, m);
}

/// The value of one cursor at the emitted x: the leading y when the cursor
/// is exhausted, else the current segment interpolated at `x` — or `None`
/// when an intermediate fraction of that interpolation is not representable.
pub open spec fn cursor_val(s: Seq<RatPt>, x: Rat) -> Option<Rat> {
    if !cursor_active(s) {
        Some(s[0].y)
    } else if interp_ok(s[0], s[1], x) {
        Some(interp(s[0], s[1], x))
    } else {
        None
    }
}

/// The values of the cursors at or after `i` at the emitted x, or `None`
/// when any of them is not representable.
pub open spec fn step_vals(fss: Seq<Seq<RatPt>>, x: Rat, i: int) -> Option<Seq<Rat>>
    decreases fss.len() - i,
{
    if i < 0 || i >= fss.len() {
        Some(Seq::empty())
    } else {
        match cursor_val(fss[i], x) {
            None => None,
            Some(v) => match step_vals(fss, x, i + 1) {
                None => None,
                Some(rest) => Some(seq![v] + rest),
            },
        }
    }
}

/// The joint breakpoints that the engine emits from the given cursor state
/// on, excluding the leading joint breakpoint; `None` when an intermediate
/// fraction is not representable.
pub open spec fn merge_from(fss: Seq<Seq<RatPt>>) -> Option<Seq<(Rat, Seq<Rat>)>>
    decreases total_len(fss),
    when rems_wf(fss)
    via merge_from_decreases
{
    if !has_active(fss) {
        Some(Seq::empty())
    } else {
        let x = next_x(fss);
        match step_vals(fss, x, 0) {
            None => None,
            Some(vs) => match merge_from(advance(fss, x)) {
                None => None,
                Some(rest) => Some(seq![(x, vs)] + rest),
            },
        }
    }
}

#[via_fn]
proof fn merge_from_decreases(fss: Seq<Seq<RatPt>>) {
    if has_active(fss) {
        lemma_total_len_advance(fss);
        lemma_advance_wf(fss, next_x(fss));
    }
}

/// Advancing preserves cursor-state validity.
pub proof fn lemma_advance_wf(fss: Seq<Seq<RatPt>>, x: Rat)
    requires
        rems_wf(fss),
    ensures
        rems_wf(advance(fss, x)),
{
    let a = advance(fss, x);
    assert forall|i: int| 0 <= i < a.len() implies (#[trigger] a[i]).len() >= 1 && pts_all_wf(a[i])
        && pts_sorted(a[i]) by {
        if cursor_active(fss[i]) && rat_eq(fss[i][1].x, x) {
            let t = fss[i].drop_first();
            assert(forall|j: int| 0 <= j < t.len() ==> t[j] == fss[i][j + 1]);
            assert(forall|j: int| 0 <= j < t.len() ==> rpt_wf(#[trigger] t[j]));
            assert(forall|j: int|
                0 <= j < t.len() - 1 ==> rat_lt((#[trigger] t[j]).x, t[j + 1].x));
        }
    }
}

/// The leading joint breakpoint: the shared domain start, paired with the
/// leading y of every input.
pub open spec fn first_point(fss: Seq<Seq<RatPt>>) -> (Rat, Seq<Rat>) {
    (fss[0][0].x, Seq::new(fss.len(), |i: int| fss[i][0].y))
}

/// All joint breakpoints that the engine emits from a fresh cursor state, or
/// `None` when an intermediate fraction is not representable.
pub open spec fn merge_all(fss: Seq<Seq<RatPt>>) -> Option<Seq<(Rat, Seq<Rat>)>> {
    match merge_from(fss) {
        None => None,
        Some(rest) => Some(seq![first_point(fss)] + rest),
    }
}

/// Every active end strictly above `b` keeps every emitted x strictly above
/// `b`, and the emitted x sequence strictly ascending.
pub proof fn lemma_merge_from_sorted(fss: Seq<Seq<RatPt>>, b: Rat, l: Seq<(Rat, Seq<Rat>)>)
    requires
        rems_wf(fss),
        rat_wf(b),
        forall|i: int|
            0 <= i < fss.len() && cursor_active(#[trigger] fss[i]) ==> rat_lt(b, fss[i][1].x),
        merge_from(fss) == Some(l),
    ensures
        forall|p: int| 0 <= p < l.len() ==> rat_wf((#[trigger] l[p]).0),
        forall|p: int| 0 <= p < l.len() ==> rat_lt(b, (#[trigger] l[p]).0),
        forall|p: int| 0 <= p < l.len() - 1 ==> rat_lt((#[trigger] l[p]).0, l[p + 1].0),
    decreases total_len(fss),
{
    if !has_active(fss) {
    } else {
        let x = next_x(fss);
        lemma_min_end_idx(fss, 0);
        let m = min_end_idx(fss, 0);
        assert(rat_lt(b, x));
        assert(rat_wf(x)) by {
            assert(rpt_wf(fss[m][1]));
        }
        let a = advance(fss, x);
        lemma_advance_wf(fss, x);
        lemma_total_len_advance(fss);
        let vs = step_vals(fss, x, 0).unwrap();
        let rest = merge_from(a).unwrap();
        assert(l == seq![(x, vs)] + rest);
        assert forall|i: int|
            0 <= i < a.len() && cursor_active(#[trigger] a[i]) implies rat_lt(x, a[i][1].x) by {
            if cursor_active(fss[i]) && rat_eq(fss[i][1].x, x) {
                assert(a[i] == fss[i].drop_first());
                assert(a[i][1] == fss[i][2]);
                assert(rat_lt(fss[i][1].x, fss[i][2].x));
                assert(rpt_wf(fss[i][1]) && rpt_wf(fss[i][2]));
                lemma_rat_lt_congruence(fss[i][1].x, fss[i][2].x, x, fss[i][2].x);
            } else {
                assert(a[i] == fss[i]);
                assert(cursor_active(fss[i]));
                assert(rat_le(x, fss[i][1].x));
                assert(!rat_eq(fss[i][1].x, x));
            }
        }
        lemma_merge_from_sorted(a, x, rest);
        assert(forall|p: int| 0 <= p < rest.len() ==> l[p + 1] == rest[p]);
        assert(l[0].0 == x);
        assert forall|p: int| 0 <= p < l.len() implies rat_lt(b, (#[trigger] l[p]).0) by {
            if p > 0 {
                assert(l[p] == rest[p - 1]);
                assert(rat_lt(x, rest[p - 1].0));
                assert(rat_wf(rest[p - 1].0));
                lemma_rat_lt_trans(b, x, rest[p - 1].0);
            }
        }
        assert forall|p: int| 0 <= p < l.len() - 1 implies rat_lt((#[trigger] l[p]).0, l[p + 1].0)
            by {
            if p == 0 {
                if rest.len() > 0 {
                    assert(l[1] == rest[0]);
                    assert(rat_lt(x, rest[0].0));
                }
            } else {
                assert(l[p] == rest[p - 1] && l[p + 1] == rest[p]);
            }
        }
    }
}

/// From a fresh, domain-aligned cursor state, the emitted x sequence is
/// strictly ascending from the shared domain start on.
pub proof fn lemma_merge_all_sorted(fss: Seq<Seq<RatPt>>, l: Seq<(Rat, Seq<Rat>)>)
    requires
        rems_wf(fss),
        forall|i: int| 0 <= i < fss.len() ==> rat_eq((#[trigger] fss[i])[0].x, fss[0][0].x),
        merge_all(fss) == Some(l),
    ensures
        l.len() >= 1,
        l[0].0 == fss[0][0].x,
        forall|p: int| 0 <= p < l.len() ==> rat_wf((#[trigger] l[p]).0),
        forall|p: int| 0 <= p < l.len() - 1 ==> rat_lt((#[trigger] l[p]).0, l[p + 1].0),
{
    let b = fss[0][0].x;
    assert(rat_wf(b)) by {
        assert(rpt_wf(fss[0][0]));
    }
    assert forall|i: int|
        0 <= i < fss.len() && cursor_active(#[trigger] fss[i]) implies rat_lt(b, fss[i][1].x) by {
        assert(rat_lt(fss[i][0].x, fss[i][1].x));
        assert(rpt_wf(fss[i][0]) && rpt_wf(fss[i][1]));
        lemma_rat_lt_congruence(fss[i][0].x, fss[i][1].x, b, fss[i][1].x);
    }
    let rest = merge_from(fss).unwrap();
    lemma_merge_from_sorted(fss, b, rest);
    assert(l == seq![first_point(fss)] + rest);
    assert(forall|p: int| 0 <= p < rest.len() ==> l[p + 1] == rest[p]);
    assert(l[0].0 == b);
    assert forall|p: int| 0 <= p < l.len() - 1 implies rat_lt((#[trigger] l[p]).0, l[p + 1].0) by {
        if p == 0 {
            assert(l[1] == rest[0]);
            assert(rat_lt(b, rest[0].0));
        } else {
            assert(l[p] == rest[p - 1] && l[p + 1] == rest[p]);
        }
    }
}

/// When every cursor at or after `i` evaluates to the matching entry of
/// `vs`, the joint values are exactly the tail of `vs`.
pub proof fn lemma_step_vals_some(fss: Seq<Seq<RatPt>>, x: Rat, vs: Seq<Rat>, i: int)
    requires
        0 <= i <= fss.len(),
        vs.len() == fss.len(),
        forall|m: int| i <= m < fss.len() ==> cursor_val(#[trigger] fss[m], x) == Some(vs[m]),
    ensures
        step_vals(fss, x, i) == Some(vs.skip(i)),
    decreases fss.len() - i,
{
    if i == fss.len() {
        assert(vs.skip(i) =~= Seq::<Rat>::empty());
    } else {
        lemma_step_vals_some(fss, x, vs, i + 1);
        assert(vs.skip(i) =~= seq![vs[i]] + vs.skip(i + 1));
    }
}

/// One unrepresentable cursor value makes the whole step unrepresentable.
pub proof fn lemma_step_vals_none(fss: Seq<Seq<RatPt>>, x: Rat, m: int, i: int)
    requires
        0 <= i <= m < fss.len(),
        cursor_val(fss[m], x) is None,
    ensures
        step_vals(fss, x, i) is None,
    decreases m - i,
{
    if i < m {
        lemma_step_vals_none(fss, x, m, i + 1);
    }
}

/// The lifecycle of the merge engine.
#[derive(Clone, Copy, Debug, PartialEq, Eq, Structural)]
pub enum PoiState {
    /// No joint breakpoint emitted yet.
    Uninitialized,
    /// The leading joint breakpoint has been emitted.
    Streaming,
    /// All joint breakpoints have been emitted; nothing follows.
    Exhausted,
}

/// The outcome of one pull of the merge engine.
#[derive(Debug)]
pub enum PoiStep {
    /// The next joint breakpoint: its x, and the value of every input at it.
    Point(Frac, Vec<Frac>),
    /// The engine is exhausted.
    Finished,
    /// An intermediate fraction of the interpolation was not representable.
    Overflow,
}

/// The model of a vector of fraction values.
pub open spec fn vals_view(s: Seq<Frac>) -> Seq<Rat> {
    s.map(|i: int, f: Frac| f@)
}

/// The merge engine: produces, in strictly ascending x order, the joint
/// breakpoints of `k >= 1` functions with pairwise equal domains.
///
/// The iteration is lazy, finite and non-restartable: each traversal needs a
/// fresh engine bound to the inputs for its duration.
pub struct PointsOfInflectionIterator {
    /// The merged functions.
    pub funcs: Vec<PiecewiseLinearFunction>,
    /// Per function, the index of the start of its current segment.
    pub pos: Vec<usize>,
    /// Where in its lifecycle the engine stands.
    pub state: PoiState,
}

impl PointsOfInflectionIterator {
    /// How many functions are merged.
    pub open spec fn k(self) -> int {
        self.funcs@.len() as int
    }

    /// The cursor state: per function, its breakpoints from the start of the
    /// current segment on.
    pub open spec fn rems(self) -> Seq<Seq<RatPt>> {
        Seq::new(self.funcs@.len(), |i: int| self.funcs@[i]@.skip(self.pos@[i] as int))
    }

    /// The engine invariant: valid domain-aligned inputs and in-bounds
    /// cursors, all at the start before the first pull.
    pub open spec fn wf(self) -> bool {
        &&& self.funcs@.len() >= 1
        &&& self.pos@.len() == self.funcs@.len()
        &&& (forall|i: int| 0 <= i < self.funcs@.len() ==> (#[trigger] self.funcs@[i]).wf())
        &&& (forall|i: int|
            0 <= i < self.funcs@.len() ==> (#[trigger] self.pos@[i]) + 1
                <= self.funcs@[i].coordinates@.len())
        &&& (forall|i: int|
            0 <= i < self.funcs@.len() ==> dom_eq((#[trigger] self.funcs@[i])@, self.funcs@[0]@))
        &&& (self.state is Uninitialized ==> forall|i: int|
            0 <= i < self.pos@.len() ==> (#[trigger] self.pos@[i]) == 0)
    }
}

/// The engine invariant makes the cursor state a valid merge state whose
/// entries are the tails of the inputs.
pub proof fn lemma_rems_wf(it: PointsOfInflectionIterator)
    requires
        it.wf(),
    ensures
        rems_wf(it.rems()),
        it.rems().len() == it.k(),
        forall|i: int|
            0 <= i < it.k() ==> (#[trigger] it.rems()[i]).len() == it.funcs@[i]@.len()
                - it.pos@[i],
        forall|i: int, j: int|
            0 <= i < it.k() && 0 <= j < it.rems()[i].len() ==> (#[trigger] it.rems()[i][j])
                == it.funcs@[i]@[it.pos@[i] + j],
{
    assert forall|i: int| 0 <= i < it.k() implies (#[trigger] it.rems()[i]).len() >= 1
        && pts_all_wf(it.rems()[i]) && pts_sorted(it.rems()[i]) && it.rems()[i].len()
        == it.funcs@[i]@.len() - it.pos@[i] by {
        lemma_valid_coords_wf(it.funcs@[i].coordinates@);
        let s = it.funcs@[i]@;
        let p = it.pos@[i] as int;
        let t = it.rems()[i];
        assert(t == s.skip(p));
        assert(forall|j: int| 0 <= j < t.len() ==> #[trigger] t[j] == s[p + j]);
    }
    assert forall|i: int, j: int|
        0 <= i < it.k() && 0 <= j < it.rems()[i].len() implies (#[trigger] it.rems()[i][j])
        == it.funcs@[i]@[it.pos@[i] + j] by {
        let s = it.funcs@[i]@;
        let p = it.pos@[i] as int;
        assert(it.rems()[i] == s.skip(p));
    }
}



/// Engine states with the same inputs and cursors have the same cursor state.
pub proof fn lemma_rems_congruent(a: PointsOfInflectionIterator, b: PointsOfInflectionIterator)
    requires
        a.funcs == b.funcs,
        a.pos == b.pos,
    ensures
        a.rems() == b.rems(),
{
    assert(a.rems() =~= b.rems());
}

impl PointsOfInflectionIterator {
    /// Whether cursor `i` still has a current segment.
    fn active_at(&self, i: usize) -> (r: bool)
        requires
            self.wf(),
            i < self.funcs@.len(),
        ensures
            r == cursor_active(self.rems()[i as int]),
    {
        proof {
            lemma_rems_wf(*self);
            assert(self.pos@[i as int] + 1 <= self.funcs@[i as int].coordinates@.len());
            assert(self.rems()[i as int].len() == self.funcs@[i as int]@.len() - self.pos@[i as int]);
            assert(self.funcs@[i as int]@.len() == self.funcs@[i as int].coordinates@.len());
        }
        let n = self.funcs[i].coordinates.len();
        self.pos[i] + 1 < n
    }

    /// The end x of cursor `i`'s current segment.
    fn end_x(&self, i: usize) -> (r: Frac)
        requires
            self.wf(),
            i < self.funcs@.len(),
            cursor_active(self.rems()[i as int]),
        ensures
            r.wf(),
            r@ == self.rems()[i as int][1].x,
    {
        proof {
            lemma_rems_wf(*self);
            lemma_valid_coords_wf(self.funcs@[i as int].coordinates@);
            let pi = self.pos@[i as int] as int;
            assert(self.rems()[i as int].len() == self.funcs@[i as int]@.len() - pi);
            assert(self.funcs@[i as int]@.len() == self.funcs@[i as int].coordinates@.len());
            assert(pi + 1 < self.funcs@[i as int].coordinates@.len());
            assert(self.rems()[i as int][1] == self.funcs@[i as int]@[pi + 1]);
        }
        let n = self.funcs[i].coordinates.len();
        assert(self.pos@[i as int] + 1 < n);
        self.funcs[i].coordinates[self.pos[i] + 1].x
    }

    /// The first active cursor whose current segment ends first, or the last
    /// index when no cursor is active.
    fn find_min_end(&self) -> (r: usize)
        requires
            self.wf(),
        ensures
            r < self.funcs@.len(),
            r as int == min_end_idx(self.rems(), 0),
    {
        let ghost fss = self.rems();
        let k = self.funcs.len();
        let mut best: usize = k - 1;
        let mut i: usize = k - 1;
        while i > 0
            invariant
                self.wf(),
                fss == self.rems(),
                k == self.funcs@.len(),
                0 <= i <= k - 1,
                best < k,
                best as int == min_end_idx(fss, i as int),
            decreases i,
        {
            i = i - 1;
            proof {
                lemma_rems_wf(*self);
                lemma_min_end_idx(fss, i as int + 1);
            }
            let i_active = self.active_at(i);
            let b_active = self.active_at(best);
            if i_active {
                if !b_active {
                    best = i;
                } else {
                    let ei = self.end_x(i);
                    let eb = self.end_x(best);
                    if frac_le(&ei, &eb) {
                        best = i;
                    }
                }
            }
        }
        best
    }

    /// The value of every current segment at `x`, or `None` when an
    /// intermediate fraction of some interpolation is not representable.
    fn eval_all(&self, x: Frac) -> (r: Option<Vec<Frac>>)
        requires
            self.wf(),
            x.wf(),
        ensures
            r is Some <==> step_vals(self.rems(), x@, 0) is Some,
            r matches Some(vs) ==> {
                &&& vs@.len() == self.funcs@.len()
                &&& (forall|i: int| 0 <= i < vs@.len() ==> (#[trigger] vs@[i]).wf())
                &&& step_vals(self.rems(), x@, 0) == Some(vals_view(vs@))
            },
    {
        let ghost fss = self.rems();
        let k = self.funcs.len();
        let mut vs: Vec<Frac> = Vec::new();
        let mut i: usize = 0;
        while i < k
            invariant
                self.wf(),
                fss == self.rems(),
                rems_wf(fss),
                k == self.funcs@.len(),
                x.wf(),
                0 <= i <= k,
                vs@.len() == i,
                forall|m: int| 0 <= m < i ==> (#[trigger] vs@[m]).wf(),
                forall|m: int|
                    0 <= m < i ==> cursor_val(fss[m], x@) == Some((#[trigger] vs@[m])@),
            decreases k - i,
        {
            proof {
                lemma_rems_wf(*self);
                lemma_valid_coords_wf(self.funcs@[i as int].coordinates@);
                let pi = self.pos@[i as int] as int;
                assert(pi + 1 <= self.funcs@[i as int].coordinates@.len());
                assert(fss[i as int].len() == self.funcs@[i as int]@.len() - pi);
                assert(self.funcs@[i as int]@.len() == self.funcs@[i as int].coordinates@.len());
                assert(fss[i as int][0] == self.funcs@[i as int]@[pi]);
                if cursor_active(fss[i as int]) {
                    assert(fss[i as int][1] == self.funcs@[i as int]@[pi + 1]);
                }
            }
            let p = self.pos[i];
            let n = self.funcs[i].coordinates.len();
            let c0 = self.funcs[i].coordinates[p];
            if p + 1 < n {
                let c1 = self.funcs[i].coordinates[p + 1];
                let line = Line::new(c0, c1);
                match y_at_x(&line, x) {
                    Some(v) => {
                        vs.push(v);
                    },
                    None => {
                        proof {
                            assert(cursor_val(fss[i as int], x@) is None);
                            lemma_step_vals_none(fss, x@, i as int, 0);
                        }
                        return None;
                    },
                }
            } else {
                vs.push(c0.y);
                proof {
                    assert(!cursor_active(fss[i as int]));
                }
            }
            i += 1;
        }
        proof {
            lemma_step_vals_some(fss, x@, vals_view(vs@), 0);
            assert(vals_view(vs@).skip(0) =~= vals_view(vs@));
        }
        Some(vs)
    }

    /// Advances every cursor whose current segment ends at `x`.
    fn advance_all(&mut self, x: Frac)
        requires
            old(self).wf(),
            old(self).state is Streaming,
            x.wf(),
        ensures
            final(self).wf(),
            final(self).funcs == old(self).funcs,
            final(self).state == old(self).state,
            final(self).rems() == advance(old(self).rems(), x@),
    {
        proof {
            lemma_rems_wf(*self);
        }
        let ghost fss = self.rems();
        let k = self.funcs.len();
        let mut i: usize = 0;
        while i < k
            invariant
                k == self.funcs@.len(),
                self.pos@.len() == k,
                k >= 1,
                fss.len() == k,
                rems_wf(fss),
                x.wf(),
                0 <= i <= k,
                self.state == old(self).state,
                self.state is Streaming,
                self.funcs == old(self).funcs,
                forall|m: int| 0 <= m < k ==> (#[trigger] self.funcs@[m]).wf(),
                forall|m: int|
                    0 <= m < k ==> dom_eq((#[trigger] self.funcs@[m])@, self.funcs@[0]@),
                forall|m: int|
                    0 <= m < k ==> (#[trigger] self.pos@[m]) + 1
                        <= self.funcs@[m].coordinates@.len(),
                forall|m: int|
                    i <= m < k ==> self.funcs@[m]@.skip((#[trigger] self.pos@[m]) as int)
                        == fss[m],
                forall|m: int|
                    0 <= m < i ==> self.funcs@[m]@.skip((#[trigger] self.pos@[m]) as int)
                        == advance(fss, x@)[m],
            decreases k - i,
        {
            proof {
                lemma_valid_coords_wf(self.funcs@[i as int].coordinates@);
                let pi = self.pos@[i as int] as int;
                assert(pi + 1 <= self.funcs@[i as int].coordinates@.len());
                assert(self.funcs@[i as int]@.len() == self.funcs@[i as int].coordinates@.len());
                assert(self.funcs@[i as int]@.skip(pi) == fss[i as int]);
                assert(fss[i as int].len() == self.funcs@[i as int]@.len() - pi);
                if pi + 1 < self.funcs@[i as int]@.len() {
                    assert(fss[i as int][1] == self.funcs@[i as int]@[pi + 1]);
                }
            }
            let p = self.pos[i];
            let n = self.funcs[i].coordinates.len();
            if p + 1 < n {
                let e = self.funcs[i].coordinates[p + 1].x;
                proof {
                    assert(e@ == fss[i as int][1].x);
                    assert(cursor_active(fss[i as int]));
                }
                if frac_eq(&e, &x) {
                    self.pos.set(i, p + 1);
                    proof {
                        let s = self.funcs@[i as int]@;
                        assert(s.skip(p as int + 1) =~= s.skip(p as int).drop_first());
                        assert(cursor_active(fss[i as int]) && rat_eq(fss[i as int][1].x, x@));
                        assert(self.funcs@[i as int]@.skip(self.pos@[i as int] as int) == advance(
                            fss,
                            x@,
                        )[i as int]);
                    }
                } else {
                    proof {
                        assert(!rat_eq(fss[i as int][1].x, x@));
                        assert(advance(fss, x@)[i as int] == fss[i as int]);
                    }
                }
            } else {
                proof {
                    assert(!cursor_active(fss[i as int]));
                    assert(advance(fss, x@)[i as int] == fss[i as int]);
                }
            }
            i += 1;
        }
        proof {
            assert(self.rems() =~= advance(fss, x@));
        }
    }

    /// Pulls the next joint breakpoint.
    ///
    /// The first pull emits the leading joint breakpoint at the shared
    /// domain start. Each further pull emits the joint breakpoint at the
    /// smallest current segment end, then advances every cursor ending
    /// there. When all cursors are exhausted the engine reports `Finished`
    /// and keeps doing so; an unrepresentable intermediate fraction is
    /// reported as `Overflow` and also exhausts the engine.
    pub fn next(&mut self) -> (r: PoiStep)
        requires
            old(self).wf(),
        ensures
            final(self).wf(),
            final(self).funcs == old(self).funcs,
            old(self).state is Uninitialized ==> {
                &&& r is Point
                &&& final(self).state is Streaming
                &&& final(self).rems() == old(self).rems()
            },
            old(self).state is Uninitialized ==> (r matches PoiStep::Point(x, vs) ==> {
                &&& x.wf()
                &&& x@ == first_point(old(self).rems()).0
                &&& vs@.len() == old(self).k()
                &&& (forall|i: int| 0 <= i < vs@.len() ==> (#[trigger] vs@[i]).wf())
                &&& vals_view(vs@) == first_point(old(self).rems()).1
            }),
            old(self).state is Streaming && !has_active(old(self).rems()) ==> r is Finished
                && final(self).state is Exhausted && final(self).rems() == old(self).rems(),
            old(self).state is Streaming && has_active(old(self).rems()) && step_vals(
                old(self).rems(),
                next_x(old(self).rems()),
                0,
            ) is None ==> r is Overflow && final(self).state is Exhausted,
            old(self).state is Streaming && has_active(old(self).rems()) && step_vals(
                old(self).rems(),
                next_x(old(self).rems()),
                0,
            ) is Some ==> {
                &&& r is Point
                &&& final(self).state is Streaming
                &&& final(self).rems() == advance(old(self).rems(), next_x(old(self).rems()))
            },
            old(self).state is Streaming && has_active(old(self).rems()) ==> (r matches
                PoiStep::Point(x, vs) ==> {
                &&& x.wf()
                &&& x@ == next_x(old(self).rems())
                &&& vs@.len() == old(self).k()
                &&& (forall|i: int| 0 <= i < vs@.len() ==> (#[trigger] vs@[i]).wf())
                &&& step_vals(old(self).rems(), next_x(old(self).rems()), 0) == Some(
                    vals_view(vs@),
                )
            }),
            old(self).state is Exhausted ==> r is Finished && *final(self) == *old(self),
    {
        proof {
            lemma_rems_wf(*self);
        }
        let ghost fss = self.rems();
        match self.state {
            PoiState::Exhausted => PoiStep::Finished,
            PoiState::Uninitialized => {
                let x = self.funcs[0].coordinates[0].x;
                let mut vs: Vec<Frac> = Vec::new();
                let mut i: usize = 0;
                let k = self.funcs.len();
                while i < k
                    invariant
                        self.wf(),
                        fss == self.rems(),
                        rems_wf(fss),
                        k == self.funcs@.len(),
                        0 <= i <= k,
                        vs@.len() == i,
                        forall|m: int| 0 <= m < i ==> (#[trigger] vs@[m]).wf(),
                        forall|m: int| 0 <= m < i ==> (#[trigger] vs@[m])@ == fss[m][0].y,
                        forall|m: int|
                            0 <= m < self.pos@.len() ==> (#[trigger] self.pos@[m]) == 0,
                    decreases k - i,
                {
                    proof {
                        lemma_rems_wf(*self);
                        lemma_valid_coords_wf(self.funcs@[i as int].coordinates@);
                        assert(fss[i as int][0] == self.funcs@[i as int]@[0]);
                    }
                    vs.push(self.funcs[i].coordinates[0].y);
                    i += 1;
                }
                self.state = PoiState::Streaming;
                proof {
                    assert(self.rems() =~= fss);
                    assert(fss[0][0] == self.funcs@[0]@[0]);
                    lemma_valid_coords_wf(self.funcs@[0].coordinates@);
                    assert(vals_view(vs@) =~= first_point(fss).1);
                }
                PoiStep::Point(x, vs)
            },
            PoiState::Streaming => {
                let best = self.find_min_end();
                if !self.active_at(best) {
                    proof {
                        lemma_min_end_idx(fss, 0);
                        assert(!has_active(fss));
                    }
                    self.state = PoiState::Exhausted;
                    proof {
                        assert(self.rems() =~= fss);
                    }
                    return PoiStep::Finished;
                }
                proof {
                    lemma_min_end_idx(fss, 0);
                    assert(has_active(fss)) by {
                        assert(cursor_active(fss[best as int]));
                    }
                }
                let x = self.end_x(best);
                assert(x@ == next_x(fss));
                match self.eval_all(x) {
                    None => {
                        self.state = PoiState::Exhausted;
                        PoiStep::Overflow
                    },
                    Some(vs) => {
                        self.advance_all(x);
                        PoiStep::Point(x, vs)
                    },
                }
            },
        }
    }
}


/// The model of one function per entry.
pub open spec fn funcs_views(fs: Seq<PiecewiseLinearFunction>) -> Seq<Seq<RatPt>> {
    fs.map(|i: int, f: PiecewiseLinearFunction| f@)
}

/// The model of an emitted joint-breakpoint vector.
pub open spec fn items_view(s: Seq<(Frac, Vec<Frac>)>) -> Seq<(Rat, Seq<Rat>)> {
    s.map(|i: int, p: (Frac, Vec<Frac>)| (p.0@, vals_view(p.1@)))
}

/// Every emitted joint breakpoint is representable and carries one value per
/// input.
pub open spec fn items_wf(s: Seq<(Frac, Vec<Frac>)>, k: int) -> bool {
    forall|i: int|
        0 <= i < s.len() ==> (#[trigger] s[i]).0.wf() && s[i].1@.len() == k && (forall|j: int|
            0 <= j < s[i].1@.len() ==> (#[trigger] s[i].1@[j]).wf())
}

impl PiecewiseLinearFunction {
    /// Returns a merge engine over the joint points of inflection of `self`
    /// and `other`, or `None` exactly when their domains differ.
    pub fn points_of_inflection_iter(&self, other: &PiecewiseLinearFunction) -> (r: Option<
        PointsOfInflectionIterator,
    >)
        requires
            self.wf(),
            other.wf(),
        ensures
            r is Some <==> dom_eq(self@, other@),
            r matches Some(it) ==> {
                &&& it.wf()
                &&& it.state is Uninitialized
                &&& it.funcs@.len() == 2
                &&& it.rems() == seq![self@, other@]
            },
    {
        if !self.has_same_domain_as(other) {
            return None;
        }
        let mut funcs: Vec<PiecewiseLinearFunction> = Vec::new();
        funcs.push(PiecewiseLinearFunction { coordinates: copy_coords(&self.coordinates) });
        funcs.push(PiecewiseLinearFunction { coordinates: copy_coords(&other.coordinates) });
        let mut pos: Vec<usize> = Vec::new();
        pos.push(0);
        pos.push(0);
        let it = PointsOfInflectionIterator { funcs, pos, state: PoiState::Uninitialized };
        proof {
            assert(it.funcs@[0]@ == self@);
            assert(it.funcs@[1]@ == other@);
            assert(it.rems() =~= seq![self@, other@]) by {
                assert(it.funcs@[0]@.skip(0) =~= self@);
                assert(it.funcs@[1]@.skip(0) =~= other@);
            }
        }
        Some(it)
    }
}

/// Returns a merge engine over the joint points of inflection of all the
/// given functions, or `None` exactly when the collection is empty or some
/// pair of domains differs.
pub fn points_of_inflection_iter(funcs: &Vec<PiecewiseLinearFunction>) -> (r: Option<
    PointsOfInflectionIterator,
>)
    requires
        forall|i: int| 0 <= i < funcs@.len() ==> (#[trigger] funcs@[i]).wf(),
    ensures
        r is Some <==> funcs@.len() >= 1 && (forall|i: int|
            0 <= i < funcs@.len() ==> dom_eq((#[trigger] funcs@[i])@, funcs@[0]@)),
        r matches Some(it) ==> {
            &&& it.wf()
            &&& it.state is Uninitialized
            &&& it.funcs@.len() == funcs@.len()
            &&& it.rems() == funcs_views(funcs@)
        },
{
    if funcs.len() == 0 {
        return None;
    }
    let k = funcs.len();
    let mut out: Vec<PiecewiseLinearFunction> = Vec::new();
    let mut pos: Vec<usize> = Vec::new();
    let mut i: usize = 0;
    while i < k
        invariant
            forall|m: int| 0 <= m < funcs@.len() ==> (#[trigger] funcs@[m]).wf(),
            k == funcs@.len(),
            k >= 1,
            0 <= i <= k,
            out@.len() == i,
            pos@.len() == i,
            forall|m: int| 0 <= m < i ==> (#[trigger] out@[m]).coordinates@ == funcs@[m].coordinates@,
            forall|m: int| 0 <= m < i ==> (#[trigger] pos@[m]) == 0,
            forall|m: int| 0 <= m < i ==> dom_eq((#[trigger] funcs@[m])@, funcs@[0]@),
        decreases k - i,
    {
        if i > 0 {
            if !funcs[i - 1].has_same_domain_as(&funcs[i]) {
                proof {
                    lemma_valid_coords_wf(funcs@[i as int - 1].coordinates@);
                    lemma_valid_coords_wf(funcs@[i as int].coordinates@);
                    lemma_valid_coords_wf(funcs@[0].coordinates@);
                    assert(!dom_eq(funcs@[i as int]@, funcs@[0]@)) by {
                        if dom_eq(funcs@[i as int]@, funcs@[0]@) {
                            let a = funcs@[i as int - 1]@;
                            let b = funcs@[i as int]@;
                            let c = funcs@[0]@;
                            assert(dom_eq(a, c));
                            lemma_rat_eq_trans(a[0].x, c[0].x, b[0].x);
                            lemma_rat_eq_trans(
                                a[a.len() - 1].x,
                                c[c.len() - 1].x,
                                b[b.len() - 1].x,
                            );
                            assert(dom_eq(a, b));
                        }
                    }
                }
                return None;
            }
            proof {
                lemma_valid_coords_wf(funcs@[i as int - 1].coordinates@);
                lemma_valid_coords_wf(funcs@[i as int].coordinates@);
                lemma_valid_coords_wf(funcs@[0].coordinates@);
                let a = funcs@[i as int - 1]@;
                let b = funcs@[i as int]@;
                let c = funcs@[0]@;
                assert(dom_eq(a, b));
                assert(dom_eq(a, c));
                lemma_rat_eq_trans(b[0].x, a[0].x, c[0].x);
                lemma_rat_eq_trans(b[b.len() - 1].x, a[a.len() - 1].x, c[c.len() - 1].x);
                assert(dom_eq(b, c));
            }
        }
        out.push(PiecewiseLinearFunction { coordinates: copy_coords(&funcs[i].coordinates) });
        pos.push(0);
        i += 1;
    }
    let it = PointsOfInflectionIterator { funcs: out, pos, state: PoiState::Uninitialized };
    proof {
        assert(forall|m: int| 0 <= m < k ==> (#[trigger] it.funcs@[m])@ == funcs@[m]@);
        assert(it.rems() =~= funcs_views(funcs@)) by {
            assert(forall|m: int|
                0 <= m < k ==> (#[trigger] it.funcs@[m]@.skip(0)) =~= it.funcs@[m]@);
        }
    }
    Some(it)
}

/// Runs a fresh merge engine to exhaustion.
///
/// Returns all joint breakpoints in emission order, or `None` exactly when
/// an intermediate fraction of the merge is not representable.
fn collect_all(it: &mut PointsOfInflectionIterator) -> (r: Option<Vec<(Frac, Vec<Frac>)>>)
    requires
        old(it).wf(),
        old(it).state is Uninitialized,
    ensures
        r is Some <==> merge_all(old(it).rems()) is Some,
        r matches Some(v) ==> {
            &&& merge_all(old(it).rems()) == Some(items_view(v@))
            &&& items_wf(v@, old(it).k())
            &&& v@.len() >= 1
        },
{
    let ghost fss0 = it.rems();
    let ghost k = it.k();
    proof {
        assert(fss0 == old(it).rems());
        assert(k == old(it).k());
        lemma_rems_wf(*it);
    }
    let mut out: Vec<(Frac, Vec<Frac>)> = Vec::new();
    match it.next() {
        PoiStep::Point(x, vs) => {
            out.push((x, vs));
        },
        PoiStep::Finished => {
            proof {
                assert(false);
            }
            return None;
        },
        PoiStep::Overflow => {
            proof {
                assert(false);
            }
            return None;
        },
    }
    let ghost mut done: Seq<(Rat, Seq<Rat>)> = Seq::empty();
    proof {
        assert(items_view(out@) =~= seq![first_point(fss0)] + done);
        if merge_from(fss0) is Some {
            assert(done + merge_from(fss0).unwrap() =~= merge_from(fss0).unwrap());
        }
    }
    loop
        invariant
            it.wf(),
            it.state is Streaming,
            it.k() == k,
            fss0 == old(it).rems(),
            k == old(it).k(),
            fss0.len() == k,
            rems_wf(fss0),
            out@.len() >= 1,
            items_wf(out@, k),
            items_view(out@) == seq![first_point(fss0)] + done,
            merge_from(fss0) == (match merge_from(it.rems()) {
                None => None::<Seq<(Rat, Seq<Rat>)>>,
                Some(rest) => Some(done + rest),
            }),
        decreases total_len(it.rems()),
    {
        let ghost prev = *it;
        let ghost cur = it.rems();
        proof {
            lemma_rems_wf(prev);
        }
        match it.next() {
            PoiStep::Point(x, vs) => {
                proof {
                    assert(has_active(cur));
                    lemma_total_len_advance(cur);
                }
                let ghost item = (x@, vals_view(vs@));
                out.push((x, vs));
                proof {
                    let old_done = done;
                    done = done + seq![item];
                    assert(items_view(out@) =~= (seq![first_point(fss0)] + old_done) + seq![item]);
                    assert((seq![first_point(fss0)] + old_done) + seq![item]
                        =~= seq![first_point(fss0)] + done);
                    if merge_from(it.rems()) is Some {
                        let rest = merge_from(it.rems()).unwrap();
                        assert(merge_from(cur) == Some(seq![item] + rest));
                        assert(old_done + (seq![item] + rest) =~= done + rest);
                    } else {
                        assert(merge_from(cur) is None);
                    }
                }
            },
            PoiStep::Finished => {
                proof {
                    assert(!has_active(cur));
                    assert(merge_from(cur) == Some(Seq::<(Rat, Seq<Rat>)>::empty()));
                    assert(done + Seq::<(Rat, Seq<Rat>)>::empty() =~= done);
                    assert(merge_from(fss0) == Some(done));
                    assert(merge_all(fss0) == Some(items_view(out@)));
                }
                return Some(out);
            },
            PoiStep::Overflow => {
                proof {
                    assert(has_active(cur));
                    assert(merge_from(cur) is None);
                    assert(merge_from(fss0) is None);
                }
                return None;
            },
        }
    }
}

/// The two-function merge: all joint breakpoints of `f` and `g`.
pub open spec fn merge2(f: Seq<RatPt>, g: Seq<RatPt>) -> Option<Seq<(Rat, Seq<Rat>)>> {
    merge_all(seq![f, g])
}

/// Every pairwise sum of joint values is representable.
pub open spec fn sum2_ok(items: Seq<(Rat, Seq<Rat>)>) -> bool {
    forall|p: int|
        0 <= p < items.len() ==> rat_in_range(
            rat_add((#[trigger] items[p]).1[0], items[p].1[1]),
        )
}

/// The breakpoints of the pairwise sum: each joint x with the sum of the two
/// joint values.
pub open spec fn spec_add_items(items: Seq<(Rat, Seq<Rat>)>) -> Seq<RatPt> {
    items.map(|i: int, p: (Rat, Seq<Rat>)| RatPt { x: p.0, y: rat_add(p.1[0], p.1[1]) })
}

impl PiecewiseLinearFunction {
    /// Sums this function with another piecewise linear function.
    ///
    /// Returns `None` exactly when the domains differ or an intermediate
    /// fraction of the merge or of a sum is not representable.
    pub fn add(&self, other: &PiecewiseLinearFunction) -> (r: Option<PiecewiseLinearFunction>)
        requires
            self.wf(),
            other.wf(),
        ensures
            r is Some <==> dom_eq(self@, other@) && merge2(self@, other@) is Some && sum2_ok(
                merge2(self@, other@).unwrap(),
            ),
            r matches Some(h) ==> h.wf() && h@ == spec_add_items(merge2(self@, other@).unwrap()),
    {
        let mut it = match self.points_of_inflection_iter(other) {
            Some(it) => it,
            None => {
                return None;
            },
        };
        let ghost fss0 = it.rems();
        let items = match collect_all(&mut it) {
            Some(v) => v,
            None => {
                return None;
            },
        };
        let ghost iv = items_view(items@);
        proof {
            lemma_valid_coords_wf(self.coordinates@);
            lemma_valid_coords_wf(other.coordinates@);
            assert(rems_wf(fss0));
            assert(has_active(fss0)) by {
                assert(cursor_active(fss0[0]));
            }
            assert(iv.len() >= 2) by {
                let rest = merge_from(fss0).unwrap();
                assert(rest.len() >= 1);
                assert(iv == seq![first_point(fss0)] + rest);
            }
            assert(forall|i: int| 0 <= i < fss0.len() ==> rat_eq((#[trigger] fss0[i])[0].x, fss0[0][0].x));
            lemma_merge_all_sorted(fss0, iv);
        }
        let n = items.len();
        let mut coordinates: Vec<Coord> = Vec::new();
        let mut p: usize = 0;
        while p < n
            invariant
                self.wf(),
                other.wf(),
                dom_eq(self@, other@),
                merge2(self@, other@) == Some(iv),
                n == items@.len(),
                iv == items_view(items@),
                iv.len() == n,
                n >= 2,
                items_wf(items@, 2),
                forall|m: int| 0 <= m < iv.len() ==> rat_wf((#[trigger] iv[m]).0),
                forall|m: int| 0 <= m < iv.len() - 1 ==> rat_lt((#[trigger] iv[m]).0, iv[m + 1].0),
                0 <= p <= n,
                coordinates@.len() == p,
                forall|m: int| 0 <= m < p ==> (#[trigger] coordinates@[m]).wf(),
                forall|m: int| 0 <= m < p ==> (#[trigger] coordinates@[m])@ == spec_add_items(iv)[m],
                forall|m: int| 0 <= m < p ==> rat_in_range(rat_add(iv[m].1[0], iv[m].1[1])),
            decreases n - p,
        {
            proof {
                assert(items@[p as int].1@.len() == 2);
                assert(iv[p as int] == (items@[p as int].0@, vals_view(items@[p as int].1@)));
            }
            let x = items[p].0;
            let v0 = items[p].1[0];
            let v1 = items[p].1[1];
            match frac_add(v0, v1) {
                Some(sy) => {
                    coordinates.push(Coord { x, y: sy });
                },
                None => {
                    proof {
                        assert(!rat_in_range(rat_add(iv[p as int].1[0], iv[p as int].1[1])));
                        assert(!sum2_ok(iv));
                    }
                    return None;
                },
            }
            p += 1;
        }
        let h = PiecewiseLinearFunction { coordinates };
        proof {
            assert(h@ =~= spec_add_items(iv));
            assert(valid_coords(h.coordinates@)) by {
                assert(forall|m: int|
                    0 <= m < h.coordinates@.len() ==> (#[trigger] h.coordinates@[m]).wf());
                assert forall|m: int| 0 <= m < h.coordinates@.len() - 1 implies rat_lt(
                    (#[trigger] h.coordinates@[m])@.x,
                    h.coordinates@[m + 1]@.x,
                ) by {
                    assert(h.coordinates@[m]@ == spec_add_items(iv)[m]);
                    assert(h.coordinates@[m + 1]@ == spec_add_items(iv)[m + 1]);
                    assert(rat_lt(iv[m].0, iv[m + 1].0));
                }
            }
        }
        Some(h)
    }
}

/// The left fold of joint values from zero, with every intermediate sum
/// representable, or `None` when one is not.
pub open spec fn sum_vals_from(vs: Seq<Rat>, i: int, acc: Rat) -> Option<Rat>
    decreases vs.len() - i,
{
    if i < 0 || i >= vs.len() {
        Some(acc)
    } else {
        let nxt = rat_add(acc, vs[i]);
        if rat_in_range(nxt) {
            sum_vals_from(vs, i + 1, nxt)
        } else {
            None
        }
    }
}

/// The sum of one joint value vector, folded from zero.
pub open spec fn sum_vals(vs: Seq<Rat>) -> Option<Rat> {
    sum_vals_from(vs, 0, Rat { n: 0, d: 1 })
}

/// Every joint value vector of `items` has a representable sum.
pub open spec fn sum_ok(items: Seq<(Rat, Seq<Rat>)>) -> bool {
    forall|p: int| 0 <= p < items.len() ==> sum_vals((#[trigger] items[p]).1) is Some
}

/// The breakpoints of the k-ary sum: each joint x with the sum of all joint
/// values.
pub open spec fn spec_sum_items(items: Seq<(Rat, Seq<Rat>)>) -> Seq<RatPt> {
    items.map(|i: int, p: (Rat, Seq<Rat>)| RatPt { x: p.0, y: sum_vals(p.1).unwrap() })
}

/// Sums the functions together.
///
/// Returns `None` exactly when the collection is empty, some pair of domains
/// differs, or an intermediate fraction of the merge or of a sum is not
/// representable.
pub fn sum(funcs: &Vec<PiecewiseLinearFunction>) -> (r: Option<PiecewiseLinearFunction>)
    requires
        forall|i: int| 0 <= i < funcs@.len() ==> (#[trigger] funcs@[i]).wf(),
    ensures
        r is Some <==> funcs@.len() >= 1 && (forall|i: int|
            0 <= i < funcs@.len() ==> dom_eq((#[trigger] funcs@[i])@, funcs@[0]@)) && merge_all(
            funcs_views(funcs@),
        ) is Some && sum_ok(merge_all(funcs_views(funcs@)).unwrap()),
        r matches Some(h) ==> h.wf() && h@ == spec_sum_items(
            merge_all(funcs_views(funcs@)).unwrap(),
        ),
{
    let mut it = match points_of_inflection_iter(funcs) {
        Some(it) => it,
        None => {
            return None;
        },
    };
    let ghost fss0 = it.rems();
    let ghost k = funcs@.len() as int;
    let items = match collect_all(&mut it) {
        Some(v) => v,
        None => {
            return None;
        },
    };
    let ghost iv = items_view(items@);
    proof {
        assert(rems_wf(fss0)) by {
            assert forall|i: int| 0 <= i < fss0.len() implies (#[trigger] fss0[i]).len() >= 1
                && pts_all_wf(fss0[i]) && pts_sorted(fss0[i]) by {
                assert(fss0[i] == funcs@[i]@);
                lemma_valid_coords_wf(funcs@[i].coordinates@);
            }
        }
        assert(has_active(fss0)) by {
            assert(fss0[0] == funcs@[0]@);
            lemma_valid_coords_wf(funcs@[0].coordinates@);
            assert(cursor_active(fss0[0]));
        }
        assert(iv.len() >= 2) by {
            let rest = merge_from(fss0).unwrap();
            assert(rest.len() >= 1);
            assert(iv == seq![first_point(fss0)] + rest);
        }
        assert forall|i: int| 0 <= i < fss0.len() implies rat_eq(
            (#[trigger] fss0[i])[0].x,
            fss0[0][0].x,
        ) by {
            assert(fss0[i] == funcs@[i]@);
            assert(fss0[0] == funcs@[0]@);
            assert(dom_eq(funcs@[i]@, funcs@[0]@));
        }
        lemma_merge_all_sorted(fss0, iv);
    }
    let n = items.len();
    let mut coordinates: Vec<Coord> = Vec::new();
    let mut p: usize = 0;
    while p < n
        invariant
            forall|i: int| 0 <= i < funcs@.len() ==> (#[trigger] funcs@[i]).wf(),
            funcs@.len() >= 1,
            forall|i: int| 0 <= i < funcs@.len() ==> dom_eq((#[trigger] funcs@[i])@, funcs@[0]@),
            merge_all(funcs_views(funcs@)) == Some(iv),
            k == funcs@.len() as int,
            n == items@.len(),
            iv == items_view(items@),
            iv.len() == n,
            n >= 2,
            items_wf(items@, k),
            forall|m: int| 0 <= m < iv.len() ==> rat_wf((#[trigger] iv[m]).0),
            forall|m: int| 0 <= m < iv.len() - 1 ==> rat_lt((#[trigger] iv[m]).0, iv[m + 1].0),
            0 <= p <= n,
            coordinates@.len() == p,
            forall|m: int| 0 <= m < p ==> (#[trigger] coordinates@[m]).wf(),
            forall|m: int| 0 <= m < p ==> (#[trigger] coordinates@[m])@ == spec_sum_items(iv)[m],
            forall|m: int| 0 <= m < p ==> sum_vals(iv[m].1) is Some,
        decreases n - p,
    {
        proof {
            assert(iv[p as int] == (items@[p as int].0@, vals_view(items@[p as int].1@)));
        }
        let x = items[p].0;
        let vcount = items[p].1.len();
        let mut acc = Frac { num: 0, den: 1 };
        let mut j: usize = 0;
        let ghost vr = iv[p as int].1;
        while j < vcount
            invariant
                merge_all(funcs_views(funcs@)) == Some(iv),
                n == items@.len(),
                iv == items_view(items@),
                items_wf(items@, k),
                0 <= p < n,
                vr == iv[p as int].1,
                vcount == items@[p as int].1@.len(),
                vr.len() == vcount,
                0 <= j <= vcount,
                acc.wf(),
                sum_vals(vr) == sum_vals_from(vr, j as int, acc@),
            decreases vcount - j,
        {
            proof {
                assert(vr[j as int] == items@[p as int].1@[j as int]@);
                assert(items@[p as int].1@[j as int].wf());
            }
            let v = items[p].1[j];
            match frac_add(acc, v) {
                Some(a2) => {
                    acc = a2;
                },
                None => {
                    proof {
                        assert(sum_vals(vr) is None);
                        assert(!sum_ok(iv));
                    }
                    return None;
                },
            }
            j += 1;
        }
        proof {
            assert(sum_vals(vr) == Some(acc@));
        }
        coordinates.push(Coord { x, y: acc });
        p += 1;
    }
    let h = PiecewiseLinearFunction { coordinates };
    proof {
        assert(h@ =~= spec_sum_items(iv));
        assert(valid_coords(h.coordinates@)) by {
            assert(forall|m: int|
                0 <= m < h.coordinates@.len() ==> (#[trigger] h.coordinates@[m]).wf());
            assert forall|m: int| 0 <= m < h.coordinates@.len() - 1 implies rat_lt(
                (#[trigger] h.coordinates@[m])@.x,
                h.coordinates@[m + 1]@.x,
            ) by {
                assert(h.coordinates@[m]@ == spec_sum_items(iv)[m]);
                assert(h.coordinates@[m + 1]@ == spec_sum_items(iv)[m + 1]);
                assert(rat_lt(iv[m].0, iv[m + 1].0));
            }
        }
    }
    Some(h)
}


/// The leader among two joint values: the first index holding the maximum.
pub open spec fn argmax2(v0: Rat, v1: Rat) -> int {
    if rat_le(v1, v0) {
        0
    } else {
        1
    }
}

/// The crossing breakpoints to insert after a leader change between the
/// previous joint breakpoint `(px, pv)` and the current one `(x, v)`: the
/// intersection of the two candidate lines, inserted only when it lies
/// strictly between the two joint x values. `None` when an intermediate
/// fraction is not representable; parallel equal-sloped lines insert nothing.
pub open spec fn max_step(px: Rat, pv: Seq<Rat>, x: Rat, v: Seq<Rat>) -> Option<Seq<RatPt>> {
    let p1 = RatPt { x: px, y: pv[0] };
    let q1 = RatPt { x, y: v[0] };
    let p2 = RatPt { x: px, y: pv[1] };
    let q2 = RatPt { x, y: v[1] };
    let m1 = line_slope(p1, q1);
    let m2 = line_slope(p2, q2);
    if !(rat_in_range(rat_sub(q1.y, p1.y)) && rat_in_range(rat_sub(q1.x, p1.x)) && rat_in_range(m1)
        && rat_in_range(rat_sub(q2.y, p2.y)) && rat_in_range(rat_sub(q2.x, p2.x)) && rat_in_range(
        m2,
    )) {
        None
    } else if rat_eq(m1, m2) {
        Some(Seq::empty())
    } else if !intersect_ok(p1, q1, p2, q2) {
        None
    } else {
        let ix = intersect_x(p1, q1, p2, q2);
        if rat_lt(px, ix) && rat_lt(ix, x) {
            Some(seq![RatPt { x: ix, y: interp(p1, q1, ix) }])
        } else {
            Some(Seq::empty())
        }
    }
}

/// The remaining breakpoints of the pairwise maximum, walking the joint
/// breakpoints in order with the previous joint breakpoint and leader.
pub open spec fn spec_max_from(items: Seq<(Rat, Seq<Rat>)>, px: Rat, pv: Seq<Rat>, pl: int) -> Option<
    Seq<RatPt>,
>
    decreases items.len(),
{
    if items.len() == 0 {
        Some(Seq::empty())
    } else {
        let x = items[0].0;
        let v = items[0].1;
        let ld = argmax2(v[0], v[1]);
        let ins = if ld != pl {
            max_step(px, pv, x, v)
        } else {
            Some(Seq::empty())
        };
        match ins {
            None => None,
            Some(ipts) => match spec_max_from(items.drop_first(), x, v, ld) {
                None => None,
                Some(rest) => Some(ipts + seq![RatPt { x, y: v[ld] }] + rest),
            },
        }
    }
}

/// The breakpoints of the pairwise maximum over a merged joint-breakpoint
/// sequence.
pub open spec fn spec_max_items(items: Seq<(Rat, Seq<Rat>)>) -> Option<Seq<RatPt>> {
    let x0 = items[0].0;
    let v0 = items[0].1;
    let l0 = argmax2(v0[0], v0[1]);
    match spec_max_from(items.drop_first(), x0, v0, l0) {
        None => None,
        Some(rest) => Some(seq![RatPt { x: x0, y: v0[l0] }] + rest),
    }
}

/// The pairwise maximum of two functions, or `None` when the merge or the
/// crossing computation meets an unrepresentable intermediate fraction.
pub open spec fn spec_max2(f: Seq<RatPt>, g: Seq<RatPt>) -> Option<Seq<RatPt>> {
    match merge2(f, g) {
        None => None,
        Some(items) => spec_max_items(items),
    }
}

/// The pairwise minimum: the negated maximum of the negated inputs.
pub open spec fn spec_min2(f: Seq<RatPt>, g: Seq<RatPt>) -> Option<Seq<RatPt>> {
    match spec_max2(spec_negate(f), spec_negate(g)) {
        None => None,
        Some(m) => Some(spec_negate(m)),
    }
}

impl PiecewiseLinearFunction {
    /// Returns a new piecewise linear function that is the maximum of `self`
    /// and `other`.
    ///
    /// At each joint breakpoint the larger value is kept; when the leader
    /// changes between two consecutive joint breakpoints, the crossing point
    /// of the two candidate lines is inserted, but only when it lies strictly
    /// between them. Returns `None` exactly when the domains differ or an
    /// intermediate fraction is not representable.
    #[verifier::rlimit(100)]
    pub fn max(&self, other: &PiecewiseLinearFunction) -> (r: Option<PiecewiseLinearFunction>)
        requires
            self.wf(),
            other.wf(),
        ensures
            r is Some <==> dom_eq(self@, other@) && spec_max2(self@, other@) is Some,
            r matches Some(h) ==> h.wf() && h@ == spec_max2(self@, other@).unwrap(),
    {
        let mut it = match self.points_of_inflection_iter(other) {
            Some(it) => it,
            None => {
                return None;
            },
        };
        let ghost fss0 = it.rems();
        let items = match collect_all(&mut it) {
            Some(v) => v,
            None => {
                return None;
            },
        };
        let ghost iv = items_view(items@);
        proof {
            lemma_valid_coords_wf(self.coordinates@);
            lemma_valid_coords_wf(other.coordinates@);
            assert(rems_wf(fss0));
            assert(has_active(fss0)) by {
                assert(cursor_active(fss0[0]));
            }
            assert(iv.len() >= 2) by {
                let rest = merge_from(fss0).unwrap();
                assert(rest.len() >= 1);
                assert(iv == seq![first_point(fss0)] + rest);
            }
            assert(forall|i: int|
                0 <= i < fss0.len() ==> rat_eq((#[trigger] fss0[i])[0].x, fss0[0][0].x));
            lemma_merge_all_sorted(fss0, iv);
        }
        let n = items.len();
        proof {
            assert(items@[0].1@.len() == 2);
            assert(iv[0] == (items@[0].0@, vals_view(items@[0].1@)));
        }
        let mut coordinates: Vec<Coord> = Vec::new();
        let mut prev_x = items[0].0;
        let mut prev_v0 = items[0].1[0];
        let mut prev_v1 = items[0].1[1];
        let first_ld: usize = if frac_le(&items[0].1[1], &items[0].1[0]) {
            0
        } else {
            1
        };
        let mut prev_ld = first_ld;
        coordinates.push(
            Coord {
                x: prev_x,
                y: if first_ld == 0 {
                    prev_v0
                } else {
                    prev_v1
                },
            },
        );
        proof {
            assert(prev_ld as int == argmax2(iv[0].1[0], iv[0].1[1]));
            assert(coords_view(coordinates@) =~= seq![
                RatPt { x: iv[0].0, y: iv[0].1[argmax2(iv[0].1[0], iv[0].1[1])] },
            ]);
            assert(iv.drop_first() =~= iv.skip(1));
            if spec_max_from(iv.skip(1), iv[0].0, iv[0].1, prev_ld as int) is Some {
                let rest = spec_max_from(iv.skip(1), iv[0].0, iv[0].1, prev_ld as int).unwrap();
                assert(seq![RatPt { x: iv[0].0, y: iv[0].1[argmax2(iv[0].1[0], iv[0].1[1])] }]
                    + rest =~= coords_view(coordinates@) + rest);
            }
        }
        let mut p: usize = 1;
        while p < n
            invariant
                self.wf(),
                other.wf(),
                dom_eq(self@, other@),
                merge2(self@, other@) == Some(iv),
                n == items@.len(),
                iv == items_view(items@),
                iv.len() == n,
                n >= 2,
                items_wf(items@, 2),
                forall|m: int| 0 <= m < iv.len() ==> rat_wf((#[trigger] iv[m]).0),
                forall|m: int| 0 <= m < iv.len() - 1 ==> rat_lt((#[trigger] iv[m]).0, iv[m + 1].0),
                1 <= p <= n,
                prev_x.wf(),
                prev_v0.wf(),
                prev_v1.wf(),
                prev_ld == 0 || prev_ld == 1,
                prev_x@ == iv[p - 1].0,
                prev_v0@ == iv[p - 1].1[0],
                prev_v1@ == iv[p - 1].1[1],
                prev_ld as int == argmax2(iv[p - 1].1[0], iv[p - 1].1[1]),
                coordinates@.len() >= p,
                forall|m: int| 0 <= m < coordinates@.len() ==> (#[trigger] coordinates@[m]).wf(),
                forall|m: int|
                    0 <= m < coordinates@.len() - 1 ==> rat_lt(
                        (#[trigger] coordinates@[m])@.x,
                        coordinates@[m + 1]@.x,
                    ),
                coordinates@[coordinates@.len() - 1]@.x == iv[p - 1].0,
                spec_max_items(iv) == (match spec_max_from(
                    iv.skip(p as int),
                    iv[p - 1].0,
                    iv[p - 1].1,
                    prev_ld as int,
                ) {
                    None => None::<Seq<RatPt>>,
                    Some(rest) => Some(coords_view(coordinates@) + rest),
                }),
            decreases n - p,
        {
            proof {
                assert(items@[p as int].1@.len() == 2);
                assert(iv[p as int] == (items@[p as int].0@, vals_view(items@[p as int].1@)));
                assert(iv.skip(p as int)[0] == iv[p as int]);
                assert(iv.skip(p as int).drop_first() =~= iv.skip(p as int + 1));
                assert(rat_lt(iv[p - 1].0, iv[p as int].0));
            }
            let x = items[p].0;
            let v0 = items[p].1[0];
            let v1 = items[p].1[1];
            let ld: usize = if frac_le(&v1, &v0) {
                0
            } else {
                1
            };
            proof {
                assert(ld as int == argmax2(iv[p as int].1[0], iv[p as int].1[1]));
            }
            let ghost pre = coords_view(coordinates@);
            let ghost spec_ins = if ld != prev_ld {
                max_step(iv[p - 1].0, iv[p - 1].1, iv[p as int].0, iv[p as int].1)
            } else {
                Some(Seq::<RatPt>::empty())
            };
            if ld != prev_ld {
                let l1 = Line::new(Coord { x: prev_x, y: prev_v0 }, Coord { x, y: v0 });
                let l2 = Line::new(Coord { x: prev_x, y: prev_v1 }, Coord { x, y: v1 });
                let dy1 = frac_sub(v0, prev_v0);
                let dx1 = frac_sub(x, prev_x);
                let dy2 = frac_sub(v1, prev_v1);
                let dx2 = frac_sub(x, prev_x);
                let m1 = match dy1 {
                    Some(a) => match dx1 {
                        Some(b) => frac_div(a, b),
                        None => None,
                    },
                    None => None,
                };
                let m2 = match dy2 {
                    Some(a) => match dx2 {
                        Some(b) => frac_div(a, b),
                        None => None,
                    },
                    None => None,
                };
                match (m1, m2) {
                    (Some(m1f), Some(m2f)) => {
                        if !frac_eq(&m1f, &m2f) {
                            match line_intersect(&l1, &l2) {
                                Some((xi, yi)) => {
                                    if frac_lt(&prev_x, &xi) && frac_lt(&xi, &x) {
                                        coordinates.push(Coord { x: xi, y: yi });
                                        proof {
                                            assert(spec_ins == Some(
                                                seq![RatPt { x: xi@, y: yi@ }],
                                            ));
                                            assert(coords_view(coordinates@) =~= pre + seq![
                                                RatPt { x: xi@, y: yi@ },
                                            ]);
                                        }
                                    } else {
                                        proof {
                                            assert(spec_ins == Some(Seq::<RatPt>::empty()));
                                        }
                                    }
                                },
                                None => {
                                    proof {
                                        assert(spec_ins is None);
                                        assert(spec_max_from(
                                            iv.skip(p as int),
                                            iv[p - 1].0,
                                            iv[p - 1].1,
                                            prev_ld as int,
                                        ) is None);
                                        assert(spec_max_items(iv) is None);
                                    }
                                    return None;
                                },
                            }
                        } else {
                            proof {
                                assert(spec_ins == Some(Seq::<RatPt>::empty()));
                            }
                        }
                    },
                    _ => {
                        proof {
                            assert(spec_ins is None);
                            assert(spec_max_from(
                                iv.skip(p as int),
                                iv[p - 1].0,
                                iv[p - 1].1,
                                prev_ld as int,
                            ) is None);
                            assert(spec_max_items(iv) is None);
                        }
                        return None;
                    },
                }
            }
            let ghost mid = coords_view(coordinates@);
            proof {
                assert(spec_ins == Some(mid.skip(pre.len() as int))) by {
                    assert(mid.skip(pre.len() as int) =~= spec_ins.unwrap());
                }
            }
            coordinates.push(
                Coord {
                    x,
                    y: if ld == 0 {
                        v0
                    } else {
                        v1
                    },
                },
            );
            proof {
                let pt = RatPt { x: iv[p as int].0, y: iv[p as int].1[ld as int] };
                assert(coords_view(coordinates@) =~= mid + seq![pt]);
                let tail = spec_max_from(
                    iv.skip(p as int + 1),
                    iv[p as int].0,
                    iv[p as int].1,
                    ld as int,
                );
                if tail is Some {
                    assert((pre + (spec_ins.unwrap() + seq![pt] + tail.unwrap())) =~= (
                    coords_view(coordinates@) + tail.unwrap()));
                }
            }
            prev_x = x;
            prev_v0 = v0;
            prev_v1 = v1;
            prev_ld = ld;
            p += 1;
        }
        proof {
            assert(iv.skip(n as int) =~= Seq::<(Rat, Seq<Rat>)>::empty());
            assert(coords_view(coordinates@) + Seq::<RatPt>::empty() =~= coords_view(
                coordinates@,
            ));
        }
        let h = PiecewiseLinearFunction { coordinates };
        proof {
            assert(valid_coords(h.coordinates@)) by {
                assert(h.coordinates@.len() >= 2);
                assert forall|m: int| 0 <= m < h.coordinates@.len() - 1 implies rat_lt(
                    (#[trigger] h.coordinates@[m])@.x,
                    h.coordinates@[m + 1]@.x,
                ) by {
                    assert(coords_view(h.coordinates@)[m] == h.coordinates@[m]@);
                }
            }
            assert(h@ == spec_max2(self@, other@).unwrap());
        }
        Some(h)
    }

    /// Computes the minimum of this function and `other`, as the negated
    /// maximum of the negated inputs.
    ///
    /// Returns `None` exactly when the domains differ or an intermediate
    /// fraction is not representable.
    pub fn min(&self, other: &PiecewiseLinearFunction) -> (r: Option<PiecewiseLinearFunction>)
        requires
            self.wf(),
            other.wf(),
        ensures
            r is Some <==> dom_eq(self@, other@) && spec_min2(self@, other@) is Some,
            r matches Some(h) ==> h.wf() && h@ == spec_min2(self@, other@).unwrap(),
    {
        let nf = self.negate();
        let ng = other.negate();
        proof {
            lemma_valid_coords_wf(self.coordinates@);
            lemma_valid_coords_wf(other.coordinates@);
            assert(dom_eq(nf@, ng@) == dom_eq(self@, other@)) by {
                assert(nf@[0].x == self@[0].x);
                assert(ng@[0].x == other@[0].x);
                assert(nf@[nf@.len() - 1].x == self@[self@.len() - 1].x);
                assert(ng@[ng@.len() - 1].x == other@[other@.len() - 1].x);
            }
        }
        match nf.max(&ng) {
            Some(m) => Some(m.negate()),
            None => None,
        }
    }

    /// Computes the absolute value of this function, as the maximum of the
    /// function and its negation.
    ///
    /// Returns `None` exactly when an intermediate fraction is not
    /// representable.
    pub fn abs(&self) -> (r: Option<PiecewiseLinearFunction>)
        requires
            self.wf(),
        ensures
            r is Some <==> spec_max2(self@, spec_negate(self@)) is Some,
            r matches Some(h) ==> h.wf() && h@ == spec_max2(self@, spec_negate(self@)).unwrap(),
    {
        let neg = self.negate();
        proof {
            lemma_valid_coords_wf(self.coordinates@);
            assert(dom_eq(self@, neg@)) by {
                assert(neg@[0].x == self@[0].x);
                assert(neg@[neg@.len() - 1].x == self@[self@.len() - 1].x);
            }
        }
        self.max(&neg)
    }
}

/// The minimum of two functions is the negated maximum of their negations.
/// This is the defining identity of [`spec_min2`], stated as a law: any
/// result that [`PiecewiseLinearFunction::min`] returns is the negation of
/// what [`PiecewiseLinearFunction::max`] returns on the negated inputs.
pub proof fn lemma_min_is_negated_max(f: Seq<RatPt>, g: Seq<RatPt>)
    ensures
        spec_min2(f, g) == (match spec_max2(spec_negate(f), spec_negate(g)) {
            None => None::<Seq<RatPt>>,
            Some(m) => Some(spec_negate(m)),
        }),
{
}

} // verus!
