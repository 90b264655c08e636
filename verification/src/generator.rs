//! The lattice distance generator: incremental state that, on each call,
//! produces the full batch of lattice points at the next smallest squared
//! distance from the origin not put out before.

use vstd::prelude::*;

use crate::orbit::{
    batch_view, dist2, expand_all, lemma_expand_all_dist, lemma_expand_all_push, orbit, pt_view,
    rep_dist2, rep_ok,
};

verus! {

/// The smaller of two integers.
pub open spec fn min2(a: int, b: int) -> int {
    if a < b {
        a
    } else {
        b
    }
}

/// The least among a starting value and every row's pending squared distance.
pub open spec fn frontier_min(rows: Seq<(u32, u32)>, alt: int) -> int
    decreases rows.len(),
{
    if rows.len() == 0 {
        alt
    } else {
        min2(rep_dist2(rows[0]), frontier_min(rows.drop_first(), alt))
    }
}

/// The least squared distance not yet put out: the least among the cursor's
/// diagonal-adjacent point (c, 0) and every row's pending candidate.
pub open spec fn state_min_d(rows: Seq<(u32, u32)>, c: int) -> int {
    frontier_min(rows, c * c)
}

/// Structural well-formedness: the cursor is at least 1, every row is a
/// pending octant candidate (y, x) with 1 <= x <= y < cursor, and row
/// y-levels strictly increase in queue order.
pub open spec fn rows_wf(rows: Seq<(u32, u32)>, c: int) -> bool {
    &&& 1 <= c
    &&& forall|i: int|
        0 <= i < rows.len() ==> {
            &&& 1 <= (#[trigger] rows[i]).1
            &&& rows[i].1 <= rows[i].0
            &&& (rows[i].0 as int) < c
        }
    &&& forall|i: int, j: int|
        0 <= i < j < rows.len() ==> (#[trigger] rows[i]).0 < (#[trigger] rows[j]).0
}

/// Whether some row is pending at level y.
pub open spec fn has_row(rows: Seq<(u32, u32)>, y: int) -> bool {
    exists|i: int| 0 <= i < rows.len() && (#[trigger] rows[i]).0 == y
}

/// An octant point: 1 <= y and 0 <= x <= y.
pub open spec fn octant_pt(y: int, x: int) -> bool {
    1 <= y && 0 <= x <= y
}

/// Whether the octant point (y, x) has already been put out: its level has
/// been opened and, if the level is still pending, the row has moved past x.
pub open spec fn state_emitted(rows: Seq<(u32, u32)>, c: int, y: int, x: int) -> bool {
    &&& octant_pt(y, x)
    &&& y < c
    &&& forall|i: int| 0 <= i < rows.len() && ((#[trigger] rows[i]).0 as int) == y ==> x < rows[i].1
}

/// The generator invariant: well-formed, and every point already put out
/// lies strictly below the pending minimum — for a pending row the point
/// just before its candidate, and for a finished level its diagonal point.
pub open spec fn state_inv(rows: Seq<(u32, u32)>, c: int) -> bool {
    &&& rows_wf(rows, c)
    &&& forall|i: int|
        0 <= i < rows.len() ==> ((#[trigger] rows[i]).0 as int) * (rows[i].0 as int) + ((
        rows[i].1 as int) - 1) * ((rows[i].1 as int) - 1) < state_min_d(rows, c)
    &&& forall|y: int|
        1 <= y < c && !(#[trigger] has_row(rows, y)) ==> 2 * y * y < state_min_d(rows, c)
}

/// The rows whose pending candidate lies exactly at m, in queue order.
pub open spec fn tied_rows(rows: Seq<(u32, u32)>, m: int) -> Seq<(u32, u32)>
    decreases rows.len(),
{
    if rows.len() == 0 {
        Seq::empty()
    } else {
        let rest = tied_rows(rows.drop_last(), m);
        if rep_dist2(rows.last()) == m {
            rest.push(rows.last())
        } else {
            rest
        }
    }
}

/// The representatives put out from a given state: the rows whose pending
/// candidate attains the minimum, in queue order, then the cursor's
/// diagonal-adjacent point when the cursor level ties.
pub open spec fn shell_reps(rows: Seq<(u32, u32)>, c: int) -> Seq<(u32, u32)> {
    tied_rows(rows, state_min_d(rows, c)) + if c * c == state_min_d(rows, c) {
        seq![((c as u32), 0u32)]
    } else {
        Seq::<(u32, u32)>::empty()
    }
}

/// A tied row advanced past its emitted candidate; rows away from the
/// minimum, and completed (diagonal) rows, are left as they are.
pub open spec fn advanced_row(r: (u32, u32), m: int) -> (u32, u32) {
    if rep_dist2(r) == m && r.1 < r.0 {
        (r.0, (r.1 + 1) as u32)
    } else {
        r
    }
}

/// Every row advanced against the minimum m, in order.
pub open spec fn advanced_rows(rows: Seq<(u32, u32)>, m: int) -> Seq<(u32, u32)> {
    rows.map_values(|r: (u32, u32)| advanced_row(r, m))
}

/// Whether some row's pending candidate ties the minimum on the diagonal,
/// completing its level this step.
pub open spec fn has_diag_tie(rows: Seq<(u32, u32)>, m: int) -> bool {
    exists|i: int|
        0 <= i < rows.len() && rep_dist2(#[trigger] rows[i]) == m && rows[i].1 == rows[i].0
}

/// The rows after one step: tied rows advanced, a completed front row
/// removed, and the cursor level opened at x = 1 when it ties the minimum.
pub open spec fn stepped_rows(rows: Seq<(u32, u32)>, c: int) -> Seq<(u32, u32)> {
    let m = state_min_d(rows, c);
    let adv = advanced_rows(rows, m);
    let kept = if has_diag_tie(rows, m) {
        adv.drop_first()
    } else {
        adv
    };
    if c * c == m {
        kept.push(((c as u32), 1u32))
    } else {
        kept
    }
}

/// The cursor after one step: moved past c exactly when level c was opened.
pub open spec fn stepped_cursor(rows: Seq<(u32, u32)>, c: int) -> int {
    if c * c == state_min_d(rows, c) {
        c + 1
    } else {
        c
    }
}

/// Twice a square, written either way.
proof fn lemma_two_sq(a: int)
    ensures
        2 * a * a == a * a + a * a,
{
    assert(2 * a * a == a * a + a * a) by (nonlinear_arith);
}

/// Squaring is strictly monotone on the nonnegative integers.
proof fn lemma_sq_lt(a: int, b: int)
    requires
        0 <= a < b,
    ensures
        a * a < b * b,
{
    assert(a * a < b * b) by (nonlinear_arith)
        requires
            0 <= a < b,
    ;
}

/// A square is never negative.
proof fn lemma_sq_nonneg(a: int)
    ensures
        a * a >= 0,
{
    assert(a * a >= 0) by (nonlinear_arith);
}

/// Squaring is monotone on the nonnegative integers.
proof fn lemma_sq_le(a: int, b: int)
    requires
        0 <= a <= b,
    ensures
        a * a <= b * b,
{
    assert(a * a <= b * b) by (nonlinear_arith)
        requires
            0 <= a <= b,
    ;
}

/// The frontier minimum bounds its starting value and every row from below.
proof fn lemma_frontier_min_le(rows: Seq<(u32, u32)>, alt: int)
    ensures
        frontier_min(rows, alt) <= alt,
        forall|i: int| 0 <= i < rows.len() ==> frontier_min(rows, alt) <= rep_dist2(#[trigger] rows[i]),
    decreases rows.len(),
{
    if rows.len() > 0 {
        lemma_frontier_min_le(rows.drop_first(), alt);
        assert forall|i: int|
            0 <= i < rows.len() implies frontier_min(rows, alt) <= rep_dist2(#[trigger] rows[i]) by {
            if i > 0 {
                assert(rows.drop_first()[i - 1] == rows[i]);
            }
        }
    }
}

/// The frontier minimum is attained: it equals the starting value or some
/// row's pending distance.
proof fn lemma_frontier_min_attained(rows: Seq<(u32, u32)>, alt: int)
    ensures
        frontier_min(rows, alt) == alt || exists|i: int|
            0 <= i < rows.len() && rep_dist2(#[trigger] rows[i]) == frontier_min(rows, alt),
    decreases rows.len(),
{
    if rows.len() > 0 {
        lemma_frontier_min_attained(rows.drop_first(), alt);
        if frontier_min(rows, alt) != alt {
            if rep_dist2(rows[0]) == frontier_min(rows, alt) {
            } else {
                let j = choose|j: int|
                    0 <= j < rows.drop_first().len() && rep_dist2(#[trigger] rows.drop_first()[j])
                        == frontier_min(rows.drop_first(), alt);
                assert(rows.drop_first()[j] == rows[j + 1]);
                assert(rep_dist2(rows[j + 1]) == frontier_min(rows, alt));
            }
        }
    }
}

/// A strict lower bound on the start and on every row bounds the minimum.
proof fn lemma_frontier_min_lb(rows: Seq<(u32, u32)>, alt: int, b: int)
    requires
        b < alt,
        forall|i: int| 0 <= i < rows.len() ==> b < rep_dist2(#[trigger] rows[i]),
    ensures
        b < frontier_min(rows, alt),
    decreases rows.len(),
{
    if rows.len() > 0 {
        assert forall|i: int|
            0 <= i < rows.drop_first().len() implies b < rep_dist2(
            #[trigger] rows.drop_first()[i],
        ) by {
            assert(rows.drop_first()[i] == rows[i + 1]);
        }
        lemma_frontier_min_lb(rows.drop_first(), alt, b);
    }
}

/// Appending a row at the back folds its distance into the minimum.
proof fn lemma_frontier_min_push(rows: Seq<(u32, u32)>, alt: int, r: (u32, u32))
    ensures
        frontier_min(rows.push(r), alt) == min2(frontier_min(rows, alt), rep_dist2(r)),
    decreases rows.len(),
{
    if rows.len() == 0 {
        assert(rows.push(r).drop_first() =~= rows);
        assert(rows.push(r)[0] == r);
    } else {
        lemma_frontier_min_push(rows.drop_first(), alt, r);
        assert(rows.push(r).drop_first() =~= rows.drop_first().push(r));
        assert(rows.push(r)[0] == rows[0]);
    }
}

/// The frontier invariant: a tied row whose candidate sits on the diagonal
/// is the front row.
proof fn lemma_diag_tie_front(rows: Seq<(u32, u32)>, c: int, t: int)
    requires
        rows_wf(rows, c),
        0 <= t < rows.len(),
        rows[t].1 == rows[t].0,
        rep_dist2(rows[t]) <= state_min_d(rows, c),
    ensures
        t == 0,
{
    if t > 0 {
        lemma_frontier_min_le(rows, c * c);
        let y0 = rows[0].0 as int;
        let x0 = rows[0].1 as int;
        let yt = rows[t].0 as int;
        assert(rep_dist2(rows[0]) >= state_min_d(rows, c));
        lemma_two_sq(yt);
        assert(rep_dist2(rows[t]) == 2 * yt * yt);
        assert(y0 < yt);
        lemma_sq_lt(y0, yt);
        assert(x0 * x0 <= y0 * y0) by (nonlinear_arith)
            requires
                0 <= x0 <= y0,
        ;
        assert(x0 * x0 + y0 * y0 >= 2 * yt * yt);
        assert(false);
    }
}

/// How the rows after one step line up, index by index, with the rows
/// before it: a completed front row gone, every survivor advanced, and the
/// cursor row appended on a tie.
proof fn lemma_step_frame(rows: Seq<(u32, u32)>, c: int)
    requires
        state_inv(rows, c),
        1 <= c < 0x8000_0000,
    ensures
        ({
            let m = state_min_d(rows, c);
            let dropn: int = if has_diag_tie(rows, m) {
                1
            } else {
                0
            };
            let rows1 = stepped_rows(rows, c);
            &&& rows1.len() == rows.len() - dropn + (if c * c == m {
                1int
            } else {
                0int
            })
            &&& forall|k: int|
                0 <= k < rows.len() - dropn ==> #[trigger] rows1[k] == advanced_row(
                    rows[k + dropn],
                    m,
                )
            &&& (c * c == m ==> rows1[rows.len() - dropn] == ((c as u32), 1u32))
            &&& (dropn == 1 ==> rows.len() >= 1 && rows[0].1 == rows[0].0 && rep_dist2(rows[0])
                == m)
            &&& m <= c * c
            &&& forall|i: int| 0 <= i < rows.len() ==> m <= rep_dist2(#[trigger] rows[i])
        }),
{
    let m = state_min_d(rows, c);
    let adv = advanced_rows(rows, m);
    lemma_frontier_min_le(rows, c * c);
    assert(adv.len() == rows.len());
    assert(forall|i: int| 0 <= i < rows.len() ==> #[trigger] adv[i] == advanced_row(rows[i], m));
    if has_diag_tie(rows, m) {
        let t = choose|t: int|
            0 <= t < rows.len() && rep_dist2(#[trigger] rows[t]) == m && rows[t].1 == rows[t].0;
        lemma_diag_tie_front(rows, c, t);
    }
}

/// One step keeps the generator invariant and strictly raises the pending
/// minimum, so no squared distance is ever put out twice.
proof fn lemma_step_inv(rows: Seq<(u32, u32)>, c: int)
    requires
        state_inv(rows, c),
        1 <= c < 0x8000_0000,
    ensures
        state_inv(stepped_rows(rows, c), stepped_cursor(rows, c)),
        state_min_d(stepped_rows(rows, c), stepped_cursor(rows, c)) > state_min_d(rows, c),
{
    let m = state_min_d(rows, c);
    let n = rows.len() as int;
    let dropn: int = if has_diag_tie(rows, m) {
        1
    } else {
        0
    };
    let rows1 = stepped_rows(rows, c);
    let c1 = stepped_cursor(rows, c);
    lemma_step_frame(rows, c);

    // no surviving row ties the minimum on the diagonal
    assert forall|k: int| 0 <= k < n - dropn implies !(rep_dist2(#[trigger] rows[k + dropn]) == m
        && rows[k + dropn].1 == rows[k + dropn].0) by {
        if rep_dist2(rows[k + dropn]) == m && rows[k + dropn].1 == rows[k + dropn].0 {
            assert(has_diag_tie(rows, m));
            lemma_diag_tie_front(rows, c, k + dropn);
            assert(false);
        }
    }
    assert(rows_wf(rows1, c1)) by {
        assert forall|k: int| 0 <= k < rows1.len() implies 1 <= (#[trigger] rows1[k]).1
            && rows1[k].1 <= rows1[k].0 && (rows1[k].0 as int) < c1 by {
            if k < n - dropn {
                assert(rows1[k] == advanced_row(rows[k + dropn], m));
            }
        }
        assert forall|k1: int, k2: int|
            0 <= k1 < k2 < rows1.len() implies (#[trigger] rows1[k1]).0 < (
        #[trigger] rows1[k2]).0 by {
            if k2 < n - dropn {
                assert(rows[k1 + dropn].0 < rows[k2 + dropn].0);
            } else {
                assert((rows1[k1].0 as int) < c);
            }
        }
    }
    // every pending candidate now lies strictly above the old minimum
    assert forall|k: int| 0 <= k < rows1.len() implies rep_dist2(#[trigger] rows1[k]) > m by {
        if k < n - dropn {
            let r = rows[k + dropn];
            assert(rows1[k] == advanced_row(r, m));
            if rep_dist2(r) == m && r.1 < r.0 {
                lemma_sq_lt(r.1 as int, r.1 as int + 1);
                assert((rows1[k].1 as int) == r.1 as int + 1);
                assert((rows1[k].0 as int) == r.0 as int);
                assert(rep_dist2(rows1[k]) > rep_dist2(r));
            } else if rep_dist2(r) == m {
                assert(false);
            } else {
                assert(rows1[k] == r);
                assert(rep_dist2(r) >= m);
            }
        } else {
            assert(c * c == m);
            assert(rows1[k] == ((c as u32), 1u32));
            assert((rows1[k].0 as int) == c);
            assert((rows1[k].1 as int) == 1);
            assert((rows1[k].1 as int) * (rows1[k].1 as int) == 1) by (nonlinear_arith)
                requires
                    (rows1[k].1 as int) == 1,
            ;
            assert(rep_dist2(rows1[k]) == c * c + 1);
        }
    }
    assert(m < c1 * c1) by {
        if c * c == m {
            lemma_sq_lt(c, c + 1);
        }
    }
    lemma_frontier_min_lb(rows1, c1 * c1, m);
    let m1 = state_min_d(rows1, c1);

    // everything put out at a still-open level lies below the new minimum
    assert forall|k: int|
        0 <= k < rows1.len() implies ((#[trigger] rows1[k]).0 as int) * (rows1[k].0 as int) + ((
    rows1[k].1 as int) - 1) * ((rows1[k].1 as int) - 1) < m1 by {
        if k < n - dropn {
            let r = rows[k + dropn];
            assert(rows1[k] == advanced_row(r, m));
            if rep_dist2(r) == m && r.1 < r.0 {
                assert(((rows1[k].1 as int) - 1) == r.1 as int);
                assert((rows1[k].0 as int) * (rows1[k].0 as int) + ((rows1[k].1 as int) - 1) * ((
                rows1[k].1 as int) - 1) == rep_dist2(r));
                assert(rep_dist2(r) < m1);
            } else {
                assert(rows1[k] == r);
                assert((rows1[k].0 as int) * (rows1[k].0 as int) + ((rows1[k].1 as int) - 1) * ((
                rows1[k].1 as int) - 1) < m1);
            }
        } else {
            assert(c * c == m);
            assert(rows1[k] == ((c as u32), 1u32));
            assert((c as u32) as int == c);
            assert((rows1[k].0 as int) == c);
            assert((rows1[k].1 as int) - 1 == 0);
            assert(((rows1[k].1 as int) - 1) * ((rows1[k].1 as int) - 1) == 0) by (nonlinear_arith)
                requires
                    (rows1[k].1 as int) - 1 == 0,
            ;
            assert((rows1[k].0 as int) * (rows1[k].0 as int) + ((rows1[k].1 as int) - 1) * ((
            rows1[k].1 as int) - 1) == c * c);
        }
    }
    // every finished level lies below the new minimum
    assert forall|y: int| 1 <= y < c1 && !(#[trigger] has_row(rows1, y)) implies 2 * y * y
        < m1 by {
        if y == c {
            assert((rows1[n - dropn].0 as int) == y);
            assert(has_row(rows1, y));
            assert(false);
        } else {
            assert(y < c);
            if has_row(rows, y) {
                let i = choose|i: int| 0 <= i < rows.len() && (#[trigger] rows[i]).0 == y;
                if i >= dropn {
                    assert(rows1[i - dropn] == advanced_row(rows[i], m));
                    assert((rows1[i - dropn].0 as int) == y);
                    assert(has_row(rows1, y));
                    assert(false);
                } else {
                    assert(rows[0].1 == rows[0].0);
                    lemma_two_sq(rows[0].0 as int);
                    assert(2 * y * y == rep_dist2(rows[0]));
                }
            }
        }
    }
    assert(state_inv(rows1, c1));
}

/// One step puts out exactly the octant points at the old pending minimum:
/// afterwards a point counts as emitted precisely when it already did or
/// its squared distance is that minimum.
#[verifier::rlimit(50)]
proof fn lemma_step_emitted(rows: Seq<(u32, u32)>, c: int)
    requires
        state_inv(rows, c),
        1 <= c < 0x8000_0000,
    ensures
        forall|y: int, x: int|
            state_emitted(stepped_rows(rows, c), stepped_cursor(rows, c), y, x) <==> (
            state_emitted(rows, c, y, x) || (octant_pt(y, x) && y * y + x * x == state_min_d(
                rows,
                c,
            ))),
{
    let m = state_min_d(rows, c);
    let n = rows.len() as int;
    let dropn: int = if has_diag_tie(rows, m) {
        1
    } else {
        0
    };
    let rows1 = stepped_rows(rows, c);
    let c1 = stepped_cursor(rows, c);
    lemma_step_frame(rows, c);
    lemma_step_inv(rows, c);
    lemma_frontier_min_le(rows1, c1 * c1);
    assert(c1 * c1 > m);

    // y-levels are pairwise distinct along the queue
    assert forall|i: int, j: int|
        0 <= i < n && 0 <= j < n && i != j implies (#[trigger] rows[i]).0 != (
    #[trigger] rows[j]).0 by {
        if i < j {
            assert(rows[i].0 < rows[j].0);
        } else {
            assert(rows[j].0 < rows[i].0);
        }
    }
    assert forall|y: int, x: int|
        state_emitted(rows1, c1, y, x) <==> (state_emitted(rows, c, y, x) || (octant_pt(y, x) && y
            * y + x * x == m)) by {
        if octant_pt(y, x) {
            lemma_sq_nonneg(x);
            lemma_sq_nonneg(y);
            if y >= c1 {
                assert(!state_emitted(rows1, c1, y, x));
                assert(!state_emitted(rows, c, y, x));
                lemma_sq_le(c1, y);
                assert(y * y + x * x > m);
            } else if y == c {
                // the cursor level was opened this step: its only row is (c, 1)
                assert(c < c1);
                assert(c * c == m);
                assert forall|k: int|
                    0 <= k < rows1.len() && ((#[trigger] rows1[k]).0 as int) == y implies
                    rows1[k].1 == 1 by {
                    if k < n - dropn {
                        assert(rows1[k] == advanced_row(rows[k + dropn], m));
                        assert((rows[k + dropn].0 as int) < c);
                        assert(false);
                    } else {
                        assert(rows1[k] == ((c as u32), 1u32));
                    }
                }
                assert(!state_emitted(rows, c, y, x));
                if x == 0 {
                    assert(state_emitted(rows1, c1, y, x));
                    assert(((rows1[n - dropn].1 as int) - 1) * (((rows1[n - dropn].1 as int)) - 1)
                        == 0) by (nonlinear_arith)
                        requires
                            rows1[n - dropn].1 == 1u32,
                    ;
                    assert(y * y + x * x == m) by (nonlinear_arith)
                        requires
                            x == 0,
                            y == c,
                            c * c == m,
                    ;
                } else {
                    assert(x * x > 0) by (nonlinear_arith)
                        requires
                            x >= 1,
                    ;
                    assert(y * y + x * x != m);
                    assert((rows1[n - dropn].0 as int) == y);
                    assert(!(x < rows1[n - dropn].1));
                    assert(!state_emitted(rows1, c1, y, x));
                }
            } else {
                // y < c: a level already opened before this step
                assert(y < c && y < c1);
                if has_row(rows, y) {
                    let i = choose|i: int| 0 <= i < rows.len() && (#[trigger] rows[i]).0 == y;
                    let yr = rows[i].0 as int;
                    let xr = rows[i].1 as int;
                    assert(yr == y);
                    // the only possible survivor at this level is row i's copy
                    assert forall|k: int|
                        0 <= k < rows1.len() && ((#[trigger] rows1[k]).0 as int) == y implies dropn
                        <= i && k == i - dropn && rows1[k] == advanced_row(rows[i], m) by {
                        if k < n - dropn {
                            assert(rows1[k] == advanced_row(rows[k + dropn], m));
                            assert((rows[k + dropn].0 as int) == y);
                            assert(k + dropn == i);
                        } else {
                            assert(rows1[k] == ((c as u32), 1u32));
                            assert(false);
                        }
                    }
                    // before the step, emitted at this level means x < xr
                    if state_emitted(rows, c, y, x) {
                        assert(x < rows[i].1);
                    }
                    if rep_dist2(rows[i]) == m {
                        if xr < yr {
                            // tied interior row: advanced to (y, xr + 1)
                            assert(dropn <= i) by {
                                if dropn == 1 && i == 0 {
                                    assert(rows[0].1 == rows[0].0);
                                    assert(false);
                                }
                            }
                            assert(rows1[i - dropn] == advanced_row(rows[i], m));
                            assert((rows1[i - dropn].1 as int) == xr + 1);
                            assert((rows1[i - dropn].0 as int) == y);
                            if x <= xr {
                                assert forall|k: int|
                                    0 <= k < rows1.len() && ((#[trigger] rows1[k]).0 as int) == y
                                    implies x < rows1[k].1 by {}
                                assert(state_emitted(rows1, c1, y, x));
                            } else {
                                assert(!(x < rows1[i - dropn].1));
                                assert(!state_emitted(rows1, c1, y, x));
                            }
                            if x < xr {
                                assert(state_emitted(rows, c, y, x)) by {
                                    assert forall|k: int|
                                        0 <= k < rows.len() && ((#[trigger] rows[k]).0 as int) == y
                                        implies x < rows[k].1 by {
                                        assert(k == i);
                                    }
                                }
                            }
                            if x == xr {
                                assert(y * y + x * x == m);
                            }
                            if x < xr {
                                lemma_sq_lt(x, xr);
                                assert(y * y + x * x != m);
                            }
                            if x > xr {
                                lemma_sq_lt(xr, x);
                                assert(y * y + x * x != m);
                                assert(!state_emitted(rows, c, y, x));
                            }
                        } else {
                            // tied diagonal row: the level completed this step
                            assert(rows[i].1 == rows[i].0);
                            assert(has_diag_tie(rows, m));
                            assert(dropn == 1);
                            lemma_diag_tie_front(rows, c, i);
                            assert(i == 0);
                            assert forall|k: int|
                                0 <= k < rows1.len() implies ((#[trigger] rows1[k]).0 as int)
                                != y by {}
                            assert(state_emitted(rows1, c1, y, x));
                            lemma_two_sq(yr);
                            assert(rep_dist2(rows[i]) == 2 * yr * yr);
                            if x == yr {
                                assert(y * y + x * x == m);
                            } else {
                                assert(x < yr);
                                lemma_sq_lt(x, yr);
                                assert(state_emitted(rows, c, y, x)) by {
                                    assert forall|k: int|
                                        0 <= k < rows.len() && ((#[trigger] rows[k]).0 as int) == y
                                        implies x < rows[k].1 by {
                                        assert(k == i);
                                    }
                                }
                            }
                        }
                    } else {
                        // a level away from the minimum: untouched, nothing new
                        assert(m <= rep_dist2(rows[i]));
                        assert(m < rep_dist2(rows[i]));
                        assert(dropn <= i) by {
                            if dropn == 1 && i == 0 {
                                assert(rep_dist2(rows[0]) == m);
                                assert(false);
                            }
                        }
                        assert(rows1[i - dropn] == advanced_row(rows[i], m));
                        assert(rows1[i - dropn] == rows[i]);
                        if x < xr {
                            assert forall|k: int|
                                0 <= k < rows1.len() && ((#[trigger] rows1[k]).0 as int) == y
                                implies x < rows1[k].1 by {}
                            assert(state_emitted(rows1, c1, y, x));
                            assert forall|k: int|
                                0 <= k < rows.len() && ((#[trigger] rows[k]).0 as int) == y
                                implies x < rows[k].1 by {
                                assert(k == i);
                            }
                            assert(state_emitted(rows, c, y, x));
                            // below the row's last emitted point, hence below m
                            assert((yr) * (yr) + (xr - 1) * (xr - 1) < m);
                            lemma_sq_le(x, xr - 1);
                            assert(y * y + x * x != m);
                        } else {
                            assert(!(x < rows1[i - dropn].1));
                            assert(!state_emitted(rows1, c1, y, x));
                            assert(!state_emitted(rows, c, y, x));
                            if x == xr {
                                assert(y * y + x * x != m);
                            } else {
                                assert(x > xr);
                                lemma_sq_lt(xr, x);
                                assert(y * y + x * x > rep_dist2(rows[i]));
                                assert(y * y + x * x != m);
                            }
                        }
                    }
                } else {
                    // a finished level: everything on it is out and below m
                    assert(state_emitted(rows, c, y, x));
                    assert(2 * y * y < m);
                    lemma_sq_le(x, y);
                    lemma_two_sq(y);
                    assert(y * y + x * x != m);
                    assert forall|k: int|
                        0 <= k < rows1.len() implies ((#[trigger] rows1[k]).0 as int) != y by {
                        if k < n - dropn {
                            assert(rows1[k] == advanced_row(rows[k + dropn], m));
                            if (rows[k + dropn].0 as int) == y {
                                assert(has_row(rows, y));
                                assert(false);
                            }
                        } else {
                            assert(rows1[k] == ((c as u32), 1u32));
                        }
                    }
                    assert(state_emitted(rows1, c1, y, x));
                }
            }
        } else {
            assert(!state_emitted(rows1, c1, y, x));
            assert(!state_emitted(rows, c, y, x));
        }
    }
}

/// Every tied row lies at m and comes from the rows it was taken from.
proof fn lemma_tied_rows_pred(rows: Seq<(u32, u32)>, m: int)
    ensures
        forall|t: int|
            0 <= t < tied_rows(rows, m).len() ==> rep_dist2(#[trigger] tied_rows(rows, m)[t]) == m,
        forall|t: int|
            0 <= t < tied_rows(rows, m).len() ==> rows.contains(#[trigger] tied_rows(rows, m)[t]),
    decreases rows.len(),
{
    if rows.len() > 0 {
        lemma_tied_rows_pred(rows.drop_last(), m);
        assert forall|t: int|
            0 <= t < tied_rows(rows, m).len() implies rows.contains(
            #[trigger] tied_rows(rows, m)[t],
        ) by {
            let r = tied_rows(rows, m)[t];
            if t < tied_rows(rows.drop_last(), m).len() {
                assert(rows.drop_last().contains(r));
                let i = choose|i: int| 0 <= i < rows.drop_last().len() && rows.drop_last()[i] == r;
                assert(rows[i] == r);
            } else {
                assert(r == rows.last());
                assert(rows[rows.len() - 1] == r);
            }
        }
    }
}

/// A row lying exactly at m is among the tied rows.
proof fn lemma_tied_rows_contains(rows: Seq<(u32, u32)>, m: int, i: int)
    requires
        0 <= i < rows.len(),
        rep_dist2(rows[i]) == m,
    ensures
        tied_rows(rows, m).contains(rows[i]),
    decreases rows.len(),
{
    if i == rows.len() - 1 {
        let f = tied_rows(rows, m);
        assert(f[f.len() - 1] == rows[i]);
    } else {
        lemma_tied_rows_contains(rows.drop_last(), m, i);
        assert(rows.drop_last()[i] == rows[i]);
        let rest = tied_rows(rows.drop_last(), m);
        let t = choose|t: int| 0 <= t < rest.len() && rest[t] == rows[i];
        assert(tied_rows(rows, m)[t] == rows[i]);
    }
}

/// Taking one more row at the back keeps or extends the tied rows.
proof fn lemma_tied_rows_push(rows: Seq<(u32, u32)>, m: int, r: (u32, u32))
    ensures
        tied_rows(rows.push(r), m) == if rep_dist2(r) == m {
            tied_rows(rows, m).push(r)
        } else {
            tied_rows(rows, m)
        },
{
    assert(rows.push(r).drop_last() =~= rows);
    assert(rows.push(r).last() == r);
}

/// Soundness of the shell: every representative put out lies exactly at the
/// pending minimum, is a valid octant representative, and sits at or below
/// the cursor level.
proof fn lemma_shell_reps_ok(rows: Seq<(u32, u32)>, c: int)
    requires
        rows_wf(rows, c),
        1 <= c < 0x8000_0000,
    ensures
        forall|t: int|
            0 <= t < shell_reps(rows, c).len() ==> {
                let r = #[trigger] shell_reps(rows, c)[t];
                &&& rep_dist2(r) == state_min_d(rows, c)
                &&& rep_ok(r)
                &&& (r.0 as int) <= c
            },
{
    let m = state_min_d(rows, c);
    let f = tied_rows(rows, m);
    lemma_tied_rows_pred(rows, m);
    lemma_frontier_min_le(rows, c * c);
    assert forall|t: int|
        0 <= t < shell_reps(rows, c).len() implies {
        let r = #[trigger] shell_reps(rows, c)[t];
        &&& rep_dist2(r) == state_min_d(rows, c)
        &&& rep_ok(r)
        &&& (r.0 as int) <= c
    } by {
        if t < f.len() {
            assert(shell_reps(rows, c)[t] == f[t]);
            assert(rows.contains(f[t]));
            let j = choose|j: int| 0 <= j < rows.len() && rows[j] == f[t];
            assert(1 <= rows[j].1);
        } else {
            assert(c * c == m);
            assert(shell_reps(rows, c)[t] == ((c as u32), 0u32));
            assert((c as u32) as int == c);
            assert((0u32 as int) * (0u32 as int) == 0) by (nonlinear_arith);
            assert(rep_dist2(((c as u32), 0u32)) == c * c);
        }
    }
}

/// Completeness of the shell: every octant representative lying exactly at
/// the pending minimum is among the representatives put out.
proof fn lemma_shell_reps_complete(rows: Seq<(u32, u32)>, c: int, r: (u32, u32))
    requires
        state_inv(rows, c),
        1 <= c < 0x8000_0000,
        rep_ok(r),
        rep_dist2(r) == state_min_d(rows, c),
    ensures
        shell_reps(rows, c).contains(r),
{
    let m = state_min_d(rows, c);
    let f = tied_rows(rows, m);
    let y = r.0 as int;
    let x = r.1 as int;
    lemma_frontier_min_le(rows, c * c);
    lemma_sq_nonneg(x);
    if y < c {
        if has_row(rows, y) {
            let i = choose|i: int| 0 <= i < rows.len() && (#[trigger] rows[i]).0 == y;
            let xr = rows[i].1 as int;
            if x < xr {
                assert((rows[i].0 as int) * (rows[i].0 as int) + (xr - 1) * (xr - 1) < m);
                lemma_sq_le(x, xr - 1);
                assert(false);
            }
            if x > xr {
                lemma_sq_lt(xr, x);
                assert(rep_dist2(r) > rep_dist2(rows[i]));
                assert(false);
            }
            assert(r == rows[i]);
            lemma_tied_rows_contains(rows, m, i);
            let t = choose|t: int| 0 <= t < f.len() && f[t] == r;
            assert(shell_reps(rows, c)[t] == r);
            assert(shell_reps(rows, c).contains(r));
        } else {
            assert(2 * y * y < m);
            lemma_sq_le(x, y);
            lemma_two_sq(y);
            assert(false);
        }
    } else if y == c {
        if x >= 1 {
            assert(x * x > 0) by (nonlinear_arith)
                requires
                    x >= 1,
            ;
            assert(rep_dist2(r) > c * c);
            assert(false);
        }
        assert(x == 0);
        assert((0u32 as int) * (0u32 as int) == 0) by (nonlinear_arith);
        assert(rep_dist2(r) == c * c);
        assert(c * c == m);
        assert(r == ((c as u32), 0u32));
        assert(shell_reps(rows, c)[f.len() as int] == r);
        assert(shell_reps(rows, c).contains(r));
    } else {
        lemma_sq_le(c + 1, y);
        lemma_sq_lt(c, c + 1);
        assert(rep_dist2(r) >= y * y);
        assert(false);
    }
}

/// The shell is never empty: each step puts out at least one representative.
proof fn lemma_shell_reps_nonempty(rows: Seq<(u32, u32)>, c: int)
    requires
        rows_wf(rows, c),
        1 <= c < 0x8000_0000,
    ensures
        shell_reps(rows, c).len() >= 1,
{
    let m = state_min_d(rows, c);
    lemma_frontier_min_attained(rows, c * c);
    if m == c * c {
    } else {
        let i = choose|i: int|
            0 <= i < rows.len() && rep_dist2(#[trigger] rows[i]) == frontier_min(rows, c * c);
        lemma_tied_rows_contains(rows, m, i);
        let t = choose|t: int|
            0 <= t < tied_rows(rows, m).len() && tied_rows(rows, m)[t] == rows[i];
        assert(shell_reps(rows, c)[t] == rows[i]);
    }
}

/// Completeness below the frontier: once the pending minimum has passed an
/// octant point's squared distance, that point has been put out. Since the
/// minimum strictly grows with every step, every octant point is reached
/// after finitely many batches.
pub proof fn lemma_emitted_below_frontier(rows: Seq<(u32, u32)>, c: int, y: int, x: int)
    requires
        state_inv(rows, c),
        octant_pt(y, x),
        y * y + x * x < state_min_d(rows, c),
    ensures
        state_emitted(rows, c, y, x),
{
    lemma_frontier_min_le(rows, c * c);
    lemma_sq_nonneg(x);
    if y >= c {
        lemma_sq_le(c, y);
        assert(false);
    }
    assert forall|i: int|
        0 <= i < rows.len() && ((#[trigger] rows[i]).0 as int) == y implies x < rows[i].1 by {
        if !(x < rows[i].1) {
            lemma_sq_le(rows[i].1 as int, x);
            assert(y * y + x * x >= rep_dist2(rows[i]));
            assert(false);
        }
    }
}

/// Completeness for a square window: once the pending minimum has grown past
/// the largest squared distance in the quadrant [0, l) x [0, l), every octant
/// point of that quadrant has been put out. Each step raises the minimum by
/// at least 1 from its starting value 1, so finitely many batches reach any
/// such window.
pub proof fn lemma_quadrant_complete(rows: Seq<(u32, u32)>, c: int, l: int, y: int, x: int)
    requires
        state_inv(rows, c),
        1 <= l,
        (l - 1) * (l - 1) + (l - 1) * (l - 1) < state_min_d(rows, c),
        octant_pt(y, x),
        y < l,
    ensures
        state_emitted(rows, c, y, x),
{
    lemma_sq_le(x, l - 1);
    lemma_sq_le(y, l - 1);
    lemma_emitted_below_frontier(rows, c, y, x);
}

/// The shell, exactly: an octant representative is put out by a step
/// precisely when its squared distance is the pending minimum. With the
/// strict growth of that minimum across steps, each representative is put
/// out exactly once.
pub proof fn lemma_shell_membership(rows: Seq<(u32, u32)>, c: int, r: (u32, u32))
    requires
        state_inv(rows, c),
        1 <= c < 0x8000_0000,
        rep_ok(r),
    ensures
        shell_reps(rows, c).contains(r) <==> rep_dist2(r) == state_min_d(rows, c),
{
    if rep_dist2(r) == state_min_d(rows, c) {
        lemma_shell_reps_complete(rows, c, r);
    }
    if shell_reps(rows, c).contains(r) {
        lemma_shell_reps_ok(rows, c);
        let t = choose|t: int| 0 <= t < shell_reps(rows, c).len() && shell_reps(rows, c)[t] == r;
        assert(rep_dist2(shell_reps(rows, c)[t]) == state_min_d(rows, c));
    }
}

/// Monotonicity across steps: every point of a batch formed at a smaller
/// pending minimum lies strictly nearer the origin than every point of a
/// batch formed at a larger one; in particular the two batches share no
/// point.
pub proof fn lemma_batches_ordered(
    rows_a: Seq<(u32, u32)>,
    c_a: int,
    rows_b: Seq<(u32, u32)>,
    c_b: int,
    i: int,
    j: int,
)
    requires
        rows_wf(rows_a, c_a),
        rows_wf(rows_b, c_b),
        1 <= c_a < 0x8000_0000,
        1 <= c_b < 0x8000_0000,
        state_min_d(rows_a, c_a) < state_min_d(rows_b, c_b),
        0 <= i < expand_all(shell_reps(rows_a, c_a)).len(),
        0 <= j < expand_all(shell_reps(rows_b, c_b)).len(),
    ensures
        dist2(expand_all(shell_reps(rows_a, c_a))[i]) < dist2(
            expand_all(shell_reps(rows_b, c_b))[j],
        ),
{
    lemma_shell_reps_ok(rows_a, c_a);
    lemma_shell_reps_ok(rows_b, c_b);
    let sa = shell_reps(rows_a, c_a);
    let sb = shell_reps(rows_b, c_b);
    assert forall|t: int|
        0 <= t < sa.len() implies rep_dist2(#[trigger] sa[t]) == state_min_d(rows_a, c_a) by {}
    assert forall|t: int|
        0 <= t < sb.len() implies rep_dist2(#[trigger] sb[t]) == state_min_d(rows_b, c_b) by {}
    lemma_expand_all_dist(sa, state_min_d(rows_a, c_a), i);
    lemma_expand_all_dist(sb, state_min_d(rows_b, c_b), j);
}

/// Produces, one call at a time, the batches of lattice points at the next
/// smallest squared distance from the origin.
///
/// Coordinates are held as u32 and squared distances as u64; batches can be
/// drawn until the cursor level reaches 2^31, far beyond any practical run.
pub struct ListNearPoints2D {
    uncompleted_rows: Vec<(u32, u32)>,
    unused_smallest_y: u32,
}

impl ListNearPoints2D {
    /// The pending octant rows, each (y, x), in the order their y-levels
    /// were opened.
    pub closed spec fn rows(self) -> Seq<(u32, u32)> {
        self.uncompleted_rows@
    }

    /// The smallest y-level never opened as a row.
    pub closed spec fn cursor(self) -> int {
        self.unused_smallest_y as int
    }

    pub open spec fn inv(self) -> bool {
        state_inv(self.rows(), self.cursor())
    }

    /// The squared distance the next batch will share.
    pub open spec fn min_d(self) -> int {
        state_min_d(self.rows(), self.cursor())
    }

    /// Whether the octant point (y, x) has appeared in a batch already.
    pub open spec fn emitted(self, y: int, x: int) -> bool {
        state_emitted(self.rows(), self.cursor(), y, x)
    }

    /// A fresh generator: no rows, cursor at 1, nothing put out, and the
    /// first batch due at squared distance 1.
    pub fn new() -> (g: ListNearPoints2D)
        ensures
            g.inv(),
            g.rows().len() == 0,
            g.cursor() == 1,
            g.min_d() == 1,
            forall|y: int, x: int| !g.emitted(y, x),
    {
        ListNearPoints2D { uncompleted_rows: Vec::new(), unused_smallest_y: 1 }
    }

    /// Expands each octant representative (y, x) into its full orbit and
    /// concatenates the orbits in the order the representatives are given.
    #[verifier::loop_isolation(false)]
    pub fn multiply(pts: Vec<(u32, u32)>) -> (r: Vec<(i32, i32)>)
        requires
            forall|i: int|
                0 <= i < pts@.len() ==> rep_ok(#[trigger] pts@[i]) && pts@[i].0 <= 0x7fff_ffff,
        ensures
            batch_view(r@) == expand_all(pts@),
    {
        let mut out: Vec<(i32, i32)> = Vec::new();
        let mut k: usize = 0;
        proof {
            assert(pts@.take(0) =~= Seq::<(u32, u32)>::empty());
            assert(batch_view(out@) =~= expand_all(pts@.take(0)));
        }
        while k < pts.len()
            invariant
                0 <= k <= pts@.len(),
                batch_view(out@) == expand_all(pts@.take(k as int)),
            decreases pts@.len() - k,
        {
            let (y, x) = pts[k];
            let yi = y as i32;
            let xi = x as i32;
            let ghost prev = out@;
            out.push((yi, xi));
            out.push((-yi, xi));
            if x != 0 {
                out.push((yi, -xi));
                out.push((-yi, -xi));
            }
            if x != y {
                out.push((xi, yi));
                out.push((xi, -yi));
                if x != 0 {
                    out.push((-xi, yi));
                    out.push((-xi, -yi));
                }
            }
            proof {
                assert(batch_view(out@) =~= batch_view(prev) + orbit(y as int, x as int));
                lemma_expand_all_push(pts@.take(k as int), pts@[k as int]);
                assert(pts@.take(k as int).push(pts@[k as int]) =~= pts@.take(k as int + 1));
            }
            k += 1;
        }
        proof {
            assert(pts@.take(pts@.len() as int) =~= pts@);
        }
        out
    }

    /// Produces the next batch: every lattice point at the smallest squared
    /// distance from the origin not put out before, namely
    /// `old(self).min_d()`. The batch is the orbit expansion of the step's
    /// representatives, all its points share that squared distance, and the
    /// pending minimum then strictly grows, so batches come out in strictly
    /// increasing order of distance and no point ever reappears.
    #[verifier::loop_isolation(false)]
    pub fn next_batch(&mut self) -> (batch: Vec<(i32, i32)>)
        requires
            old(self).inv(),
            old(self).cursor() < 0x8000_0000,
        ensures
            final(self).inv(),
            final(self).rows() == stepped_rows(old(self).rows(), old(self).cursor()),
            final(self).cursor() == stepped_cursor(old(self).rows(), old(self).cursor()),
            batch_view(batch@) == expand_all(shell_reps(old(self).rows(), old(self).cursor())),
            batch@.len() >= 1,
            forall|i: int|
                0 <= i < batch@.len() ==> dist2(#[trigger] pt_view(batch@[i])) == old(
                    self,
                ).min_d(),
            final(self).min_d() > old(self).min_d(),
            old(self).cursor() <= final(self).cursor() <= old(self).cursor() + 1,
            forall|y: int, x: int|
                final(self).emitted(y, x) <==> (old(self).emitted(y, x) || (octant_pt(y, x) && y
                    * y + x * x == old(self).min_d())),
    {
        let ghost rows0 = self.uncompleted_rows@;
        let ghost c0 = self.unused_smallest_y as int;
        let c = self.unused_smallest_y;
        let n = self.uncompleted_rows.len();

        // least pending squared distance, the cursor's own level included
        proof {
            lemma_sq_le(c as int, 0x7fff_ffff);
        }
        let mut m: u64 = (c as u64) * (c as u64);
        proof {
            assert(rows0.take(0) =~= Seq::<(u32, u32)>::empty());
        }
        let mut i: usize = 0;
        while i < n
            invariant
                0 <= i <= n,
                m as int == frontier_min(rows0.take(i as int), c0 * c0),
            decreases n - i,
        {
            let (y, x) = self.uncompleted_rows[i];
            proof {
                lemma_sq_le(y as int, 0x7fff_ffff);
                lemma_sq_le(x as int, 0x7fff_ffff);
            }
            let d = (y as u64) * (y as u64) + (x as u64) * (x as u64);
            proof {
                lemma_frontier_min_push(rows0.take(i as int), c0 * c0, rows0[i as int]);
                assert(rows0.take(i as int).push(rows0[i as int]) =~= rows0.take(i as int + 1));
            }
            if d < m {
                m = d;
            }
            i += 1;
        }
        proof {
            assert(rows0.take(n as int) =~= rows0);
            assert(m as int == state_min_d(rows0, c0));
        }

        // advance every tied row past its candidate, collecting the
        // representatives in queue order; a tied diagonal row completes
        let mut reps: Vec<(u32, u32)> = Vec::new();
        let mut pop = false;
        let mut j: usize = 0;
        proof {
            assert(rows0.take(0) =~= Seq::<(u32, u32)>::empty());
        }
        while j < n
            invariant
                0 <= j <= n,
                self.uncompleted_rows@.len() == rows0.len(),
                self.unused_smallest_y == c,
                forall|t: int| j <= t < n ==> #[trigger] self.uncompleted_rows@[t] == rows0[t],
                forall|t: int|
                    0 <= t < j ==> #[trigger] self.uncompleted_rows@[t] == advanced_row(
                        rows0[t],
                        m as int,
                    ),
                reps@ == tied_rows(rows0.take(j as int), m as int),
                pop <==> exists|t: int|
                    0 <= t < j && rep_dist2(#[trigger] rows0[t]) == m as int && rows0[t].1
                        == rows0[t].0,
            decreases n - j,
        {
            let (y, x) = self.uncompleted_rows[j];
            proof {
                assert(self.uncompleted_rows@[j as int] == rows0[j as int]);
            }
            proof {
                lemma_sq_le(y as int, 0x7fff_ffff);
                lemma_sq_le(x as int, 0x7fff_ffff);
            }
            let d = (y as u64) * (y as u64) + (x as u64) * (x as u64);
            proof {
                lemma_tied_rows_push(rows0.take(j as int), m as int, rows0[j as int]);
                assert(rows0.take(j as int).push(rows0[j as int]) =~= rows0.take(j as int + 1));
            }
            if d == m {
                reps.push((y, x));
                if x == y {
                    pop = true;
                } else {
                    self.uncompleted_rows[j] = (y, x + 1);
                }
            }
            j += 1;
        }
        proof {
            assert(rows0.take(n as int) =~= rows0);
            assert forall|t: int|
                0 <= t < n implies #[trigger] advanced_rows(rows0, m as int)[t] == advanced_row(
                rows0[t],
                m as int,
            ) by {}
            assert(self.uncompleted_rows@ =~= advanced_rows(rows0, m as int));
            assert(pop <==> has_diag_tie(rows0, m as int));
        }

        // a completed row sits at the front of the queue
        if pop {
            proof {
                let t = choose|t: int|
                    0 <= t < rows0.len() && rep_dist2(#[trigger] rows0[t]) == m as int
                        && rows0[t].1 == rows0[t].0;
                lemma_diag_tie_front(rows0, c0, t);
            }
            self.uncompleted_rows.remove(0);
            proof {
                assert(self.uncompleted_rows@ =~= advanced_rows(rows0, m as int).drop_first());
            }
        }

        // open the cursor's level when its diagonal-adjacent point ties
        proof {
            lemma_sq_le(c as int, 0x7fff_ffff);
        }
        let cc = (c as u64) * (c as u64);
        if cc == m {
            self.uncompleted_rows.push((c, 1));
            reps.push((c, 0));
            self.unused_smallest_y = c + 1;
        }
        proof {
            assert(self.uncompleted_rows@ =~= stepped_rows(rows0, c0));
            assert(self.unused_smallest_y as int == stepped_cursor(rows0, c0));
            assert(reps@ =~= shell_reps(rows0, c0));
            lemma_step_inv(rows0, c0);
            lemma_step_emitted(rows0, c0);
            lemma_shell_reps_ok(rows0, c0);
            lemma_shell_reps_nonempty(rows0, c0);
        }
        let batch = Self::multiply(reps);
        proof {
            assert forall|t: int|
                0 <= t < batch@.len() implies dist2(#[trigger] pt_view(batch@[t])) == state_min_d(
                rows0,
                c0,
            ) by {
                assert(batch_view(batch@)[t] == pt_view(batch@[t]));
                lemma_expand_all_dist(shell_reps(rows0, c0), state_min_d(rows0, c0), t);
            }
            assert(batch@.len() >= 1) by {
                let reps0 = shell_reps(rows0, c0);
                assert(expand_all(reps0).len() >= orbit(reps0[0].0 as int, reps0[0].1 as int).len());
            }
        }
        batch
    }
}

} // verus!
