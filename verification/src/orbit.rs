//! Orbits of octant representatives under the symmetries of the square
//! lattice: sign flips on each coordinate and the swap of the coordinates.
//!
//! A representative is a pair (y, x) with 1 <= y and 0 <= x <= y; its orbit is
//! the full set of lattice points at the same squared distance, in a fixed
//! emission order.

use vstd::prelude::*;

verus! {

/// Squared Euclidean distance of a signed lattice point from the origin.
pub open spec fn dist2(p: (int, int)) -> int {
    p.0 * p.0 + p.1 * p.1
}

/// Squared distance of an octant representative stored as (y, x).
pub open spec fn rep_dist2(r: (u32, u32)) -> int {
    (r.0 as int) * (r.0 as int) + (r.1 as int) * (r.1 as int)
}

/// An octant representative (y, x): 1 <= y and 0 <= x <= y.
pub open spec fn rep_ok(r: (u32, u32)) -> bool {
    1 <= r.0 && r.1 <= r.0
}

/// The representative and its mirror across the x-axis; for x != 0 also the
/// two points with x negated (for x == 0 those would repeat the first two).
pub open spec fn orbit_base(y: int, x: int) -> Seq<(int, int)> {
    if x == 0 {
        seq![(y, x), (-y, x)]
    } else {
        seq![(y, x), (-y, x), (y, -x), (-y, -x)]
    }
}

/// Reflection of every point of a sequence across the main diagonal, in order.
pub open spec fn swapped(s: Seq<(int, int)>) -> Seq<(int, int)> {
    s.map_values(|p: (int, int)| (p.1, p.0))
}

/// Full orbit of the representative (y, x), in emission order: the mirrored
/// pairs first, then their diagonal reflections unless the representative
/// lies on the diagonal (for x == y those would repeat the first four).
pub open spec fn orbit(y: int, x: int) -> Seq<(int, int)> {
    if x == y {
        orbit_base(y, x)
    } else {
        orbit_base(y, x) + swapped(orbit_base(y, x))
    }
}

/// A signed point as a mathematical point.
pub open spec fn pt_view(p: (i32, i32)) -> (int, int) {
    (p.0 as int, p.1 as int)
}

/// A batch of signed points as a sequence of mathematical points.
pub open spec fn batch_view(b: Seq<(i32, i32)>) -> Seq<(int, int)> {
    b.map_values(|p: (i32, i32)| pt_view(p))
}

/// The concatenation of the orbits of a sequence of representatives, in order.
pub open spec fn expand_all(reps: Seq<(u32, u32)>) -> Seq<(int, int)>
    decreases reps.len(),
{
    if reps.len() == 0 {
        Seq::empty()
    } else {
        orbit(reps[0].0 as int, reps[0].1 as int) + expand_all(reps.drop_first())
    }
}

/// An orbit has four points for an axis or diagonal representative and eight
/// otherwise.
pub proof fn lemma_orbit_len(y: int, x: int)
    requires
        0 <= x <= y,
        1 <= y,
    ensures
        x == 0 || x == y ==> orbit(y, x).len() == 4,
        0 < x < y ==> orbit(y, x).len() == 8,
{
}

/// Every point of an orbit lies at the representative's squared distance.
pub proof fn lemma_orbit_dist(y: int, x: int, i: int)
    requires
        0 <= i < orbit(y, x).len(),
    ensures
        dist2(orbit(y, x)[i]) == x * x + y * y,
{
    let b = orbit_base(y, x);
    assert((-y) * (-y) == y * y) by (nonlinear_arith);
    assert((-x) * (-x) == x * x) by (nonlinear_arith);
    if x != y && i >= b.len() {
        assert(orbit(y, x)[i] == swapped(b)[i - b.len()]);
        assert(swapped(b)[i - b.len()] == (b[i - b.len()].1, b[i - b.len()].0));
    }
}

/// Orbit symmetry: an interior representative (0 < x < y) expands to exactly
/// the eight distinct images of (y, x) under the lattice symmetries.
pub proof fn lemma_orbit_generic(y: int, x: int)
    requires
        0 < x < y,
    ensures
        orbit(y, x) == seq![
            (y, x),
            (-y, x),
            (y, -x),
            (-y, -x),
            (x, y),
            (x, -y),
            (-x, y),
            (-x, -y),
        ],
        orbit(y, x).no_duplicates(),
{
    let s = seq![(y, x), (-y, x), (y, -x), (-y, -x), (x, y), (x, -y), (-x, y), (-x, -y)];
    assert(orbit(y, x) =~= s);
}

/// Axis reduction: a representative with x = 0 expands to exactly four
/// distinct points.
pub proof fn lemma_orbit_axis(y: int)
    requires
        1 <= y,
    ensures
        orbit(y, 0) == seq![(y, 0int), (-y, 0int), (0int, y), (0int, -y)],
        orbit(y, 0).no_duplicates(),
{
    let s = seq![(y, 0int), (-y, 0int), (0int, y), (0int, -y)];
    assert(orbit(y, 0) =~= s);
}

/// Diagonal reduction: a representative with x = y expands to exactly four
/// distinct points.
pub proof fn lemma_orbit_diag(y: int)
    requires
        1 <= y,
    ensures
        orbit(y, y) == seq![(y, y), (-y, y), (y, -y), (-y, -y)],
        orbit(y, y).no_duplicates(),
{
    let s = seq![(y, y), (-y, y), (y, -y), (-y, -y)];
    assert(orbit(y, y) =~= s);
}

/// Expanding one more representative appends its orbit.
pub proof fn lemma_expand_all_push(reps: Seq<(u32, u32)>, r: (u32, u32))
    ensures
        expand_all(reps.push(r)) == expand_all(reps) + orbit(r.0 as int, r.1 as int),
    decreases reps.len(),
{
    if reps.len() == 0 {
        let onew = orbit(r.0 as int, r.1 as int);
        assert(reps.push(r).drop_first() =~= Seq::<(u32, u32)>::empty());
        assert(reps.push(r)[0] == r);
        assert(expand_all(reps.push(r)) == onew + expand_all(reps.push(r).drop_first()));
        assert(expand_all(reps.push(r).drop_first()) == Seq::<(int, int)>::empty());
        assert(onew + Seq::<(int, int)>::empty() =~= Seq::<(int, int)>::empty() + onew);
        assert(expand_all(reps) == Seq::<(int, int)>::empty());
    } else {
        lemma_expand_all_push(reps.drop_first(), r);
        assert(reps.push(r).drop_first() =~= reps.drop_first().push(r));
        let o0 = orbit(reps[0].0 as int, reps[0].1 as int);
        let orest = expand_all(reps.drop_first());
        let onew = orbit(r.0 as int, r.1 as int);
        assert(reps.push(r)[0] == reps[0]);
        assert(expand_all(reps.push(r)) == o0 + (orest + onew));
        assert(o0 + (orest + onew) =~= (o0 + orest) + onew);
    }
}

/// Within-batch uniformity: when every representative lies at squared
/// distance d, so does every point of the concatenated expansion.
pub proof fn lemma_expand_all_dist(reps: Seq<(u32, u32)>, d: int, i: int)
    requires
        forall|j: int| 0 <= j < reps.len() ==> rep_dist2(#[trigger] reps[j]) == d,
        0 <= i < expand_all(reps).len(),
    ensures
        dist2(expand_all(reps)[i]) == d,
    decreases reps.len(),
{
    let y = reps[0].0 as int;
    let x = reps[0].1 as int;
    if i < orbit(y, x).len() {
        lemma_orbit_dist(y, x, i);
    } else {
        assert(forall|j: int|
            0 <= j < reps.drop_first().len() ==> rep_dist2(#[trigger] reps.drop_first()[j]) == d);
        lemma_expand_all_dist(reps.drop_first(), d, i - orbit(y, x).len());
    }
}

/// Every point of a listed representative's orbit appears in the expansion.
pub proof fn lemma_expand_all_contains(reps: Seq<(u32, u32)>, j: int, k: int)
    requires
        0 <= j < reps.len(),
        0 <= k < orbit(reps[j].0 as int, reps[j].1 as int).len(),
    ensures
        expand_all(reps).contains(orbit(reps[j].0 as int, reps[j].1 as int)[k]),
    decreases j,
{
    let y = reps[j].0 as int;
    let x = reps[j].1 as int;
    if j == 0 {
        assert(expand_all(reps)[k] == orbit(y, x)[k]);
    } else {
        lemma_expand_all_contains(reps.drop_first(), j - 1, k);
        let p = orbit(y, x)[k];
        let i = choose|i: int| 0 <= i < expand_all(reps.drop_first()).len()
            && expand_all(reps.drop_first())[i] == p;
        assert(expand_all(reps)[orbit(reps[0].0 as int, reps[0].1 as int).len() + i] == p);
    }
}

} // verus!
