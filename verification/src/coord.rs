//! Coordinates and the axis predicates used by the tree builder and the
//! query traversal.
//!
//! A coordinate is either a point scalar or a closed interval.  All
//! predicates treat `Scalar(x)` as the degenerate interval `[x, x]`.

use vstd::prelude::*;

verus! {

/// One axis coordinate: a point scalar, or a closed interval
/// `[lo, hi]` with `lo <= hi`.
#[derive(Clone, Copy, Debug, PartialEq, Eq, Structural)]
pub enum Coord {
    Scalar(i64),
    Interval(i64, i64),
}

/// Lower endpoint of a coordinate (a scalar is the interval `[x, x]`).
pub open spec fn lo(c: Coord) -> int {
    match c {
        Coord::Scalar(x) => x as int,
        Coord::Interval(a, _) => a as int,
    }
}

/// Upper endpoint of a coordinate (a scalar is the interval `[x, x]`).
pub open spec fn hi(c: Coord) -> int {
    match c {
        Coord::Scalar(x) => x as int,
        Coord::Interval(_, b) => b as int,
    }
}

/// A coordinate is well formed when its interval is not inverted.
pub open spec fn coord_wf(c: Coord) -> bool {
    lo(c) <= hi(c)
}

/// Two closed intervals `[a0, a1]` and `[b0, b1]` overlap.
pub open spec fn overlaps(a0: int, a1: int, b0: int, b1: int) -> bool {
    a1 >= b0 && a0 <= b1
}

/// The coordinate touches the pivot: a scalar equals it, an interval
/// contains it.
pub open spec fn touches(c: Coord, p: int) -> bool {
    lo(c) <= p <= hi(c)
}

/// The coordinate intersects the closed range `[l, h]` of one query axis.
pub open spec fn coord_matches(c: Coord, l: int, h: int) -> bool {
    hi(c) >= l && lo(c) <= h
}

/// Three-way comparison of two mathematical integers.
pub open spec fn cmp_of(a: int, b: int) -> core::cmp::Ordering {
    if a < b {
        core::cmp::Ordering::Less
    } else if a == b {
        core::cmp::Ordering::Equal
    } else {
        core::cmp::Ordering::Greater
    }
}

/// Midpoint of two integers, rounded toward negative infinity.
pub open spec fn mid(a: int, b: int) -> int {
    (a + b) / 2
}

/// The pivot that separates the axis intervals `[amin, amax]` and
/// `[bmin, bmax]`: the midpoint of the lower (or upper) endpoints when
/// they overlap, and the midpoint of the gap otherwise.
pub open spec fn sep_spec(amin: int, amax: int, bmin: int, bmax: int, is_min: bool) -> int {
    if overlaps(amin, amax, bmin, bmax) {
        if is_min {
            mid(amin, bmin)
        } else {
            mid(amax, bmax)
        }
    } else {
        mid(amax, bmin)
    }
}

/// Do the closed intervals `[a0, a1]` and `[b0, b1]` overlap?
pub fn intersect_iv(a0: i64, a1: i64, b0: i64, b1: i64) -> (r: bool)
    ensures
        r == overlaps(a0 as int, a1 as int, b0 as int, b1 as int),
{
    a1 >= b0 && a0 <= b1
}

/// Does the coordinate touch the pivot `p`?
pub fn intersect_pivot(c: &Coord, p: i64) -> (r: bool)
    ensures
        r == touches(*c, p as int),
{
    match c {
        Coord::Scalar(x) => *x == p,
        Coord::Interval(min, max) => *min <= p && p <= *max,
    }
}

/// Does the coordinate intersect the closed range `[low, high]`?
pub fn intersect_coord(c: &Coord, low: i64, high: i64) -> (r: bool)
    ensures
        r == coord_matches(*c, low as int, high as int),
{
    match c {
        Coord::Scalar(x) => low <= *x && *x <= high,
        Coord::Interval(x, y) => intersect_iv(*x, *y, low, high),
    }
}

/// Compare two coordinates by their lower endpoints.
pub fn coord_cmp(x: &Coord, y: &Coord) -> (r: Option<core::cmp::Ordering>)
    ensures
        r == Some(cmp_of(lo(*x), lo(*y))),
{
    let a = coord_lo(x);
    let b = coord_lo(y);
    if a < b {
        Some(core::cmp::Ordering::Less)
    } else if a == b {
        Some(core::cmp::Ordering::Equal)
    } else {
        Some(core::cmp::Ordering::Greater)
    }
}

/// Compare a coordinate's lower endpoint with a pivot.
pub fn coord_cmp_pivot(x: &Coord, p: i64) -> (r: Option<core::cmp::Ordering>)
    ensures
        r == Some(cmp_of(lo(*x), p as int)),
{
    let a = coord_lo(x);
    if a < p {
        Some(core::cmp::Ordering::Less)
    } else if a == p {
        Some(core::cmp::Ordering::Equal)
    } else {
        Some(core::cmp::Ordering::Greater)
    }
}

/// The smaller of the coordinate's lower endpoint and `r`.
pub fn coord_min(x: &Coord, r: i64) -> (m: i64)
    ensures
        m as int == if lo(*x) <= r as int {
            lo(*x)
        } else {
            r as int
        },
{
    let l = coord_lo(x);
    if l <= r {
        l
    } else {
        r
    }
}

/// The larger of the coordinate's upper endpoint and `r`.
pub fn coord_max(x: &Coord, r: i64) -> (m: i64)
    ensures
        m as int == if hi(*x) >= r as int {
            hi(*x)
        } else {
            r as int
        },
{
    let h = coord_hi(x);
    if h >= r {
        h
    } else {
        r
    }
}

/// Lower endpoint, as a machine integer.
pub fn coord_lo(c: &Coord) -> (r: i64)
    ensures
        r as int == lo(*c),
{
    match c {
        Coord::Scalar(x) => *x,
        Coord::Interval(a, _) => *a,
    }
}

/// Upper endpoint, as a machine integer.
pub fn coord_hi(c: &Coord) -> (r: i64)
    ensures
        r as int == hi(*c),
{
    match c {
        Coord::Scalar(x) => *x,
        Coord::Interval(_, b) => *b,
    }
}

/// Midpoint of two machine integers, rounded toward negative infinity.
fn mid_i64(x: i64, y: i64) -> (r: i64)
    ensures
        r as int == mid(x as int, y as int),
{
    let hx = x.checked_div_euclid(2).unwrap();
    let hy = y.checked_div_euclid(2).unwrap();
    let ox = x.checked_rem_euclid(2).unwrap();
    let oy = y.checked_rem_euclid(2).unwrap();
    proof {
        vstd::arithmetic::div_mod::lemma_fundamental_div_mod(x as int, 2);
        vstd::arithmetic::div_mod::lemma_fundamental_div_mod(y as int, 2);
        vstd::arithmetic::div_mod::lemma_fundamental_div_mod(x as int + y as int, 2);
    }
    if ox == 1 && oy == 1 {
        hx + hy + 1
    } else {
        hx + hy
    }
}

/// The pivot separating two axis intervals, per `sep_spec`.
pub fn find_separation(amin: i64, amax: i64, bmin: i64, bmax: i64, is_min: bool) -> (r: i64)
    ensures
        r as int == sep_spec(amin as int, amax as int, bmin as int, bmax as int, is_min),
{
    if is_min && intersect_iv(amin, amax, bmin, bmax) {
        mid_i64(amin, bmin)
    } else if !is_min && intersect_iv(amin, amax, bmin, bmax) {
        mid_i64(amax, bmax)
    } else {
        mid_i64(amax, bmin)
    }
}

} // verus!
