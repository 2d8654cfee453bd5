//! Points and quadrilaterals in integer coordinates, and the ordering of a
//! detected quadrilateral into bottom-left, top-left, top-right and
//! bottom-right corners.
use vstd::prelude::*;

verus! {

/// A point; `y` grows downwards, as in image coordinates.
#[derive(Clone, Copy, Debug, PartialEq, Eq)]
pub struct Point {
    pub x: i32,
    pub y: i32,
}

/// A quadrilateral. After `sort_quad`, `a` is the bottom-left corner, `b` the
/// top-left, `c` the top-right and `d` the bottom-right.
#[derive(Clone, Copy, Debug, PartialEq, Eq)]
pub struct Quad {
    pub a: Point,
    pub b: Point,
    pub c: Point,
    pub d: Point,
}

/// Corner `i` of `q`, counting `a, b, c, d` from zero.
pub open spec fn corner(q: Quad, i: int) -> Point {
    if i == 0 {
        q.a
    } else if i == 1 {
        q.b
    } else if i == 2 {
        q.c
    } else {
        q.d
    }
}

/// Whether corner `i` comes before corner `j` when the corners are sorted by
/// `x` and corners with equal `x` keep their order.
pub open spec fn x_before(q: Quad, i: int, j: int) -> bool {
    corner(q, i).x < corner(q, j).x || (corner(q, i).x == corner(q, j).x && i < j)
}

/// Position of corner `i` after that stable sort by `x`: the number of corners
/// that come before it.
pub open spec fn x_rank(q: Quad, i: int) -> int {
    (if x_before(q, 0, i) { 1int } else { 0 }) + (if x_before(q, 1, i) { 1int } else { 0 }) + (
    if x_before(q, 2, i) { 1int } else { 0 }) + (if x_before(q, 3, i) { 1int } else { 0 })
}

/// The corner at position `k` of the stable sort by `x`.
pub open spec fn by_x(q: Quad, k: int) -> Point {
    if x_rank(q, 0) == k {
        q.a
    } else if x_rank(q, 1) == k {
        q.b
    } else if x_rank(q, 2) == k {
        q.c
    } else {
        q.d
    }
}

/// `(top, bottom)`: the pair stably sorted by `y`, which grows downwards.
pub open spec fn top_bottom(p: Point, q: Point) -> (Point, Point) {
    if q.y < p.y {
        (q, p)
    } else {
        (p, q)
    }
}

/// The quadrilateral with its corners named by position: the two leftmost
/// corners (by the stable sort on `x`) form the left side, the others the
/// right side, and within a side the upper corner (smaller `y`, the first on
/// a tie) is the top one.
pub open spec fn sorted_quad(q: Quad) -> Quad {
    let left = top_bottom(by_x(q, 0), by_x(q, 1));
    let right = top_bottom(by_x(q, 2), by_x(q, 3));
    Quad { a: left.1, b: left.0, c: right.0, d: right.1 }
}

fn before(p: Point, i: usize, q: Point, j: usize) -> (b: bool)
    ensures
        b == (p.x < q.x || (p.x == q.x && i < j)),
{
    p.x < q.x || (p.x == q.x && i < j)
}

fn rank_of(q: &Quad, p: Point, i: usize) -> (r: usize)
    requires
        i < 4,
        p == corner(*q, i as int),
    ensures
        r == x_rank(*q, i as int),
{
    let mut r: usize = 0;
    if before(q.a, 0, p, i) {
        r = r + 1;
    }
    if before(q.b, 1, p, i) {
        r = r + 1;
    }
    if before(q.c, 2, p, i) {
        r = r + 1;
    }
    if before(q.d, 3, p, i) {
        r = r + 1;
    }
    r
}

fn at_rank(q: &Quad, ra: usize, rb: usize, rc: usize, k: usize) -> (p: Point)
    requires
        ra == x_rank(*q, 0),
        rb == x_rank(*q, 1),
        rc == x_rank(*q, 2),
    ensures
        p == by_x(*q, k as int),
{
    if ra == k {
        q.a
    } else if rb == k {
        q.b
    } else if rc == k {
        q.c
    } else {
        q.d
    }
}

fn upper_lower(p: Point, q: Point) -> (pair: (Point, Point))
    ensures
        pair == top_bottom(p, q),
{
    if q.y < p.y {
        (q, p)
    } else {
        (p, q)
    }
}

/// Names the corners of a quadrilateral by position: `b` top-left, `a`
/// bottom-left, `c` top-right, `d` bottom-right (see `sorted_quad`).
pub fn sort_quad(quad: Quad) -> (sorted: Quad)
    ensures
        sorted == sorted_quad(quad),
{
    let ra = rank_of(&quad, quad.a, 0);
    let rb = rank_of(&quad, quad.b, 1);
    let rc = rank_of(&quad, quad.c, 2);
    let left = upper_lower(at_rank(&quad, ra, rb, rc, 0), at_rank(&quad, ra, rb, rc, 1));
    let right = upper_lower(at_rank(&quad, ra, rb, rc, 2), at_rank(&quad, ra, rb, rc, 3));
    Quad { a: left.1, b: left.0, c: right.0, d: right.1 }
}

/// The stable sort by `x` is a permutation: the four ranks are distinct
/// positions `0..4`, and each corner sits at its rank.
pub proof fn lemma_x_ranks_permute(q: Quad)
    ensures
        forall|i: int| 0 <= i < 4 ==> 0 <= #[trigger] x_rank(q, i) < 4,
        forall|i: int, j: int|
            0 <= i < 4 && 0 <= j < 4 && i != j ==> #[trigger] x_rank(q, i) != #[trigger] x_rank(q, j),
        forall|i: int| 0 <= i < 4 ==> #[trigger] by_x(q, x_rank(q, i)) == corner(q, i),
{
}

/// Sorting keeps the four corners, puts the left side at or left of the right
/// side, and each top corner at or above its bottom corner.
pub proof fn lemma_sort_quad_shape(q: Quad)
    ensures
        ({
            let s = sorted_quad(q);
            &&& s.a.x <= s.c.x && s.a.x <= s.d.x && s.b.x <= s.c.x && s.b.x <= s.d.x
            &&& s.b.y <= s.a.y && s.c.y <= s.d.y
            &&& forall|i: int|
                0 <= i < 4 ==> exists|k: int|
                    0 <= k < 4 && #[trigger] corner(s, k) == #[trigger] corner(q, i)
        }),
{
    lemma_x_ranks_permute(q);
    let s = sorted_quad(q);
    assert forall|i: int| 0 <= i < 4 implies exists|k: int|
        0 <= k < 4 && #[trigger] corner(s, k) == #[trigger] corner(q, i) by {
        let r = x_rank(q, i);
        assert(by_x(q, r) == corner(q, i));
        if r == 0 || r == 1 {
            assert(corner(s, 0) == corner(q, i) || corner(s, 1) == corner(q, i));
        } else {
            assert(corner(s, 2) == corner(q, i) || corner(s, 3) == corner(q, i));
        }
    }
}


/// Index of the corner at position `k` of the stable sort by `x` (the corner
/// that `by_x` picks).
pub open spec fn rank_owner(q: Quad, k: int) -> int {
    if x_rank(q, 0) == k {
        0
    } else if x_rank(q, 1) == k {
        1
    } else if x_rank(q, 2) == k {
        2
    } else {
        3
    }
}

/// Index of the input corner that `sorted_quad` names corner `k`.
pub open spec fn sorted_source(q: Quad, k: int) -> int {
    let l0 = rank_owner(q, 0);
    let l1 = rank_owner(q, 1);
    let r0 = rank_owner(q, 2);
    let r1 = rank_owner(q, 3);
    let left_swapped = corner(q, l1).y < corner(q, l0).y;
    let right_swapped = corner(q, r1).y < corner(q, r0).y;
    if k == 0 {
        if left_swapped {
            l0
        } else {
            l1
        }
    } else if k == 1 {
        if left_swapped {
            l1
        } else {
            l0
        }
    } else if k == 2 {
        if right_swapped {
            r1
        } else {
            r0
        }
    } else {
        if right_swapped {
            r0
        } else {
            r1
        }
    }
}

/// Sorting permutes the corners: corner `k` of the result is input corner
/// `sorted_source(q, k)`, and distinct result corners come from distinct input
/// corners.
pub proof fn lemma_sort_quad_permutes(q: Quad)
    ensures
        forall|k: int|
            0 <= k < 4 ==> 0 <= #[trigger] sorted_source(q, k) < 4 && corner(sorted_quad(q), k)
                == corner(q, sorted_source(q, k)),
        forall|k1: int, k2: int|
            0 <= k1 < 4 && 0 <= k2 < 4 && k1 != k2 ==> #[trigger] sorted_source(q, k1)
                != #[trigger] sorted_source(q, k2),
{
    lemma_x_ranks_permute(q);
    assert(x_rank(q, rank_owner(q, 0)) == 0);
    assert(x_rank(q, rank_owner(q, 1)) == 1);
    assert(x_rank(q, rank_owner(q, 2)) == 2);
    assert(x_rank(q, rank_owner(q, 3)) == 3);
}

/// Number of corners of `q` whose `x` is below `v`.
pub open spec fn count_left_of(q: Quad, v: int) -> int {
    (if corner(q, 0).x < v { 1int } else { 0 }) + (if corner(q, 1).x < v { 1int } else { 0 }) + (
    if corner(q, 2).x < v { 1int } else { 0 }) + (if corner(q, 3).x < v { 1int } else { 0 })
}

proof fn lemma_rank_counts_left(q: Quad, i: int)
    requires
        0 <= i < 4,
        forall|a: int, b: int|
            0 <= a < 4 && 0 <= b < 4 && a != b ==> #[trigger] corner(q, a).x != #[trigger] corner(
                q,
                b,
            ).x,
    ensures
        x_rank(q, i) == count_left_of(q, corner(q, i).x as int),
{
    assert(corner(q, 0).x != corner(q, 1).x);
    assert(corner(q, 0).x != corner(q, 2).x);
    assert(corner(q, 0).x != corner(q, 3).x);
    assert(corner(q, 1).x != corner(q, 2).x);
    assert(corner(q, 1).x != corner(q, 3).x);
    assert(corner(q, 2).x != corner(q, 3).x);
}

proof fn lemma_sum_over_permutation(f: spec_fn(int) -> int, p0: int, p1: int, p2: int, p3: int)
    requires
        0 <= p0 < 4,
        0 <= p1 < 4,
        0 <= p2 < 4,
        0 <= p3 < 4,
        p0 != p1 && p0 != p2 && p0 != p3 && p1 != p2 && p1 != p3 && p2 != p3,
    ensures
        f(p0) + f(p1) + f(p2) + f(p3) == f(0) + f(1) + f(2) + f(3),
{
}

/// Corner `i` of `q2` is corner `perm[i]` of `q1`, and `perm` is a
/// permutation of `0..4`.
pub open spec fn is_reordering(q1: Quad, q2: Quad, perm: Seq<int>) -> bool {
    &&& perm.len() == 4
    &&& forall|i: int| 0 <= i < 4 ==> 0 <= #[trigger] perm[i] < 4
    &&& forall|i: int, j: int| 0 <= i < 4 && 0 <= j < 4 && i != j ==> #[trigger] perm[i] != #[trigger] perm[j]
    &&& forall|i: int| 0 <= i < 4 ==> #[trigger] corner(q2, i) == corner(q1, perm[i])
}

/// The four `x` coordinates of `q` are pairwise distinct.
pub open spec fn distinct_x(q: Quad) -> bool {
    forall|i: int, j: int|
        0 <= i < 4 && 0 <= j < 4 && i != j ==> #[trigger] corner(q, i).x != #[trigger] corner(q, j).x
}

#[verifier::spinoff_prover]
proof fn lemma_reordered_ranks(q1: Quad, q2: Quad, perm: Seq<int>)
    requires
        is_reordering(q1, q2, perm),
        distinct_x(q1),
    ensures
        forall|i: int| 0 <= i < 4 ==> #[trigger] x_rank(q2, i) == x_rank(q1, perm[i]),
{
    let p0 = perm[0];
    let p1 = perm[1];
    let p2 = perm[2];
    let p3 = perm[3];
    assert(p0 != p1 && p0 != p2 && p0 != p3 && p1 != p2 && p1 != p3 && p2 != p3);
    assert(0 <= p0 < 4 && 0 <= p1 < 4 && 0 <= p2 < 4 && 0 <= p3 < 4);
    assert(corner(q2, 0) == corner(q1, p0) && corner(q2, 1) == corner(q1, p1) && corner(q2, 2)
        == corner(q1, p2) && corner(q2, 3) == corner(q1, p3));
    assert forall|a: int, b: int|
        0 <= a < 4 && 0 <= b < 4 && a != b implies #[trigger] corner(q2, a).x != #[trigger] corner(
        q2,
        b,
    ).x by {
        assert(corner(q2, a) == corner(q1, perm[a]));
        assert(corner(q2, b) == corner(q1, perm[b]));
        assert(perm[a] != perm[b]);
    }
    assert forall|i: int| 0 <= i < 4 implies #[trigger] x_rank(q2, i) == x_rank(q1, perm[i]) by {
        let v = corner(q2, i).x as int;
        let f = |j: int| if corner(q1, j).x < v { 1int } else { 0 };
        lemma_sum_over_permutation(f, p0, p1, p2, p3);
        assert(count_left_of(q2, v) == count_left_of(q1, v));
        lemma_rank_counts_left(q2, i);
        lemma_rank_counts_left(q1, perm[i]);
    }
}

#[verifier::spinoff_prover]
proof fn lemma_reordered_by_x(q1: Quad, q2: Quad, perm: Seq<int>)
    requires
        is_reordering(q1, q2, perm),
        forall|i: int| 0 <= i < 4 ==> #[trigger] x_rank(q2, i) == x_rank(q1, perm[i]),
    ensures
        forall|k: int| 0 <= k < 4 ==> #[trigger] by_x(q2, k) == by_x(q1, k),
{
    lemma_x_ranks_permute(q1);
    lemma_x_ranks_permute(q2);
    assert forall|k: int| 0 <= k < 4 implies #[trigger] by_x(q2, k) == by_x(q1, k) by {
        assert(x_rank(q2, rank_owner(q2, 0)) == 0);
        assert(x_rank(q2, rank_owner(q2, 1)) == 1);
        assert(x_rank(q2, rank_owner(q2, 2)) == 2);
        assert(x_rank(q2, rank_owner(q2, 3)) == 3);
        let i = rank_owner(q2, k);
        assert(x_rank(q2, i) == k);
        assert(0 <= perm[i] < 4);
        assert(x_rank(q1, perm[i]) == k);
        assert(corner(q2, i) == corner(q1, perm[i]));
        assert(by_x(q1, x_rank(q1, perm[i])) == corner(q1, perm[i]));
        assert(by_x(q2, x_rank(q2, i)) == corner(q2, i));
    }
}

/// With pairwise distinct `x` coordinates, the corners' positions follow from
/// the set of corners alone: reordering the input corners (corner `i` of `q2`
/// is corner `perm[i]` of `q1`) does not change the result.
pub proof fn lemma_sort_quad_ignores_order(q1: Quad, q2: Quad, perm: Seq<int>)
    requires
        is_reordering(q1, q2, perm),
        distinct_x(q1),
    ensures
        sorted_quad(q2) == sorted_quad(q1),
{
    lemma_reordered_ranks(q1, q2, perm);
    lemma_reordered_by_x(q1, q2, perm);
    assert(by_x(q2, 0) == by_x(q1, 0));
    assert(by_x(q2, 1) == by_x(q1, 1));
    assert(by_x(q2, 2) == by_x(q1, 2));
    assert(by_x(q2, 3) == by_x(q1, 3));
}

} // verus!
