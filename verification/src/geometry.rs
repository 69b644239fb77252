//! Planar points on an integer grid, squared Euclidean distances, floor
//! square roots, and the exact right-angle admissibility test.

use vstd::prelude::*;

verus! {

/// Largest coordinate magnitude a node may carry.  Callers scale their
/// coordinates onto this grid; the bound keeps every squared distance,
/// every edge length and every path length comfortably inside `u64`.
pub const COORD_LIMIT: i64 = 1_000_000;

/// Largest number of nodes one search accepts.
pub const MAX_NODES: usize = 1_000_000;

/// Upper bound on any squared distance between in-bound nodes:
/// `(2 * COORD_LIMIT)^2 + (2 * COORD_LIMIT)^2`.
pub const DIST2_MAX: u64 = 8_000_000_000_000;

/// Upper bound on any edge length between in-bound nodes:
/// `EDGE_MAX * EDGE_MAX` is at least `DIST2_MAX`.
pub const EDGE_MAX: u64 = 3_000_000;

/// A point of the input, on the integer grid.
#[derive(Clone, Copy, Debug, PartialEq, Eq, Structural)]
pub struct Node {
    pub x: i64,
    pub y: i64,
}

/// Whether a node lies on the accepted grid.
pub open spec fn in_bounds(p: Node) -> bool {
    -COORD_LIMIT <= p.x <= COORD_LIMIT && -COORD_LIMIT <= p.y <= COORD_LIMIT
}

/// Squared Euclidean distance between two nodes.
pub open spec fn dist2(a: Node, b: Node) -> int {
    (a.x - b.x) * (a.x - b.x) + (a.y - b.y) * (a.y - b.y)
}

/// Squared distance is non-negative, symmetric, zero exactly on equal
/// nodes, and bounded for in-bound nodes.
pub proof fn lemma_dist2_basics(a: Node, b: Node)
    ensures
        dist2(a, b) >= 0,
        dist2(a, b) == dist2(b, a),
        dist2(a, b) == 0 <==> a == b,
        in_bounds(a) && in_bounds(b) ==> dist2(a, b) <= DIST2_MAX,
{
    assert(forall|d: int| #[trigger] (d * d) >= 0 && (d != 0 ==> d * d > 0)) by (nonlinear_arith);
    assert((a.x - b.x) * (a.x - b.x) == (b.x - a.x) * (b.x - a.x)) by (nonlinear_arith);
    assert((a.y - b.y) * (a.y - b.y) == (b.y - a.y) * (b.y - a.y)) by (nonlinear_arith);
    if dist2(a, b) == 0 {
        assert((a.x - b.x) * (a.x - b.x) == 0 && (a.y - b.y) * (a.y - b.y) == 0);
        assert(a.x == b.x && a.y == b.y);
    }
    if in_bounds(a) && in_bounds(b) {
        assert(forall|d: int|
            -2_000_000 <= d <= 2_000_000 ==> #[trigger] (d * d) <= 4_000_000_000_000)
            by (nonlinear_arith);
        assert(-2_000_000 <= a.x - b.x <= 2_000_000 && -2_000_000 <= a.y - b.y <= 2_000_000);
    }
}

/// The turn at `cur`, subtended by `prev` and `next`, is a right angle or
/// wider.  By the law of cosines the angle is at least 90 degrees exactly
/// when `d2(cur, prev) + d2(cur, next) <= d2(prev, next)`; a turn at a
/// point coinciding with its neighbour is treated as fully crooked
/// (inadmissible), the documented fallback for degenerate geometry.
pub open spec fn turn_ok(prev: Node, cur: Node, next: Node) -> bool {
    &&& dist2(cur, prev) > 0
    &&& dist2(cur, next) > 0
    &&& dist2(cur, prev) + dist2(cur, next) <= dist2(prev, next)
}

impl Node {
    /// Squared Euclidean distance to `other`, exact.
    pub fn dist2_to(&self, other: &Node) -> (r: u64)
        requires
            in_bounds(*self),
            in_bounds(*other),
        ensures
            r == dist2(*self, *other),
            r <= DIST2_MAX,
    {
        proof {
            lemma_dist2_basics(*self, *other);
        }
        let dx: i64 = self.x - other.x;
        let dy: i64 = self.y - other.y;
        assert(dx * dx <= 4_000_000_000_000 && dx * dx >= 0) by (nonlinear_arith)
            requires
                -2_000_000 <= dx <= 2_000_000,
        ;
        assert(dy * dy <= 4_000_000_000_000 && dy * dy >= 0) by (nonlinear_arith)
            requires
                -2_000_000 <= dy <= 2_000_000,
        ;
        (dx * dx + dy * dy) as u64
    }

    /// Euclidean distance to `other`, rounded down to the grid unit.
    pub fn distance(&self, other: &Node) -> (r: u64)
        requires
            in_bounds(*self),
            in_bounds(*other),
        ensures
            r == edge(*self, *other),
            r <= EDGE_MAX,
    {
        let d2 = self.dist2_to(other);
        let r = isqrt(d2);
        proof {
            lemma_sqrt_floor_bounds(d2 as int);
            lemma_edge_basics(*self, *other);
        }
        r
    }

    /// Whether the turn at `self`, arriving from `prev` and leaving for
    /// `next`, is a right angle or wider.  Exact on the integer grid.
    pub fn wide_turn(&self, prev: &Node, next: &Node) -> (r: bool)
        requires
            in_bounds(*self),
            in_bounds(*prev),
            in_bounds(*next),
        ensures
            r == turn_ok(*prev, *self, *next),
    {
        let to_prev = self.dist2_to(prev);
        let to_next = self.dist2_to(next);
        let across = prev.dist2_to(next);
        to_prev > 0 && to_next > 0 && to_prev + to_next <= across
    }
}

/// Floor of the square root of a non-negative integer.
pub open spec fn sqrt_floor(n: int) -> int
    decreases n,
{
    if n <= 0 {
        0
    } else {
        let r = sqrt_floor(n - 1);
        if (r + 1) * (r + 1) <= n {
            r + 1
        } else {
            r
        }
    }
}

/// `sqrt_floor(n)` is the unique `r >= 0` with `r * r <= n < (r + 1) * (r + 1)`.
pub proof fn lemma_sqrt_floor_bounds(n: int)
    requires
        n >= 0,
    ensures
        sqrt_floor(n) >= 0,
        sqrt_floor(n) * sqrt_floor(n) <= n,
        n < (sqrt_floor(n) + 1) * (sqrt_floor(n) + 1),
    decreases n,
{
    if n == 0 {
        assert(sqrt_floor(0) == 0);
    } else {
        lemma_sqrt_floor_bounds(n - 1);
        let p = sqrt_floor(n - 1);
        if (p + 1) * (p + 1) <= n {
            // The new root is p + 1; n - 1 < (p + 1)^2 forces n == (p + 1)^2.
            assert(n == (p + 1) * (p + 1));
            assert((p + 1) * (p + 1) < (p + 2) * (p + 2)) by (nonlinear_arith)
                requires
                    p >= 0,
            ;
        }
    }
}

/// Two integers whose squares bracket `n` the same way are equal.
pub proof fn lemma_sqrt_floor_unique(n: int, r: int)
    requires
        n >= 0,
        r >= 0,
        r * r <= n,
        n < (r + 1) * (r + 1),
    ensures
        r == sqrt_floor(n),
{
    lemma_sqrt_floor_bounds(n);
    let s = sqrt_floor(n);
    if r < s {
        assert((r + 1) * (r + 1) <= s * s) by (nonlinear_arith)
            requires
                0 <= r,
                r + 1 <= s,
        ;
    }
    if s < r {
        assert((s + 1) * (s + 1) <= r * r) by (nonlinear_arith)
            requires
                0 <= s,
                s + 1 <= r,
        ;
    }
}

/// Floor square root of a machine integer, by bisection.
pub fn isqrt(n: u64) -> (r: u64)
    ensures
        r == sqrt_floor(n as int),
{
    let mut lo: u64 = 0;
    let mut hi: u64 = 4_294_967_296;
    assert((n as int) < (hi as int) * (hi as int)) by (nonlinear_arith)
        requires
            n <= u64::MAX,
            hi == 4_294_967_296u64,
    ;
    while hi - lo > 1
        invariant
            lo < hi,
            hi <= 4_294_967_296,
            (lo as int) * (lo as int) <= n as int,
            (n as int) < (hi as int) * (hi as int),
        decreases hi - lo,
    {
        let mid: u64 = lo + (hi - lo) / 2;
        assert((mid as int) * (mid as int) <= 0x1_0000_0000_0000_0000) by (nonlinear_arith)
            requires
                mid <= 4_294_967_296u64,
        ;
        if (mid as u128) * (mid as u128) <= n as u128 {
            lo = mid;
        } else {
            hi = mid;
        }
    }
    proof {
        lemma_sqrt_floor_unique(n as int, lo as int);
    }
    lo
}

/// Length of the edge between two nodes: the floor square root of the
/// squared distance.
pub open spec fn edge(a: Node, b: Node) -> int {
    sqrt_floor(dist2(a, b))
}

/// Edge lengths are non-negative, symmetric, zero exactly on equal nodes
/// if the nodes are distinct grid points, and bounded for in-bound nodes.
pub proof fn lemma_edge_basics(a: Node, b: Node)
    ensures
        edge(a, b) >= 0,
        edge(a, b) == edge(b, a),
        a == b ==> edge(a, b) == 0,
        a != b ==> edge(a, b) >= 1,
        in_bounds(a) && in_bounds(b) ==> edge(a, b) <= EDGE_MAX,
{
    lemma_dist2_basics(a, b);
    lemma_sqrt_floor_bounds(dist2(a, b));
    let r = sqrt_floor(dist2(a, b));
    if a != b {
        // dist2 >= 1, so the root cannot be 0.
        assert(dist2(a, b) >= 1);
        assert(r >= 1);
    }
    if in_bounds(a) && in_bounds(b) {
        if r > EDGE_MAX {
            assert((EDGE_MAX + 1) * (EDGE_MAX + 1) <= r * r) by (nonlinear_arith)
                requires
                    EDGE_MAX as int + 1 <= r,
                    EDGE_MAX == 3_000_000u64,
            ;
        }
    }
}

} // verus!
