//! Points on the integer plane and the distance between them.
//!
//! The length of a segment is its Euclidean length rounded up to the next
//! whole unit. Rounding up keeps the triangle inequality, so a straight line
//! is never longer than a detour.

use vstd::prelude::*;

verus! {

/// A position on the plane.
#[derive(Debug, Copy, Clone, PartialEq, Eq, Hash, Structural)]
pub struct Point {
    pub x: i32,
    pub y: i32,
}

/// The square of the Euclidean distance between two points.
pub open spec fn square_distance(a: Point, b: Point) -> nat {
    ((a.x - b.x) * (a.x - b.x) + (a.y - b.y) * (a.y - b.y)) as nat
}

/// `r` is the least natural number whose square is at least `n`.
pub open spec fn is_root_ceil(r: nat, n: nat) -> bool {
    &&& r * r >= n
    &&& r > 0 ==> (r - 1) * (r - 1) < n
}

/// The square root of `n`, rounded up.
pub open spec fn root_ceil(n: nat) -> nat
    decreases n,
{
    if n == 0 {
        0
    } else {
        let r = root_ceil((n - 1) as nat);
        if r * r >= n {
            r
        } else {
            r + 1
        }
    }
}

/// The distance between two points: the Euclidean distance, rounded up.
pub open spec fn distance(a: Point, b: Point) -> nat {
    root_ceil(square_distance(a, b))
}

/// `root_ceil(n)` is the rounded-up square root of `n`.
pub proof fn lemma_root_ceil(n: nat)
    ensures
        is_root_ceil(root_ceil(n), n),
    decreases n,
{
    if n > 0 {
        let r = root_ceil((n - 1) as nat);
        lemma_root_ceil((n - 1) as nat);
        if r * r < n {
            assert((r + 1) * (r + 1) == r * r + 2 * r + 1) by (nonlinear_arith);
            assert(r + 1 - 1 == r);
        }
    }
}

/// Squaring preserves order on the natural numbers.
pub proof fn lemma_square_monotonic(a: nat, b: nat)
    requires
        a <= b,
    ensures
        a * a <= b * b,
{
    assert(a * a <= b * b) by (nonlinear_arith)
        requires
            a <= b,
    ;
}

/// Only one number is the rounded-up square root of `n`.
pub proof fn lemma_root_ceil_unique(r: nat, n: nat)
    requires
        is_root_ceil(r, n),
    ensures
        r == root_ceil(n),
{
    let s = root_ceil(n);
    lemma_root_ceil(n);
    if r < s {
        lemma_square_monotonic(r, (s - 1) as nat);
    } else if s < r {
        lemma_square_monotonic(s, (r - 1) as nat);
    }
}

/// The rounded-up square root of `n` is at most any number whose square
/// reaches `n`.
pub proof fn lemma_root_ceil_least(r: nat, n: nat)
    requires
        r * r >= n,
    ensures
        root_ceil(n) <= r,
{
    let s = root_ceil(n);
    lemma_root_ceil(n);
    if r < s {
        lemma_square_monotonic(r, (s - 1) as nat);
    }
}

/// A product of two squares is the square of the product.
proof fn lemma_square_of_product(x: int, y: int)
    ensures
        (x * x) * (y * y) == (x * y) * (x * y),
{
    assert((x * x) * (y * y) == (x * y) * (x * y)) by (nonlinear_arith);
}

/// Lagrange's identity in the plane: the product of the squared lengths of
/// two vectors is the square of their inner product plus the square of their
/// cross product.
proof fn lemma_lagrange(u1: int, u2: int, v1: int, v2: int)
    ensures
        (u1 * u1 + u2 * u2) * (v1 * v1 + v2 * v2) == (u1 * v1 + u2 * v2) * (u1 * v1 + u2 * v2) + (
        u1 * v2 - u2 * v1) * (u1 * v2 - u2 * v1),
{
    let a = u1 * v1;
    let b = u2 * v2;
    let c = u1 * v2;
    let d = u2 * v1;
    lemma_square_of_product(u1, v1);
    lemma_square_of_product(u2, v2);
    lemma_square_of_product(u1, v2);
    lemma_square_of_product(u2, v1);
    assert(a * b == c * d) by (nonlinear_arith)
        requires
            a == u1 * v1,
            b == u2 * v2,
            c == u1 * v2,
            d == u2 * v1,
    ;
    let x = u1 * u1;
    let y = u2 * u2;
    let z = v1 * v1;
    let w = v2 * v2;
    assert((x + y) * (z + w) == x * z + x * w + y * z + y * w) by (nonlinear_arith);
    assert((a + b) * (a + b) == a * a + 2 * (a * b) + b * b) by (nonlinear_arith);
    assert((c - d) * (c - d) == c * c - 2 * (c * d) + d * d) by (nonlinear_arith);
}

/// The inner product of two vectors is at most the product of two bounds on
/// their lengths.
proof fn lemma_inner_product_bound(u1: int, u2: int, v1: int, v2: int, p: int, q: int)
    requires
        p >= 0,
        q >= 0,
        p * p >= u1 * u1 + u2 * u2,
        q * q >= v1 * v1 + v2 * v2,
    ensures
        u1 * v1 + u2 * v2 <= p * q,
{
    let dot = u1 * v1 + u2 * v2;
    let cross = u1 * v2 - u2 * v1;
    let uu = u1 * u1 + u2 * u2;
    let vv = v1 * v1 + v2 * v2;
    lemma_lagrange(u1, u2, v1, v2);
    assert(cross * cross >= 0) by (nonlinear_arith);
    assert(uu >= 0 && vv >= 0) by (nonlinear_arith)
        requires
            uu == u1 * u1 + u2 * u2,
            vv == v1 * v1 + v2 * v2,
    ;
    assert(uu * vv <= (p * p) * (q * q)) by (nonlinear_arith)
        requires
            0 <= uu <= p * p,
            0 <= vv <= q * q,
    ;
    lemma_square_of_product(p, q);
    assert(p * q >= 0) by (nonlinear_arith)
        requires
            p >= 0,
            q >= 0,
    ;
    let pq = p * q;
    assert(dot <= pq) by (nonlinear_arith)
        requires
            dot * dot <= pq * pq,
            pq >= 0,
    ;
}

/// The triangle inequality: the way from `a` to `c` is no longer than the
/// way over `b`.
pub proof fn lemma_distance_triangle(a: Point, b: Point, c: Point)
    ensures
        distance(a, c) <= distance(a, b) + distance(b, c),
{
    let u1 = a.x - b.x;
    let u2 = a.y - b.y;
    let v1 = b.x - c.x;
    let v2 = b.y - c.y;
    let p = distance(a, b) as int;
    let q = distance(b, c) as int;
    assert(u1 * u1 + u2 * u2 >= 0 && v1 * v1 + v2 * v2 >= 0) by (nonlinear_arith);
    lemma_root_ceil(square_distance(a, b));
    lemma_root_ceil(square_distance(b, c));
    lemma_inner_product_bound(u1, u2, v1, v2, p, q);
    let w1 = a.x - c.x;
    let w2 = a.y - c.y;
    assert(w1 * w1 + w2 * w2 == (u1 * u1 + u2 * u2) + (v1 * v1 + v2 * v2) + 2 * (u1 * v1 + u2
        * v2)) by (nonlinear_arith)
        requires
            w1 == u1 + v1,
            w2 == u2 + v2,
    ;
    assert((p + q) * (p + q) == p * p + q * q + 2 * (p * q)) by (nonlinear_arith);
    assert(w1 * w1 + w2 * w2 >= 0) by (nonlinear_arith);
    lemma_root_ceil_least((p + q) as nat, square_distance(a, c));
}

/// A point is at no distance from itself.
pub proof fn lemma_distance_zero(a: Point)
    ensures
        distance(a, a) == 0,
{
    assert(square_distance(a, a) == 0);
}

/// No two points are farther apart than twice the width of the plane.
pub proof fn lemma_distance_bound(a: Point, b: Point)
    ensures
        distance(a, b) <= 0x2_0000_0000,
{
    let dx = a.x - b.x;
    let dy = a.y - b.y;
    assert(0 <= dx * dx <= 0xffff_ffff * 0xffff_ffff) by (nonlinear_arith)
        requires
            -0xffff_ffff <= dx <= 0xffff_ffff,
    ;
    assert(0 <= dy * dy <= 0xffff_ffff * 0xffff_ffff) by (nonlinear_arith)
        requires
            -0xffff_ffff <= dy <= 0xffff_ffff,
    ;
    lemma_root_ceil_least(0x2_0000_0000, square_distance(a, b));
}

/// Computes the square root of `n`, rounded up.
pub fn root_ceil_of(n: u128) -> (r: u128)
    ensures
        r == root_ceil(n as nat),
        is_root_ceil(r as nat, n as nat),
        r <= 0x1_0000_0000_0000_0000,
{
    let mut lo: u128 = 0;
    let mut hi: u128 = 0x1_0000_0000_0000_0000;
    while lo < hi
        invariant
            lo <= hi <= 0x1_0000_0000_0000_0000,
            hi * hi >= n,
            lo > 0 ==> (lo - 1) * (lo - 1) < n,
        decreases hi - lo,
    {
        let mid: u128 = lo + (hi - lo) / 2;
        assert(mid * mid <= 0xffff_ffff_ffff_ffff * 0xffff_ffff_ffff_ffff) by (nonlinear_arith)
            requires
                mid <= 0xffff_ffff_ffff_ffff,
        ;
        if mid * mid >= n {
            hi = mid;
        } else {
            lo = mid + 1;
        }
    }
    proof {
        lemma_root_ceil_unique(lo as nat, n as nat);
    }
    lo
}

impl Point {
    /// The square of the Euclidean distance from this point to `other`.
    pub fn square_distance_to(&self, other: &Point) -> (sq: u128)
        ensures
            sq == square_distance(*self, *other),
            sq <= 2 * (0xffff_ffff * 0xffff_ffff),
    {
        let dx: i128 = self.x as i128 - other.x as i128;
        let dy: i128 = self.y as i128 - other.y as i128;
        assert(dx * dx <= 0xffff_ffff * 0xffff_ffff && dx * dx >= 0) by (nonlinear_arith)
            requires
                -0xffff_ffff <= dx <= 0xffff_ffff,
        ;
        assert(dy * dy <= 0xffff_ffff * 0xffff_ffff && dy * dy >= 0) by (nonlinear_arith)
            requires
                -0xffff_ffff <= dy <= 0xffff_ffff,
        ;
        (dx * dx + dy * dy) as u128
    }

    /// The distance from this point to `other`.
    pub fn distance_to(&self, other: &Point) -> (d: u64)
        ensures
            d == distance(*self, *other),
            is_root_ceil(d as nat, square_distance(*self, *other)),
            d <= 0x2_0000_0000,
    {
        let sq = self.square_distance_to(other);
        let r = root_ceil_of(sq);
        proof {
            lemma_root_ceil(sq as nat);
            if r > 0x2_0000_0000 {
                lemma_square_monotonic(0x2_0000_0000, (r - 1) as nat);
            }
        }
        r as u64
    }
}

} // verus!
