use vstd::prelude::*;

verus! {

/// A point of the integer plane.
#[derive(Clone, Copy, Debug, PartialEq, Eq, Structural)]
pub struct Point {
    pub x: i32,
    pub y: i32,
}

/// An axis-aligned rectangle `[x_min, x_max) x [y_min, y_max)`.
#[derive(Clone, Copy, Debug, PartialEq, Eq, Structural)]
pub struct Aabb {
    pub x_min: i32,
    pub y_min: i32,
    pub x_max: i32,
    pub y_max: i32,
}

/// Number of distinct values of one `i32` coordinate.
pub open spec fn coord_span() -> int {
    0x1_0000_0000
}

/// The number that a pair of `i32`-ranged integers stands for as a map key: both
/// shifted to be non-negative, then laid side by side.
pub open spec fn pair_key(x: int, y: int) -> int {
    (x + 0x8000_0000) * coord_span() + (y + 0x8000_0000)
}

pub open spec fn in_i32(v: int) -> bool {
    i32::MIN <= v <= i32::MAX
}

/// The map key of a point.
pub open spec fn point_key(p: Point) -> int {
    pair_key(p.x as int, p.y as int)
}

/// Keys of pairs in range fit in a `u64`, and distinct pairs have distinct keys.
pub proof fn lemma_pair_key(x1: int, y1: int, x2: int, y2: int)
    requires
        in_i32(x1),
        in_i32(y1),
        in_i32(x2),
        in_i32(y2),
    ensures
        0 <= pair_key(x1, y1) <= u64::MAX,
        (pair_key(x1, y1) as u64) as int == pair_key(x1, y1),
        pair_key(x1, y1) == pair_key(x2, y2) <==> (x1 == x2 && y1 == y2),
        (pair_key(x1, y1) as u64 == pair_key(x2, y2) as u64) <==> (x1 == x2 && y1 == y2),
{
    let a1 = x1 + 0x8000_0000;
    let b1 = y1 + 0x8000_0000;
    let a2 = x2 + 0x8000_0000;
    let b2 = y2 + 0x8000_0000;
    assert(0 <= a1 * 0x1_0000_0000 + b1 <= u64::MAX) by (nonlinear_arith)
        requires
            0 <= a1 < 0x1_0000_0000,
            0 <= b1 < 0x1_0000_0000,
    ;
    assert(0 <= a2 * 0x1_0000_0000 + b2 <= u64::MAX) by (nonlinear_arith)
        requires
            0 <= a2 < 0x1_0000_0000,
            0 <= b2 < 0x1_0000_0000,
    ;
    if pair_key(x1, y1) == pair_key(x2, y2) {
        assert(a1 == a2 && b1 == b2) by (nonlinear_arith)
            requires
                a1 * 0x1_0000_0000 + b1 == a2 * 0x1_0000_0000 + b2,
                0 <= b1 < 0x1_0000_0000,
                0 <= b2 < 0x1_0000_0000,
        ;
    }
}

/// Two points share a key only when they are the same point.
pub proof fn lemma_point_key_injective(p: Point, q: Point)
    ensures
        point_key(p) == point_key(q) <==> p == q,
        (point_key(p) as u64 == point_key(q) as u64) <==> p == q,
        (point_key(p) as u64) as int == point_key(p),
{
    lemma_pair_key(p.x as int, p.y as int, q.x as int, q.y as int);
}

/// A coordinate is its cell times the edge plus its offset in the cell, and the cell
/// of an `i32` coordinate is itself in `i32` range.
pub proof fn lemma_cell_split(a: int, n: int)
    requires
        n > 0,
    ensures
        a == (a / n) * n + a % n,
        0 <= a % n < n,
        in_i32(a) ==> in_i32(a / n),
{
    assert(a == (a / n) * n + a % n && 0 <= a % n < n) by (nonlinear_arith)
        requires
            n > 0,
    ;
    if in_i32(a) {
        assert(in_i32(a / n)) by (nonlinear_arith)
            requires
                n > 0,
                i32::MIN <= a <= i32::MAX,
        ;
    }
}

impl Point {
    pub fn new(x: i32, y: i32) -> (r: Point)
        ensures
            r.x == x,
            r.y == y,
    {
        Point { x, y }
    }

    /// The map key of this point, see [`point_key`].
    pub fn key(&self) -> (r: u64)
        ensures
            r as int == point_key(*self),
    {
        let a = (self.x as i64 + 0x8000_0000i64) as u64;
        let b = (self.y as i64 + 0x8000_0000i64) as u64;
        assert(a * 0x1_0000_0000 + b <= u64::MAX) by (nonlinear_arith)
            requires
                a < 0x1_0000_0000,
                b < 0x1_0000_0000,
        ;
        a * 0x1_0000_0000u64 + b
    }
}

impl Aabb {
    pub open spec fn wf(&self) -> bool {
        self.x_min <= self.x_max && self.y_min <= self.y_max
    }

    pub open spec fn width(&self) -> int {
        self.x_max - self.x_min
    }

    pub open spec fn height(&self) -> int {
        self.y_max - self.y_min
    }

    pub open spec fn contains(&self, p: Point) -> bool {
        self.x_min <= p.x < self.x_max && self.y_min <= p.y < self.y_max
    }

    pub open spec fn bottom_left_spec(&self) -> Point {
        Point { x: self.x_min, y: self.y_min }
    }

    /// The corner with the smallest coordinates.
    pub fn bottom_left(&self) -> (r: Point)
        ensures
            r == self.bottom_left_spec(),
    {
        Point { x: self.x_min, y: self.y_min }
    }
}

/// Division rounded towards negative infinity.
pub fn div_down(a: i32, b: i32) -> (r: i32)
    requires
        b > 0,
    ensures
        r as int == a as int / b as int,
{
    let a64 = a as i64;
    let b64 = b as i64;
    if a64 >= 0 {
        let q = a64 / b64;
        q as i32
    } else {
        let n = -a64;
        let q = (n + b64 - 1) / b64;
        assert(-q == a64 as int / b64 as int) by (nonlinear_arith)
            requires
                n == -a64,
                n > 0,
                b64 > 0,
                q == (n + b64 - 1) / (b64 as int),
        ;
        assert(-q >= i32::MIN) by (nonlinear_arith)
            requires
                -q == a64 as int / b64 as int,
                a64 >= i32::MIN,
                b64 > 0,
        ;
        (-q) as i32
    }
}

/// Division rounded towards positive infinity.
pub fn div_up(a: i32, b: i32) -> (r: i32)
    requires
        b > 0,
    ensures
        r as int == (a as int + b as int - 1) / b as int,
{
    let a64 = a as i64;
    let b64 = b as i64;
    if a64 > 0 {
        let q = (a64 + b64 - 1) / b64;
        assert(q <= i32::MAX) by (nonlinear_arith)
            requires
                q == (a64 + b64 - 1) / (b64 as int),
                0 < a64 <= i32::MAX,
                b64 > 0,
        ;
        q as i32
    } else {
        let n = -a64;
        let q = n / b64;
        assert(-q == (a64 + b64 - 1) as int / b64 as int) by (nonlinear_arith)
            requires
                n == -a64,
                n >= 0,
                b64 > 0,
                q == n / b64,
        ;
        assert(-q >= i32::MIN) by (nonlinear_arith)
            requires
                q == n / b64,
                n <= 0x8000_0000,
                b64 > 0,
        ;
        (-q) as i32
    }
}

/// The cell, in a grid of square cells of edge `size`, that holds `p`.
pub open spec fn spec_cell_of(p: Point, size: int) -> (int, int) {
    (p.x as int / size, p.y as int / size)
}

/// The cell, in a grid of square cells of edge `size`, that holds `p`: both
/// coordinates floor-divided, so that `(-1, -1)` lies in cell `(-1, -1)`.
pub fn cell_of(p: Point, size: i32) -> (r: Point)
    requires
        size > 0,
    ensures
        (r.x as int, r.y as int) == spec_cell_of(p, size as int),
{
    Point { x: div_down(p.x, size), y: div_down(p.y, size) }
}

/// Whatever the edge of the cells, the point `(-1, -1)` lies in cell `(-1, -1)`, not
/// in cell `(0, 0)`.
pub proof fn lemma_minus_one_cell(size: int)
    requires
        size > 0,
    ensures
        spec_cell_of(Point { x: -1i32, y: -1i32 }, size) == (-1int, -1int),
{
    assert((-1int) / size == -1) by (nonlinear_arith)
        requires
            size > 0,
    ;
}

} // verus!
