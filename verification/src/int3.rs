use vstd::prelude::*;

verus! {

/// Three integer coordinates: a cell or block position, or a grid extent.
#[derive(Clone, Copy, Debug, PartialEq, Eq, Structural)]
pub struct Int3 {
    pub x: i32,
    pub y: i32,
    pub z: i32,
}

impl View for Int3 {
    type V = (int, int, int);

    open spec fn view(&self) -> (int, int, int) {
        (self.x as int, self.y as int, self.z as int)
    }
}

/// Every component is at least zero.
pub open spec fn nonneg3(t: (int, int, int)) -> bool {
    t.0 >= 0 && t.1 >= 0 && t.2 >= 0
}

/// Every component is at least one.
pub open spec fn positive3(t: (int, int, int)) -> bool {
    t.0 > 0 && t.1 > 0 && t.2 > 0
}

/// `t` lies in the box `[0, dims)` component by component.
pub open spec fn within3(t: (int, int, int), dims: (int, int, int)) -> bool {
    0 <= t.0 < dims.0 && 0 <= t.1 < dims.1 && 0 <= t.2 < dims.2
}

/// Component-wise quotient.
pub open spec fn div3(a: (int, int, int), b: (int, int, int)) -> (int, int, int) {
    (a.0 / b.0, a.1 / b.1, a.2 / b.2)
}

/// Component-wise remainder.
pub open spec fn rem3(a: (int, int, int), b: (int, int, int)) -> (int, int, int) {
    (a.0 % b.0, a.1 % b.1, a.2 % b.2)
}

/// Component-wise product.
pub open spec fn mul3(a: (int, int, int), b: (int, int, int)) -> (int, int, int) {
    (a.0 * b.0, a.1 * b.1, a.2 * b.2)
}

/// Component-wise sum.
pub open spec fn add3(a: (int, int, int), b: (int, int, int)) -> (int, int, int) {
    (a.0 + b.0, a.1 + b.1, a.2 + b.2)
}

/// Every component of `t` fits in an `i32`.
pub open spec fn fits_i32_3(t: (int, int, int)) -> bool {
    i32::MIN <= t.0 <= i32::MAX && i32::MIN <= t.1 <= i32::MAX && i32::MIN <= t.2 <= i32::MAX
}

impl Int3 {
    pub fn new(x: i32, y: i32, z: i32) -> (r: Int3)
        ensures
            r@ == (x as int, y as int, z as int),
    {
        Int3 { x, y, z }
    }

    /// Component-wise quotient of non-negative coordinates by a positive extent: on each axis
    /// the whole number of extents that fit in the coordinate.
    pub fn div(self, rhs: Int3) -> (r: Int3)
        requires
            self.x >= 0,
            self.y >= 0,
            self.z >= 0,
            rhs.x > 0,
            rhs.y > 0,
            rhs.z > 0,
        ensures
            r.x == self.x / rhs.x,
            r.y == self.y / rhs.y,
            r.z == self.z / rhs.z,
            r.x * rhs.x <= self.x < r.x * rhs.x + rhs.x,
            r.y * rhs.y <= self.y < r.y * rhs.y + rhs.y,
            r.z * rhs.z <= self.z < r.z * rhs.z + rhs.z,
            r@ == div3(self@, rhs@),
    {
        proof {
            lemma_floor_bounds(self.x as int, rhs.x as int);
            lemma_floor_bounds(self.y as int, rhs.y as int);
            lemma_floor_bounds(self.z as int, rhs.z as int);
        }
        Int3 { x: self.x / rhs.x, y: self.y / rhs.y, z: self.z / rhs.z }
    }

    /// Component-wise remainder of non-negative coordinates by a positive extent: on each axis
    /// what is left of the coordinate after the whole extents.
    pub fn rem(self, rhs: Int3) -> (r: Int3)
        requires
            self.x >= 0,
            self.y >= 0,
            self.z >= 0,
            rhs.x > 0,
            rhs.y > 0,
            rhs.z > 0,
        ensures
            r.x == self.x % rhs.x,
            r.y == self.y % rhs.y,
            r.z == self.z % rhs.z,
            0 <= r.x < rhs.x,
            0 <= r.y < rhs.y,
            0 <= r.z < rhs.z,
            self.x == (self.x / rhs.x) * rhs.x + r.x,
            self.y == (self.y / rhs.y) * rhs.y + r.y,
            self.z == (self.z / rhs.z) * rhs.z + r.z,
            r@ == rem3(self@, rhs@),
    {
        proof {
            lemma_floor_bounds(self.x as int, rhs.x as int);
            lemma_floor_bounds(self.y as int, rhs.y as int);
            lemma_floor_bounds(self.z as int, rhs.z as int);
        }
        Int3 { x: self.x % rhs.x, y: self.y % rhs.y, z: self.z % rhs.z }
    }

    /// Component-wise product; each product must fit in an `i32`.
    pub fn mul(self, rhs: Int3) -> (r: Int3)
        requires
            i32::MIN <= self.x * rhs.x <= i32::MAX,
            i32::MIN <= self.y * rhs.y <= i32::MAX,
            i32::MIN <= self.z * rhs.z <= i32::MAX,
        ensures
            r.x == self.x * rhs.x,
            r.y == self.y * rhs.y,
            r.z == self.z * rhs.z,
            r@ == mul3(self@, rhs@),
    {
        Int3 { x: self.x * rhs.x, y: self.y * rhs.y, z: self.z * rhs.z }
    }
}

/// Law: for `a >= 0` and `d > 0`, the quotient `q = a / d` is the whole number of `d`s in `a`
/// (`q * d <= a < q * d + d`), and the remainder `a % d` is what is left (`a == q * d + a % d`,
/// `0 <= a % d < d`).
pub proof fn lemma_floor_bounds(a: int, d: int)
    requires
        a >= 0,
        d > 0,
    ensures
        (a / d) * d <= a < (a / d) * d + d,
        a == (a / d) * d + a % d,
        0 <= a % d < d,
        a / d >= 0,
{
    vstd::arithmetic::div_mod::lemma_fundamental_div_mod(a, d);
    vstd::arithmetic::div_mod::lemma_mod_pos_bound(a, d);
    vstd::arithmetic::div_mod::lemma_div_pos_is_pos(a, d);
    vstd::arithmetic::mul::lemma_mul_is_commutative(d, a / d);
}

} // verus!
