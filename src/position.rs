use vstd::prelude::*;
use vstd::arithmetic::div_mod::{
    lemma_div_pos_is_pos, lemma_fundamental_div_mod, lemma_fundamental_div_mod_converse,
    lemma_mod_mod, lemma_mod_pos_bound, lemma_multiply_divide_lt,
};
use crate::consts::{CHUNK_AXIS, CHUNK_SIZE, REGION_AXIS, REGION_SIZE, REGION_SPAN, WORLD_AXIS};

verus! {

/// Index of a chunk inside its region.
pub type ChunkId = u64;

/// Index of a region inside the world.
pub type RegionId = u64;

/// The linear index of `(x, y, z)` in a cube of side `axis`.
pub open spec fn linear(x: int, y: int, z: int, axis: int) -> int {
    (z * axis + y) * axis + x
}

/// The coordinates of the linear index `index` in a cube of side `axis`.
pub open spec fn delinear(index: int, axis: int) -> (int, int, int) {
    (index % axis, (index % (axis * axis)) / axis, index / (axis * axis))
}

proof fn lemma_linear_bound(x: int, y: int, z: int, axis: int)
    requires
        0 <= x < axis,
        0 <= y < axis,
        0 <= z < axis,
    ensures
        0 <= z * axis + y < axis * axis,
        0 <= linear(x, y, z, axis) < axis * axis * axis,
{
    assert(0 <= z * axis + y < axis * axis) by (nonlinear_arith)
        requires 0 <= y < axis, 0 <= z < axis;
    assert(0 <= (z * axis + y) * axis + x < axis * axis * axis) by (nonlinear_arith)
        requires 0 <= z * axis + y < axis * axis, 0 <= x < axis;
}

/// Linearizing and then delinearizing gives back the coordinates.
pub proof fn lemma_delinear_linear(x: int, y: int, z: int, axis: int)
    requires
        0 <= x < axis,
        0 <= y < axis,
        0 <= z < axis,
    ensures
        delinear(linear(x, y, z, axis), axis) == (x, y, z),
{
    let n = linear(x, y, z, axis);
    lemma_linear_bound(x, y, z, axis);
    lemma_fundamental_div_mod_converse(n, axis, z * axis + y, x);
    assert(n == z * (axis * axis) + (y * axis + x)) by (nonlinear_arith)
        requires n == (z * axis + y) * axis + x;
    assert(0 <= y * axis + x < axis * axis) by (nonlinear_arith)
        requires 0 <= y < axis, 0 <= x < axis;
    lemma_fundamental_div_mod_converse(n, axis * axis, z, y * axis + x);
    lemma_fundamental_div_mod_converse(y * axis + x, axis, y, x);
}

/// Delinearizing and then linearizing gives back any index inside the cube.
pub proof fn lemma_linear_delinear(index: int, axis: int)
    requires
        0 < axis,
        0 <= index < axis * axis * axis,
    ensures
        ({
            let (x, y, z) = delinear(index, axis);
            &&& 0 <= x < axis
            &&& 0 <= y < axis
            &&& 0 <= z < axis
            &&& linear(x, y, z, axis) == index
        }),
{
    let (x, y, z) = delinear(index, axis);
    let a2 = axis * axis;
    assert(a2 > 0) by (nonlinear_arith) requires axis > 0, a2 == axis * axis;
    let m = index % a2;
    lemma_fundamental_div_mod(index, a2);
    lemma_mod_pos_bound(index, a2);
    lemma_fundamental_div_mod(m, axis);
    lemma_mod_pos_bound(m, axis);
    lemma_mod_mod(index, axis, axis);
    lemma_div_pos_is_pos(m, axis);
    lemma_div_pos_is_pos(index, a2);
    assert(index < a2 * axis) by (nonlinear_arith) requires index < axis * axis * axis, a2 == axis * axis;
    lemma_multiply_divide_lt(index, a2, axis);
    assert(y < axis) by (nonlinear_arith)
        requires m == axis * y + x, 0 <= x, m < axis * axis, axis > 0;
    assert(linear(x, y, z, axis) == index) by (nonlinear_arith)
        requires index == a2 * z + m, m == axis * y + x, a2 == axis * axis;
}

/// Linear index of `pos` in a cube of side `axis`.
pub fn linearize(pos: (u64, u64, u64), axis: u64) -> (r: u64)
    requires
        pos.0 < axis,
        pos.1 < axis,
        pos.2 < axis,
        axis * axis * axis <= u64::MAX,
    ensures
        r == linear(pos.0 as int, pos.1 as int, pos.2 as int, axis as int),
        r < axis * axis * axis,
{
    proof {
        lemma_linear_bound(pos.0 as int, pos.1 as int, pos.2 as int, axis as int);
        assert(axis * axis <= axis * axis * axis) by (nonlinear_arith)
            requires axis > 0;
        assert(pos.2 * axis <= pos.2 * axis + pos.1);
    }
    let row = pos.2 * axis + pos.1;
    proof {
        assert(row * axis <= row * axis + pos.0);
    }
    row * axis + pos.0
}

/// Coordinates of the linear index `index` in a cube of side `axis`.
pub fn delinearize(index: u64, axis: u64) -> (r: (u64, u64, u64))
    requires
        0 < axis,
        axis * axis <= u64::MAX,
    ensures
        (r.0 as int, r.1 as int, r.2 as int) == delinear(index as int, axis as int),
        index < axis * axis * axis ==> {
            &&& r.0 < axis
            &&& r.1 < axis
            &&& r.2 < axis
            &&& linear(r.0 as int, r.1 as int, r.2 as int, axis as int) == index
        },
{
    proof {
        assert(0 < axis * axis) by (nonlinear_arith)
            requires 0 < axis;
        if index < axis * axis * axis {
            lemma_linear_delinear(index as int, axis as int);
        }
    }
    let a2 = axis * axis;
    let mut idx = index;
    let z = idx / a2;
    proof {
        lemma_fundamental_div_mod(index as int, a2 as int);
        lemma_mod_mod(index as int, axis as int, axis as int);
    }
    idx -= z * a2;
    let y = idx / axis;
    let x = idx % axis;
    (x, y, z)
}

/// A cell inside a chunk.
#[derive(Clone, Copy, Debug, Default, PartialEq, Eq, Hash, Structural)]
pub struct ChunkPosition {
    pub x: u64,
    pub y: u64,
    pub z: u64,
}

impl ChunkPosition {
    /// Each coordinate lies in `[0, CHUNK_AXIS)`.
    pub open spec fn is_valid(self) -> bool {
        self.x < CHUNK_AXIS && self.y < CHUNK_AXIS && self.z < CHUNK_AXIS
    }

    /// The linear index of this position at this type's own axis.
    pub open spec fn spec_linear(self) -> int {
        linear(self.x as int, self.y as int, self.z as int, CHUNK_AXIS as int)
    }

    pub fn new(x: u64, y: u64, z: u64) -> (r: Self)
        ensures
            r == (Self { x, y, z }),
    {
        Self { x, y, z }
    }

    pub fn linearize(self) -> (r: u64)
        requires
            self.is_valid(),
        ensures
            r == self.spec_linear(),
            r < CHUNK_AXIS * CHUNK_AXIS * CHUNK_AXIS,
    {
        proof {
            lemma_linear_bound(self.x as int, self.y as int, self.z as int, CHUNK_AXIS as int);
        }
        linearize((self.x, self.y, self.z), CHUNK_AXIS)
    }

    pub fn delinearize(index: u64) -> (r: Self)
        ensures
            (r.x as int, r.y as int, r.z as int) == delinear(index as int, CHUNK_AXIS as int),
            index < CHUNK_AXIS * CHUNK_AXIS * CHUNK_AXIS ==> r.is_valid() && r.spec_linear() == index,
    {
        let (x, y, z) = delinearize(index, CHUNK_AXIS);
        proof {
            if index < CHUNK_AXIS * CHUNK_AXIS * CHUNK_AXIS {
                lemma_linear_delinear(index as int, CHUNK_AXIS as int);
            }
        }
        Self { x, y, z }
    }

    /// Component-wise sum.
    pub fn add(self, o: Self) -> (r: Self)
        requires
            self.x + o.x <= u64::MAX && self.y + o.y <= u64::MAX && self.z + o.z <= u64::MAX,
        ensures
            r.x == self.x + o.x,
            r.y == self.y + o.y,
            r.z == self.z + o.z,
    {
        Self { x: self.x + o.x, y: self.y + o.y, z: self.z + o.z }
    }

    /// Component-wise difference.
    pub fn sub(self, o: Self) -> (r: Self)
        requires
            self.x >= o.x && self.y >= o.y && self.z >= o.z,
        ensures
            r.x == self.x - o.x,
            r.y == self.y - o.y,
            r.z == self.z - o.z,
    {
        Self { x: self.x - o.x, y: self.y - o.y, z: self.z - o.z }
    }

    /// Component-wise product.
    pub fn mul(self, o: Self) -> (r: Self)
        requires
            self.x * o.x <= u64::MAX && self.y * o.y <= u64::MAX && self.z * o.z <= u64::MAX,
        ensures
            r.x == self.x * o.x,
            r.y == self.y * o.y,
            r.z == self.z * o.z,
    {
        Self { x: self.x * o.x, y: self.y * o.y, z: self.z * o.z }
    }

    /// Component-wise Euclidean quotient.
    pub fn div(self, o: Self) -> (r: Self)
        requires
            o.x > 0 && o.y > 0 && o.z > 0,
        ensures
            r.x == self.x / o.x,
            r.y == self.y / o.y,
            r.z == self.z / o.z,
    {
        Self { x: self.x / o.x, y: self.y / o.y, z: self.z / o.z }
    }

    /// Component-wise Euclidean remainder.
    pub fn rem(self, o: Self) -> (r: Self)
        requires
            o.x > 0 && o.y > 0 && o.z > 0,
        ensures
            r.x == self.x % o.x,
            r.y == self.y % o.y,
            r.z == self.z % o.z,
    {
        Self { x: self.x % o.x, y: self.y % o.y, z: self.z % o.z }
    }

    /// Adds `k` to each coordinate.
    pub fn add_scalar(self, k: u64) -> (r: Self)
        requires
            self.x + k <= u64::MAX && self.y + k <= u64::MAX && self.z + k <= u64::MAX,
        ensures
            r.x == self.x + k,
            r.y == self.y + k,
            r.z == self.z + k,
    {
        Self { x: self.x + k, y: self.y + k, z: self.z + k }
    }

    /// Subtracts `k` from each coordinate.
    pub fn sub_scalar(self, k: u64) -> (r: Self)
        requires
            self.x >= k && self.y >= k && self.z >= k,
        ensures
            r.x == self.x - k,
            r.y == self.y - k,
            r.z == self.z - k,
    {
        Self { x: self.x - k, y: self.y - k, z: self.z - k }
    }

    /// Multiplies each coordinate by `k`.
    pub fn mul_scalar(self, k: u64) -> (r: Self)
        requires
            self.x * k <= u64::MAX && self.y * k <= u64::MAX && self.z * k <= u64::MAX,
        ensures
            r.x == self.x * k,
            r.y == self.y * k,
            r.z == self.z * k,
    {
        Self { x: self.x * k, y: self.y * k, z: self.z * k }
    }

    /// Euclidean quotient of each coordinate by `k`.
    pub fn div_scalar(self, k: u64) -> (r: Self)
        requires
            k > 0,
        ensures
            r.x == self.x / k,
            r.y == self.y / k,
            r.z == self.z / k,
    {
        Self { x: self.x / k, y: self.y / k, z: self.z / k }
    }

    /// Euclidean remainder of each coordinate by `k`.
    pub fn rem_scalar(self, k: u64) -> (r: Self)
        requires
            k > 0,
        ensures
            r.x == self.x % k,
            r.y == self.y % k,
            r.z == self.z % k,
    {
        Self { x: self.x % k, y: self.y % k, z: self.z % k }
    }

    /// The region-local position of this cell when it lies in chunk `index`.
    pub fn to_region_pos(self, index: ChunkId) -> (r: RegionPosition)
        requires
            self.is_valid(),
            index < REGION_SIZE,
        ensures
            r.is_valid(),
            (r.x as int, r.y as int, r.z as int) == ({
                let c = delinear(index as int, REGION_AXIS as int);
                (c.0 * CHUNK_AXIS + self.x, c.1 * CHUNK_AXIS + self.y, c.2 * CHUNK_AXIS + self.z)
            }),
    {
        let (cx, cy, cz) = delinearize(index, REGION_AXIS);
        proof {
            lemma_linear_delinear(index as int, REGION_AXIS as int);
        }
        RegionPosition { x: cx * CHUNK_AXIS + self.x, y: cy * CHUNK_AXIS + self.y, z: cz * CHUNK_AXIS + self.z }
    }
}

/// A cell inside a region.
#[derive(Clone, Copy, Debug, Default, PartialEq, Eq, Hash, Structural)]
pub struct RegionPosition {
    pub x: u64,
    pub y: u64,
    pub z: u64,
}

impl RegionPosition {
    /// Each coordinate lies in `[0, REGION_SPAN)`.
    pub open spec fn is_valid(self) -> bool {
        self.x < REGION_SPAN && self.y < REGION_SPAN && self.z < REGION_SPAN
    }

    /// The linear index of this position at this type's own axis.
    pub open spec fn spec_linear(self) -> int {
        linear(self.x as int, self.y as int, self.z as int, REGION_SPAN as int)
    }

    pub fn new(x: u64, y: u64, z: u64) -> (r: Self)
        ensures
            r == (Self { x, y, z }),
    {
        Self { x, y, z }
    }

    pub fn linearize(self) -> (r: u64)
        requires
            self.is_valid(),
        ensures
            r == self.spec_linear(),
            r < REGION_SPAN * REGION_SPAN * REGION_SPAN,
    {
        proof {
            lemma_linear_bound(self.x as int, self.y as int, self.z as int, REGION_SPAN as int);
        }
        linearize((self.x, self.y, self.z), REGION_SPAN)
    }

    pub fn delinearize(index: u64) -> (r: Self)
        ensures
            (r.x as int, r.y as int, r.z as int) == delinear(index as int, REGION_SPAN as int),
            index < REGION_SPAN * REGION_SPAN * REGION_SPAN ==> r.is_valid() && r.spec_linear() == index,
    {
        let (x, y, z) = delinearize(index, REGION_SPAN);
        proof {
            if index < REGION_SPAN * REGION_SPAN * REGION_SPAN {
                lemma_linear_delinear(index as int, REGION_SPAN as int);
            }
        }
        Self { x, y, z }
    }

    /// Component-wise sum.
    pub fn add(self, o: Self) -> (r: Self)
        requires
            self.x + o.x <= u64::MAX && self.y + o.y <= u64::MAX && self.z + o.z <= u64::MAX,
        ensures
            r.x == self.x + o.x,
            r.y == self.y + o.y,
            r.z == self.z + o.z,
    {
        Self { x: self.x + o.x, y: self.y + o.y, z: self.z + o.z }
    }

    /// Component-wise difference.
    pub fn sub(self, o: Self) -> (r: Self)
        requires
            self.x >= o.x && self.y >= o.y && self.z >= o.z,
        ensures
            r.x == self.x - o.x,
            r.y == self.y - o.y,
            r.z == self.z - o.z,
    {
        Self { x: self.x - o.x, y: self.y - o.y, z: self.z - o.z }
    }

    /// Component-wise product.
    pub fn mul(self, o: Self) -> (r: Self)
        requires
            self.x * o.x <= u64::MAX && self.y * o.y <= u64::MAX && self.z * o.z <= u64::MAX,
        ensures
            r.x == self.x * o.x,
            r.y == self.y * o.y,
            r.z == self.z * o.z,
    {
        Self { x: self.x * o.x, y: self.y * o.y, z: self.z * o.z }
    }

    /// Component-wise Euclidean quotient.
    pub fn div(self, o: Self) -> (r: Self)
        requires
            o.x > 0 && o.y > 0 && o.z > 0,
        ensures
            r.x == self.x / o.x,
            r.y == self.y / o.y,
            r.z == self.z / o.z,
    {
        Self { x: self.x / o.x, y: self.y / o.y, z: self.z / o.z }
    }

    /// Component-wise Euclidean remainder.
    pub fn rem(self, o: Self) -> (r: Self)
        requires
            o.x > 0 && o.y > 0 && o.z > 0,
        ensures
            r.x == self.x % o.x,
            r.y == self.y % o.y,
            r.z == self.z % o.z,
    {
        Self { x: self.x % o.x, y: self.y % o.y, z: self.z % o.z }
    }

    /// Adds `k` to each coordinate.
    pub fn add_scalar(self, k: u64) -> (r: Self)
        requires
            self.x + k <= u64::MAX && self.y + k <= u64::MAX && self.z + k <= u64::MAX,
        ensures
            r.x == self.x + k,
            r.y == self.y + k,
            r.z == self.z + k,
    {
        Self { x: self.x + k, y: self.y + k, z: self.z + k }
    }

    /// Subtracts `k` from each coordinate.
    pub fn sub_scalar(self, k: u64) -> (r: Self)
        requires
            self.x >= k && self.y >= k && self.z >= k,
        ensures
            r.x == self.x - k,
            r.y == self.y - k,
            r.z == self.z - k,
    {
        Self { x: self.x - k, y: self.y - k, z: self.z - k }
    }

    /// Multiplies each coordinate by `k`.
    pub fn mul_scalar(self, k: u64) -> (r: Self)
        requires
            self.x * k <= u64::MAX && self.y * k <= u64::MAX && self.z * k <= u64::MAX,
        ensures
            r.x == self.x * k,
            r.y == self.y * k,
            r.z == self.z * k,
    {
        Self { x: self.x * k, y: self.y * k, z: self.z * k }
    }

    /// Euclidean quotient of each coordinate by `k`.
    pub fn div_scalar(self, k: u64) -> (r: Self)
        requires
            k > 0,
        ensures
            r.x == self.x / k,
            r.y == self.y / k,
            r.z == self.z / k,
    {
        Self { x: self.x / k, y: self.y / k, z: self.z / k }
    }

    /// Euclidean remainder of each coordinate by `k`.
    pub fn rem_scalar(self, k: u64) -> (r: Self)
        requires
            k > 0,
        ensures
            r.x == self.x % k,
            r.y == self.y % k,
            r.z == self.z % k,
    {
        Self { x: self.x % k, y: self.y % k, z: self.z % k }
    }

    /// The id of the chunk that holds this cell.
    pub open spec fn spec_chunk_id(self) -> int {
        linear((self.x / CHUNK_AXIS) as int, (self.y / CHUNK_AXIS) as int, (self.z / CHUNK_AXIS) as int, REGION_AXIS as int)
    }

    /// The linear index of this cell inside its chunk.
    pub open spec fn spec_local(self) -> int {
        linear((self.x % CHUNK_AXIS) as int, (self.y % CHUNK_AXIS) as int, (self.z % CHUNK_AXIS) as int, CHUNK_AXIS as int)
    }

    /// The id of the chunk that holds this cell.
    pub fn to_chunk_id(self) -> (r: ChunkId)
        requires
            self.is_valid(),
        ensures
            r == self.spec_chunk_id(),
            r < REGION_SIZE,
    {
        let c = self.div_scalar(CHUNK_AXIS);
        proof {
            lemma_linear_bound(c.x as int, c.y as int, c.z as int, REGION_AXIS as int);
        }
        linearize((c.x, c.y, c.z), REGION_AXIS)
    }

    /// The position of this cell inside its chunk.
    pub fn to_chunk_pos(self) -> (r: ChunkPosition)
        ensures
            r.is_valid(),
            r.x == self.x % CHUNK_AXIS,
            r.y == self.y % CHUNK_AXIS,
            r.z == self.z % CHUNK_AXIS,
            r.spec_linear() == self.spec_local(),
    {
        let c = self.rem_scalar(CHUNK_AXIS);
        ChunkPosition { x: c.x, y: c.y, z: c.z }
    }
}

/// The region coordinate, along one axis, of the world coordinate `c`.
pub open spec fn region_coord(c: int) -> int {
    c / (REGION_SPAN as int) + (WORLD_AXIS / 2) as int
}

/// A cell of the world.
#[derive(Clone, Copy, Debug, Default, PartialEq, Eq, Hash, Structural)]
pub struct GlobalPosition {
    pub x: i64,
    pub y: i64,
    pub z: i64,
}

impl GlobalPosition {
    /// The cell lies in a region of the world.
    pub open spec fn in_world(self) -> bool {
        &&& 0 <= region_coord(self.x as int) < WORLD_AXIS
        &&& 0 <= region_coord(self.y as int) < WORLD_AXIS
        &&& 0 <= region_coord(self.z as int) < WORLD_AXIS
    }

    /// The id of the region that holds this cell.
    pub open spec fn spec_region_id(self) -> int {
        linear(region_coord(self.x as int), region_coord(self.y as int), region_coord(self.z as int), WORLD_AXIS as int)
    }

    pub fn new(x: i64, y: i64, z: i64) -> (r: Self)
        ensures
            r == (Self { x, y, z }),
    {
        Self { x, y, z }
    }

    /// Component-wise sum.
    pub fn add(self, o: Self) -> (r: Self)
        requires
            i64::MIN <= self.x + o.x <= i64::MAX,
            i64::MIN <= self.y + o.y <= i64::MAX,
            i64::MIN <= self.z + o.z <= i64::MAX,
        ensures
            r.x == self.x + o.x,
            r.y == self.y + o.y,
            r.z == self.z + o.z,
    {
        Self { x: self.x + o.x, y: self.y + o.y, z: self.z + o.z }
    }

    /// Component-wise difference.
    pub fn sub(self, o: Self) -> (r: Self)
        requires
            i64::MIN <= self.x - o.x <= i64::MAX,
            i64::MIN <= self.y - o.y <= i64::MAX,
            i64::MIN <= self.z - o.z <= i64::MAX,
        ensures
            r.x == self.x - o.x,
            r.y == self.y - o.y,
            r.z == self.z - o.z,
    {
        Self { x: self.x - o.x, y: self.y - o.y, z: self.z - o.z }
    }

    /// Component-wise product.
    pub fn mul(self, o: Self) -> (r: Self)
        requires
            i64::MIN <= self.x * o.x <= i64::MAX,
            i64::MIN <= self.y * o.y <= i64::MAX,
            i64::MIN <= self.z * o.z <= i64::MAX,
        ensures
            r.x == self.x * o.x,
            r.y == self.y * o.y,
            r.z == self.z * o.z,
    {
        Self { x: self.x * o.x, y: self.y * o.y, z: self.z * o.z }
    }

    /// Component-wise Euclidean quotient.
    pub fn div(self, o: Self) -> (r: Self)
        requires
            o.x != 0,
            i64::MIN <= self.x / o.x <= i64::MAX,
            o.y != 0,
            i64::MIN <= self.y / o.y <= i64::MAX,
            o.z != 0,
            i64::MIN <= self.z / o.z <= i64::MAX,
        ensures
            r.x == self.x / o.x,
            r.y == self.y / o.y,
            r.z == self.z / o.z,
    {
        Self { x: self.x.checked_div_euclid(o.x).unwrap(), y: self.y.checked_div_euclid(o.y).unwrap(), z: self.z.checked_div_euclid(o.z).unwrap() }
    }

    /// Component-wise Euclidean remainder.
    pub fn rem(self, o: Self) -> (r: Self)
        requires
            o.x != 0,
            !(self.x == i64::MIN && o.x == -1),
            o.y != 0,
            !(self.y == i64::MIN && o.y == -1),
            o.z != 0,
            !(self.z == i64::MIN && o.z == -1),
        ensures
            r.x == self.x % o.x,
            r.y == self.y % o.y,
            r.z == self.z % o.z,
    {
        Self { x: self.x.checked_rem_euclid(o.x).unwrap(), y: self.y.checked_rem_euclid(o.y).unwrap(), z: self.z.checked_rem_euclid(o.z).unwrap() }
    }

    /// Adds `k` to each coordinate.
    pub fn add_scalar(self, k: i64) -> (r: Self)
        requires
            i64::MIN <= self.x + k <= i64::MAX,
            i64::MIN <= self.y + k <= i64::MAX,
            i64::MIN <= self.z + k <= i64::MAX,
        ensures
            r.x == self.x + k,
            r.y == self.y + k,
            r.z == self.z + k,
    {
        Self { x: self.x + k, y: self.y + k, z: self.z + k }
    }

    /// Subtracts `k` from each coordinate.
    pub fn sub_scalar(self, k: i64) -> (r: Self)
        requires
            i64::MIN <= self.x - k <= i64::MAX,
            i64::MIN <= self.y - k <= i64::MAX,
            i64::MIN <= self.z - k <= i64::MAX,
        ensures
            r.x == self.x - k,
            r.y == self.y - k,
            r.z == self.z - k,
    {
        Self { x: self.x - k, y: self.y - k, z: self.z - k }
    }

    /// Multiplies each coordinate by `k`.
    pub fn mul_scalar(self, k: i64) -> (r: Self)
        requires
            i64::MIN <= self.x * k <= i64::MAX,
            i64::MIN <= self.y * k <= i64::MAX,
            i64::MIN <= self.z * k <= i64::MAX,
        ensures
            r.x == self.x * k,
            r.y == self.y * k,
            r.z == self.z * k,
    {
        Self { x: self.x * k, y: self.y * k, z: self.z * k }
    }

    /// Euclidean quotient of each coordinate by `k`.
    pub fn div_scalar(self, k: i64) -> (r: Self)
        requires
            k != 0,
            i64::MIN <= self.x / k <= i64::MAX,
            i64::MIN <= self.y / k <= i64::MAX,
            i64::MIN <= self.z / k <= i64::MAX,
        ensures
            r.x == self.x / k,
            r.y == self.y / k,
            r.z == self.z / k,
    {
        Self { x: self.x.checked_div_euclid(k).unwrap(), y: self.y.checked_div_euclid(k).unwrap(), z: self.z.checked_div_euclid(k).unwrap() }
    }

    /// Euclidean remainder of each coordinate by `k`.
    pub fn rem_scalar(self, k: i64) -> (r: Self)
        requires
            k != 0,
            !(self.x == i64::MIN && k == -1),
            !(self.y == i64::MIN && k == -1),
            !(self.z == i64::MIN && k == -1),
        ensures
            r.x == self.x % k,
            r.y == self.y % k,
            r.z == self.z % k,
    {
        Self { x: self.x.checked_rem_euclid(k).unwrap(), y: self.y.checked_rem_euclid(k).unwrap(), z: self.z.checked_rem_euclid(k).unwrap() }
    }

    /// Whether the cell lies in a region of the world.
    pub fn is_in_world(self) -> (r: bool)
        ensures
            r == self.in_world(),
    {
        let c = self.div_scalar(REGION_SPAN as i64);
        let half = (WORLD_AXIS / 2) as i64;
        -half <= c.x && c.x < half && -half <= c.y && c.y < half && -half <= c.z && c.z < half
    }

    /// The id of the region that holds this cell.
    pub fn to_region_id(self) -> (r: RegionId)
        requires
            self.in_world(),
        ensures
            r == self.spec_region_id(),
    {
        let c = self.div_scalar(REGION_SPAN as i64);
        let half = (WORLD_AXIS / 2) as i64;
        let x = (c.x + half) as u64;
        let y = (c.y + half) as u64;
        let z = (c.z + half) as u64;
        linearize((x, y, z), WORLD_AXIS)
    }

    /// The position of this cell inside its region.
    pub fn to_region_pos(self) -> (r: RegionPosition)
        ensures
            r.is_valid(),
            r.x == (self.x as int) % (REGION_SPAN as int),
            r.y == (self.y as int) % (REGION_SPAN as int),
            r.z == (self.z as int) % (REGION_SPAN as int),
    {
        let c = self.rem_scalar(REGION_SPAN as i64);
        RegionPosition { x: c.x as u64, y: c.y as u64, z: c.z as u64 }
    }
}

/// Linearizing a valid chunk position and delinearizing the index gives the
/// position back.
pub proof fn lemma_chunk_position_round_trip(p: ChunkPosition)
    requires
        p.is_valid(),
    ensures
        delinear(p.spec_linear(), CHUNK_AXIS as int) == (p.x as int, p.y as int, p.z as int),
        0 <= p.spec_linear() < CHUNK_SIZE,
{
    lemma_delinear_linear(p.x as int, p.y as int, p.z as int, CHUNK_AXIS as int);
    lemma_linear_bound(p.x as int, p.y as int, p.z as int, CHUNK_AXIS as int);
}

/// Linearizing a valid region position and delinearizing the index gives the
/// position back.
pub proof fn lemma_region_position_round_trip(p: RegionPosition)
    requires
        p.is_valid(),
    ensures
        delinear(p.spec_linear(), REGION_SPAN as int) == (p.x as int, p.y as int, p.z as int),
        0 <= p.spec_linear() < REGION_SPAN * REGION_SPAN * REGION_SPAN,
{
    lemma_delinear_linear(p.x as int, p.y as int, p.z as int, REGION_SPAN as int);
    lemma_linear_bound(p.x as int, p.y as int, p.z as int, REGION_SPAN as int);
}

/// A cell of a region is fixed by its chunk and its place in that chunk.
pub proof fn lemma_chunk_and_local_identify(p: RegionPosition, q: RegionPosition)
    requires
        p.is_valid(),
        q.is_valid(),
        p.spec_chunk_id() == q.spec_chunk_id(),
        p.spec_local() == q.spec_local(),
    ensures
        p == q,
{
    let a = CHUNK_AXIS as int;
    let b = REGION_AXIS as int;
    assert((p.x / CHUNK_AXIS) < REGION_AXIS && (p.y / CHUNK_AXIS) < REGION_AXIS && (p.z / CHUNK_AXIS) < REGION_AXIS);
    assert((q.x / CHUNK_AXIS) < REGION_AXIS && (q.y / CHUNK_AXIS) < REGION_AXIS && (q.z / CHUNK_AXIS) < REGION_AXIS);
    lemma_delinear_linear((p.x / CHUNK_AXIS) as int, (p.y / CHUNK_AXIS) as int, (p.z / CHUNK_AXIS) as int, b);
    lemma_delinear_linear((q.x / CHUNK_AXIS) as int, (q.y / CHUNK_AXIS) as int, (q.z / CHUNK_AXIS) as int, b);
    lemma_delinear_linear((p.x % CHUNK_AXIS) as int, (p.y % CHUNK_AXIS) as int, (p.z % CHUNK_AXIS) as int, a);
    lemma_delinear_linear((q.x % CHUNK_AXIS) as int, (q.y % CHUNK_AXIS) as int, (q.z % CHUNK_AXIS) as int, a);
    lemma_fundamental_div_mod(p.x as int, a);
    lemma_fundamental_div_mod(p.y as int, a);
    lemma_fundamental_div_mod(p.z as int, a);
    lemma_fundamental_div_mod(q.x as int, a);
    lemma_fundamental_div_mod(q.y as int, a);
    lemma_fundamental_div_mod(q.z as int, a);
}

/// The chunk id and the chunk-local index of a cell lie in range.
pub proof fn lemma_chunk_indices(p: RegionPosition)
    requires
        p.is_valid(),
    ensures
        0 <= p.spec_chunk_id() < REGION_SIZE,
        0 <= p.spec_local() < CHUNK_SIZE,
{
    lemma_linear_bound((p.x / CHUNK_AXIS) as int, (p.y / CHUNK_AXIS) as int, (p.z / CHUNK_AXIS) as int, REGION_AXIS as int);
    lemma_linear_bound((p.x % CHUNK_AXIS) as int, (p.y % CHUNK_AXIS) as int, (p.z % CHUNK_AXIS) as int, CHUNK_AXIS as int);
}

} // verus!
