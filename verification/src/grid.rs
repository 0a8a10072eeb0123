use vstd::prelude::*;

verus! {

/// Grid steps in one unit of length: the radius of the unit sphere.
pub const UNIT: u32 = 1_048_576;

/// A place on the grid: a cell centre, or the target of a point of view.
#[derive(Clone, Copy, Debug)]
pub struct Position {
    pub x: i32,
    pub y: i32,
    pub z: i32,
}

/// The centre of an octree node. Child centres leave the range of a
/// [`Position`] by at most the root's half-width, so they are kept wider.
#[derive(Clone, Copy, Debug)]
pub struct Center {
    pub x: i64,
    pub y: i64,
    pub z: i64,
}

/// The largest value of `|centre| + half_width` along an axis in any node.
pub open spec fn reach_limit() -> int {
    0x2_0000_0000
}

/// The squared distance from `target` to the centre of a node.
pub open spec fn offset_squared(target: Position, center: Center) -> int {
    let dx = target.x - center.x;
    let dy = target.y - center.y;
    let dz = target.z - center.z;
    dx * dx + dy * dy + dz * dz
}

/// The squared distance between two positions.
pub open spec fn distance_squared(a: Position, b: Position) -> int {
    let dx = a.x - b.x;
    let dy = a.y - b.y;
    let dz = a.z - b.z;
    dx * dx + dy * dy + dz * dz
}

/// Computes [`offset_squared`] for a centre within the reach limit.
pub fn offset_squared_of(target: Position, center: Center) -> (r: u128)
    requires
        -reach_limit() <= center.x <= reach_limit(),
        -reach_limit() <= center.y <= reach_limit(),
        -reach_limit() <= center.z <= reach_limit(),
    ensures
        r == offset_squared(target, center),
        r <= 3 * 0x4_0000_0000 * 0x4_0000_0000,
{
    let dx: i128 = target.x as i128 - center.x as i128;
    let dy: i128 = target.y as i128 - center.y as i128;
    let dz: i128 = target.z as i128 - center.z as i128;
    assert(0 <= dx * dx <= 0x4_0000_0000 * 0x4_0000_0000) by (nonlinear_arith)
        requires
            -0x4_0000_0000 <= dx <= 0x4_0000_0000,
    ;
    assert(0 <= dy * dy <= 0x4_0000_0000 * 0x4_0000_0000) by (nonlinear_arith)
        requires
            -0x4_0000_0000 <= dy <= 0x4_0000_0000,
    ;
    assert(0 <= dz * dz <= 0x4_0000_0000 * 0x4_0000_0000) by (nonlinear_arith)
        requires
            -0x4_0000_0000 <= dz <= 0x4_0000_0000,
    ;
    (dx * dx + dy * dy + dz * dz) as u128
}

/// Computes [`distance_squared`].
pub fn distance_squared_of(a: Position, b: Position) -> (r: u128)
    ensures
        r == distance_squared(a, b),
{
    let dx: i128 = a.x as i128 - b.x as i128;
    let dy: i128 = a.y as i128 - b.y as i128;
    let dz: i128 = a.z as i128 - b.z as i128;
    assert(0 <= dx * dx <= 0x1_0000_0000 * 0x1_0000_0000) by (nonlinear_arith)
        requires
            -0x1_0000_0000 <= dx <= 0x1_0000_0000,
    ;
    assert(0 <= dy * dy <= 0x1_0000_0000 * 0x1_0000_0000) by (nonlinear_arith)
        requires
            -0x1_0000_0000 <= dy <= 0x1_0000_0000,
    ;
    assert(0 <= dz * dz <= 0x1_0000_0000 * 0x1_0000_0000) by (nonlinear_arith)
        requires
            -0x1_0000_0000 <= dz <= 0x1_0000_0000,
    ;
    (dx * dx + dy * dy + dz * dz) as u128
}

} // verus!
