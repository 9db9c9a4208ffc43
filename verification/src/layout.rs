//! Capacities of the simulation buffers and the size of the data textures
//! that hold one row of texels per person, road segment or building.

use vstd::prelude::*;

verus! {

pub const MAX_PEOPLE: u32 = 524288;
pub const MAX_BUILDINGS: u32 = 524288;
pub const MAX_SEGMENTS: u32 = 65536;
pub const MAX_PATH_REQUESTS: u32 = 131072;
pub const MAX_PATH_LEN: u32 = 512;
/// Default minimum size for GPU buffers like occupancy or building stats.
pub const MIN_GPU_BUFFER_CAPACITY: u32 = 65536;

pub const PEOPLE_CAPACITY: u32 = 524288;
pub const TEXELS_PER_PERSON: u32 = 2;
pub const ROAD_CAPACITY: u32 = 8192;
pub const TEXELS_PER_SEGMENT: u32 = 2;
pub const BUILDING_CAPACITY: u32 = 524288;
pub const TEXELS_PER_BUILDING: u32 = 3;

/// `s` is the smallest natural number whose square reaches `n`.
pub open spec fn is_ceil_sqrt(n: int, s: int) -> bool {
    &&& s >= 0
    &&& s * s >= n
    &&& (s == 0 || (s - 1) * (s - 1) < n)
}

/// Ceiling of `n / d` for positive `d`.
pub open spec fn ceil_div(n: int, d: int) -> int {
    (n + d - 1) / d
}

/// The smallest `s` with `s * s >= n`.
pub fn ceil_sqrt(n: u32) -> (s: u32)
    ensures
        is_ceil_sqrt(n as int, s as int),
{
    let mut s: u64 = 0;
    loop
        invariant
            s <= 65536,
            s == 0 || (s - 1) * (s - 1) < n,
        ensures
            s <= 65536,
            s * s >= n,
            s == 0 || (s - 1) * (s - 1) < n,
        decreases 65536 - s,
    {
        assert(s * s <= 65536 * 65536) by (nonlinear_arith)
            requires
                s <= 65536,
        ;
        if s * s >= n as u64 {
            break;
        }
        assert(s < 65536) by (nonlinear_arith)
            requires
                s * s < n,
                n <= u32::MAX,
                s <= 65536,
        ;
        s = s + 1;
    }
    s as u32
}

/// Texture layout for `total` texels in rows of `per_item` texels: the
/// width is the ceiling square root rounded up to a multiple of
/// `per_item` (so no item straddles two texture rows), the height is the
/// number of rows needed for `total` texels.
pub fn texture_layout(total: u32, per_item: u32) -> (wh: (u32, u32))
    requires
        total > 0,
        per_item > 0,
        total as int + 65536 + per_item as int * 2 <= u32::MAX,
    ensures
        exists|s: int|
            is_ceil_sqrt(total as int, s) && wh.0 == ceil_div(s, per_item as int) * per_item,
        wh.1 == ceil_div(total as int, wh.0 as int),
        wh.0 > 0,
        wh.0 % per_item == 0,
        wh.0 * wh.1 >= total,
{
    let side = ceil_sqrt(total);
    assert(side <= 65536) by (nonlinear_arith)
        requires
            side == 0 || (side - 1) * (side - 1) < total,
            total <= u32::MAX,
    ;
    assert(side > 0) by (nonlinear_arith)
        requires
            side * side >= total,
            total > 0,
    ;
    let q = (side + per_item - 1) / per_item;
    assert(q >= 1) by (nonlinear_arith)
        requires
            q == (side + per_item - 1) as int / per_item as int,
            side >= 1,
            per_item >= 1,
    ;
    assert(q * per_item <= side + per_item) by (nonlinear_arith)
        requires
            q == (side + per_item - 1) as int / per_item as int,
            per_item > 0,
    ;
    let width = q * per_item;
    assert(width % per_item == 0) by (nonlinear_arith)
        requires
            width == q * per_item,
            per_item > 0,
    ;
    assert(width >= 1) by (nonlinear_arith)
        requires
            width == q * per_item,
            q >= 1,
            per_item >= 1,
    ;
    let height = (total + width - 1) / width;
    assert(width * height >= total) by (nonlinear_arith)
        requires
            height == (total + width - 1) as int / width as int,
            width > 0,
    ;
    (width, height)
}

} // verus!
