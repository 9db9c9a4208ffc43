//! What the GPU simulation does each frame: which compute passes run with
//! how many workgroups of 64 threads, and which cycle each sliced pass is
//! in. The application records the passes as planned here.

use vstd::prelude::*;

use crate::layout::{ceil_div, MAX_PATH_REQUESTS};
use crate::schedule::GpuSimParams;

verus! {

/// Threads per workgroup of every simulation shader.
pub const WORKGROUP_SIZE: u32 = 64;

/// `ceil(n / d)` for positive `d`, without overflow.
pub fn div_ceil(n: u32, d: u32) -> (q: u32)
    requires
        d > 0,
    ensures
        q == ceil_div(n as int, d as int),
{
    let q0 = n / d;
    let r = n % d;
    proof {
        vstd::arithmetic::div_mod::lemma_fundamental_div_mod(n as int, d as int);
        let k: int = if r > 0 { 1 } else { 0 };
        assert(n + d - 1 == (q0 + k) * d + (r + d - 1 - k * d)) by (nonlinear_arith)
            requires
                n == d * q0 + r,
        ;
        assert(0 <= r + d - 1 - k * d < d);
        vstd::arithmetic::div_mod::lemma_div_multiples_vanish_fancy(q0 + k, r + d - 1 - k * d, d as int);
        if r > 0 {
            assert(q0 < u32::MAX) by (nonlinear_arith)
                requires
                    n == d * q0 + r,
                    r >= 1,
                    d >= 1,
                    n <= u32::MAX,
            ;
        }
    }
    if r > 0 {
        q0 + 1
    } else {
        q0
    }
}

/// Workgroups needed to give each of `n` items one thread.
pub fn workgroups(n: u32) -> (w: u32)
    ensures
        w == ceil_div(n as int, 64),
{
    div_ceil(n, WORKGROUP_SIZE)
}

/// `ceil(n / 64)` workgroups give every one of `n` items a thread and
/// leave no workgroup without an item.
pub proof fn lemma_workgroups_cover(n: int)
    requires
        n >= 0,
    ensures
        ceil_div(n, 64) * 64 >= n,
        n > 0 ==> (ceil_div(n, 64) - 1) * 64 < n,
{
}

/// The passes of one simulation frame. `None` is a pass that is skipped.
#[derive(Clone, Copy, Debug, PartialEq, Eq)]
pub struct DispatchPlan {
    /// Occupancy garbage collection: workgroups over the whole grid to clear
    /// it, and over the people to re-populate it (not dispatched when 0).
    pub occupancy_gc: Option<(u32, u32)>,
    /// First slice of a recount: recalibrate the live counters and clear the
    /// building statistics.
    pub recalibrate: bool,
    pub recount: Option<u32>,
    pub spawn: Option<u32>,
    /// Movement and car-transform passes, one thread per person.
    pub movement: Option<u32>,
    /// Clearing the car-transform texture, one thread per car slot.
    pub car_clear: Option<u32>,
    pub logic: Option<u32>,
    pub buildings: Option<u32>,
    pub roads: Option<u32>,
    /// `(slice, slices)` of the recount, counted from 1.
    pub recount_cycle: Option<(u32, u32)>,
    /// `(window, windows)` of the logic, building and road passes.
    pub logic_cycle: Option<(u32, u32)>,
    pub bldg_cycle: Option<(u32, u32)>,
    pub road_cycle: Option<(u32, u32)>,
    /// Copy the statistics block into the readback buffer.
    pub copy_stats: bool,
}

/// `Some(ceil(n / 64))` when `n > 0`, else no dispatch.
pub open spec fn dispatch_for(n: int) -> Option<u32> {
    if n > 0 {
        Some(ceil_div(n, 64) as u32)
    } else {
        None
    }
}

/// Workgroups of the sliced recount: each slice covers
/// `ceil(people / slices)` people, 64 people per thread.
pub open spec fn recount_groups(people: int, slices: int) -> int {
    ceil_div(ceil_div(ceil_div(people, slices), 64), 64)
}

/// Which window of `count` items starting at `start` this is (counted from
/// 1), out of how many windows cover `total` items.
pub open spec fn cycle_of(start: int, count: int, total: int) -> (u32, u32) {
    ((start / count + 1) as u32, ceil_div(total, count) as u32)
}

/// The plan the parameters call for.
pub open spec fn spec_plan(p: GpuSimParams) -> DispatchPlan {
    let slices: int = if p.recount_slice_count > 0 { p.recount_slice_count as int } else { 1 };
    DispatchPlan {
        occupancy_gc: if p.do_occupancy_gc > 0 {
            Some((ceil_div(p.grid_w * p.grid_h, 64) as u32, ceil_div(p.people_count as int, 64) as u32))
        } else {
            None
        },
        recalibrate: p.recount_slice == 0,
        recount: if p.people_count > 0 {
            Some(recount_groups(p.people_count as int, slices) as u32)
        } else {
            None
        },
        spawn: dispatch_for(p.spawn_count as int),
        movement: dispatch_for(p.people_count as int),
        car_clear: dispatch_for(p.car_capacity as int),
        logic: dispatch_for(p.logic_count as int),
        buildings: dispatch_for(p.b_count as int),
        roads: dispatch_for(p.r_count as int),
        recount_cycle: if p.people_count > 0 {
            Some(((p.recount_slice + 1) as u32, slices as u32))
        } else {
            None
        },
        logic_cycle: if p.logic_count > 0 {
            Some(cycle_of(p.logic_start as int, p.logic_count as int, p.people_count as int))
        } else {
            None
        },
        bldg_cycle: if p.b_count > 0 {
            Some(cycle_of(p.b_start as int, p.b_count as int, p.buildings_count as int))
        } else {
            None
        },
        road_cycle: if p.r_count > 0 {
            Some(cycle_of(p.r_start as int, p.r_count as int, p.segments_count as int))
        } else {
            None
        },
        copy_stats: p.do_stats_readback > 0,
    }
}

/// The pass over one window of `count` items: none for an empty window,
/// otherwise just enough 64-thread workgroups to cover the window.
proof fn lemma_dispatch_covers(count: u32)
    ensures
        (dispatch_for(count as int) is None) == (count == 0),
        dispatch_for(count as int) matches Some(g) ==> g * 64 >= count && (g - 1) * 64 < count,
{
    if count > 0 {
        let g = ceil_div(count as int, 64);
        assert(g * 64 >= count && (g - 1) * 64 < count && g <= count) by (nonlinear_arith)
            requires
                g == (count + 63) / 64,
                count >= 1,
        ;
    }
}

/// The sliced passes (buildings, people logic, roads) run over this frame's
/// slice alone: a pass is dispatched exactly when its slice is not empty,
/// with just enough 64-thread workgroups to cover the slice, whatever the
/// total number of items.
pub proof fn lemma_sliced_passes_cover_their_slice(p: GpuSimParams)
    ensures
        (spec_plan(p).buildings is None) == (p.b_count == 0),
        spec_plan(p).buildings matches Some(g) ==> g * 64 >= p.b_count && (g - 1) * 64 < p.b_count,
        (spec_plan(p).logic is None) == (p.logic_count == 0),
        spec_plan(p).logic matches Some(g) ==> g * 64 >= p.logic_count && (g - 1) * 64 < p.logic_count,
        (spec_plan(p).roads is None) == (p.r_count == 0),
        spec_plan(p).roads matches Some(g) ==> g * 64 >= p.r_count && (g - 1) * 64 < p.r_count,
{
    lemma_dispatch_covers(p.b_count);
    lemma_dispatch_covers(p.logic_count);
    lemma_dispatch_covers(p.r_count);
}

/// `Some(workgroups(n))` for `n > 0`.
fn dispatch_if(n: u32) -> (d: Option<u32>)
    ensures
        d == dispatch_for(n as int),
{
    if n > 0 {
        Some(workgroups(n))
    } else {
        None
    }
}

/// The window cycle of a sliced pass with a nonzero window.
fn cycle(start: u32, count: u32, total: u32) -> (c: (u32, u32))
    requires
        count > 0,
        start / count < u32::MAX,
    ensures
        c == cycle_of(start as int, count as int, total as int),
{
    proof {
        assert(ceil_div(total as int, count as int) <= total) by (nonlinear_arith)
            requires
                count >= 1,
        {
            assert(total + count - 1 < (total + 1) * count);
            vstd::arithmetic::div_mod::lemma_div_is_ordered((total + count - 1) as int, ((total + 1) * count - 1) as int, count as int);
        }
    }
    (start / count + 1, div_ceil(total, count))
}

/// Plans one frame of the GPU simulation from its parameters (what the
/// render node does each frame, apart from recording the passes).
///
/// The grid, each slice of people, and the window starts must be such that
/// the arithmetic stays in `u32`: the grid has fewer than `2^32`
/// tiles and the recount slice is not the last `u32`.
pub fn plan_dispatch(params: &GpuSimParams) -> (plan: DispatchPlan)
    requires
        params.grid_w * params.grid_h <= u32::MAX,
        params.recount_slice < u32::MAX,
        params.logic_count > 0 ==> params.logic_start / params.logic_count < u32::MAX,
        params.b_count > 0 ==> params.b_start / params.b_count < u32::MAX,
        params.r_count > 0 ==> params.r_start / params.r_count < u32::MAX,
    ensures
        plan == spec_plan(*params),
{
    let slices: u32 = if params.recount_slice_count > 0 {
        params.recount_slice_count
    } else {
        1
    };
    let occupancy_gc = if params.do_occupancy_gc > 0 {
        let tiles = params.grid_w * params.grid_h;
        Some((workgroups(tiles), workgroups(params.people_count)))
    } else {
        None
    };
    let (recount, recount_cycle) = if params.people_count > 0 {
        let slice_size = div_ceil(params.people_count, slices);
        let threads = div_ceil(slice_size, 64);
        (Some(workgroups(threads)), Some((params.recount_slice + 1, slices)))
    } else {
        (None, None)
    };
    let logic_cycle = if params.logic_count > 0 {
        Some(cycle(params.logic_start, params.logic_count, params.people_count))
    } else {
        None
    };
    let bldg_cycle = if params.b_count > 0 {
        Some(cycle(params.b_start, params.b_count, params.buildings_count))
    } else {
        None
    };
    let road_cycle = if params.r_count > 0 {
        Some(cycle(params.r_start, params.r_count, params.segments_count))
    } else {
        None
    };
    DispatchPlan {
        occupancy_gc,
        recalibrate: params.recount_slice == 0,
        recount,
        spawn: dispatch_if(params.spawn_count),
        movement: dispatch_if(params.people_count),
        car_clear: dispatch_if(params.car_capacity),
        logic: dispatch_if(params.logic_count),
        buildings: dispatch_if(params.b_count),
        roads: dispatch_if(params.r_count),
        recount_cycle,
        logic_cycle,
        bldg_cycle,
        road_cycle,
        copy_stats: params.do_stats_readback > 0,
    }
}

/// Texture rows an upload of `byte_len` bytes covers, in a texture `width`
/// texels wide with `texel_bytes` bytes per texel: `ceil(texels / width)`.
pub fn upload_rows(byte_len: usize, texel_bytes: u32, width: u32) -> (rows: u32)
    requires
        texel_bytes > 0,
        width > 0,
        (byte_len as int) / (texel_bytes as int) <= u32::MAX,
    ensures
        rows == ceil_div((byte_len as int) / (texel_bytes as int), width as int),
{
    let texels = (byte_len / (texel_bytes as usize)) as u32;
    div_ceil(texels, width)
}

/// Pads `bytes` with zeros to a whole number of texture rows of
/// `row_bytes` bytes (the GPU takes whole rows only).
pub fn pad_to_rows(bytes: &mut Vec<u8>, row_bytes: usize)
    requires
        row_bytes > 0,
        old(bytes)@.len() + row_bytes <= usize::MAX,
    ensures
        (final(bytes)@.len() as int) % (row_bytes as int) == 0,
        old(bytes)@.len() <= final(bytes)@.len() < old(bytes)@.len() + row_bytes,
        old(bytes)@.is_prefix_of(final(bytes)@),
        forall|i: int| old(bytes)@.len() <= i < final(bytes)@.len() ==> #[trigger] final(bytes)@[i] == 0u8,
{
    let ghost b0 = bytes@;
    let rem = bytes.len() % row_bytes;
    if rem != 0 {
        let pad = row_bytes - rem;
        let mut k: usize = 0;
        while k < pad
            invariant
                row_bytes > 0,
                rem == (b0.len() as int) % (row_bytes as int),
                0 < rem < row_bytes,
                pad == row_bytes - rem,
                k <= pad,
                bytes@.len() == b0.len() + k,
                b0.len() + row_bytes <= usize::MAX,
                b0.is_prefix_of(bytes@),
                forall|i: int| b0.len() <= i < bytes@.len() ==> #[trigger] bytes@[i] == 0u8,
            decreases pad - k,
        {
            bytes.push(0u8);
            k = k + 1;
        }
        proof {
            assert((b0.len() + (row_bytes - rem)) as int % (row_bytes as int) == 0) by (nonlinear_arith)
                requires
                    row_bytes > 0,
                    rem == (b0.len() as int) % (row_bytes as int),
            {
                vstd::arithmetic::div_mod::lemma_fundamental_div_mod(b0.len() as int, row_bytes as int);
                let q = b0.len() as int / row_bytes as int;
                assert(b0.len() + (row_bytes - rem) == (q + 1) * row_bytes);
                vstd::arithmetic::div_mod::lemma_mod_multiples_basic(q + 1, row_bytes as int);
            }
        }
    } else {
        proof {
            assert(b0 =~= bytes@.subrange(0, b0.len() as int));
        }
    }
}

/// The header written at the front of the pathfinding queue when the
/// schedule resets it: the number of queued requests (at most
/// `MAX_PATH_REQUESTS`, the request capacity the shaders are given; the
/// first ones of the `pending` CPU requests are copied behind the header),
/// then the indirect dispatch size `1, 1` and a zero. No header is written on other frames.
pub fn path_queue_header(pending: usize, reset_path_queue: u32) -> (h: Option<[u32; 4]>)
    ensures
        reset_path_queue != 1 ==> h is None,
        reset_path_queue == 1 ==> (h matches Some(a) && a@ == seq![
            (if pending < MAX_PATH_REQUESTS { pending as u32 } else { MAX_PATH_REQUESTS }),
            1u32,
            1u32,
            0u32,
        ]),
{
    if reset_path_queue != 1 {
        return None;
    }
    let count: u32 = if pending < MAX_PATH_REQUESTS as usize {
        pending as u32
    } else {
        MAX_PATH_REQUESTS
    };
    let h = [count, 1u32, 1u32, 0u32];
    proof {
        assert(h@ =~= seq![count, 1u32, 1u32, 0u32]);
    }
    Some(h)
}

/// Which uploads a frame queues, as (people rows, road rows, road points,
/// building rows): the rows of a kind go up when its data is dirty and
/// there is at least one row; the road points go up with the roads when
/// there is at least one point.
pub fn texture_updates_due(
    people_dirty: bool,
    people_len: u32,
    roads_dirty: bool,
    n_segments: usize,
    n_points: usize,
    buildings_dirty: bool,
    n_items: usize,
) -> (flags: (bool, bool, bool, bool))
    ensures
        flags == (people_dirty && people_len > 0, roads_dirty && n_segments > 0, roads_dirty && n_points > 0,
            buildings_dirty && n_items > 0),
{
    (people_dirty && people_len > 0, roads_dirty && n_segments > 0, roads_dirty && n_points > 0, buildings_dirty
        && n_items > 0)
}

} // verus!
