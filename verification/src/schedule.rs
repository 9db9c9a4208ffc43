//! The frame schedule of the GPU simulation: each cycle of frames is split
//! into windows for the buildings pass, the people-logic pass, the roads pass,
//! pathfinding and the statistics read-back; within its window each pass
//! works on one slice of its items per frame.

use vstd::prelude::*;

use crate::buildings::BuildingData;
use crate::grid::CityGrid;
use crate::layout::{MAX_BUILDINGS, MAX_PATH_LEN, MAX_PATH_REQUESTS, MAX_PEOPLE, MAX_SEGMENTS};
use crate::people::{PeopleData, PendingGpuSpawns};
use crate::roads::RoadData;

verus! {

/// Most people the GPU spawn pass initialises per cycle.
pub const SPAWN_BATCH: u32 = 1000;

/// Frames per cycle given to each pass.
#[derive(Clone, Copy, Debug, PartialEq, Eq, Structural)]
pub struct ScheduleConfig {
    pub buildings_frames: u32,
    pub people_logic_frames: u32,
    pub roads_frames: u32,
    pub pathfind_frames: u32,
    pub stats_frames: u32,
}

impl ScheduleConfig {
    /// 10 frames each for buildings, people logic and roads, 59 for
    /// pathfinding, 1 for statistics.
    pub fn new() -> (c: ScheduleConfig)
        ensures
            c == (ScheduleConfig {
                buildings_frames: 10,
                people_logic_frames: 10,
                roads_frames: 10,
                pathfind_frames: 59,
                stats_frames: 1,
            }),
    {
        ScheduleConfig {
            buildings_frames: 10,
            people_logic_frames: 10,
            roads_frames: 10,
            pathfind_frames: 59,
            stats_frames: 1,
        }
    }

    pub open spec fn total(&self) -> int {
        self.buildings_frames + self.people_logic_frames + self.roads_frames + self.pathfind_frames
            + self.stats_frames
    }
}

/// Position in the cycle.
pub struct SimScheduleState {
    pub config: ScheduleConfig,
    pub current_frame: u32,
    pub cycle_frames: u32,
}

impl SimScheduleState {
    /// The cycle is as long as all windows together.
    pub open spec fn wf(&self) -> bool {
        &&& self.cycle_frames == self.config.total()
        &&& self.current_frame < self.cycle_frames
    }

    /// Starts at frame 0 of a cycle as long as all windows together.
    pub fn new(config: ScheduleConfig) -> (s: SimScheduleState)
        requires
            config.total() <= u32::MAX,
        ensures
            s.config == config,
            s.current_frame == 0,
            s.cycle_frames == config.total(),
            config.total() > 0 ==> s.wf(),
    {
        let cycle_frames = config.buildings_frames + config.people_logic_frames + config.roads_frames
            + config.pathfind_frames + config.stats_frames;
        SimScheduleState { config, current_frame: 0, cycle_frames }
    }

    /// Advances to the next frame of the cycle, wrapping to 0.
    pub fn update_schedule_state(&mut self)
        requires
            old(self).cycle_frames > 0,
            old(self).current_frame < u32::MAX,
        ensures
            final(self).current_frame == (old(self).current_frame + 1) % (old(self).cycle_frames as int),
            final(self).config == old(self).config,
            final(self).cycle_frames == old(self).cycle_frames,
    {
        self.current_frame = (self.current_frame + 1) % self.cycle_frames;
    }
}

/// The integer parameters of the GPU simulation. The floating-point ones
/// (frame time, durations, prices, taxes) are set by the application.
#[derive(Clone, Copy, Debug, PartialEq, Eq, Structural)]
pub struct GpuSimParams {
    pub people_count: u32,
    pub people_tex_w: u32,
    pub people_tex_h: u32,
    pub rng_seed: u32,
    pub buildings_tex_w: u32,
    pub buildings_tex_h: u32,
    pub roads_tex_w: u32,
    pub buildings_count: u32,
    pub segments_count: u32,
    pub spawn_count: u32,
    pub spawn_start_index: u32,
    pub b_start: u32,
    pub b_count: u32,
    pub logic_start: u32,
    pub logic_count: u32,
    pub r_start: u32,
    pub r_count: u32,
    pub cycle_frames: u32,
    pub do_stats_readback: u32,
    pub reset_stats: u32,
    pub grid_w: u32,
    pub grid_h: u32,
    pub entry_seg: u32,
    pub recount_slice: u32,
    pub recount_slice_count: u32,
    pub do_occupancy_gc: u32,
    pub do_inspector_readback: u32,
    pub car_capacity: u32,
    pub max_people: u32,
    pub max_segments: u32,
    pub max_buildings: u32,
    pub max_path_len: u32,
    pub max_path_requests: u32,
}

/// Parameters of the pathfinding pass.
#[derive(Clone, Copy, Debug, PartialEq, Eq, Structural)]
pub struct PathParams {
    pub segments_count: u32,
    pub roads_tex_w: u32,
    pub max_path_len: u32,
    pub request_count: u32,
    pub slice_start: u32,
    pub slice_end: u32,
    pub do_dispatch: u32,
    pub reset_path_queue: u32,
    pub major_segments_count: u32,
}

impl PathParams {
    /// Nothing to do yet, paths of up to 64 segments.
    pub fn new() -> (p: PathParams)
        ensures
            p == (PathParams {
                segments_count: 0,
                roads_tex_w: 0,
                max_path_len: 64,
                request_count: 0,
                slice_start: 0,
                slice_end: 0,
                do_dispatch: 0,
                reset_path_queue: 0,
                major_segments_count: 0,
            }),
    {
        PathParams {
            segments_count: 0,
            roads_tex_w: 0,
            max_path_len: 64,
            request_count: 0,
            slice_start: 0,
            slice_end: 0,
            do_dispatch: 0,
            reset_path_queue: 0,
            major_segments_count: 0,
        }
    }
}

impl GpuSimParams {
    /// The starting parameters: a 90-frame cycle on a 128x128 grid, the
    /// recount spread over 5 slices, the buffer capacities, all else 0.
    pub fn new() -> (p: GpuSimParams)
        ensures
            p == (GpuSimParams {
                people_count: 0,
                people_tex_w: 0,
                people_tex_h: 0,
                rng_seed: 0,
                buildings_tex_w: 0,
                buildings_tex_h: 0,
                roads_tex_w: 0,
                buildings_count: 0,
                segments_count: 0,
                spawn_count: 0,
                spawn_start_index: 0,
                b_start: 0,
                b_count: 0,
                logic_start: 0,
                logic_count: 0,
                r_start: 0,
                r_count: 0,
                cycle_frames: 90,
                do_stats_readback: 0,
                reset_stats: 0,
                grid_w: 128,
                grid_h: 128,
                entry_seg: 0,
                recount_slice: 0,
                recount_slice_count: 5,
                do_occupancy_gc: 0,
                do_inspector_readback: 0,
                car_capacity: 0,
                max_people: MAX_PEOPLE,
                max_segments: MAX_SEGMENTS,
                max_buildings: MAX_BUILDINGS,
                max_path_len: MAX_PATH_LEN,
                max_path_requests: MAX_PATH_REQUESTS,
            }),
    {
        GpuSimParams {
            people_count: 0,
            people_tex_w: 0,
            people_tex_h: 0,
            rng_seed: 0,
            buildings_tex_w: 0,
            buildings_tex_h: 0,
            roads_tex_w: 0,
            buildings_count: 0,
            segments_count: 0,
            spawn_count: 0,
            spawn_start_index: 0,
            b_start: 0,
            b_count: 0,
            logic_start: 0,
            logic_count: 0,
            r_start: 0,
            r_count: 0,
            cycle_frames: 90,
            do_stats_readback: 0,
            reset_stats: 0,
            grid_w: 128,
            grid_h: 128,
            entry_seg: 0,
            recount_slice: 0,
            recount_slice_count: 5,
            do_occupancy_gc: 0,
            do_inspector_readback: 0,
            car_capacity: 0,
            max_people: MAX_PEOPLE,
            max_segments: MAX_SEGMENTS,
            max_buildings: MAX_BUILDINGS,
            max_path_len: MAX_PATH_LEN,
            max_path_requests: MAX_PATH_REQUESTS,
        }
    }
}

/// Calls `rand::random::<u32>()`, a value from the thread-local generator.
/// Nothing is promised about the value; `rand` panics only when the
/// thread-local generator cannot be seeded from the operating system.
#[verifier::external_body]
fn random_seed() -> u32 {
    rand::random::<u32>()
}

/// Fills the counts, texture sizes, grid size, entry segment, car capacity
/// and buffer capacities from the current data, and draws a fresh random
/// seed (any value).
pub fn update_gpu_sim_params(
    people: &PeopleData,
    buildings: &BuildingData,
    roads: &RoadData,
    grid: &CityGrid,
    params: &mut GpuSimParams,
    entry_seg: u32,
    car_capacity: u32,
)
    ensures
        *final(params) == (GpuSimParams {
            rng_seed: final(params).rng_seed,
            people_count: people.len,
            people_tex_w: people.tex_width,
            people_tex_h: people.tex_height,
            buildings_tex_w: buildings.tex_width,
            buildings_tex_h: buildings.tex_height,
            roads_tex_w: roads.tex_width,
            buildings_count: buildings.items@.len() as u32,
            segments_count: roads.segments@.len() as u32,
            grid_w: grid.width,
            grid_h: grid.height,
            entry_seg,
            car_capacity,
            max_people: MAX_PEOPLE,
            max_segments: MAX_SEGMENTS,
            max_buildings: MAX_BUILDINGS,
            max_path_len: MAX_PATH_LEN,
            max_path_requests: MAX_PATH_REQUESTS,
            ..*old(params)
        }),
{
    params.people_count = people.len;
    params.people_tex_w = people.tex_width;
    params.people_tex_h = people.tex_height;
    params.rng_seed = random_seed();
    params.buildings_tex_w = buildings.tex_width;
    params.buildings_tex_h = buildings.tex_height;
    params.roads_tex_w = roads.tex_width;
    params.buildings_count = buildings.items.len() as u32;
    params.segments_count = roads.segments.len() as u32;
    params.grid_w = grid.width;
    params.grid_h = grid.height;
    params.entry_seg = entry_seg;
    params.car_capacity = car_capacity;
    params.max_people = MAX_PEOPLE;
    params.max_segments = MAX_SEGMENTS;
    params.max_buildings = MAX_BUILDINGS;
    params.max_path_len = MAX_PATH_LEN;
    params.max_path_requests = MAX_PATH_REQUESTS;
}

/// Items per frame when `total` items are spread over `frames` frames.
pub open spec fn slice_size(total: int, frames: int) -> int {
    (total + frames - 1) / frames
}

/// First item of the slice handled on frame `f` of the window.
pub open spec fn slice_start(total: int, frames: int, f: int) -> int {
    f * slice_size(total, frames)
}

/// Number of items handled on frame `f` of the window.
pub open spec fn slice_count(total: int, frames: int, f: int) -> int {
    let s = slice_size(total, frames);
    let st = slice_start(total, frames, f);
    if s <= total - (if st < total { st } else { total }) {
        s
    } else {
        total - (if st < total { st } else { total })
    }
}

/// The slice for frame `f` of a window of `frames` frames over `total`
/// items: (start, count).
fn slice_for(total: u32, frames: u32, f: u32) -> (r: (u32, u32))
    requires
        0 <= f < frames,
        total + frames <= u32::MAX,
    ensures
        r.0 == slice_start(total as int, frames as int, f as int),
        r.1 == slice_count(total as int, frames as int, f as int),
{
    let slice = (total + frames - 1) / frames;
    assert(f * slice <= total + frames) by (nonlinear_arith)
        requires
            slice == (total + frames - 1) as int / frames as int,
            0 <= f < frames,
    ;
    let start = f * slice;
    let rest = total - if start < total {
        start
    } else {
        total
    };
    let count = if slice <= rest {
        slice
    } else {
        rest
    };
    (start, count)
}

/// Each frame of a window handles its own slice, and together the slices
/// of one window handle every item exactly once: item `i` lies in the
/// slice of frame `i / slice_size` and in no other.
pub proof fn lemma_slices_partition(total: int, frames: int, i: int, f: int)
    requires
        frames > 0,
        0 <= i < total,
        0 <= f < frames,
    ensures
        (slice_start(total, frames, f) <= i < slice_start(total, frames, f) + slice_count(total, frames, f))
            <==> f == i / slice_size(total, frames),
        i / slice_size(total, frames) < frames,
{
    let s = slice_size(total, frames);
    assert(s >= 1) by (nonlinear_arith)
        requires
            s == (total + frames - 1) / frames,
            total >= 1,
            frames >= 1,
    ;
    assert(frames * s >= total) by (nonlinear_arith)
        requires
            s == (total + frames - 1) / frames,
            frames >= 1,
    ;
    let g = i / s;
    assert(g * s <= i < g * s + s) by (nonlinear_arith)
        requires
            g == i / s,
            s >= 1,
            i >= 0,
    ;
    assert(g < frames) by (nonlinear_arith)
        requires
            g * s <= i,
            i < total,
            total <= frames * s,
            s >= 1,
    ;
    let st = f * s;
    if f == g {
        assert(st <= i);
    } else if f < g {
        assert(f * s + s <= g * s) by (nonlinear_arith)
            requires
                f < g,
                s >= 1,
        ;
    } else {
        assert(g * s + s <= f * s) by (nonlinear_arith)
            requires
                g < f,
                s >= 1,
        ;
    }
}

/// Which window frame `f` of the cycle falls in, as (window, frame within
/// the window): 0 buildings, 1 people logic, 2 roads, 3 after the roads
/// window.
pub open spec fn window_of(c: ScheduleConfig, f: int) -> (int, int) {
    if f < c.buildings_frames {
        (0, f)
    } else if f - c.buildings_frames < c.people_logic_frames {
        (1, f - c.buildings_frames)
    } else if f - c.buildings_frames - c.people_logic_frames < c.roads_frames {
        (2, f - c.buildings_frames - c.people_logic_frames)
    } else {
        (3, f - c.buildings_frames - c.people_logic_frames - c.roads_frames)
    }
}

/// Frames of window `w` (0 buildings, 1 people logic, 2 roads).
pub open spec fn window_frames(c: ScheduleConfig, w: int) -> int {
    if w == 0 {
        c.buildings_frames as int
    } else if w == 1 {
        c.people_logic_frames as int
    } else {
        c.roads_frames as int
    }
}

/// First frame of window `w` in the cycle.
pub open spec fn window_offset(c: ScheduleConfig, w: int) -> int {
    if w == 0 {
        0
    } else if w == 1 {
        c.buildings_frames as int
    } else {
        c.buildings_frames + c.people_logic_frames
    }
}

/// On frame `f` of the cycle, the pass of window `w` is handed a slice of
/// its `total` items that contains item `i` (as `sync_gpu_params` sets it).
pub open spec fn frame_handles(c: ScheduleConfig, w: int, total: int, f: int, i: int) -> bool {
    let (win, g) = window_of(c, f);
    let frames = window_frames(c, w);
    &&& win == w
    &&& slice_start(total, frames, g) <= i < slice_start(total, frames, g) + slice_count(total, frames, g)
}

/// Over one cycle, the slices handed to the buildings, people-logic or roads
/// pass cover each of its items exactly once: one frame of the cycle
/// handles item `i`, and no other does.
pub proof fn lemma_cycle_covers_items(c: ScheduleConfig, w: int, total: int, i: int)
    requires
        0 <= w <= 2,
        window_frames(c, w) > 0,
        0 <= i < total,
    ensures
        exists|f: int| 0 <= f < c.total() && #[trigger] frame_handles(c, w, total, f, i),
        forall|f1: int, f2: int|
            0 <= f1 < c.total() && 0 <= f2 < c.total() && #[trigger] frame_handles(c, w, total, f1, i)
                && #[trigger] frame_handles(c, w, total, f2, i) ==> f1 == f2,
{
    let frames = window_frames(c, w);
    lemma_slices_partition(total, frames, i, 0);
    let sz = slice_size(total, frames);
    assert(sz >= 1) by (nonlinear_arith)
        requires
            sz == (total + frames - 1) / frames,
            total >= 1,
            frames >= 1,
    ;
    let g = i / sz;
    assert(g >= 0) by (nonlinear_arith)
        requires
            g == i / sz,
            sz >= 1,
            i >= 0,
    ;
    let f = window_offset(c, w) + g;
    lemma_slices_partition(total, frames, i, g);
    assert(window_of(c, f) == (w, g));
    assert(frame_handles(c, w, total, f, i));
    assert forall|f1: int| 0 <= f1 < c.total() && #[trigger] frame_handles(c, w, total, f1, i) implies f1 == f by {
        let g1 = window_of(c, f1).1;
        assert(0 <= g1 < frames && f1 == window_offset(c, w) + g1);
        lemma_slices_partition(total, frames, i, g1);
    }
}

/// Sets this frame's parameters from the schedule.
///
/// On frame 0 the path queue is reset and up to `SPAWN_BATCH` pending people
/// are handed to the spawn pass (the last ones reserved); other frames spawn
/// nobody. The frame's window decides which pass gets a slice: the
/// buildings, the people logic or the roads pass get the slice of the
/// frame's position in their window (the other two get a count of 0 and keep
/// their start); past the roads window pathfinding runs while in its own
/// window. Statistics are reset on frame 0 and read back in the last
/// `stats_frames` frames.
pub fn sync_gpu_params(
    schedule: &SimScheduleState,
    pending: &mut PendingGpuSpawns,
    people_len: u32,
    buildings_len: u32,
    segments_len: u32,
    roads_tex_w: u32,
    params: &mut GpuSimParams,
    path: &mut PathParams,
)
    requires
        schedule.wf(),
        buildings_len + schedule.config.buildings_frames <= u32::MAX,
        people_len + schedule.config.people_logic_frames <= u32::MAX,
        segments_len + schedule.config.roads_frames <= u32::MAX,
    ensures
        ({
            let f = schedule.current_frame as int;
            let c = schedule.config;
            let w = window_of(c, f);
            &&& f == 0 ==> {
                &&& final(path).reset_path_queue == 1
                &&& final(params).spawn_count == (if old(pending).count < SPAWN_BATCH {
                    old(pending).count
                } else {
                    SPAWN_BATCH
                })
                &&& final(params).spawn_start_index == (if old(pending).count > 0 {
                    if people_len >= old(pending).count {
                        people_len - old(pending).count
                    } else {
                        0
                    }
                } else {
                    0
                })
                &&& final(pending).count == old(pending).count - final(params).spawn_count
            }
            &&& f != 0 ==> {
                &&& final(path).reset_path_queue == 0
                &&& final(params).spawn_count == 0
                &&& final(params).spawn_start_index == 0
                &&& final(pending).count == old(pending).count
            }
            &&& final(params).cycle_frames == schedule.cycle_frames
            &&& final(params).b_start == (if w.0 == 0 {
                slice_start(buildings_len as int, c.buildings_frames as int, w.1)
            } else {
                old(params).b_start as int
            })
            &&& final(params).b_count == (if w.0 == 0 {
                slice_count(buildings_len as int, c.buildings_frames as int, w.1)
            } else {
                0
            })
            &&& final(params).logic_start == (if w.0 == 1 {
                slice_start(people_len as int, c.people_logic_frames as int, w.1)
            } else {
                old(params).logic_start as int
            })
            &&& final(params).logic_count == (if w.0 == 1 {
                slice_count(people_len as int, c.people_logic_frames as int, w.1)
            } else {
                0
            })
            &&& final(params).r_start == (if w.0 == 2 {
                slice_start(segments_len as int, c.roads_frames as int, w.1)
            } else {
                old(params).r_start as int
            })
            &&& final(params).r_count == (if w.0 == 2 {
                slice_count(segments_len as int, c.roads_frames as int, w.1)
            } else {
                0
            })
            &&& final(path).do_dispatch == (if w.0 == 3 {
                if w.1 < c.pathfind_frames {
                    1
                } else {
                    0
                }
            } else {
                old(path).do_dispatch as int
            })
            &&& final(params).reset_stats == (if f == 0 {
                1u32
            } else {
                0u32
            })
            &&& final(params).do_stats_readback == (if f >= schedule.cycle_frames - c.stats_frames {
                1u32
            } else {
                0u32
            })
            &&& final(path).roads_tex_w == roads_tex_w
            &&& final(path).segments_count == segments_len
            &&& final(path).max_path_len == 256
            &&& *final(path) == (PathParams {
                reset_path_queue: final(path).reset_path_queue,
                do_dispatch: final(path).do_dispatch,
                roads_tex_w,
                segments_count: segments_len,
                max_path_len: 256,
                ..*old(path)
            })
            &&& *final(params) == (GpuSimParams {
                spawn_count: final(params).spawn_count,
                spawn_start_index: final(params).spawn_start_index,
                cycle_frames: final(params).cycle_frames,
                b_start: final(params).b_start,
                b_count: final(params).b_count,
                logic_start: final(params).logic_start,
                logic_count: final(params).logic_count,
                r_start: final(params).r_start,
                r_count: final(params).r_count,
                reset_stats: final(params).reset_stats,
                do_stats_readback: final(params).do_stats_readback,
                ..*old(params)
            })
        }),
{
    let frame0 = schedule.current_frame;
    if frame0 == 0 {
        path.reset_path_queue = 1;
        if pending.count > 0 {
            let spawn_this_cycle = if pending.count < SPAWN_BATCH {
                pending.count
            } else {
                SPAWN_BATCH
            };
            params.spawn_count = spawn_this_cycle;
            params.spawn_start_index = people_len.saturating_sub(pending.count);
            pending.count = pending.count - spawn_this_cycle;
        } else {
            params.spawn_count = 0;
            params.spawn_start_index = 0;
        }
    } else {
        path.reset_path_queue = 0;
        params.spawn_count = 0;
        params.spawn_start_index = 0;
    }
    params.cycle_frames = schedule.cycle_frames;
    params.b_count = 0;
    params.logic_count = 0;
    params.r_count = 0;
    let c = schedule.config;
    let mut frame = frame0;
    if frame < c.buildings_frames {
        let (st, cnt) = slice_for(buildings_len, c.buildings_frames, frame);
        params.b_start = st;
        params.b_count = cnt;
    } else {
        frame = frame - c.buildings_frames;
        if frame < c.people_logic_frames {
            let (st, cnt) = slice_for(people_len, c.people_logic_frames, frame);
            params.logic_start = st;
            params.logic_count = cnt;
        } else {
            frame = frame - c.people_logic_frames;
            if frame < c.roads_frames {
                let (st, cnt) = slice_for(segments_len, c.roads_frames, frame);
                params.r_start = st;
                params.r_count = cnt;
            } else {
                frame = frame - c.roads_frames;
                if frame < c.pathfind_frames {
                    path.do_dispatch = 1;
                } else {
                    path.do_dispatch = 0;
                }
            }
        }
    }
    params.reset_stats = if frame0 == 0 {
        1
    } else {
        0
    };
    params.do_stats_readback = if frame0 >= schedule.cycle_frames - c.stats_frames {
        1
    } else {
        0
    };
    path.roads_tex_w = roads_tex_w;
    path.segments_count = segments_len;
    path.max_path_len = 256;
}

} // verus!
