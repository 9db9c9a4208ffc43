use real_city::buildings::{Building, BuildingData};
use real_city::counters::SimCounters;
use real_city::dispatch::{div_ceil, pad_to_rows, path_queue_header, plan_dispatch, texture_updates_due, upload_rows, workgroups};
use real_city::grid::{CityGrid, Tile, ZoneType};
use real_city::inspector::{
    apply_building_readback, decode_picked, picking_readback_due, plan_row_copy, BuildingReadback, ReadbackState,
    RowCopy, SelectedObj, Selection,
};
use real_city::people::{PeopleData, PendingGpuSpawns};
use real_city::roads::RoadData;
use real_city::schedule::{sync_gpu_params, update_gpu_sim_params, GpuSimParams, PathParams, ScheduleConfig, SimScheduleState};
use real_city::tools::ActiveTool;
use real_city::view::{plan_building_views, scene_level, zone_markers};

#[test]
fn schedule_cycles_over_total_frames() {
    let c = ScheduleConfig::new();
    let mut s = SimScheduleState::new(c);
    assert_eq!(s.cycle_frames, 90);
    assert_eq!(s.current_frame, 0);
    for _ in 0..89 {
        s.update_schedule_state();
    }
    assert_eq!(s.current_frame, 89);
    s.update_schedule_state();
    assert_eq!(s.current_frame, 0);
}

fn sync_at(frame: u32, pending: u32, people: u32, buildings: u32, segments: u32) -> (GpuSimParams, PathParams, PendingGpuSpawns) {
    let mut s = SimScheduleState::new(ScheduleConfig::new());
    for _ in 0..frame {
        s.update_schedule_state();
    }
    let mut pend = PendingGpuSpawns { count: pending };
    let mut params = GpuSimParams::new();
    let mut path = PathParams::new();
    sync_gpu_params(&s, &mut pend, people, buildings, segments, 205, &mut params, &mut path);
    (params, path, pend)
}

#[test]
fn sync_frame_zero_spawns_a_batch() {
    let (p, path, pend) = sync_at(0, 2500, 10_000, 95, 40);
    assert_eq!(p.spawn_count, 1000);
    assert_eq!(p.spawn_start_index, 7500);
    assert_eq!(pend.count, 1500);
    assert_eq!(path.reset_path_queue, 1);
    assert_eq!(p.reset_stats, 1);
    // Frame 0 is the first frame of the buildings window: 95 buildings over
    // 10 frames, 10 per frame.
    assert_eq!((p.b_start, p.b_count), (0, 10));
    assert_eq!((p.logic_count, p.r_count), (0, 0));
    assert_eq!((path.roads_tex_w, path.segments_count, path.max_path_len), (205, 40, 256));
}

#[test]
fn sync_windows_slice_their_items() {
    let (p, _, pend) = sync_at(9, 7, 10_000, 95, 40);
    assert_eq!((p.b_start, p.b_count), (90, 5));
    assert_eq!(p.spawn_count, 0);
    assert_eq!(pend.count, 7);
    let (p, _, _) = sync_at(13, 0, 10_000, 95, 40);
    assert_eq!((p.logic_start, p.logic_count, p.b_count), (3000, 1000, 0));
    let (p, _, _) = sync_at(21, 0, 10_000, 95, 40);
    assert_eq!((p.r_start, p.r_count), (4, 4));
    let (_, path, _) = sync_at(30, 0, 10_000, 95, 40);
    assert_eq!(path.do_dispatch, 1);
    let (p, path, _) = sync_at(89, 0, 10_000, 95, 40);
    assert_eq!(path.do_dispatch, 0);
    assert_eq!(p.do_stats_readback, 1);
    assert_eq!(p.reset_stats, 0);
}

#[test]
fn sync_slices_cover_every_building_once() {
    let mut seen = vec![0u32; 95];
    for f in 0..10 {
        let (p, _, _) = sync_at(f, 0, 0, 95, 0);
        for i in p.b_start..p.b_start + p.b_count {
            seen[i as usize] += 1;
        }
    }
    assert!(seen.iter().all(|c| *c == 1));
}

#[test]
fn params_follow_the_data() {
    let people = PeopleData::new();
    let buildings = BuildingData::new();
    let roads = RoadData::new();
    let mut grid = CityGrid::new();
    grid.reset(8, 6);
    let mut p = GpuSimParams::new();
    p.logic_count = 3;
    update_gpu_sim_params(&people, &buildings, &roads, &grid, &mut p, 12, 4096);
    assert_eq!((p.grid_w, p.grid_h), (8, 6));
    assert_eq!((p.people_tex_w, p.buildings_tex_w, p.roads_tex_w), (1024, 1257, 128));
    assert_eq!((p.entry_seg, p.car_capacity), (12, 4096));
    assert_eq!(p.logic_count, 3);
    assert_eq!(p.max_people, 524288);
}

#[test]
fn dispatch_workgroup_counts() {
    assert_eq!(workgroups(0), 0);
    assert_eq!(workgroups(1), 1);
    assert_eq!(workgroups(64), 1);
    assert_eq!(workgroups(65), 2);
    assert_eq!(workgroups(u32::MAX), 67_108_864);
    assert_eq!(div_ceil(10, 3), 4);
    assert_eq!(div_ceil(9, 3), 3);
}

#[test]
fn dispatch_plan_for_a_frame() {
    let mut p = GpuSimParams::new();
    p.people_count = 100_000;
    p.do_occupancy_gc = 1;
    p.grid_w = 1280;
    p.grid_h = 1280;
    p.spawn_count = 1000;
    p.car_capacity = 4096;
    p.logic_start = 20_000;
    p.logic_count = 10_000;
    p.b_count = 0;
    p.r_start = 8;
    p.r_count = 4;
    p.segments_count = 40;
    p.recount_slice = 2;
    p.do_stats_readback = 1;
    let plan = plan_dispatch(&p);
    assert_eq!(plan.occupancy_gc, Some((25_600, 1563)));
    assert!(!plan.recalibrate);
    // 100000 people over 5 slices: 20000 per slice, 313 threads, 5 groups.
    assert_eq!(plan.recount, Some(5));
    assert_eq!(plan.recount_cycle, Some((3, 5)));
    assert_eq!(plan.spawn, Some(16));
    assert_eq!(plan.movement, Some(1563));
    assert_eq!(plan.car_clear, Some(64));
    assert_eq!(plan.logic, Some(157));
    assert_eq!(plan.logic_cycle, Some((3, 10)));
    assert_eq!(plan.buildings, None);
    assert_eq!(plan.bldg_cycle, None);
    assert_eq!(plan.roads, Some(1));
    assert_eq!(plan.road_cycle, Some((3, 10)));
    assert!(plan.copy_stats);
}

#[test]
fn dispatch_plan_idle_frame() {
    let p = GpuSimParams::new();
    let plan = plan_dispatch(&p);
    assert_eq!(plan.occupancy_gc, None);
    assert!(plan.recalibrate);
    assert_eq!(plan.recount, None);
    assert_eq!(plan.recount_cycle, None);
    assert_eq!(plan.movement, None);
    assert_eq!(plan.spawn, None);
    assert!(!plan.copy_stats);
}

#[test]
fn upload_rows_and_padding() {
    assert_eq!(upload_rows(16 * 300, 16, 100), 3);
    assert_eq!(upload_rows(16 * 301, 16, 100), 4);
    assert_eq!(upload_rows(0, 16, 100), 0);
    assert_eq!(upload_rows(8 * 1025, 8, 1024), 2);
    let mut bytes = vec![7u8; 10];
    pad_to_rows(&mut bytes, 16);
    assert_eq!(bytes.len(), 16);
    assert_eq!(&bytes[..10], &[7u8; 10]);
    assert!(bytes[10..].iter().all(|b| *b == 0));
    let mut whole = vec![1u8; 32];
    pad_to_rows(&mut whole, 16);
    assert_eq!(whole.len(), 32);
}

fn small_grid() -> CityGrid {
    let mut g = CityGrid::new();
    g.reset(6, 6);
    g.set(1, 1, Tile::Building(4));
    g.set(2, 2, Tile::Zone(ZoneType::Office));
    g.set(3, 3, Tile::Road(9));
    g
}

#[test]
fn selection_by_click() {
    let g = small_grid();
    let mut s = Selection::new();
    s.handle_selection(ActiveTool::Camera, None, Some((1, 1)), &g);
    assert_eq!(s.obj, Some(SelectedObj::Building(4)));
    assert_eq!(s.changed_frame, 1);
    s.handle_selection(ActiveTool::Camera, None, Some((2, 2)), &g);
    assert_eq!(s.obj, Some(SelectedObj::Zone(ZoneType::Office)));
    s.handle_selection(ActiveTool::Camera, None, Some((3, 3)), &g);
    assert_eq!(s.obj, Some(SelectedObj::Road(9)));
    assert_eq!(s.changed_frame, 3);
    // A car under the cursor wins over the tile.
    s.handle_selection(ActiveTool::Camera, Some(17), Some((3, 3)), &g);
    assert_eq!(s.obj, Some(SelectedObj::Person(17)));
    // Clicking empty ground clears the selection once.
    s.handle_selection(ActiveTool::Camera, None, Some((5, 5)), &g);
    assert_eq!(s.obj, None);
    assert_eq!(s.changed_frame, 5);
    s.handle_selection(ActiveTool::Camera, None, None, &g);
    assert_eq!(s.changed_frame, 5);
    // Build tools do not select.
    s.handle_selection(ActiveTool::Road, Some(3), Some((1, 1)), &g);
    assert_eq!((s.obj, s.changed_frame), (None, 5));
}

#[test]
fn readbacks_once_per_change() {
    let mut st = ReadbackState::new();
    let mut p = GpuSimParams::new();
    p.do_stats_readback = 1;
    p.do_inspector_readback = 1;
    p.recount_slice = 3;
    let sel = Selection { obj: Some(SelectedObj::Building(2)), changed_frame: 4 };
    let r1 = st.plan_readbacks(&p, Some(sel));
    assert!(r1.stats);
    assert_eq!(r1.inspector, Some(SelectedObj::Building(2)));
    let r2 = st.plan_readbacks(&p, Some(sel));
    assert!(!r2.stats);
    assert_eq!(r2.inspector, None);
    let zone = Selection { obj: Some(SelectedObj::Zone(ZoneType::Shop)), changed_frame: 5 };
    let r3 = st.plan_readbacks(&p, Some(zone));
    assert_eq!(r3.inspector, None);
    assert_eq!(st.last_copy_frame, 5);
}

#[test]
fn row_copy_origin() {
    let mut p = GpuSimParams::new();
    p.people_tex_w = 1024;
    p.buildings_tex_w = 1257;
    p.do_inspector_readback = 1;
    let mut last = 0;
    let sel = Selection { obj: Some(SelectedObj::Person(600)), changed_frame: 2 };
    assert_eq!(plan_row_copy(&p, Some(sel), &mut last), Some(RowCopy { building: false, x: 176, y: 1 }));
    assert_eq!(last, 2);
    let sel = Selection { obj: Some(SelectedObj::Building(1)), changed_frame: 3 };
    assert_eq!(plan_row_copy(&p, Some(sel), &mut last), Some(RowCopy { building: true, x: 3, y: 0 }));
    p.do_inspector_readback = 0;
    let sel = Selection { obj: Some(SelectedObj::Building(1)), changed_frame: 8 };
    assert_eq!(plan_row_copy(&p, Some(sel), &mut last), None);
    assert_eq!(last, 8);
}

#[test]
fn picking_readback_and_decode() {
    let mut last = 0;
    assert!(picking_readback_due(&mut last, 1));
    assert!(!picking_readback_due(&mut last, 1));
    assert!(!picking_readback_due(&mut last, 0));
    assert!(picking_readback_due(&mut last, 1));
    assert_eq!(decode_picked(0xFFFF_FFFF), None);
    assert_eq!(decode_picked(12), Some(12));
}

fn house(tile: (u32, u32), level: u32, capacity: u32) -> Building {
    Building {
        tile,
        btype: ZoneType::Residential,
        level,
        occupants: 0,
        assigned: 0,
        capacity,
        income: 18,
        road_seg: 0,
        road_t: (0, 1),
        growth_bits: 0,
        age_bits: 0,
    }
}

#[test]
fn building_readback_levels_up() {
    let mut d = BuildingData::new();
    let mut g = CityGrid::new();
    g.reset(8, 8);
    d.items.push(house((1, 1), 0, 72));
    let mut c = SimCounters::new();
    let r = BuildingReadback {
        occupants: 50,
        assigned: 60,
        growth_bits: 0.25f32.to_bits(),
        age_bits: 12.0f32.to_bits(),
        level: 1,
        capacity: 144,
        income: 36,
        abandoned: false,
    };
    apply_building_readback(&mut d, &mut g, &mut c, 0, r);
    let b = d.items[0];
    assert_eq!((b.occupants, b.assigned, b.level, b.capacity, b.income), (50, 60, 1, 144, 36));
    assert_eq!((f32::from_bits(b.growth_bits), f32::from_bits(b.age_bits)), (0.25, 12.0));
    assert_eq!(c.destroyed_buildings, 0);
}

#[test]
fn building_readback_abandons_once() {
    let mut d = BuildingData::new();
    let mut g = CityGrid::new();
    g.reset(8, 8);
    d.items.push(house((1, 1), 0, 72));
    for y in 1..4 {
        for x in 1..4 {
            g.set(x, y, Tile::Building(0));
        }
    }
    g.set(3, 3, Tile::Road(2));
    let mut c = SimCounters::new();
    let r = BuildingReadback { occupants: 0, assigned: 0, growth_bits: 0, age_bits: 0, level: 0, capacity: 0, income: 0, abandoned: true };
    apply_building_readback(&mut d, &mut g, &mut c, 0, r);
    assert_eq!(d.items[0].capacity, 0);
    // The whole footprint reverts to zone; other tiles stay.
    for y in 1..4 {
        for x in 1..4 {
            let expected = if (x, y) == (3, 3) { Tile::Road(2) } else { Tile::Zone(ZoneType::Residential) };
            assert_eq!(g.get(x, y), Some(expected));
        }
    }
    assert_eq!(g.get(4, 1), Some(Tile::Empty));
    assert_eq!(c.destroyed_buildings, 1);
    apply_building_readback(&mut d, &mut g, &mut c, 0, r);
    assert_eq!(c.destroyed_buildings, 1);
    // Unknown ids change nothing.
    apply_building_readback(&mut d, &mut g, &mut c, 9, r);
    assert_eq!(d.items.len(), 1);
}

#[test]
fn building_views_follow_the_list() {
    let items = vec![house((0, 0), 2, 72), house((5, 5), 1, 0), house((9, 9), 3, 72), house((12, 0), 0, 72)];
    // Views exist for buildings 0 (old level), 1 (abandoned) and 7 (gone).
    let views = vec![(0, 1), (1, 1), (7, 0)];
    let plan = plan_building_views(&views, &items);
    assert_eq!(plan.existing, vec![Some(2), None, None]);
    assert_eq!(plan.spawn, vec![2, 3]);
    assert_eq!(scene_level(3), 3);
    assert_eq!(scene_level(9), 4);
}

#[test]
fn zone_markers_row_major() {
    let mut g = CityGrid::new();
    g.reset(4, 3);
    g.set(3, 0, Tile::Zone(ZoneType::Shop));
    g.set(0, 2, Tile::Zone(ZoneType::Residential));
    g.set(1, 1, Tile::Road(0));
    assert_eq!(zone_markers(&g), vec![(3, 0, ZoneType::Shop), (0, 2, ZoneType::Residential)]);
}

#[test]
fn path_queue_header_on_reset_only() {
    assert_eq!(path_queue_header(12, 1), Some([12, 1, 1, 0]));
    assert_eq!(path_queue_header(100_000, 1), Some([100_000, 1, 1, 0]));
    assert_eq!(path_queue_header(200_000, 1), Some([131_072, 1, 1, 0]));
    assert_eq!(path_queue_header(12, 0), None);
}

#[test]
fn texture_updates_only_when_dirty_and_nonempty() {
    assert_eq!(texture_updates_due(true, 5, true, 2, 9, true, 1), (true, true, true, true));
    assert_eq!(texture_updates_due(true, 0, true, 0, 9, true, 0), (false, false, true, false));
    assert_eq!(texture_updates_due(false, 5, false, 2, 9, false, 1), (false, false, false, false));
    assert_eq!(texture_updates_due(true, 5, true, 2, 0, false, 1), (true, true, false, false));
}
