use real_city::buildings::{capacity_for, footprint, income_for, spawn_building, zone_code, BuildingData};
use real_city::grid::{CityGrid, Tile, ZoneType};
use real_city::paint::{adjacent_road, paint_road, paint_tick_system, paint_zone, road_reach, stamp_road};
use real_city::people::{activity_code, activity_from_code, handle_spawn_requests, Activity, PeopleData, PendingGpuSpawns};
use real_city::roads::{RoadData, RoadType};
use real_city::tools::{ActiveTool, ZoneTag};

fn grid(w: u32, h: u32) -> CityGrid {
    let mut g = CityGrid::new();
    g.reset(w, h);
    g
}

#[test]
fn building_capacity_and_income_by_level() {
    assert_eq!(capacity_for(ZoneType::Residential, 0), 72);
    assert_eq!(capacity_for(ZoneType::Residential, 2), 288);
    assert_eq!(capacity_for(ZoneType::Office, 1), 384);
    assert_eq!(capacity_for(ZoneType::Shop, 4), 4096);
    assert_eq!(income_for(ZoneType::Residential, 0), 18);
    assert_eq!(income_for(ZoneType::Office, 2), 240);
    assert_eq!(income_for(ZoneType::Shop, 4), 240);
    assert_eq!(footprint(ZoneType::Residential), 3);
    assert_eq!(footprint(ZoneType::Office), 4);
    assert_eq!(footprint(ZoneType::Shop), 4);
    assert_eq!((zone_code(ZoneType::Residential), zone_code(ZoneType::Office), zone_code(ZoneType::Shop)), (0, 1, 2));
}

#[test]
fn building_data_layout() {
    let d = BuildingData::new();
    assert!(d.items.is_empty());
    assert_eq!(d.rows.len(), 524288);
    assert_eq!((d.tex_width, d.tex_height), (1257, 1252));
}

#[test]
fn spawn_building_stamps_footprint() {
    let mut g = grid(10, 10);
    let mut d = BuildingData::new();
    g.set(2, 2, Tile::Zone(ZoneType::Shop));
    let id = spawn_building(&mut d, &mut g, (1, 1), ZoneType::Shop, 3, (1, 4));
    assert_eq!(id, Some(0));
    let b = d.items[0];
    assert_eq!((b.tile, b.level, b.capacity, b.income, b.road_seg, b.road_t), ((1, 1), 0, 256, 48, 3, (1, 4)));
    for y in 0..10 {
        for x in 0..10 {
            let inside = (1..5).contains(&x) && (1..5).contains(&y);
            assert_eq!(g.get(x, y) == Some(Tile::Building(0)), inside);
        }
    }
    let row = d.rows[0];
    assert_eq!((row.x2, row.y2), (2 + 4, 2 + 4));
    assert_eq!((row.btype, row.level, row.income, row.capacity, row.road_seg), (2, 0, 48, 256, 3));
    assert_eq!((row.growth_bits, row.age_bits, row.road_t_num, row.road_t_den, row.assigned), (0, 0, 1, 4, 0));
    assert!(d.dirty);
}

#[test]
fn spawn_building_refused_when_blocked_or_outside() {
    let mut g = grid(10, 10);
    let mut d = BuildingData::new();
    g.set(3, 3, Tile::Road(0));
    let before = g.tiles.clone();
    assert_eq!(spawn_building(&mut d, &mut g, (2, 2), ZoneType::Residential, 0, (0, 1)), None);
    assert_eq!(spawn_building(&mut d, &mut g, (8, 8), ZoneType::Residential, 0, (0, 1)), None);
    assert!(d.items.is_empty());
    assert_eq!(g.tiles, before);
}

#[test]
fn people_spawn_requests_capped() {
    let mut p = PeopleData::new();
    let mut pending = PendingGpuSpawns { count: 0 };
    let range = handle_spawn_requests(&vec![10, 20], &mut p, &mut pending);
    assert_eq!(range, (0, 30));
    assert_eq!(p.len, 30);
    assert_eq!(pending.count, 30);
    let range = handle_spawn_requests(&vec![524_280, 5], &mut p, &mut pending);
    assert_eq!(range, (30, 524_288));
    assert_eq!(p.len, 524_288);
    assert_eq!(pending.count, 524_288);
    let range = handle_spawn_requests(&vec![1], &mut p, &mut pending);
    assert_eq!(range, (524_288, 524_288));
}

#[test]
fn activity_codes_round_trip() {
    for a in [Activity::Travelling, Activity::Home, Activity::Work, Activity::Shopping] {
        assert_eq!(activity_from_code(activity_code(a)), Some(a));
    }
    assert_eq!(activity_code(Activity::Travelling), 0);
    assert_eq!(activity_from_code(9), None);
}

#[test]
fn road_reach_by_type() {
    assert_eq!(road_reach(RoadType::Normal), (0, 1));
    assert_eq!(road_reach(RoadType::Highway), (1, 2));
    assert_eq!(road_reach(RoadType::Highway2x4), (2, 3));
    assert_eq!(road_reach(RoadType::Highway2x8), (4, 5));
}

#[test]
fn stamp_wide_highway() {
    let mut g = grid(10, 10);
    g.set(5, 5, Tile::Building(0));
    stamp_road(&mut g, (5, 5), 7, RoadType::Highway2x4);
    let roads = g.tiles.iter().filter(|t| **t == Tile::Road(7)).count();
    assert_eq!(roads, 36);
    assert_eq!(g.get(3, 3), Some(Tile::Road(7)));
    assert_eq!(g.get(8, 8), Some(Tile::Road(7)));
    assert_eq!(g.get(9, 9), Some(Tile::Empty));
    assert_eq!(g.get(2, 2), Some(Tile::Empty));
}

#[test]
fn adjacent_road_found_next_to_footprint() {
    let mut g = grid(12, 12);
    assert_eq!(adjacent_road(&g, 4, 4, 3), None);
    g.set(7, 5, Tile::Road(2));
    assert_eq!(adjacent_road(&g, 4, 4, 3), Some((2, (7, 5))));
}

#[test]
fn paint_road_then_zone_builds() {
    let mut g = grid(16, 16);
    let mut r = RoadData::new();
    let mut d = BuildingData::new();
    // A normal road stamps a 2x2 footprint, so the next tile is already a
    // road and painting it does nothing.
    assert!(paint_road(RoadType::Normal, 2, 5, &mut g, &mut r, &mut d));
    for (x, y) in [(2, 5), (3, 5), (2, 6), (3, 6)] {
        assert!(matches!(g.get(x, y), Some(Tile::Road(_))));
    }
    assert!(!paint_road(RoadType::Normal, 3, 5, &mut g, &mut r, &mut d));
    assert_eq!(r.links.len(), 1);
    // Two tiles on, the new tile links to the stamped road beside it and
    // to itself.
    assert!(paint_road(RoadType::Normal, 4, 5, &mut g, &mut r, &mut d));
    assert_eq!(r.links.len(), 3);
    assert!(r.links.iter().all(|l| l.road_type == RoadType::Normal));
    let crossed: u32 = r.segments.iter().map(|s| s.length).sum();
    assert_eq!(crossed, 3);
    // A zone next to the road materialises a house.
    assert!(paint_zone(ZoneType::Residential, 2, 7, &mut g, &r, &mut d));
    assert_eq!(d.items.len(), 1);
    assert_eq!(d.items[0].tile, (2, 7));
    assert_eq!(d.items[0].road_t, (0, 1));
    assert_eq!(g.get(4, 9), Some(Tile::Building(0)));
    // Zoning a taken tile does nothing; far from any road the tile is
    // zoned and waits for a road.
    assert!(!paint_zone(ZoneType::Office, 3, 8, &mut g, &r, &mut d));
    assert!(paint_zone(ZoneType::Office, 10, 12, &mut g, &r, &mut d));
    assert_eq!(g.get(10, 12), Some(Tile::Zone(ZoneType::Office)));
    assert_eq!(g.get(11, 12), Some(Tile::Empty));
    assert_eq!(d.items.len(), 1);
}

#[test]
fn paint_tick_dispatches_tools() {
    let mut g = grid(16, 16);
    let mut r = RoadData::new();
    let mut d = BuildingData::new();
    assert!(!paint_tick_system(ActiveTool::Camera, Some((3, 3)), &mut g, &mut r, &mut d));
    assert!(!paint_tick_system(ActiveTool::Road, None, &mut g, &mut r, &mut d));
    assert!(r.links.is_empty());
    assert!(paint_tick_system(ActiveTool::Road, Some((3, 3)), &mut g, &mut r, &mut d));
    assert!(!paint_tick_system(ActiveTool::Road, Some((4, 3)), &mut g, &mut r, &mut d));
    assert!(paint_tick_system(ActiveTool::Road, Some((5, 3)), &mut g, &mut r, &mut d));
    assert_eq!(r.links.len(), 3);
    assert_eq!(r.segments.len(), 3);
    assert!(paint_tick_system(ActiveTool::Zone(ZoneTag::Shop), Some((3, 5)), &mut g, &mut r, &mut d));
    assert_eq!(d.items.len(), 1);
    assert_eq!(d.items[0].btype, ZoneType::Shop);
}

#[test]
fn road_next_to_zone_materialises_house() {
    let mut g = grid(20, 20);
    let mut r = RoadData::new();
    let mut d = BuildingData::new();
    for y in 8..11 {
        for x in 5..8 {
            assert!(paint_zone(ZoneType::Residential, x, y, &mut g, &r, &mut d));
        }
    }
    assert!(paint_zone(ZoneType::Office, 15, 15, &mut g, &r, &mut d));
    assert!(d.items.is_empty());
    assert!(paint_road(RoadType::Normal, 5, 5, &mut g, &mut r, &mut d));
    // Only the zone within the search radius of the new tile is built on.
    assert_eq!(d.items.len(), 1);
    let b = d.items[0];
    assert_eq!((b.tile, b.btype, b.level), ((5, 8), ZoneType::Residential, 0));
    let seg = match g.get(5, 5) {
        Some(Tile::Road(s)) => s,
        other => panic!("expected a road, got {:?}", other),
    };
    assert_eq!(b.road_seg, seg);
    for y in 8..11 {
        for x in 5..8 {
            assert_eq!(g.get(x, y), Some(Tile::Building(0)));
        }
    }
    assert_eq!(g.get(15, 15), Some(Tile::Zone(ZoneType::Office)));
    // Painting the same tile again changes nothing.
    let tiles = g.tiles.clone();
    assert!(!paint_road(RoadType::Normal, 5, 5, &mut g, &mut r, &mut d));
    assert_eq!(g.tiles, tiles);
    assert_eq!(d.items.len(), 1);
}
