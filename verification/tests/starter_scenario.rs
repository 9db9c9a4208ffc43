use real_city::buildings::{footprint, BuildingData};
use real_city::grid::{CityGrid, Tile};
use real_city::roads::{RoadData, RoadType};
use real_city::scenario::{build_starter_scenario, city_offsets};
use real_city::tools::{MenuAction, MenuSettings};

#[test]
fn city_origins_fill_the_lattice() {
    let o = city_offsets();
    assert_eq!(o.len(), 64);
    assert_eq!(o[0], (100, 100));
    assert_eq!(o[1], (200, 100));
    assert_eq!(o[8], (100, 200));
    assert_eq!(o[63], (800, 800));
}

#[test]
fn small_starter_scenario() {
    let mut grid = CityGrid::new();
    grid.reset(1280, 1280);
    let mut roads = RoadData::new();
    let mut buildings = BuildingData::new();
    let mut settings = MenuSettings::new();
    settings.apply(MenuAction::Small);
    settings.grid_x = 1;
    settings.grid_y = 1;
    let out = build_starter_scenario(&mut grid, &mut roads, &mut buildings, &settings);
    assert_eq!(out.population, 200000);
    // Only streets and highways are laid.
    assert!(roads.links.iter().all(|l| l.road_type == RoadType::Normal || l.road_type == RoadType::Highway));
    // Every segment point inside the grid is a road tile.
    for s in &roads.segments {
        for p in &s.points {
            assert!(matches!(grid.get(p.0, p.1), Some(Tile::Road(_))));
        }
    }
    // The entry tile, 10 tiles left of the first city's middle street, lies
    // on the entry segment.
    let entry = (90, 100);
    assert!(roads.segments[out.entry_seg as usize].points.contains(&entry));
    // Every building stands on its footprint.
    for (id, b) in buildings.items.iter().enumerate() {
        let size = footprint(b.btype);
        for dy in 0..size {
            for dx in 0..size {
                assert_eq!(grid.get(b.tile.0 + dx, b.tile.1 + dy), Some(Tile::Building(id as u32)));
            }
        }
    }
    match out.first_building {
        Some(id) => assert_eq!(id, 0),
        None => assert!(buildings.items.is_empty()),
    }
}
