use real_city::buildings::Building;
use real_city::clock::GameTime;
use real_city::counters::{count_abandoned_buildings, count_active_buildings, telemetry_counts, GpuStats, SimCounters};
use real_city::grid::{Biome, CityGrid, Tile, ZoneType};
use real_city::layout::{ceil_sqrt, texture_layout, BUILDING_CAPACITY, PEOPLE_CAPACITY, ROAD_CAPACITY};
use real_city::tools::{ActiveTool, MenuAction, MenuSettings, ZoneTag};

fn grid(w: u32, h: u32) -> CityGrid {
    let mut g = CityGrid::new();
    g.reset(w, h);
    g
}

#[test]
fn grid_reset_is_empty_plains() {
    let g = grid(4, 3);
    assert_eq!(g.width, 4);
    assert_eq!(g.height, 3);
    assert_eq!(g.tiles.len(), 12);
    assert!(g.tiles.iter().all(|t| *t == Tile::Empty));
    assert!(g.biomes.iter().all(|b| *b == Biome::Plains));
}

#[test]
fn grid_get_set_round_trip() {
    let mut g = grid(5, 5);
    g.set(2, 3, Tile::Road(7));
    assert_eq!(g.get(2, 3), Some(Tile::Road(7)));
    assert_eq!(g.idx(2, 3), 17);
    assert_eq!(g.tiles[17], Tile::Road(7));
    assert_eq!(g.get(3, 2), Some(Tile::Empty));
}

#[test]
fn grid_out_of_bounds() {
    let mut g = grid(5, 5);
    assert_eq!(g.get(5, 0), None);
    assert_eq!(g.get(0, 5), None);
    g.set(9, 9, Tile::Water);
    assert!(g.tiles.iter().all(|t| *t == Tile::Empty));
}

#[test]
fn grid_neighbours_order_and_edges() {
    let g = grid(3, 3);
    assert_eq!(g.neighbours4(1, 1), vec![(0, 1), (2, 1), (1, 0), (1, 2)]);
    assert_eq!(g.neighbours4(0, 0), vec![(1, 0), (0, 1)]);
    assert_eq!(g.neighbours4(2, 2), vec![(1, 2), (2, 1)]);
}

#[test]
fn grid_biomes_make_water() {
    let mut g = grid(2, 2);
    g.apply_biomes(vec![Biome::Water, Biome::Plains, Biome::Forest, Biome::Water]);
    assert_eq!(g.tiles, vec![Tile::Water, Tile::Empty, Tile::Empty, Tile::Water]);
    assert_eq!(g.biomes[2], Biome::Forest);
}

#[test]
fn grid_fill_rect_and_mask() {
    let mut g = grid(4, 4);
    g.fill_rect(1, 1, 3, 2, Tile::Road(0));
    assert_eq!(g.get(1, 1), Some(Tile::Road(0)));
    assert_eq!(g.get(2, 1), Some(Tile::Road(0)));
    assert_eq!(g.get(3, 1), Some(Tile::Empty));
    assert_eq!(g.get(1, 2), Some(Tile::Empty));
    let m = g.road_mask();
    assert_eq!(m.len(), 16);
    assert_eq!(m.iter().filter(|v| **v == 255).count(), 2);
    assert_eq!(m[5], 255);
    assert_eq!(m[6], 255);
    assert_eq!(m[0], 0);
}

#[test]
fn layout_ceil_sqrt_values() {
    assert_eq!(ceil_sqrt(0), 0);
    assert_eq!(ceil_sqrt(1), 1);
    assert_eq!(ceil_sqrt(16), 4);
    assert_eq!(ceil_sqrt(17), 5);
    assert_eq!(ceil_sqrt(u32::MAX), 65536);
}

#[test]
fn layout_texture_sizes() {
    assert_eq!(texture_layout(PEOPLE_CAPACITY * 2, 2), (1024, 1024));
    assert_eq!(texture_layout(ROAD_CAPACITY * 2, 2), (128, 128));
    assert_eq!(texture_layout(BUILDING_CAPACITY * 3, 3), (1257, 1252));
    assert_eq!(texture_layout(ROAD_CAPACITY * 5, 5), (205, 200));
    let (w, h) = texture_layout(10, 3);
    assert_eq!((w, h), (6, 2));
    assert_eq!(w % 3, 0);
    assert!(w * h >= 10);
}

#[test]
fn clock_simulated_time() {
    let mut t = GameTime::new();
    assert_eq!(t.simulation_time(), (0, 0, 0));
    // 5 real minutes make one simulated day.
    t.advance(300_000_000);
    assert_eq!(t.simulation_time(), (1, 0, 0));
    // 12.5 more real seconds make one simulated hour.
    t.advance(12_500_000);
    assert_eq!(t.simulation_time(), (1, 1, 0));
    assert_eq!(t.real_clock(), (5, 12));
}

#[test]
fn clock_saturates() {
    let mut t = GameTime::new();
    t.advance(u64::MAX);
    t.advance(5);
    assert_eq!(t.real_elapsed_micros, u64::MAX);
    let (d, h, m) = t.simulation_time();
    assert_eq!(d as u64 * 1440 + h as u64 * 60 + m as u64, u32::MAX as u64);
    assert_eq!(t.real_clock().0, u32::MAX);
}

#[test]
fn clock_monotone_on_samples() {
    let mut t = GameTime::new();
    let mut last = 0u64;
    for _ in 0..50 {
        t.advance(3_333_333);
        let (d, h, m) = t.simulation_time();
        let total = d as u64 * 1440 + h as u64 * 60 + m as u64;
        assert!(total >= last);
        last = total;
    }
}

#[test]
fn tools_zone_tags() {
    assert_eq!(ZoneTag::Residential.as_zone(), ZoneType::Residential);
    assert_eq!(ZoneTag::Office.as_zone(), ZoneType::Office);
    assert_eq!(ZoneTag::Shop.as_zone(), ZoneType::Shop);
    assert_ne!(ActiveTool::Camera, ActiveTool::Road);
}

#[test]
fn menu_presets() {
    let mut s = MenuSettings::new();
    assert_eq!((s.grid_x, s.grid_y, s.population), (4, 4, 500000));
    s.apply(MenuAction::Small);
    assert_eq!((s.grid_x, s.grid_y, s.population), (3, 3, 200000));
    s.apply(MenuAction::Medium);
    assert_eq!((s.grid_x, s.grid_y, s.population), (10, 8, 500000));
    s.apply(MenuAction::Large);
    assert_eq!((s.grid_x, s.grid_y, s.population), (25, 20, 1000000));
}

fn building(btype: ZoneType, capacity: u32) -> Building {
    Building {
        tile: (0, 0),
        btype,
        level: 0,
        occupants: 0,
        assigned: 0,
        capacity,
        income: 0,
        road_seg: 0,
        road_t: (0, 1),
        growth_bits: 0,
        age_bits: 0,
    }
}

#[test]
fn counters_partition_buildings() {
    let items = vec![
        building(ZoneType::Residential, 4),
        building(ZoneType::Residential, 0),
        building(ZoneType::Office, 8),
        building(ZoneType::Shop, 8),
        building(ZoneType::Shop, 0),
        building(ZoneType::Shop, 2),
    ];
    let (r, o, s) = count_active_buildings(&items);
    let a = count_abandoned_buildings(&items);
    assert_eq!((r, o, s, a), (1, 1, 2, 2));
    assert_eq!(r + o + s + a, items.len() as u32);
}

#[test]
fn counters_apply_stats_and_tax() {
    let mut c = SimCounters::new();
    let stats = GpuStats {
        people_count: 10,
        home_count: 3,
        work_count: 4,
        shop_count: 2,
        travelling_count: 1,
        total_money: 999,
        residential_occupancy: 0,
        office_occupancy: 0,
        shop_occupancy: 0,
        residential_count: 0,
        office_count: 0,
        shop_count_b: 0,
        residential_assigned: 0,
        office_assigned: 0,
        bankrupt_count: 5,
        active_car_count: 6,
        tax_income_total: 100,
        tax_rent_total: 20,
        tax_consumption_total: 3,
        live_car_count: 7,
    };
    c.apply_stats(&stats);
    assert_eq!(c.people, 10);
    assert_eq!(c.cars, 7);
    assert_eq!(c.bankrupt, 5);
    assert_eq!((c.res_occupants, c.office_occupants, c.shop_occupants), (3, 4, 2));
    assert_eq!(c.money_total, 999);
    assert_eq!(c.tax_total(), 123);
}

#[test]
fn telemetry_counts_cars_and_abandoned() {
    let codes = vec![0, 1, 0, 3, 2, 0];
    let items = vec![building(ZoneType::Residential, 0), building(ZoneType::Shop, 10), building(ZoneType::Office, 0)];
    assert_eq!(telemetry_counts(&codes, &items), (3, 2));
    assert_eq!(telemetry_counts(&vec![], &vec![]), (0, 0));
}
