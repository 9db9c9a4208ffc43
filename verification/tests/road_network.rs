use real_city::roads::{empty_row, pack_conns, road_type_code, speed_for, RoadData, RoadLink, RoadType};

fn link(a: (u32, u32), b: (u32, u32), t: RoadType) -> RoadLink {
    RoadLink { a, b, road_type: t }
}

#[test]
fn new_network_is_empty() {
    let r = RoadData::new();
    assert!(r.segments.is_empty());
    assert!(r.links.is_empty());
    assert!(r.all_points.is_empty());
    assert_eq!(r.rows.len(), 8192);
    assert_eq!((r.tex_width, r.tex_height), (128, 128));
    assert!(r.dirty);
    assert!(r.rows.iter().all(|row| *row == empty_row()));
}

#[test]
fn push_link_dedups_both_directions() {
    let mut r = RoadData::new();
    r.dirty = false;
    r.push_link((0, 0), (1, 0), RoadType::Normal);
    assert!(r.dirty);
    r.dirty = false;
    r.push_link((0, 0), (1, 0), RoadType::Normal);
    r.push_link((1, 0), (0, 0), RoadType::Normal);
    assert!(!r.dirty);
    assert_eq!(r.links, vec![link((0, 0), (1, 0), RoadType::Normal)]);
    // Another road type on the same tiles is another link.
    r.push_link((1, 0), (0, 0), RoadType::Highway);
    assert_eq!(r.links.len(), 2);
    assert!(r.dirty);
}

#[test]
fn road_type_codes_and_speeds() {
    assert_eq!(road_type_code(RoadType::Normal), 0);
    assert_eq!(road_type_code(RoadType::Highway), 1);
    assert_eq!(road_type_code(RoadType::Highway2x4), 2);
    assert_eq!(road_type_code(RoadType::Highway2x8), 3);
    assert_eq!(speed_for(RoadType::Highway), 2);
    assert_eq!(speed_for(RoadType::Normal), 1);
    assert_eq!(speed_for(RoadType::Highway2x8), 1);
}

#[test]
fn straight_chain_is_one_segment() {
    let mut r = RoadData::new();
    r.push_link((1, 0), (0, 0), RoadType::Normal);
    r.push_link((2, 0), (1, 0), RoadType::Normal);
    r.push_link((3, 0), (2, 0), RoadType::Normal);
    let tts = r.rebuild_topology();
    assert_eq!(r.segments.len(), 1);
    let s = &r.segments[0];
    assert_eq!(s.points, vec![(0, 0), (1, 0), (2, 0), (3, 0)]);
    assert_eq!((s.a, s.b), ((0, 0), (3, 0)));
    assert_eq!(s.length, 3);
    assert_eq!(s.speed_mean, 1);
    assert_eq!(s.links_offset, 0);
    assert!(s.conn_a.is_empty() && s.conn_b.is_empty());
    assert_eq!(r.all_points, s.points);
    assert_eq!(tts.len(), 4);
    assert!(tts.iter().all(|(_, id)| *id == 0));
    assert_eq!(r.usage, vec![0]);
    let row = r.rows[0];
    assert_eq!((row.ax, row.ay, row.bx, row.by), (0, 0, 3, 0));
    assert_eq!((row.speed_mean, row.length, row.conn_a_packed, row.conn_b_packed), (1, 3, 0, 0));
    assert_eq!(r.rows[1], empty_row());
}

#[test]
fn t_junction_splits_into_three_segments() {
    let mut r = RoadData::new();
    // A horizontal street (0,0)-(4,0) and a branch down from (2,0) to (2,2).
    for x in 0..4 {
        r.push_link((x, 0), (x + 1, 0), RoadType::Normal);
    }
    r.push_link((2, 0), (2, 1), RoadType::Normal);
    r.push_link((2, 1), (2, 2), RoadType::Normal);
    let tts = r.rebuild_topology();
    assert_eq!(r.segments.len(), 3);
    // Every link is crossed by exactly one segment.
    let total: u32 = r.segments.iter().map(|s| s.length).sum();
    assert_eq!(total, 6);
    // The junction tile ends all three segments, and each of them lists the
    // other two there.
    for (i, s) in r.segments.iter().enumerate() {
        let at_junction = if s.a == (2, 0) { &s.conn_a } else { &s.conn_b };
        assert!(s.a == (2, 0) || s.b == (2, 0));
        assert_eq!(at_junction.len(), 2);
        assert!(!at_junction.contains(&(i as u32)));
        // The row packs the count and the ids.
        let row = r.rows[i];
        let packed = |c: &Vec<u32>| {
            let id = |k: usize| c.get(k).copied().unwrap_or(0) as u64;
            c.len() as u64 * (1 << 24) + id(0) * (1 << 16) + id(1) * (1 << 8) + id(2)
        };
        assert_eq!((row.conn_a_packed, row.conn_b_packed), (packed(&s.conn_a), packed(&s.conn_b)));
        let at_junction_packed = if s.a == (2, 0) { row.conn_a_packed } else { row.conn_b_packed };
        assert_eq!(at_junction_packed >> 24, 2);
    }
    // Points are laid out segment after segment.
    let mut offset = 0;
    for s in &r.segments {
        assert_eq!(s.links_offset, offset);
        assert_eq!(&r.all_points[offset as usize..offset as usize + s.points.len()], &s.points[..]);
        offset += s.points.len() as u32;
    }
    assert_eq!(tts.len(), r.all_points.len());
}

#[test]
fn road_type_change_is_a_junction() {
    let mut r = RoadData::new();
    r.push_link((0, 0), (1, 0), RoadType::Normal);
    r.push_link((1, 0), (2, 0), RoadType::Highway);
    r.rebuild_topology();
    assert_eq!(r.segments.len(), 2);
    let types: Vec<RoadType> = r.segments.iter().map(|s| s.road_type).collect();
    assert!(types.contains(&RoadType::Normal) && types.contains(&RoadType::Highway));
    for s in &r.segments {
        assert_eq!(s.speed_mean, speed_for(s.road_type));
        assert_eq!(s.length, 1);
    }
}

#[test]
fn closed_loop_without_junction() {
    let mut r = RoadData::new();
    r.push_link((0, 0), (1, 0), RoadType::Normal);
    r.push_link((1, 0), (1, 1), RoadType::Normal);
    r.push_link((1, 1), (0, 1), RoadType::Normal);
    r.push_link((0, 1), (0, 0), RoadType::Normal);
    let tts = r.rebuild_topology();
    assert_eq!(r.segments.len(), 1);
    let s = &r.segments[0];
    assert_eq!(s.length, 4);
    assert_eq!(s.points.len(), 5);
    assert_eq!(s.a, s.b);
    assert_eq!(s.points[0], s.points[4]);
    // The loop starts at the first link's `a` end and crosses its `b` end.
    assert_eq!(tts, vec![((0, 0), 0), ((1, 0), 0), ((1, 1), 0), ((0, 1), 0), ((0, 0), 0)]);
    assert!(s.conn_a.is_empty() && s.conn_b.is_empty());
    assert_eq!(r.all_points.len(), 5);
}

#[test]
fn isolated_tile_self_link() {
    let mut r = RoadData::new();
    r.push_link((5, 5), (5, 5), RoadType::Normal);
    let tts = r.rebuild_topology();
    assert_eq!(r.segments.len(), 1);
    assert!(r.segments[0].points.iter().all(|p| *p == (5, 5)));
    assert!(tts.iter().any(|(p, id)| *p == (5, 5) && *id == 0));
}

#[test]
fn tile_position_along_segment() {
    let mut r = RoadData::new();
    for x in 0..4 {
        r.push_link((x, 0), (x + 1, 0), RoadType::Normal);
    }
    r.rebuild_topology();
    let s = &r.segments[0];
    let k = s.points.iter().position(|p| *p == (1, 0)).unwrap() as u32;
    assert_eq!(r.get_tile_t(0, (1, 0)), (k, 4));
    assert_eq!(r.get_tile_t(0, (9, 9)), (0, 1));
    assert_eq!(r.get_tile_t(3, (1, 0)), (0, 1));
}

#[test]
fn rebuild_keeps_usage_prefix() {
    let mut r = RoadData::new();
    r.push_link((0, 0), (1, 0), RoadType::Normal);
    r.rebuild_topology();
    r.usage[0] = 42;
    r.push_link((5, 5), (6, 5), RoadType::Normal);
    r.rebuild_topology();
    assert_eq!(r.segments.len(), 2);
    assert_eq!(r.usage, vec![42, 0]);
}

#[test]
fn connection_lists_pack_count_and_ids() {
    assert_eq!(pack_conns(&vec![]), 0);
    assert_eq!(pack_conns(&vec![7]), (1 << 24) + (7 << 16));
    assert_eq!(pack_conns(&vec![1, 2, 3]), 50_397_699);
}

#[test]
fn rebuilding_unchanged_links_gives_the_same_segments() {
    let mut r = RoadData::new();
    for x in 0..4 {
        r.push_link((x, 0), (x + 1, 0), RoadType::Normal);
    }
    r.push_link((2, 0), (2, 1), RoadType::Normal);
    r.push_link((5, 5), (6, 5), RoadType::Highway);
    let first = r.rebuild_topology();
    let segs: Vec<(Vec<(u32, u32)>, RoadType, u32)> = r.segments.iter().map(|s| (s.points.clone(), s.road_type, s.length)).collect();
    let second = r.rebuild_topology();
    assert_eq!(first, second);
    for (s, (pts, t, len)) in r.segments.iter().zip(segs.iter()) {
        assert_eq!((&s.points, s.road_type, s.length), (pts, *t, *len));
    }
}
