//! Road links placed by the player, and the super-segments built from them
//! for pathfinding and the GPU road texture.

use vstd::prelude::*;

use crate::layout::{texture_layout, ROAD_CAPACITY, TEXELS_PER_SEGMENT};
use crate::topology::{
    build_adjacency, classify_junctions, connects, flat_points, index_nodes, lemma_flat_points_mono,
    lemma_flat_points_same, is_junction, loop_starts, seg_traced, segs_traced, trace_segments, walked, walks_cover, LinkGraph,
};

verus! {

/// Kind of road. Highways are faster; the wide highway kinds also stamp a
/// wider footprint on the grid.
#[derive(Clone, Copy, Debug, PartialEq, Eq, Structural)]
pub enum RoadType {
    Normal,
    Highway,
    Highway2x4,
    Highway2x8,
}

/// A single link between two tiles (possibly the same tile, which just marks
/// an isolated road tile).
#[derive(Clone, Copy, Debug, PartialEq, Eq)]
pub struct RoadLink {
    pub a: (u32, u32),
    pub b: (u32, u32),
    pub road_type: RoadType,
}

/// A super-segment: a maximal run of links between two junctions, or a
/// closed loop without any junction.
pub struct RoadSegment {
    pub a: (u32, u32),
    pub b: (u32, u32),
    /// The tiles of the segment, from `a` to `b`.
    pub points: Vec<(u32, u32)>,
    /// Up to three neighbouring segment ids at end `a`.
    pub conn_a: Vec<u32>,
    /// Up to three neighbouring segment ids at end `b`.
    pub conn_b: Vec<u32>,
    /// Speed multiplier: 2 on highways, 1 otherwise.
    pub speed_mean: u32,
    /// Number of links crossed, `points.len() - 1`.
    pub length: u32,
    /// Offset of the first point in the flattened point list.
    pub links_offset: u32,
    pub road_type: RoadType,
}

/// Speed multiplier of a road type.
pub open spec fn spec_speed_for(t: RoadType) -> u32 {
    if t == RoadType::Highway {
        2
    } else {
        1
    }
}

pub fn speed_for(t: RoadType) -> (s: u32)
    ensures
        s == spec_speed_for(t),
{
    match t {
        RoadType::Highway => 2,
        _ => 1,
    }
}

/// Numeric code of a road type in the road texture.
pub open spec fn spec_road_type_code(t: RoadType) -> u32 {
    match t {
        RoadType::Normal => 0,
        RoadType::Highway => 1,
        RoadType::Highway2x4 => 2,
        RoadType::Highway2x8 => 3,
    }
}

pub fn road_type_code(t: RoadType) -> (c: u32)
    ensures
        c == spec_road_type_code(t),
{
    match t {
        RoadType::Normal => 0,
        RoadType::Highway => 1,
        RoadType::Highway2x4 => 2,
        RoadType::Highway2x8 => 3,
    }
}

/// One segment's row of the road texture, two texels of four values:
/// `[ax, ay, bx, by]` then `[speed_mean, conn_a_packed, conn_b_packed,
/// length]`. Each connection list is packed as
/// `count * 2^24 + id0 * 2^16 + id1 * 2^8 + id2` (see `spec_pack_conns`).
/// Every value is a whole number; the application writes them as floats.
#[derive(Clone, Copy, Debug, PartialEq, Eq, Structural)]
pub struct RoadRow {
    pub ax: u32,
    pub ay: u32,
    pub bx: u32,
    pub by: u32,
    pub speed_mean: u32,
    pub conn_a_packed: u64,
    pub conn_b_packed: u64,
    pub length: u32,
}

/// The all-zero row of an unused texture slot.
pub open spec fn spec_empty_row() -> RoadRow {
    RoadRow { ax: 0, ay: 0, bx: 0, by: 0, speed_mean: 0, conn_a_packed: 0, conn_b_packed: 0, length: 0 }
}

pub fn empty_row() -> (r: RoadRow)
    ensures
        r == spec_empty_row(),
{
    RoadRow { ax: 0, ay: 0, bx: 0, by: 0, speed_mean: 0, conn_a_packed: 0, conn_b_packed: 0, length: 0 }
}

/// Entry `k` of a connection list, 0 where the list is shorter.
pub open spec fn conn_or_zero(c: Seq<u32>, k: int) -> u32 {
    if k < c.len() {
        c[k]
    } else {
        0
    }
}

/// A connection list of up to three segment ids packed into one value:
/// the count times `2^24`, plus the ids times `2^16`, `2^8` and `1` (a
/// missing id counts as 0).
pub open spec fn spec_pack_conns(c: Seq<u32>) -> int {
    c.len() * 0x100_0000 + conn_or_zero(c, 0) * 0x1_0000 + conn_or_zero(c, 1) * 0x100 + conn_or_zero(c, 2)
}

/// The texture row describing `seg`.
pub open spec fn row_of(seg: RoadSegment) -> RoadRow {
    RoadRow {
        ax: seg.a.0,
        ay: seg.a.1,
        bx: seg.b.0,
        by: seg.b.1,
        speed_mean: seg.speed_mean,
        conn_a_packed: spec_pack_conns(seg.conn_a@) as u64,
        conn_b_packed: spec_pack_conns(seg.conn_b@) as u64,
        length: seg.length,
    }
}

fn conn_entry(c: &Vec<u32>, k: usize) -> (v: u32)
    ensures
        v == conn_or_zero(c@, k as int),
{
    if k < c.len() {
        c[k]
    } else {
        0
    }
}

/// Packs a connection list of at most three ids.
pub fn pack_conns(c: &Vec<u32>) -> (p: u64)
    requires
        c@.len() <= 3,
    ensures
        p == spec_pack_conns(c@),
{
    let n = c.len() as u64;
    n * 0x100_0000 + (conn_entry(c, 0) as u64) * 0x1_0000 + (conn_entry(c, 1) as u64) * 0x100 + conn_entry(c, 2) as u64
}

/// The segment ids other than `id` that end at `p` among segments
/// `0..upto`, in id order, listed once per matching end (`a` before `b`).
pub open spec fn touching(segs: Seq<RoadSegment>, id: int, p: (u32, u32), upto: int) -> Seq<u32>
    decreases upto,
{
    if upto <= 0 {
        Seq::empty()
    } else {
        let j = upto - 1;
        touching(segs, id, p, j) + (if segs[j].a == p && j != id {
            seq![j as u32]
        } else {
            Seq::empty()
        }) + (if segs[j].b == p && j != id {
            seq![j as u32]
        } else {
            Seq::empty()
        })
    }
}

/// At most the first three entries.
pub open spec fn first3(s: Seq<u32>) -> Seq<u32> {
    if s.len() <= 3 {
        s
    } else {
        s.subrange(0, 3)
    }
}

/// The connections recorded at end `p` of segment `id`: the first three
/// other segments ending there.
pub open spec fn conn_at(segs: Seq<RoadSegment>, id: int, p: (u32, u32)) -> Seq<u32> {
    first3(touching(segs, id, p, segs.len() as int))
}

proof fn lemma_touching_meets(segs: Seq<RoadSegment>, id: int, p: (u32, u32), upto: int)
    requires
        0 <= upto <= segs.len(),
        segs.len() <= u32::MAX,
    ensures
        forall|k: int|
            0 <= k < touching(segs, id, p, upto).len() ==> {
                let j = #[trigger] touching(segs, id, p, upto)[k] as int;
                &&& 0 <= j < upto
                &&& j != id
                &&& (segs[j].a == p || segs[j].b == p)
            },
    decreases upto,
{
    if upto > 0 {
        lemma_touching_meets(segs, id, p, upto - 1);
        let j = upto - 1;
        let prev = touching(segs, id, p, j);
        let ea: Seq<u32> = if segs[j].a == p && j != id { seq![j as u32] } else { Seq::empty() };
        let eb: Seq<u32> = if segs[j].b == p && j != id { seq![j as u32] } else { Seq::empty() };
        assert(touching(segs, id, p, upto) == prev + ea + eb);
        assert forall|k: int| 0 <= k < touching(segs, id, p, upto).len() implies {
            let jj = #[trigger] touching(segs, id, p, upto)[k] as int;
            &&& 0 <= jj < upto
            &&& jj != id
            &&& (segs[jj].a == p || segs[jj].b == p)
        } by {
            if k < prev.len() {
                assert(touching(segs, id, p, upto)[k] == prev[k]);
            } else if k < prev.len() + ea.len() {
                assert(touching(segs, id, p, upto)[k] == ea[k - prev.len()]);
            } else {
                assert(touching(segs, id, p, upto)[k] == eb[k - prev.len() - ea.len()]);
            }
        }
    }
}

/// The connections a segment records at an end are at most three other
/// segments of the network, each ending at that same tile.
pub proof fn lemma_connections_meet(segs: Seq<RoadSegment>, id: int, p: (u32, u32))
    requires
        segs.len() <= u32::MAX,
    ensures
        conn_at(segs, id, p).len() <= 3,
        forall|k: int|
            0 <= k < conn_at(segs, id, p).len() ==> {
                let j = #[trigger] conn_at(segs, id, p)[k] as int;
                &&& 0 <= j < segs.len()
                &&& j != id
                &&& (segs[j].a == p || segs[j].b == p)
            },
{
    lemma_touching_meets(segs, id, p, segs.len() as int);
    let t = touching(segs, id, p, segs.len() as int);
    assert forall|k: int| 0 <= k < conn_at(segs, id, p).len() implies {
        let j = #[trigger] conn_at(segs, id, p)[k] as int;
        &&& 0 <= j < segs.len()
        &&& j != id
        &&& (segs[j].a == p || segs[j].b == p)
    } by {
        assert(conn_at(segs, id, p)[k] == t[k]);
    }
}

proof fn lemma_first3_push(s: Seq<u32>, x: u32)
    ensures
        first3(s.push(x)) == (if first3(s).len() < 3 {
            first3(s).push(x)
        } else {
            first3(s)
        }),
{
    if s.len() >= 3 {
        assert(first3(s.push(x)) =~= first3(s));
    }
}

fn same_pos(p: (u32, u32), q: (u32, u32)) -> (b: bool)
    ensures
        b == (p == q),
{
    p.0 == q.0 && p.1 == q.1
}

/// The connections at end `p` of segment `id`.
fn connections_at(segs: &Vec<RoadSegment>, id: usize, p: (u32, u32)) -> (c: Vec<u32>)
    requires
        segs@.len() <= u32::MAX,
    ensures
        c@ == conn_at(segs@, id as int, p),
{
    let n = segs.len();
    let mut c: Vec<u32> = Vec::new();
    let mut j: usize = 0;
    while j < n
        invariant
            n == segs@.len(),
            n <= u32::MAX,
            j <= n,
            c@ == first3(touching(segs@, id as int, p, j as int)),
        decreases n - j,
    {
        let ghost t0 = touching(segs@, id as int, p, j as int);
        proof {
            lemma_first3_push(t0, j as u32);
        }
        let ga = same_pos(segs[j].a, p) && j != id;
        let gb = same_pos(segs[j].b, p) && j != id;
        if ga && c.len() < 3 {
            c.push(j as u32);
        }
        let ghost t1 = if ga {
            t0.push(j as u32)
        } else {
            t0
        };
        proof {
            lemma_first3_push(t1, j as u32);
        }
        if gb && c.len() < 3 {
            c.push(j as u32);
        }
        proof {
            let t2 = if gb {
                t1.push(j as u32)
            } else {
                t1
            };
            assert(touching(segs@, id as int, p, j as int + 1) =~= t2);
        }
        j = j + 1;
    }
    c
}

/// The points of segments `0..upto`, each paired with its segment id.
pub open spec fn flat_tiles(segs: Seq<RoadSegment>, upto: int) -> Seq<((u32, u32), u32)>
    decreases upto,
{
    if upto <= 0 {
        Seq::empty()
    } else {
        flat_tiles(segs, upto - 1) + segs[upto - 1].points@.map_values(
            |p: (u32, u32)| (p, (upto - 1) as u32),
        )
    }
}

/// Every point of segment `i < upto` appears in `flat_tiles(segs, upto)`
/// with the segment's id.
proof fn lemma_flat_tiles_has(segs: Seq<RoadSegment>, upto: int, i: int, k: int)
    requires
        0 <= i < upto <= segs.len(),
        0 <= k < segs[i].points@.len(),
    ensures
        exists|q: int|
            0 <= q < flat_tiles(segs, upto).len() && #[trigger] flat_tiles(segs, upto)[q] == (segs[i].points@[k], i as u32),
    decreases upto,
{
    let prev = flat_tiles(segs, upto - 1);
    let tail = segs[upto - 1].points@.map_values(|p: (u32, u32)| (p, (upto - 1) as u32));
    assert(flat_tiles(segs, upto) == prev + tail);
    if i < upto - 1 {
        lemma_flat_tiles_has(segs, upto - 1, i, k);
        let q = choose|q: int| 0 <= q < prev.len() && #[trigger] prev[q] == (segs[i].points@[k], i as u32);
        assert(flat_tiles(segs, upto)[q] == prev[q]);
    } else {
        let q = prev.len() + k;
        assert(flat_tiles(segs, upto)[q] == tail[k]);
    }
}

/// Both ends of every link are points of the network: they show up in the
/// list of segment points (with the id of a segment crossing the link).
pub proof fn lemma_link_ends_on_network(links: Seq<RoadLink>, segs: Seq<RoadSegment>, l: int)
    requires
        decomposes(links, segs),
        0 <= l < links.len(),
    ensures
        exists|q: int|
            0 <= q < flat_tiles(segs, segs.len() as int).len() && (#[trigger] flat_tiles(segs, segs.len() as int)[q]).0
                == links[l].a,
        exists|q: int|
            0 <= q < flat_tiles(segs, segs.len() as int).len() && (#[trigger] flat_tiles(segs, segs.len() as int)[q]).0
                == links[l].b,
{
    let sls = choose|sls: Seq<Seq<int>>| segs_traced(links, segs, sls) && walks_cover(sls, links.len() as int);
    assert(walked(sls, l));
    let (i, k) = choose|i: int, k: int| 0 <= i < sls.len() && 0 <= k < sls[i].len() && sls[i][k] == l;
    assert(seg_traced(links, segs[i], sls[i]));
    let pts = segs[i].points@;
    assert(connects(links[sls[i][k]], pts[k], pts[k + 1]));
    lemma_flat_tiles_has(segs, segs.len() as int, i, k);
    lemma_flat_tiles_has(segs, segs.len() as int, i, k + 1);
    let n = segs.len() as int;
    let q1 = choose|q: int| 0 <= q < flat_tiles(segs, n).len() && #[trigger] flat_tiles(segs, n)[q] == (pts[k], i as u32);
    let q2 = choose|q: int| 0 <= q < flat_tiles(segs, n).len() && #[trigger] flat_tiles(segs, n)[q] == (pts[k + 1], i as u32);
    if links[l].a == pts[k] {
        assert(flat_tiles(segs, n)[q1].0 == links[l].a);
        assert(flat_tiles(segs, n)[q2].0 == links[l].b);
    } else {
        assert(flat_tiles(segs, n)[q2].0 == links[l].a);
        assert(flat_tiles(segs, n)[q1].0 == links[l].b);
    }
}

/// The segments decompose the links: there is a way to label every step of
/// every segment with a link so that the labelled link joins the step's two
/// tiles and has the segment's road type, no link labels two steps, and
/// every link labels some step. Each segment runs between junctions or
/// closes a loop of two-ended tiles, and its inner tiles are two-ended. A
/// loop starts at the `a` end of its lowest-numbered link and runs across
/// that link's `b` end first.
pub open spec fn decomposes(links: Seq<RoadLink>, segs: Seq<RoadSegment>) -> bool {
    exists|sls: Seq<Seq<int>>|
        segs_traced(links, segs, sls) && walks_cover(sls, links.len() as int) && loop_starts(links, segs, sls)
}

/// No two links join the same pair of tiles with the same road type.
pub open spec fn links_unique(links: Seq<RoadLink>) -> bool {
    forall|i: int, j: int|
        0 <= i < links.len() && 0 <= j < links.len() && i != j ==> !same_link(
            #[trigger] links[i],
            #[trigger] links[j],
        )
}

/// Two links join the same pair of tiles (in either direction) with the
/// same road type.
pub open spec fn same_link(l1: RoadLink, l2: RoadLink) -> bool {
    l1.road_type == l2.road_type && connects(l1, l2.a, l2.b)
}

/// A link joining `a` and `b` with road type `t` is already present.
pub open spec fn has_link(links: Seq<RoadLink>, a: (u32, u32), b: (u32, u32), t: RoadType) -> bool {
    exists|i: int| 0 <= i < links.len() && same_link(#[trigger] links[i], RoadLink { a, b, road_type: t })
}

/// The links after pushing `a`-`b` of type `t`: unchanged if such a link
/// is already present, else with the new link appended.
pub open spec fn links_after_push(links: Seq<RoadLink>, a: (u32, u32), b: (u32, u32), t: RoadType) -> Seq<RoadLink> {
    if has_link(links, a, b, t) {
        links
    } else {
        links.push(RoadLink { a, b, road_type: t })
    }
}

/// A pushed link is present afterwards in both directions, so pushing it
/// again, either way round, changes nothing.
pub proof fn lemma_pushed_link_present(links: Seq<RoadLink>, a: (u32, u32), b: (u32, u32), t: RoadType)
    ensures
        has_link(links_after_push(links, a, b, t), a, b, t),
        has_link(links_after_push(links, a, b, t), b, a, t),
        links_after_push(links_after_push(links, a, b, t), a, b, t) == links_after_push(links, a, b, t),
        links_after_push(links_after_push(links, a, b, t), b, a, t) == links_after_push(links, a, b, t),
{
    let after = links_after_push(links, a, b, t);
    if has_link(links, a, b, t) {
        let i = choose|i: int| 0 <= i < links.len() && same_link(#[trigger] links[i], RoadLink { a, b, road_type: t });
        assert(same_link(after[i], RoadLink { b: a, a: b, road_type: t }));
    } else {
        let i = links.len() as int;
        assert(same_link(after[i], RoadLink { a, b, road_type: t }));
        assert(same_link(after[i], RoadLink { b: a, a: b, road_type: t }));
    }
}

/// Pushing links never creates two links joining the same tiles with the
/// same type.
pub proof fn lemma_push_keeps_unique(links: Seq<RoadLink>, a: (u32, u32), b: (u32, u32), t: RoadType)
    requires
        links_unique(links),
    ensures
        links_unique(links_after_push(links, a, b, t)),
{
    let after = links_after_push(links, a, b, t);
    if !has_link(links, a, b, t) {
        let n = links.len() as int;
        let l = RoadLink { a, b, road_type: t };
        assert forall|i: int, j: int|
            0 <= i < after.len() && 0 <= j < after.len() && i != j implies !same_link(#[trigger] after[i], #[trigger] after[j]) by {
            if i == n {
                assert(!same_link(links[j], l));
            } else if j == n {
                assert(!same_link(links[i], l));
            } else {
                assert(after[i] == links[i] && after[j] == links[j]);
            }
        }
    }
}

proof fn lemma_touching_same(s1: Seq<RoadSegment>, s2: Seq<RoadSegment>, id: int, p: (u32, u32), upto: int)
    requires
        0 <= upto <= s1.len(),
        upto <= s2.len(),
        forall|j: int| 0 <= j < upto ==> (#[trigger] s1[j]).a == s2[j].a && s1[j].b == s2[j].b,
    ensures
        touching(s1, id, p, upto) == touching(s2, id, p, upto),
    decreases upto,
{
    if upto > 0 {
        lemma_touching_same(s1, s2, id, p, upto - 1);
    }
}

proof fn lemma_flat_tiles_same(s1: Seq<RoadSegment>, s2: Seq<RoadSegment>, upto: int)
    requires
        0 <= upto <= s1.len(),
        upto <= s2.len(),
        forall|j: int| 0 <= j < upto ==> (#[trigger] s1[j]).points@ == s2[j].points@,
    ensures
        flat_tiles(s1, upto) == flat_tiles(s2, upto),
    decreases upto,
{
    if upto > 0 {
        lemma_flat_tiles_same(s1, s2, upto - 1);
    }
}

/// A segment with no tiles and no connections: both ends at the origin,
/// every count zero, a normal road.
fn blank_segment() -> (s: RoadSegment)
    ensures
        s.a == (0u32, 0u32),
        s.b == (0u32, 0u32),
        s.points@ == Seq::<(u32, u32)>::empty(),
        s.conn_a@ == Seq::<u32>::empty(),
        s.conn_b@ == Seq::<u32>::empty(),
        s.speed_mean == 0,
        s.length == 0,
        s.links_offset == 0,
        s.road_type == RoadType::Normal,
{
    RoadSegment {
        a: (0, 0),
        b: (0, 0),
        points: Vec::new(),
        conn_a: Vec::new(),
        conn_b: Vec::new(),
        speed_mean: 0,
        length: 0,
        links_offset: 0,
        road_type: RoadType::Normal,
    }
}

/// The parts of a segment that the link walk decides.
pub open spec fn same_shape(s1: RoadSegment, s2: RoadSegment) -> bool {
    &&& s1.a == s2.a
    &&& s1.b == s2.b
    &&& s1.points@ == s2.points@
    &&& s1.speed_mean == s2.speed_mean
    &&& s1.length == s2.length
    &&& s1.road_type == s2.road_type
}

/// Fills in the connection lists of every segment.
fn wire_connections(segs: &mut Vec<RoadSegment>)
    requires
        old(segs)@.len() <= u32::MAX,
    ensures
        final(segs)@.len() == old(segs)@.len(),
        forall|i: int|
            0 <= i < old(segs)@.len() ==> {
                &&& same_shape(#[trigger] final(segs)@[i], old(segs)@[i])
                &&& final(segs)@[i].links_offset == old(segs)@[i].links_offset
                &&& final(segs)@[i].conn_a@ == conn_at(old(segs)@, i, old(segs)@[i].a)
                &&& final(segs)@[i].conn_b@ == conn_at(old(segs)@, i, old(segs)@[i].b)
            },
{
    let ghost orig = segs@;
    let ns = segs.len();
    let mut id: usize = 0;
    while id < ns
        invariant
            ns == orig.len(),
            ns <= u32::MAX,
            id <= ns,
            segs@.len() == ns,
            forall|i: int|
                0 <= i < ns ==> {
                    &&& same_shape(#[trigger] segs@[i], orig[i])
                    &&& segs@[i].links_offset == orig[i].links_offset
                },
            forall|i: int|
                0 <= i < id ==> {
                    &&& (#[trigger] segs@[i]).conn_a@ == conn_at(orig, i, orig[i].a)
                    &&& segs@[i].conn_b@ == conn_at(orig, i, orig[i].b)
                },
        decreases ns - id,
    {
        proof {
            assert forall|j: int| 0 <= j < ns implies (#[trigger] segs@[j]).a == orig[j].a && segs@[j].b == orig[j].b by {
                assert(same_shape(segs@[j], orig[j]));
            }
            lemma_touching_same(segs@, orig, id as int, orig[id as int].a, ns as int);
            lemma_touching_same(segs@, orig, id as int, orig[id as int].b, ns as int);
        }
        let ca = connections_at(segs, id, segs[id].a);
        let cb = connections_at(segs, id, segs[id].b);
        let mut tmp = blank_segment();
        segs.set_and_swap(id, &mut tmp);
        tmp.conn_a = ca;
        tmp.conn_b = cb;
        segs.set_and_swap(id, &mut tmp);
        id = id + 1;
    }
}

/// Concatenates the points of all segments, records in each segment the
/// offset of its first point, and pairs every point with its segment id.
fn flatten_points(segs: &mut Vec<RoadSegment>, Ghost(n): Ghost<nat>) -> (res: (Vec<(u32, u32)>, Vec<((u32, u32), u32)>))
    requires
        old(segs)@.len() <= n,
        n <= 0x3fff_ffff,
        flat_points(old(segs)@, old(segs)@.len() as int).len() == n + old(segs)@.len(),
    ensures
        final(segs)@.len() == old(segs)@.len(),
        forall|j: int|
            0 <= j < old(segs)@.len() ==> {
                &&& same_shape(#[trigger] final(segs)@[j], old(segs)@[j])
                &&& final(segs)@[j].conn_a == old(segs)@[j].conn_a
                &&& final(segs)@[j].conn_b == old(segs)@[j].conn_b
                &&& final(segs)@[j].links_offset == flat_points(old(segs)@, j).len()
            },
        res.0@ == flat_points(old(segs)@, old(segs)@.len() as int),
        res.1@ == flat_tiles(old(segs)@, old(segs)@.len() as int),
{
    let ghost wired = segs@;
    let ns = segs.len();
        let mut all_points: Vec<(u32, u32)> = Vec::new();
        let mut tiles: Vec<((u32, u32), u32)> = Vec::new();
        let mut i: usize = 0;
        while i < ns
            invariant
                ns == wired.len(),
                ns <= n,
                n <= 0x3fff_ffff,
                flat_points(wired, ns as int).len() == n + ns,
                i <= ns,
                segs@.len() == ns,
                forall|j: int|
                    0 <= j < ns ==> {
                        &&& same_shape(#[trigger] segs@[j], wired[j])
                        &&& segs@[j].conn_a == wired[j].conn_a
                        &&& segs@[j].conn_b == wired[j].conn_b
                    },
                forall|j: int| 0 <= j < i ==> (#[trigger] segs@[j]).links_offset == flat_points(wired, j).len(),
                all_points@ == flat_points(wired, i as int),
                tiles@ == flat_tiles(wired, i as int),
            decreases ns - i,
        {
            let mut seg = blank_segment();
            segs.set_and_swap(i, &mut seg);
            proof {
                assert(same_shape(seg, wired[i as int]));
                lemma_flat_points_mono(wired, i as int + 1, ns as int);
            }
            seg.links_offset = all_points.len() as u32;
            let np = seg.points.len();
            let mut k: usize = 0;
            while k < np
                invariant
                    np == seg.points@.len(),
                    seg.points@ == wired[i as int].points@,
                    k <= np,
                    i < ns,
                    all_points@ == flat_points(wired, i as int) + seg.points@.take(k as int),
                    tiles@ == flat_tiles(wired, i as int) + seg.points@.take(k as int).map_values(
                        |p: (u32, u32)| (p, i as u32),
                    ),
                decreases np - k,
            {
                let p = seg.points[k];
                all_points.push(p);
                tiles.push((p, i as u32));
                proof {
                    assert(seg.points@.take(k as int + 1) =~= seg.points@.take(k as int).push(p));
                    assert(seg.points@.take(k as int + 1).map_values(|p: (u32, u32)| (p, i as u32)) =~= seg.points@.take(k as int).map_values(|p: (u32, u32)| (p, i as u32)).push((p, i as u32)));
                }
                k = k + 1;
            }
            proof {
                assert(seg.points@.take(np as int) =~= seg.points@);
            }
            segs.set_and_swap(i, &mut seg);
            i = i + 1;
        }
    (all_points, tiles)
}

/// Index of the first occurrence of `p` in `s` (meaningful when present).
pub open spec fn first_index_of(s: Seq<(u32, u32)>, p: (u32, u32)) -> int {
    choose|k: int| 0 <= k < s.len() && s[k] == p && forall|j: int| 0 <= j < k ==> s[j] != p
}

/// A tile present in `s` has a first occurrence.
proof fn lemma_first_index_exists(s: Seq<(u32, u32)>, p: (u32, u32), i: int)
    requires
        0 <= i < s.len(),
        s[i] == p,
    ensures
        0 <= first_index_of(s, p) <= i,
        s[first_index_of(s, p)] == p,
    decreases i,
{
    if exists|j: int| 0 <= j < i && s[j] == p {
        let j = choose|j: int| 0 <= j < i && s[j] == p;
        lemma_first_index_exists(s, p, j);
    } else {
        assert(0 <= i < s.len() && s[i] == p && forall|j: int| 0 <= j < i ==> s[j] != p);
        let k = first_index_of(s, p);
        assert(0 <= k < s.len() && s[k] == p && forall|j: int| 0 <= j < k ==> s[j] != p);
        if k > i {
            assert(s[i] != p);
        }
    }
}

/// The position of a tile along a segment is a fraction between 0 and 1.
pub proof fn lemma_tile_t_in_unit(segs: Seq<RoadSegment>, id: int, tile: (u32, u32))
    requires
        0 <= id < segs.len() ==> segs[id].points@.len() <= u32::MAX,
    ensures
        spec_tile_t(segs, id, tile).0 <= spec_tile_t(segs, id, tile).1,
        spec_tile_t(segs, id, tile).1 > 0,
{
    if 0 <= id < segs.len() && segs[id].points@.contains(tile) && segs[id].points@.len() > 1 {
        let pts = segs[id].points@;
        let i = choose|i: int| 0 <= i < pts.len() && pts[i] == tile;
        lemma_first_index_exists(pts, tile, i);
        let k = first_index_of(pts, tile);
        let n = pts.len();
        assert(0 <= k < n <= u32::MAX);
        assert(k as u32 == k);
        assert((n - 1) as u32 == n - 1);
        assert(spec_tile_t(segs, id, tile) == (k as u32, (n - 1) as u32));
    }
}

/// Position of `tile` along segment `id` as a fraction (numerator,
/// denominator).
pub open spec fn spec_tile_t(segs: Seq<RoadSegment>, id: int, tile: (u32, u32)) -> (u32, u32) {
    if 0 <= id < segs.len() && segs[id].points@.contains(tile) && segs[id].points@.len() > 1 {
        (first_index_of(segs[id].points@, tile) as u32, (segs[id].points@.len() - 1) as u32)
    } else {
        (0, 1)
    }
}

/// The road network: raw links as placed, the super-segments built from
/// them, and their GPU rows.
pub struct RoadData {
    /// The super-segments used for pathfinding.
    pub segments: Vec<RoadSegment>,
    /// All points of all segments, concatenated for the GPU.
    pub all_points: Vec<(u32, u32)>,
    pub rows: Vec<RoadRow>,
    pub tex_width: u32,
    pub tex_height: u32,
    pub dirty: bool,
    /// Usage counter per segment.
    pub usage: Vec<u32>,
    /// All placed road links before grouping.
    pub links: Vec<RoadLink>,
}

impl RoadData {
    /// No roads; `ROAD_CAPACITY` empty rows in a texture laid out for
    /// `ROAD_CAPACITY` segments of `TEXELS_PER_SEGMENT` texels.
    pub fn new() -> (r: RoadData)
        ensures
            r.segments@.len() == 0,
            r.all_points@.len() == 0,
            r.usage@.len() == 0,
            r.links@.len() == 0,
            r.dirty,
            r.rows@.len() == ROAD_CAPACITY,
            forall|i: int| 0 <= i < ROAD_CAPACITY ==> #[trigger] r.rows@[i] == spec_empty_row(),
            r.tex_width == 128,
            r.tex_height == 128,
    {
        let mut rows: Vec<RoadRow> = Vec::new();
        let mut i: u32 = 0;
        while i < ROAD_CAPACITY
            invariant
                i <= ROAD_CAPACITY,
                rows@.len() == i,
                forall|j: int| 0 <= j < i ==> #[trigger] rows@[j] == spec_empty_row(),
            decreases ROAD_CAPACITY - i,
        {
            rows.push(empty_row());
            i = i + 1;
        }
        let (w, h) = texture_layout(ROAD_CAPACITY * TEXELS_PER_SEGMENT, TEXELS_PER_SEGMENT);
        proof {
            let s = choose|s: int| crate::layout::is_ceil_sqrt(16384, s) && w == crate::layout::ceil_div(s, 2) * 2;
            assert(s == 128) by (nonlinear_arith)
                requires
                    s >= 0,
                    s * s >= 16384,
                    s == 0 || (s - 1) * (s - 1) < 16384,
            ;
        }
        RoadData {
            segments: Vec::new(),
            all_points: Vec::new(),
            rows,
            tex_width: w,
            tex_height: h,
            dirty: true,
            usage: Vec::new(),
            links: Vec::new(),
        }
    }

    /// Adds the link `a`-`b` of type `road_type` unless a link joining the
    /// same tiles (either way round) with that type is already present; a
    /// new link marks the network dirty. Segments are not rebuilt here.
    pub fn push_link(&mut self, a: (u32, u32), b: (u32, u32), road_type: RoadType)
        ensures
            final(self).links@ == links_after_push(old(self).links@, a, b, road_type),
            final(self).dirty == (old(self).dirty || !has_link(old(self).links@, a, b, road_type)),
            final(self).segments == old(self).segments,
            final(self).all_points == old(self).all_points,
            final(self).rows == old(self).rows,
            final(self).usage == old(self).usage,
            final(self).tex_width == old(self).tex_width,
            final(self).tex_height == old(self).tex_height,
    {
        let n = self.links.len();
        let mut i: usize = 0;
        while i < n
            invariant
                n == self.links@.len(),
                i <= n,
                forall|j: int| 0 <= j < i ==> !same_link(#[trigger] self.links@[j], RoadLink { a, b, road_type }),
            decreases n - i,
        {
            let l = self.links[i];
            if l.road_type == road_type && ((same_pos(l.a, a) && same_pos(l.b, b)) || (same_pos(l.a, b) && same_pos(l.b, a))) {
                proof {
                    assert(same_link(self.links@[i as int], RoadLink { a, b, road_type }));
                }
                return;
            }
            i = i + 1;
        }
        self.links.push(RoadLink { a, b, road_type });
        self.dirty = true;
    }

    /// Rewrites texture row `id` from segment `id`.
    pub fn refresh_row(&mut self, id: u32)
        requires
            id < old(self).segments@.len(),
            id < old(self).rows@.len(),
            old(self).segments@[id as int].conn_a@.len() <= 3,
            old(self).segments@[id as int].conn_b@.len() <= 3,
        ensures
            final(self).rows@ == old(self).rows@.update(id as int, row_of(old(self).segments@[id as int])),
            final(self).segments == old(self).segments,
            final(self).all_points == old(self).all_points,
            final(self).links == old(self).links,
            final(self).usage == old(self).usage,
            final(self).dirty == old(self).dirty,
            final(self).tex_width == old(self).tex_width,
            final(self).tex_height == old(self).tex_height,
    {
        let seg = &self.segments[id as usize];
        let row = RoadRow {
            ax: seg.a.0,
            ay: seg.a.1,
            bx: seg.b.0,
            by: seg.b.1,
            speed_mean: seg.speed_mean,
            conn_a_packed: pack_conns(&seg.conn_a),
            conn_b_packed: pack_conns(&seg.conn_b),
            length: seg.length,
        };
        self.rows.set(id as usize, row);
    }

    /// Position of `tile` along segment `seg_id` as the fraction
    /// `index / (points - 1)` for the first occurrence of the tile, or
    /// `(0, 1)` (zero) when the segment does not exist, does not contain the
    /// tile, or has a single point.
    pub fn get_tile_t(&self, seg_id: u32, tile: (u32, u32)) -> (t: (u32, u32))
        ensures
            t == spec_tile_t(self.segments@, seg_id as int, tile),
    {
        if (seg_id as usize) < self.segments.len() {
            let seg = &self.segments[seg_id as usize];
            let n = seg.points.len();
            let mut k: usize = 0;
            while k < n
                invariant
                    (seg_id as int) < self.segments@.len(),
                    *seg == self.segments@[seg_id as int],
                    n == seg.points@.len(),
                    k <= n,
                    forall|j: int| 0 <= j < k ==> seg.points@[j] != tile,
                decreases n - k,
            {
                if same_pos(seg.points[k], tile) {
                    proof {
                        let pts = seg.points@;
                        assert(pts.contains(tile));
                        assert(pts[k as int] == tile && forall|j: int| 0 <= j < k ==> pts[j] != tile);
                        let c = first_index_of(pts, tile);
                        assert(0 <= c < pts.len() && pts[c] == tile && forall|j: int| 0 <= j < c ==> pts[j] != tile);
                        if c < k {
                            assert(pts[c] != tile);
                        }
                        if c > k {
                            assert(pts[k as int] != tile);
                        }
                        assert(c == k);
                    }
                    if n > 1 {
                        return (k as u32, (n - 1) as u32);
                    }
                    return (0, 1);
                }
                k = k + 1;
            }
        }
        (0, 1)
    }

    /// Rebuilds the super-segments from the raw links.
    ///
    /// Chains are followed from every junction (junctions in order of first
    /// appearance among the link ends, their links in link order), then every
    /// loop without a junction is followed from its first unvisited link.
    /// Afterwards each segment knows its neighbours, the points are
    /// concatenated for the GPU, the usage counters are resized (new ones at
    /// 0) and the texture rows are rewritten.
    ///
    /// Returns every point of every segment with the segment's id.
    pub fn rebuild_topology(&mut self) -> (tile_to_seg: Vec<((u32, u32), u32)>)
        requires
            old(self).links@.len() <= 0x3fff_ffff,
        ensures
            final(self).links == old(self).links,
            final(self).tex_width == old(self).tex_width,
            final(self).tex_height == old(self).tex_height,
            final(self).dirty,
            decomposes(final(self).links@, final(self).segments@),
            final(self).segments@.len() <= final(self).links@.len(),
            flat_points(final(self).segments@, final(self).segments@.len() as int).len()
                == final(self).links@.len() + final(self).segments@.len(),
            forall|i: int|
                0 <= i < final(self).segments@.len() ==> {
                    &&& (#[trigger] final(self).segments@[i]).conn_a@ == conn_at(
                        final(self).segments@,
                        i,
                        final(self).segments@[i].a,
                    )
                    &&& final(self).segments@[i].conn_b@ == conn_at(
                        final(self).segments@,
                        i,
                        final(self).segments@[i].b,
                    )
                    &&& final(self).segments@[i].links_offset == flat_points(
                        final(self).segments@,
                        i,
                    ).len()
                },
            final(self).all_points@ == flat_points(
                final(self).segments@,
                final(self).segments@.len() as int,
            ),
            tile_to_seg@ == flat_tiles(final(self).segments@, final(self).segments@.len() as int),
            final(self).usage@.len() == final(self).segments@.len(),
            forall|i: int|
                0 <= i < final(self).usage@.len() ==> #[trigger] final(self).usage@[i] == (if i
                    < old(self).usage@.len() {
                    old(self).usage@[i]
                } else {
                    0
                }),
            final(self).rows@.len() == old(self).rows@.len(),
            forall|i: int|
                0 <= i < final(self).rows@.len() ==> #[trigger] final(self).rows@[i] == (if i
                    < final(self).segments@.len() {
                    row_of(final(self).segments@[i])
                } else {
                    spec_empty_row()
                }),
    {
        let nodes_ends = index_nodes(&self.links);
        let nodes = nodes_ends.0;
        let ends = nodes_ends.1;
        let adj = build_adjacency(&self.links, &nodes, &ends);
        let junction = classify_junctions(&self.links, &nodes, &adj);
        let g = LinkGraph { nodes, ends, adj, junction };
        let (mut segs, Ghost(sls)) = trace_segments(&self.links, &g);
        let ghost traced = segs@;
        let ghost n = self.links@.len();
        wire_connections(&mut segs);
        let ghost wired = segs@;
        proof {
            assert forall|i: int| 0 <= i < traced.len() implies (#[trigger] wired[i]).a == traced[i].a && wired[i].b == traced[i].b by {
                assert(same_shape(wired[i], traced[i]));
            }
            assert forall|j: int| 0 <= j < traced.len() implies (#[trigger] traced[j]).points@ == wired[j].points@ by {
                assert(same_shape(wired[j], traced[j]));
            }
            lemma_flat_points_same(traced, wired, traced.len() as int);
        }
        let ns = segs.len();
        let (all_points, tiles) = flatten_points(&mut segs, Ghost(n));
        let ghost fin = segs@;
        proof {
            assert forall|j: int| 0 <= j < ns implies (#[trigger] wired[j]).points@ == fin[j].points@ by {
                assert(same_shape(fin[j], wired[j]));
            }
            lemma_flat_points_same(wired, fin, ns as int);
            lemma_flat_tiles_same(wired, fin, ns as int);
            assert forall|j: int| 0 <= j <= ns implies #[trigger] flat_points(wired, j) == flat_points(fin, j) by {
                lemma_flat_points_same(wired, fin, j);
            }
            assert forall|j: int| 0 <= j < ns implies (#[trigger] fin[j]).a == wired[j].a && fin[j].b == wired[j].b by {
                assert(same_shape(fin[j], wired[j]));
            }
            lemma_touching_same(fin, wired, 0, (0, 0), 0);
            assert forall|j: int| 0 <= j < ns implies {
                &&& (#[trigger] fin[j]).conn_a@ == conn_at(fin, j, fin[j].a)
                &&& fin[j].conn_b@ == conn_at(fin, j, fin[j].b)
            } by {
                assert(same_shape(wired[j], traced[j]));
                assert(same_shape(fin[j], wired[j]));
                lemma_touching_same(fin, traced, j, fin[j].a, ns as int);
                lemma_touching_same(fin, traced, j, fin[j].b, ns as int);
                assert forall|x: int| 0 <= x < ns implies (#[trigger] fin[x]).a == traced[x].a && fin[x].b == traced[x].b by {
                    assert(same_shape(fin[x], wired[x]));
                    assert(same_shape(wired[x], traced[x]));
                }
            }
            assert forall|j: int| 0 <= j < ns implies seg_traced(self.links@, #[trigger] fin[j], sls[j]) by {
                assert(same_shape(fin[j], wired[j]));
                assert(same_shape(wired[j], traced[j]));
                assert(seg_traced(self.links@, traced[j], sls[j]));
            }
            assert(segs_traced(self.links@, fin, sls));
            assert forall|i: int| 0 <= i < fin.len() && !is_junction(self.links@, (#[trigger] fin[i]).a) implies {
                &&& self.links@[sls[i][0]].a == fin[i].a
                &&& fin[i].points@[1] == self.links@[sls[i][0]].b
                &&& forall|k: int| 0 <= k < sls[i].len() ==> sls[i][0] <= #[trigger] sls[i][k]
            } by {
                assert(same_shape(fin[i], wired[i]));
                assert(same_shape(wired[i], traced[i]));
            }
            assert(loop_starts(self.links@, fin, sls));
        }
        self.all_points = all_points;
        self.segments = segs;
        // Usage counters: keep those of surviving ids, new ids start at 0.
        let ghost old_usage = self.usage@;
        self.usage.truncate(ns);
        while self.usage.len() < ns
            invariant
                self.segments@ == fin,
                self.all_points@ == flat_points(fin, fin.len() as int),
                self.links == old(self).links,
                self.tex_width == old(self).tex_width,
                self.tex_height == old(self).tex_height,
                self.rows@.len() == old(self).rows@.len(),
                self.usage@.len() <= ns,
                self.usage@.len() >= old_usage.len() || self.usage@.len() == ns,
                forall|j: int|
                    0 <= j < self.usage@.len() ==> #[trigger] self.usage@[j] == (if j < old_usage.len() {
                        old_usage[j]
                    } else {
                        0
                    }),
            decreases ns - self.usage@.len(),
        {
            self.usage.push(0);
        }
        // Texture rows: clear all, then write one per segment that fits.
        let nr = self.rows.len();
        let mut r: usize = 0;
        while r < nr
            invariant
                nr == self.rows@.len(),
                r <= nr,
                forall|j: int| 0 <= j < r ==> #[trigger] self.rows@[j] == spec_empty_row(),
                self.segments@ == fin,
                self.all_points@ == flat_points(fin, fin.len() as int),
                self.links == old(self).links,
                self.tex_width == old(self).tex_width,
                self.tex_height == old(self).tex_height,
                self.usage@.len() == ns,
                forall|j: int|
                    0 <= j < ns ==> #[trigger] self.usage@[j] == (if j < old_usage.len() {
                        old_usage[j]
                    } else {
                        0
                    }),
            decreases nr - r,
        {
            self.rows.set(r, empty_row());
            r = r + 1;
        }
        let mut id: usize = 0;
        while id < ns && id < nr
            invariant
                nr == self.rows@.len(),
                ns == fin.len(),
                ns <= n,
                n <= 0x3fff_ffff,
                id <= ns,
                self.segments@ == fin,
                self.all_points@ == flat_points(fin, fin.len() as int),
                self.links == old(self).links,
                self.tex_width == old(self).tex_width,
                self.tex_height == old(self).tex_height,
                self.usage@.len() == ns,
                forall|j: int|
                    0 <= j < ns ==> #[trigger] self.usage@[j] == (if j < old_usage.len() {
                        old_usage[j]
                    } else {
                        0
                    }),
                forall|j: int| 0 <= j < ns ==> (#[trigger] fin[j]).conn_a@.len() <= 3 && fin[j].conn_b@.len() <= 3,
                forall|j: int| 0 <= j < nr ==> #[trigger] self.rows@[j] == (if j < id && j < ns {
                    row_of(fin[j])
                } else {
                    spec_empty_row()
                }),
            decreases ns - id,
        {
            self.refresh_row(id as u32);
            id = id + 1;
        }
        self.dirty = true;
        tiles
    }
}

} // verus!
