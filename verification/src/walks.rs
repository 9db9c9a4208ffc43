//! The segments of a road network are determined by its links: two
//! decompositions of the same links have the same segments, up to their
//! order and the direction in which a segment between junctions is walked.

use vstd::prelude::*;
use vstd::set_lib::{lemma_int_range, lemma_len_subset, lemma_map_size, set_int_range};

use crate::roads::{decomposes, links_unique, same_link, RoadLink, RoadSegment, RoadType};
use crate::topology::{
    connects, incident, is_junction, lemma_incident, loop_starts, seg_traced, segs_traced, touches, walked, walks_cover,
};

verus! {

/// `pts` is a walk across the links `sl` of type `t` between two junctions,
/// through two-ended tiles only, crossing no link twice.
pub open spec fn junction_walk(links: Seq<RoadLink>, pts: Seq<(u32, u32)>, sl: Seq<int>, t: RoadType) -> bool {
    &&& sl.len() >= 1
    &&& pts.len() == sl.len() + 1
    &&& forall|k: int|
        0 <= k < sl.len() ==> {
            &&& 0 <= #[trigger] sl[k] < links.len()
            &&& connects(links[sl[k]], pts[k], pts[k + 1])
            &&& links[sl[k]].road_type == t
        }
    &&& forall|k: int| 0 < k < pts.len() - 1 ==> !is_junction(links, #[trigger] pts[k])
    &&& forall|i: int, j: int| 0 <= i < j < sl.len() ==> #[trigger] sl[i] != #[trigger] sl[j]
    &&& is_junction(links, pts[0])
    &&& is_junction(links, pts[pts.len() - 1])
}

proof fn lemma_reverse_index<A>(s: Seq<A>)
    ensures
        s.reverse().len() == s.len(),
        forall|k: int| 0 <= k < s.len() ==> #[trigger] s.reverse()[k] == s[s.len() - 1 - k],
{
    if s.len() > 0 {
        assert(s.reverse() == Seq::new(s.len(), |i: int| s[s.len() - 1 - i]));
    }
}

/// A junction walk read backwards is a junction walk.
proof fn lemma_walk_reverse(links: Seq<RoadLink>, pts: Seq<(u32, u32)>, sl: Seq<int>, t: RoadType)
    requires
        junction_walk(links, pts, sl, t),
    ensures
        junction_walk(links, pts.reverse(), sl.reverse(), t),
{
    lemma_reverse_index(pts);
    lemma_reverse_index(sl);
    let n = sl.len();
    let pr = pts.reverse();
    let lr = sl.reverse();
    assert forall|k: int| 0 <= k < lr.len() implies {
        &&& 0 <= #[trigger] lr[k] < links.len()
        &&& connects(links[lr[k]], pr[k], pr[k + 1])
        &&& links[lr[k]].road_type == t
    } by {
        assert(lr[k] == sl[n - 1 - k]);
        assert(pr[k] == pts[n - k]);
        assert(pr[k + 1] == pts[n - 1 - k]);
    }
    assert forall|k: int| 0 < k < pr.len() - 1 implies !is_junction(links, #[trigger] pr[k]) by {
        assert(pr[k] == pts[n - k]);
    }
    assert forall|i: int, j: int| 0 <= i < j < lr.len() implies #[trigger] lr[i] != #[trigger] lr[j] by {
        assert(lr[i] == sl[n - 1 - i]);
        assert(lr[j] == sl[n - 1 - j]);
    }
    assert(pr[0] == pts[n as int]);
    assert(pr[pr.len() - 1] == pts[0]);
}

/// At a two-ended tile, at most two distinct links touch it.
proof fn lemma_two_links_at(links: Seq<RoadLink>, p: (u32, u32), x: int, y: int, z: int)
    requires
        !is_junction(links, p),
        0 <= x < links.len(),
        0 <= y < links.len(),
        0 <= z < links.len(),
        touches(links[x], p),
        touches(links[y], p),
        touches(links[z], p),
        x != y,
    ensures
        z == x || z == y,
{
    lemma_incident(links, p);
    let inc = incident(links, p);
    assert(touches(links[x], p));
    assert(touches(links[y], p));
    assert(touches(links[z], p));
    let kx = choose|k: int| 0 <= k < inc.len() && inc[k] == x;
    let ky = choose|k: int| 0 <= k < inc.len() && inc[k] == y;
    let kz = choose|k: int| 0 <= k < inc.len() && inc[k] == z;
    assert(inc.len() == 2);
}

/// Two junction walks of one type that agree on their first `m + 1` links
/// and `m + 2` tiles agree everywhere.
proof fn lemma_walks_agree_from(
    links: Seq<RoadLink>,
    pa: Seq<(u32, u32)>,
    la: Seq<int>,
    pb: Seq<(u32, u32)>,
    lb: Seq<int>,
    t: RoadType,
    m: int,
)
    requires
        junction_walk(links, pa, la, t),
        junction_walk(links, pb, lb, t),
        0 <= m < la.len(),
        m < lb.len(),
        forall|k: int| 0 <= k <= m ==> #[trigger] la[k] == lb[k],
        forall|k: int| 0 <= k <= m + 1 ==> #[trigger] pa[k] == pb[k],
    ensures
        pa == pb,
        la == lb,
    decreases la.len() - m,
{
    let q = pa[m + 1];
    assert(pb[m + 1] == q);
    if m + 1 < la.len() {
        assert(!is_junction(links, pa[m + 1]));
        if m + 1 == lb.len() {
            assert(is_junction(links, pb[pb.len() - 1]));
        }
        assert(m + 1 < lb.len());
        assert(la[m] == lb[m]);
        assert(connects(links[la[m]], pa[m], pa[m + 1]));
        assert(connects(links[la[m + 1]], pa[m + 1], pa[m + 2]));
        assert(connects(links[lb[m + 1]], pb[m + 1], pb[m + 2]));
        lemma_two_links_at(links, q, la[m], la[m + 1], lb[m + 1]);
        assert(lb[m] != lb[m + 1]);
        assert(lb[m + 1] == la[m + 1]);
        assert(pb[m + 2] == pa[m + 2]);
        assert forall|k: int| 0 <= k <= m + 1 implies #[trigger] la[k] == lb[k] by {
            if k <= m {
                assert(la[k] == lb[k]);
            }
        }
        assert forall|k: int| 0 <= k <= m + 2 implies #[trigger] pa[k] == pb[k] by {
            if k <= m + 1 {
                assert(pa[k] == pb[k]);
            }
        }
        lemma_walks_agree_from(links, pa, la, pb, lb, t, m + 1);
    } else {
        assert(is_junction(links, pa[pa.len() - 1]));
        if m + 1 < lb.len() {
            assert(!is_junction(links, pb[m + 1]));
        }
        assert(la.len() == lb.len());
        assert(la =~= lb);
        assert(pa =~= pb);
    }
}

/// A junction walk that starts on the first link of another, in the same
/// direction, is that walk.
proof fn lemma_walks_meet(
    links: Seq<RoadLink>,
    pa: Seq<(u32, u32)>,
    la: Seq<int>,
    pb: Seq<(u32, u32)>,
    lb: Seq<int>,
    t: RoadType,
    k0: int,
)
    requires
        junction_walk(links, pa, la, t),
        junction_walk(links, pb, lb, t),
        0 <= k0 < lb.len(),
        lb[k0] == la[0],
        pb[k0] == pa[0],
        pb[k0 + 1] == pa[1],
    ensures
        pa == pb,
        la == lb,
{
    if k0 > 0 {
        assert(!is_junction(links, pb[k0]));
    }
    assert(k0 == 0);
    assert forall|k: int| 0 <= k <= 1 implies #[trigger] pa[k] == pb[k] by {}
    lemma_walks_agree_from(links, pa, la, pb, lb, t, 0);
}

/// The segment `segs[i]` of a decomposition, when it starts at a junction,
/// with its labels is a junction walk.
proof fn lemma_segment_walk(links: Seq<RoadLink>, segs: Seq<RoadSegment>, sls: Seq<Seq<int>>, i: int)
    requires
        segs_traced(links, segs, sls),
        0 <= i < segs.len(),
        is_junction(links, segs[i].a),
    ensures
        junction_walk(links, segs[i].points@, sls[i], segs[i].road_type),
{
    let s = segs[i];
    assert(seg_traced(links, s, sls[i]));
    assert forall|x: int, y: int| 0 <= x < y < sls[i].len() implies #[trigger] sls[i][x] != #[trigger] sls[i][y] by {
        assert(x != y);
    }
}

/// `pts` is a closed walk across the links `sl` of type `t` through
/// two-ended tiles only, crossing no link twice.
pub open spec fn loop_walk(links: Seq<RoadLink>, pts: Seq<(u32, u32)>, sl: Seq<int>, t: RoadType) -> bool {
    &&& sl.len() >= 1
    &&& pts.len() == sl.len() + 1
    &&& forall|k: int|
        0 <= k < sl.len() ==> {
            &&& 0 <= #[trigger] sl[k] < links.len()
            &&& connects(links[sl[k]], pts[k], pts[k + 1])
            &&& links[sl[k]].road_type == t
        }
    &&& forall|k: int| 0 < k < pts.len() - 1 ==> !is_junction(links, #[trigger] pts[k])
    &&& forall|i: int, j: int| 0 <= i < j < sl.len() ==> #[trigger] sl[i] != #[trigger] sl[j]
    &&& pts[0] == pts[pts.len() - 1]
    &&& !is_junction(links, pts[0])
}

/// `p` is one of the tiles of `pts`.
pub open spec fn on_walk(pts: Seq<(u32, u32)>, p: (u32, u32)) -> bool {
    exists|m: int| 0 <= m < pts.len() && pts[m] == p
}

/// `x` is one of the links of `sl`.
pub open spec fn crosses(sl: Seq<int>, x: int) -> bool {
    exists|m: int| 0 <= m < sl.len() && sl[m] == x
}

/// At a two-ended tile whose only link is a self-link, no other link
/// touches it.
proof fn lemma_self_link_alone(links: Seq<RoadLink>, p: (u32, u32), l: int, x: int)
    requires
        !is_junction(links, p),
        0 <= l < links.len(),
        0 <= x < links.len(),
        links[l].a == p,
        links[l].b == p,
        touches(links[x], p),
    ensures
        x == l,
{
    lemma_incident(links, p);
    let inc = incident(links, p);
    assert(links[l].a == p && links[l].b == p);
    let (i, j) = choose|i: int, j: int| 0 <= i < j < inc.len() && inc[i] == l && inc[j] == l;
    assert(touches(links[x], p));
    let kx = choose|k: int| 0 <= k < inc.len() && inc[k] == x;
}

/// Every link touching a tile of a closed walk is one of its links.
proof fn lemma_loop_closed(links: Seq<RoadLink>, pa: Seq<(u32, u32)>, la: Seq<int>, t: RoadType, k: int, x: int)
    requires
        loop_walk(links, pa, la, t),
        0 <= k < pa.len(),
        0 <= x < links.len(),
        touches(links[x], pa[k]),
    ensures
        crosses(la, x),
{
    let n = la.len();
    let k1 = if k == n {
        0
    } else {
        k
    };
    let p = pa[k1];
    assert(p == pa[k]);
    assert(!is_junction(links, p));
    let prev = if k1 == 0 {
        n - 1
    } else {
        k1 - 1
    };
    assert(connects(links[la[k1]], pa[k1], pa[k1 + 1]));
    assert(connects(links[la[prev]], pa[prev], pa[prev + 1]));
    assert(pa[prev + 1] == p);
    if n == 1 {
        assert(pa[1] == pa[0]);
        lemma_self_link_alone(links, p, la[0], x);
        assert(la[0] == x);
    } else {
        assert(la[prev] != la[k1]);
        lemma_two_links_at(links, p, la[prev], la[k1], x);
        if x == la[prev] {
            assert(la[prev] == x);
        } else {
            assert(la[k1] == x);
        }
    }
}

/// The ends of a link of a closed walk are tiles of the walk.
proof fn lemma_loop_link_ends(links: Seq<RoadLink>, pa: Seq<(u32, u32)>, la: Seq<int>, t: RoadType, x: int, p: (u32, u32))
    requires
        loop_walk(links, pa, la, t),
        crosses(la, x),
        touches(links[x], p),
    ensures
        on_walk(pa, p),
{
    let m = choose|m: int| 0 <= m < la.len() && la[m] == x;
    assert(connects(links[la[m]], pa[m], pa[m + 1]));
    if pa[m] == p {
        assert(on_walk(pa, p));
    } else {
        assert(pa[m + 1] == p);
        assert(on_walk(pa, p));
    }
}

/// A walk `pb` across links `lb` that reaches tile `pb[k0]` of a closed walk
/// stays on it, forwards from `k0`.
proof fn lemma_stays_on_loop_fwd(
    links: Seq<RoadLink>,
    pa: Seq<(u32, u32)>,
    la: Seq<int>,
    t: RoadType,
    pb: Seq<(u32, u32)>,
    lb: Seq<int>,
    k: int,
)
    requires
        loop_walk(links, pa, la, t),
        pb.len() == lb.len() + 1,
        forall|q: int| 0 <= q < lb.len() ==> 0 <= #[trigger] lb[q] < links.len() && connects(links[lb[q]], pb[q], pb[q + 1]),
        0 <= k < pb.len(),
        on_walk(pa, pb[k]),
    ensures
        forall|q: int| k <= q < pb.len() ==> on_walk(pa, #[trigger] pb[q]),
    decreases pb.len() - k,
{
    if k + 1 < pb.len() {
        let m = choose|m: int| 0 <= m < pa.len() && pa[m] == pb[k];
        assert(connects(links[lb[k]], pb[k], pb[k + 1]));
        lemma_loop_closed(links, pa, la, t, m, lb[k]);
        lemma_loop_link_ends(links, pa, la, t, lb[k], pb[k + 1]);
        lemma_stays_on_loop_fwd(links, pa, la, t, pb, lb, k + 1);
    }
}

/// Backwards from `k`, likewise.
proof fn lemma_stays_on_loop_bwd(
    links: Seq<RoadLink>,
    pa: Seq<(u32, u32)>,
    la: Seq<int>,
    t: RoadType,
    pb: Seq<(u32, u32)>,
    lb: Seq<int>,
    k: int,
)
    requires
        loop_walk(links, pa, la, t),
        pb.len() == lb.len() + 1,
        forall|q: int| 0 <= q < lb.len() ==> 0 <= #[trigger] lb[q] < links.len() && connects(links[lb[q]], pb[q], pb[q + 1]),
        0 <= k < pb.len(),
        on_walk(pa, pb[k]),
    ensures
        forall|q: int| 0 <= q <= k ==> on_walk(pa, #[trigger] pb[q]),
    decreases k,
{
    if k > 0 {
        let m = choose|m: int| 0 <= m < pa.len() && pa[m] == pb[k];
        assert(connects(links[lb[k - 1]], pb[k - 1], pb[k]));
        lemma_loop_closed(links, pa, la, t, m, lb[k - 1]);
        lemma_loop_link_ends(links, pa, la, t, lb[k - 1], pb[k - 1]);
        lemma_stays_on_loop_bwd(links, pa, la, t, pb, lb, k - 1);
    }
}

/// A walk that crosses a link of a closed walk only visits its tiles and
/// only crosses its links.
proof fn lemma_inside_loop(
    links: Seq<RoadLink>,
    pa: Seq<(u32, u32)>,
    la: Seq<int>,
    t: RoadType,
    pb: Seq<(u32, u32)>,
    lb: Seq<int>,
    k0: int,
)
    requires
        loop_walk(links, pa, la, t),
        pb.len() == lb.len() + 1,
        forall|q: int| 0 <= q < lb.len() ==> 0 <= #[trigger] lb[q] < links.len() && connects(links[lb[q]], pb[q], pb[q + 1]),
        0 <= k0 < lb.len(),
        crosses(la, lb[k0]),
    ensures
        forall|q: int| 0 <= q < pb.len() ==> on_walk(pa, #[trigger] pb[q]),
        forall|q: int| 0 <= q < pb.len() ==> !is_junction(links, #[trigger] pb[q]),
        forall|q: int| 0 <= q < lb.len() ==> crosses(la, #[trigger] lb[q]),
{
    assert(connects(links[lb[k0]], pb[k0], pb[k0 + 1]));
    lemma_loop_link_ends(links, pa, la, t, lb[k0], pb[k0]);
    lemma_stays_on_loop_fwd(links, pa, la, t, pb, lb, k0);
    lemma_stays_on_loop_bwd(links, pa, la, t, pb, lb, k0);
    assert forall|q: int| 0 <= q < pb.len() implies !is_junction(links, #[trigger] pb[q]) by {
        assert(on_walk(pa, pb[q]));
        let m = choose|m: int| 0 <= m < pa.len() && pa[m] == pb[q];
        if m == 0 || m == pa.len() - 1 {
            assert(pa[m] == pa[0]);
        }
    }
    assert forall|q: int| 0 <= q < lb.len() implies crosses(la, #[trigger] lb[q]) by {
        assert(on_walk(pa, pb[q]));
        let m = choose|m: int| 0 <= m < pa.len() && pa[m] == pb[q];
        assert(connects(links[lb[q]], pb[q], pb[q + 1]));
        lemma_loop_closed(links, pa, la, t, m, lb[q]);
    }
}

/// Two closed walks of one type, each crossing only links of the other,
/// that agree on their first `m + 1` links and `m + 2` tiles agree
/// everywhere.
proof fn lemma_loops_agree_from(
    links: Seq<RoadLink>,
    pa: Seq<(u32, u32)>,
    la: Seq<int>,
    pb: Seq<(u32, u32)>,
    lb: Seq<int>,
    t: RoadType,
    m: int,
)
    requires
        loop_walk(links, pa, la, t),
        loop_walk(links, pb, lb, t),
        forall|q: int| 0 <= q < la.len() ==> crosses(lb, #[trigger] la[q]),
        forall|q: int| 0 <= q < lb.len() ==> crosses(la, #[trigger] lb[q]),
        0 <= m < la.len(),
        m < lb.len(),
        forall|k: int| 0 <= k <= m ==> #[trigger] la[k] == lb[k],
        forall|k: int| 0 <= k <= m + 1 ==> #[trigger] pa[k] == pb[k],
    ensures
        pa == pb,
        la == lb,
    decreases la.len() - m,
{
    if m + 1 < la.len() {
        if m + 1 == lb.len() {
            assert(crosses(lb, la[m + 1]));
            let x = choose|x: int| 0 <= x < lb.len() && lb[x] == la[m + 1];
            assert(la[x] == lb[x]);
        }
        assert(m + 1 < lb.len());
        let q = pa[m + 1];
        assert(!is_junction(links, q));
        assert(connects(links[la[m]], pa[m], pa[m + 1]));
        assert(connects(links[la[m + 1]], pa[m + 1], pa[m + 2]));
        assert(connects(links[lb[m + 1]], pb[m + 1], pb[m + 2]));
        lemma_two_links_at(links, q, la[m], la[m + 1], lb[m + 1]);
        assert(lb[m] != lb[m + 1]);
        assert(lb[m + 1] == la[m + 1]);
        assert(pb[m + 2] == pa[m + 2]);
        assert forall|k: int| 0 <= k <= m + 1 implies #[trigger] la[k] == lb[k] by {
            if k <= m {
                assert(la[k] == lb[k]);
            }
        }
        assert forall|k: int| 0 <= k <= m + 2 implies #[trigger] pa[k] == pb[k] by {
            if k <= m + 1 {
                assert(pa[k] == pb[k]);
            }
        }
        lemma_loops_agree_from(links, pa, la, pb, lb, t, m + 1);
    } else {
        if m + 1 < lb.len() {
            assert(crosses(la, lb[m + 1]));
            let x = choose|x: int| 0 <= x < la.len() && la[x] == lb[m + 1];
            assert(la[x] == lb[x]);
        }
        assert(la.len() == lb.len());
        assert(la =~= lb);
        assert(pa =~= pb);
    }
}

/// The segment `segs[i]` of a decomposition, when it starts at a two-ended
/// tile, with its labels is a closed walk.
proof fn lemma_segment_loop(links: Seq<RoadLink>, segs: Seq<RoadSegment>, sls: Seq<Seq<int>>, i: int)
    requires
        segs_traced(links, segs, sls),
        0 <= i < segs.len(),
        !is_junction(links, segs[i].a),
    ensures
        loop_walk(links, segs[i].points@, sls[i], segs[i].road_type),
{
    let s = segs[i];
    assert(seg_traced(links, s, sls[i]));
    assert forall|x: int, y: int| 0 <= x < y < sls[i].len() implies #[trigger] sls[i][x] != #[trigger] sls[i][y] by {
        assert(x != y);
    }
}

/// A closed segment of one decomposition is, tile for tile and in the same
/// order, a segment of any other decomposition of the same links.
proof fn lemma_loop_segment_found(
    links: Seq<RoadLink>,
    s1: Seq<RoadSegment>,
    sls1: Seq<Seq<int>>,
    s2: Seq<RoadSegment>,
    sls2: Seq<Seq<int>>,
    i: int,
) -> (j: int)
    requires
        segs_traced(links, s1, sls1) && loop_starts(links, s1, sls1),
        segs_traced(links, s2, sls2) && walks_cover(sls2, links.len() as int) && loop_starts(links, s2, sls2),
        0 <= i < s1.len(),
        !is_junction(links, s1[i].a),
    ensures
        0 <= j < s2.len(),
        s2[j].road_type == s1[i].road_type,
        s2[j].length == s1[i].length,
        s2[j].points@ == s1[i].points@,
{
    let a = s1[i];
    let pa = a.points@;
    let la = sls1[i];
    let t = a.road_type;
    lemma_segment_loop(links, s1, sls1, i);
    let l = la[0];
    assert(walked(sls2, l));
    let (j, k0) = choose|j: int, k: int| 0 <= j < sls2.len() && 0 <= k < sls2[j].len() && sls2[j][k] == l;
    let b = s2[j];
    let pb = b.points@;
    let lb = sls2[j];
    assert(seg_traced(links, b, lb));
    assert(b.road_type == t);
    assert(crosses(la, lb[k0])) by {
        assert(la[0] == lb[k0]);
    }
    lemma_inside_loop(links, pa, la, t, pb, lb, k0);
    assert(pb[0] == b.a);
    assert(!is_junction(links, b.a));
    lemma_segment_loop(links, s2, sls2, j);
    assert(crosses(lb, la[0])) by {
        assert(lb[k0] == la[0]);
    }
    lemma_inside_loop(links, pb, lb, t, pa, la, 0);
    assert(s1[i] == a);
    assert(s2[j] == b);
    assert(links[la[0]].a == a.a && pa[1] == links[la[0]].b);
    assert(links[lb[0]].a == b.a && pb[1] == links[lb[0]].b);
    assert(crosses(la, lb[0]));
    let x = choose|x: int| 0 <= x < la.len() && la[x] == lb[0];
    assert(la[0] <= la[x]);
    assert(lb[0] <= lb[k0]);
    if k0 > 0 {
        assert(lb[0] != lb[k0]);
    }
    assert(k0 == 0);
    assert(pa[0] == a.a);
    assert forall|k: int| 0 <= k <= 1 implies #[trigger] pa[k] == pb[k] by {}
    lemma_loops_agree_from(links, pa, la, pb, lb, t, 0);
    j
}

/// A segment of one decomposition that starts at a junction is, tile for
/// tile, a segment of any other decomposition of the same links, walked in
/// the same or in the reverse direction.
proof fn lemma_junction_segments_agree(links: Seq<RoadLink>, s1: Seq<RoadSegment>, s2: Seq<RoadSegment>, i: int)
    requires
        decomposes(links, s1),
        decomposes(links, s2),
        0 <= i < s1.len(),
        is_junction(links, s1[i].a),
    ensures
        exists|j: int|
            0 <= j < s2.len() && (#[trigger] s2[j]).road_type == s1[i].road_type && s2[j].length == s1[i].length
                && (s2[j].points@ == s1[i].points@ || s2[j].points@ == s1[i].points@.reverse()),
{
    let sls1 = choose|sls: Seq<Seq<int>>|
        segs_traced(links, s1, sls) && walks_cover(sls, links.len() as int) && loop_starts(links, s1, sls);
    let sls2 = choose|sls: Seq<Seq<int>>|
        segs_traced(links, s2, sls) && walks_cover(sls, links.len() as int) && loop_starts(links, s2, sls);
    let a = s1[i];
    let pa = a.points@;
    let la = sls1[i];
    let t = a.road_type;
    lemma_segment_walk(links, s1, sls1, i);
    let l = la[0];
    assert(walked(sls2, l));
    let (j, k0) = choose|j: int, k: int| 0 <= j < sls2.len() && 0 <= k < sls2[j].len() && sls2[j][k] == l;
    let b = s2[j];
    let pb = b.points@;
    let lb = sls2[j];
    assert(seg_traced(links, b, lb));
    assert(b.road_type == t);
    // The segment of `s2` crossing `l` passes the junction `pa[0]`, so it
    // does not close a loop of two-ended tiles: it starts at a junction.
    assert(connects(links[lb[k0]], pb[k0], pb[k0 + 1]));
    assert(connects(links[la[0]], pa[0], pa[1]));
    if !is_junction(links, b.a) {
        if pb[k0] == pa[0] {
            if k0 == 0 {
                assert(pb[0] == b.a);
            } else {
                assert(!is_junction(links, pb[k0]));
            }
        } else {
            if k0 + 1 == pb.len() - 1 {
                assert(pb[pb.len() - 1] == b.b);
            } else {
                assert(!is_junction(links, pb[k0 + 1]));
            }
        }
    }
    assert(is_junction(links, b.a));
    lemma_segment_walk(links, s2, sls2, j);
    if pb[k0] == pa[0] && pb[k0 + 1] == pa[1] {
        lemma_walks_meet(links, pa, la, pb, lb, t, k0);
        assert(b.length == a.length);
        assert(s2[j].points@ == s1[i].points@);
    } else {
        assert(pb[k0] == pa[1] && pb[k0 + 1] == pa[0]);
        lemma_walk_reverse(links, pb, lb, t);
        lemma_reverse_index(pb);
        lemma_reverse_index(lb);
        lemma_reverse_index(pa);
        let pr = pb.reverse();
        let lr = lb.reverse();
        let kr = lb.len() - 1 - k0;
        assert(lr[kr] == lb[k0]);
        assert(pr[kr] == pb[k0 + 1]);
        assert(pr[kr + 1] == pb[k0]);
        lemma_walks_meet(links, pa, la, pr, lr, t, kr);
        assert(pb =~= pa.reverse());
        assert(b.length == a.length);
    }
}

/// Rebuilding the segments of unchanged links gives the same segments,
/// whatever ids they get: for every segment of one decomposition `s1` of
/// `links`, any other decomposition `s2` holds a segment of the same road
/// type and length with the same tiles, in the same or in the reverse order;
/// a closed loop without a junction even comes out in the same order.
pub proof fn lemma_segments_agree(links: Seq<RoadLink>, s1: Seq<RoadSegment>, s2: Seq<RoadSegment>, i: int)
    requires
        decomposes(links, s1),
        decomposes(links, s2),
        0 <= i < s1.len(),
    ensures
        exists|j: int|
            0 <= j < s2.len() && (#[trigger] s2[j]).road_type == s1[i].road_type && s2[j].length == s1[i].length
                && (s2[j].points@ == s1[i].points@ || s2[j].points@ == s1[i].points@.reverse())
                && (!is_junction(links, s1[i].a) ==> s2[j].points@ == s1[i].points@),
{
    if is_junction(links, s1[i].a) {
        lemma_junction_segments_agree(links, s1, s2, i);
    } else {
        let sls1 = choose|sls: Seq<Seq<int>>|
            segs_traced(links, s1, sls) && walks_cover(sls, links.len() as int) && loop_starts(links, s1, sls);
        let sls2 = choose|sls: Seq<Seq<int>>|
            segs_traced(links, s2, sls) && walks_cover(sls, links.len() as int) && loop_starts(links, s2, sls);
        let j = lemma_loop_segment_found(links, s1, sls1, s2, sls2, i);
        assert(s2[j].road_type == s1[i].road_type);
    }
}

/// Two segments of one decomposition of links that are all distinct never
/// have the same road type and the same tiles, in the same or in the reverse
/// order; so the segments matched by `lemma_segments_agree` pair the two
/// decompositions one to one.
pub proof fn lemma_segments_distinct(links: Seq<RoadLink>, segs: Seq<RoadSegment>, i1: int, i2: int)
    requires
        decomposes(links, segs),
        links_unique(links),
        0 <= i1 < segs.len(),
        0 <= i2 < segs.len(),
        i1 != i2,
    ensures
        !(segs[i1].road_type == segs[i2].road_type && (segs[i2].points@ == segs[i1].points@ || segs[i2].points@
            == segs[i1].points@.reverse())),
{
    let sls = choose|sls: Seq<Seq<int>>|
        segs_traced(links, segs, sls) && walks_cover(sls, links.len() as int) && loop_starts(links, segs, sls);
    let a = segs[i1];
    let b = segs[i2];
    let pa = a.points@;
    let pb = b.points@;
    let la = sls[i1];
    let lb = sls[i2];
    assert(seg_traced(links, a, la));
    assert(seg_traced(links, b, lb));
    if a.road_type == b.road_type {
        assert(connects(links[la[0]], pa[0], pa[1]));
        if pb == pa {
            assert(connects(links[lb[0]], pb[0], pb[1]));
            if la[0] != lb[0] {
                assert(!same_link(links[la[0]], links[lb[0]]));
            }
            assert(sls[i1][0] != sls[i2][0]);
        } else if pb == pa.reverse() {
            lemma_reverse_index(pa);
            let n = lb.len();
            assert(pb.len() == pa.len());
            assert(pb[n - 1] == pa[1]);
            assert(pb[n as int] == pa[0]);
            assert(connects(links[lb[n - 1]], pb[n - 1], pb[n as int]));
            if la[0] != lb[n - 1] {
                assert(!same_link(links[la[0]], links[lb[n - 1]]));
            }
            assert(sls[i1][0] != sls[i2][n - 1]);
        }
    }
}

/// `b` has the road type, length and tiles of `a`, in the same or in the
/// reverse order.
pub open spec fn same_segment(a: RoadSegment, b: RoadSegment) -> bool {
    &&& b.road_type == a.road_type
    &&& b.length == a.length
    &&& (b.points@ == a.points@ || b.points@ == a.points@.reverse())
}

proof fn lemma_same_segment_symmetric(a: RoadSegment, b: RoadSegment)
    requires
        same_segment(a, b),
    ensures
        same_segment(b, a),
{
    lemma_reverse_index(a.points@);
    lemma_reverse_index(b.points@);
    if b.points@ == a.points@.reverse() {
        assert(a.points@ =~= b.points@.reverse());
    }
}

proof fn lemma_same_segment_trans(a: RoadSegment, b: RoadSegment, c: RoadSegment)
    requires
        same_segment(a, b),
        same_segment(b, c),
    ensures
        same_segment(a, c),
{
    lemma_reverse_index(a.points@);
    lemma_reverse_index(b.points@);
    if b.points@ == a.points@.reverse() && c.points@ == b.points@.reverse() {
        assert(c.points@ =~= a.points@);
    }
}

/// One decomposition of distinct links has at most as many segments as
/// another.
proof fn lemma_segment_count_bound(links: Seq<RoadLink>, s1: Seq<RoadSegment>, s2: Seq<RoadSegment>)
    requires
        decomposes(links, s1),
        decomposes(links, s2),
        links_unique(links),
    ensures
        s1.len() <= s2.len(),
{
    let f = |i: int| choose|j: int| 0 <= j < s2.len() && same_segment(s1[i], #[trigger] s2[j]);
    let x = set_int_range(0, s1.len() as int);
    let z = set_int_range(0, s2.len() as int);
    assert forall|i: int| 0 <= i < s1.len() implies 0 <= #[trigger] f(i) < s2.len() && same_segment(s1[i], s2[f(i)]) by {
        lemma_segments_agree(links, s1, s2, i);
        let j = choose|j: int|
            0 <= j < s2.len() && (#[trigger] s2[j]).road_type == s1[i].road_type && s2[j].length == s1[i].length
                && (s2[j].points@ == s1[i].points@ || s2[j].points@ == s1[i].points@.reverse())
                && (!is_junction(links, s1[i].a) ==> s2[j].points@ == s1[i].points@);
        assert(same_segment(s1[i], s2[j]));
    }
    assert forall|i1: int, i2: int| x.contains(i1) && x.contains(i2) && #[trigger] f(i1) == #[trigger] f(i2) implies i1 == i2 by {
        if i1 != i2 {
            assert(same_segment(s1[i1], s2[f(i1)]));
            assert(same_segment(s1[i2], s2[f(i2)]));
            lemma_same_segment_symmetric(s1[i2], s2[f(i2)]);
            lemma_same_segment_trans(s1[i1], s2[f(i1)], s1[i2]);
            lemma_segments_distinct(links, s1, i1, i2);
        }
    }
    lemma_int_range(0, s1.len() as int);
    lemma_int_range(0, s2.len() as int);
    let y = x.map(f);
    lemma_map_size(x, y, f);
    assert forall|j: int| y.contains(j) implies z.contains(j) by {
        let i = choose|i: int| x.contains(i) && f(i) == j;
    }
    lemma_len_subset(y, z);
}

/// Two decompositions of the same distinct links have equally many
/// segments; with `lemma_segments_agree` and `lemma_segments_distinct`, their
/// segments pair up one to one.
pub proof fn lemma_segment_counts_agree(links: Seq<RoadLink>, s1: Seq<RoadSegment>, s2: Seq<RoadSegment>)
    requires
        decomposes(links, s1),
        decomposes(links, s2),
        links_unique(links),
    ensures
        s1.len() == s2.len(),
{
    lemma_segment_count_bound(links, s1, s2);
    lemma_segment_count_bound(links, s2, s1);
}

} // verus!
