//! The road graph formed by the raw links, and the facts about it that the
//! segment builder relies on.
//!
//! Every tile position that some link touches is a node. A node is a
//! *junction* unless exactly two link ends meet there and both links have the
//! same road type; a self-link counts as two ends at its tile.

use std::collections::HashMap;
use vstd::prelude::*;

use crate::roads::{RoadLink, RoadSegment, RoadType, speed_for, spec_speed_for};

verus! {

/// `l` has `v` as one of its ends.
pub open spec fn touches(l: RoadLink, v: (u32, u32)) -> bool {
    l.a == v || l.b == v
}

/// The end of `l` that is not `v` (or `v` itself for a self-link).
pub open spec fn other_end(l: RoadLink, v: (u32, u32)) -> (u32, u32) {
    if l.a == v {
        l.b
    } else {
        l.a
    }
}

/// `l` joins `p` and `q`, in either direction.
pub open spec fn connects(l: RoadLink, p: (u32, u32), q: (u32, u32)) -> bool {
    (l.a == p && l.b == q) || (l.a == q && l.b == p)
}

/// The link ends at `v`: the index of every link touching `v`, in link
/// order, once per end (a self-link at `v` appears twice).
pub open spec fn incident(links: Seq<RoadLink>, v: (u32, u32)) -> Seq<int>
    decreases links.len(),
{
    if links.len() == 0 {
        Seq::empty()
    } else {
        let k = links.len() - 1;
        let l = links[k];
        incident(links.drop_last(), v) + (if l.a == v {
            seq![k]
        } else {
            Seq::empty()
        }) + (if l.b == v {
            seq![k]
        } else {
            Seq::empty()
        })
    }
}

/// A junction is a tile where the number of link ends differs from two, or
/// where the two links that meet have different road types.
pub open spec fn is_junction(links: Seq<RoadLink>, v: (u32, u32)) -> bool {
    let inc = incident(links, v);
    inc.len() != 2 || links[inc[0]].road_type != links[inc[1]].road_type
}

/// The other link end at a two-ended tile, seen from link `l`.
pub open spec fn other_link(inc: Seq<int>, l: int) -> int {
    if inc[0] == l {
        inc[1]
    } else {
        inc[0]
    }
}

/// Number of `false` entries.
pub open spec fn count_unvisited(s: Seq<bool>) -> nat
    decreases s.len(),
{
    if s.len() == 0 {
        0
    } else {
        count_unvisited(s.drop_last()) + (if s.last() {
            0nat
        } else {
            1nat
        })
    }
}

/// Basic facts about the link ends at a tile: they are in range and touch
/// the tile, every link touching the tile is among them, they come in link
/// order, a link appears twice only if it is a self-link at the tile, and a
/// self-link does appear twice.
pub proof fn lemma_incident(links: Seq<RoadLink>, v: (u32, u32))
    ensures
        forall|k: int|
            0 <= k < incident(links, v).len() ==> 0 <= #[trigger] incident(links, v)[k]
                < links.len() && touches(links[incident(links, v)[k]], v),
        forall|l: int|
            0 <= l < links.len() && #[trigger] touches(links[l], v) ==> exists|k: int|
                0 <= k < incident(links, v).len() && incident(links, v)[k] == l,
        forall|i: int, j: int|
            0 <= i < j < incident(links, v).len() ==> #[trigger] incident(links, v)[i]
                <= #[trigger] incident(links, v)[j],
        forall|i: int, j: int|
            0 <= i < j < incident(links, v).len() && #[trigger] incident(links, v)[i]
                == #[trigger] incident(links, v)[j] ==> links[incident(links, v)[i]].a == v
                && links[incident(links, v)[i]].b == v,
        forall|l: int|
            0 <= l < links.len() && #[trigger] links[l].a == v && links[l].b == v ==> exists|
                i: int,
                j: int,
            |
                0 <= i < j < incident(links, v).len() && incident(links, v)[i] == l
                    && incident(links, v)[j] == l,
    decreases links.len(),
{
    if links.len() == 0 {
    } else {
        let k = links.len() - 1;
        let pre = links.drop_last();
        let l = links[k];
        lemma_incident(pre, v);
        let ip = incident(pre, v);
        let inc = incident(links, v);
        let e1: Seq<int> = if l.a == v {
            seq![k]
        } else {
            Seq::empty()
        };
        let e2: Seq<int> = if l.b == v {
            seq![k]
        } else {
            Seq::empty()
        };
        assert(inc == ip + e1 + e2);
        assert forall|x: int| 0 <= x < ip.len() implies inc[x] == ip[x] by {}
        assert forall|x: int| ip.len() <= x < inc.len() implies inc[x] == k by {}
        assert forall|x: int| 0 <= x < ip.len() implies ip[x] < k by {}
        assert forall|m: int|
            0 <= m < inc.len() implies 0 <= #[trigger] inc[m] < links.len() && touches(
                links[inc[m]],
                v,
            ) by {
            if m < ip.len() {
                assert(pre[ip[m]] == links[ip[m]]);
            }
        }
        assert forall|x: int| 0 <= x < links.len() && #[trigger] touches(links[x], v) implies exists|
            m: int,
        |
            0 <= m < inc.len() && inc[m] == x by {
            if x < k {
                assert(pre[x] == links[x]);
                assert(touches(pre[x], v));
                let m = choose|m: int| 0 <= m < ip.len() && ip[m] == x;
                assert(inc[m] == x);
            } else {
                assert(inc[ip.len() as int] == k);
            }
        }
        assert forall|i: int, j: int|
            0 <= i < j < inc.len() && #[trigger] inc[i] == #[trigger] inc[j] implies links[inc[i]].a
            == v && links[inc[i]].b == v by {
            if j < ip.len() {
                assert(ip[i] == ip[j]);
                assert(pre[ip[i]] == links[ip[i]]);
            } else if i < ip.len() {
                assert(ip[i] < k);
            } else {
                assert(e1.len() == 1 && e2.len() == 1);
            }
        }
        assert forall|x: int|
            0 <= x < links.len() && #[trigger] links[x].a == v && links[x].b == v implies exists|
                i: int,
                j: int,
            |
                0 <= i < j < inc.len() && inc[i] == x && inc[j] == x by {
            if x < k {
                assert(pre[x] == links[x]);
                let (i, j) = choose|i: int, j: int|
                    0 <= i < j < ip.len() && ip[i] == x && ip[j] == x;
                assert(inc[i] == x && inc[j] == x);
            } else {
                assert(inc[ip.len() as int] == k);
                assert(inc[ip.len() as int + 1] == k);
            }
        }
    }
}

/// At a tile with exactly two link ends, a link `l` that touches the tile
/// without being a self-link is one of the two ends, the other end belongs
/// to a different link, and that other link is not a self-link either.
pub proof fn lemma_two_ends(links: Seq<RoadLink>, v: (u32, u32), l: int)
    requires
        incident(links, v).len() == 2,
        0 <= l < links.len(),
        touches(links[l], v),
        links[l].a != links[l].b,
    ensures
        incident(links, v)[0] == l || incident(links, v)[1] == l,
        incident(links, v)[0] != incident(links, v)[1],
        0 <= other_link(incident(links, v), l) < links.len(),
        other_link(incident(links, v), l) != l,
        touches(links[other_link(incident(links, v), l)], v),
        links[other_link(incident(links, v), l)].a != links[other_link(incident(links, v), l)].b,
{
    lemma_incident(links, v);
    let inc = incident(links, v);
    assert(touches(links[l], v));
    let k = choose|k: int| 0 <= k < inc.len() && inc[k] == l;
    if inc[0] == inc[1] {
        assert(links[inc[0]].a == v && links[inc[0]].b == v);
    }
    let o = other_link(inc, l);
    assert(0 <= o < links.len() && touches(links[o], v));
    if links[o].a == links[o].b {
        assert(links[o].a == v);
        let (i, j) = choose|i: int, j: int| 0 <= i < j < inc.len() && inc[i] == o && inc[j] == o;
    }
}

/// Marking an unvisited entry lowers the number of unvisited entries by one.
pub proof fn lemma_count_unvisited_mark(s: Seq<bool>, i: int)
    requires
        0 <= i < s.len(),
        !s[i],
    ensures
        count_unvisited(s.update(i, true)) + 1 == count_unvisited(s),
    decreases s.len(),
{
    let t = s.update(i, true);
    if i == s.len() - 1 {
        assert(t.drop_last() =~= s.drop_last());
    } else {
        assert(t.drop_last() =~= s.drop_last().update(i, true));
        lemma_count_unvisited_mark(s.drop_last(), i);
    }
}

/// The number of unvisited entries never exceeds the length.
pub proof fn lemma_count_unvisited_bound(s: Seq<bool>)
    ensures
        count_unvisited(s) <= s.len(),
    decreases s.len(),
{
    if s.len() > 0 {
        lemma_count_unvisited_bound(s.drop_last());
    }
}

/// A sequence with every entry visited has no unvisited entry.
pub proof fn lemma_count_unvisited_all(s: Seq<bool>)
    requires
        forall|i: int| 0 <= i < s.len() ==> s[i],
    ensures
        count_unvisited(s) == 0,
    decreases s.len(),
{
    if s.len() > 0 {
        lemma_count_unvisited_all(s.drop_last());
    }
}

/// All-`false` sequences count every entry.
pub proof fn lemma_count_unvisited_none(s: Seq<bool>)
    requires
        forall|i: int| 0 <= i < s.len() ==> !s[i],
    ensures
        count_unvisited(s) == s.len(),
    decreases s.len(),
{
    if s.len() > 0 {
        lemma_count_unvisited_none(s.drop_last());
    }
}

/// The hash key of a tile position: `x * 2^32 + y`.
pub open spec fn spec_pos_key(p: (u32, u32)) -> u64 {
    (p.0 as int * 4294967296 + p.1 as int) as u64
}

/// Distinct positions have distinct keys.
pub proof fn lemma_pos_key_injective(p: (u32, u32), q: (u32, u32))
    requires
        spec_pos_key(p) == spec_pos_key(q),
    ensures
        p == q,
{
    let x1 = p.0 as int;
    let y1 = p.1 as int;
    let x2 = q.0 as int;
    let y2 = q.1 as int;
    assert(0 <= x1 * 4294967296 + y1 <= u64::MAX) by (nonlinear_arith)
        requires
            0 <= x1 < 4294967296,
            0 <= y1 < 4294967296,
    ;
    assert(0 <= x2 * 4294967296 + y2 <= u64::MAX) by (nonlinear_arith)
        requires
            0 <= x2 < 4294967296,
            0 <= y2 < 4294967296,
    ;
    assert(x1 == x2 && y1 == y2) by (nonlinear_arith)
        requires
            x1 * 4294967296 + y1 == x2 * 4294967296 + y2,
            0 <= y1 < 4294967296,
            0 <= y2 < 4294967296,
    ;
}

fn pos_key(p: (u32, u32)) -> (k: u64)
    ensures
        k == spec_pos_key(p),
{
    let x = p.0 as u64;
    let y = p.1 as u64;
    assert(x * 4294967296 + y <= u64::MAX) by (nonlinear_arith)
        requires
            x < 4294967296,
            y < 4294967296,
    ;
    x * 4294967296u64 + y
}

/// The node table: the distinct positions touched by links, and for each
/// link the node index of both of its ends.
pub struct LinkGraph {
    pub nodes: Vec<(u32, u32)>,
    pub ends: Vec<(usize, usize)>,
    /// Per node: (neighbour node, link index) for every link end at the node.
    pub adj: Vec<Vec<(usize, usize)>>,
    pub junction: Vec<bool>,
}

pub open spec fn nodes_distinct(nodes: Seq<(u32, u32)>) -> bool {
    forall|i: int, j: int| 0 <= i < nodes.len() && 0 <= j < nodes.len() && i != j ==> nodes[i] != nodes[j]
}

pub open spec fn ends_ok(links: Seq<RoadLink>, nodes: Seq<(u32, u32)>, ends: Seq<(usize, usize)>, n: int) -> bool {
    &&& ends.len() == n
    &&& forall|l: int|
        0 <= l < n ==> {
            &&& (#[trigger] ends[l]).0 < nodes.len()
            &&& ends[l].1 < nodes.len()
            &&& nodes[ends[l].0 as int] == links[l].a
            &&& nodes[ends[l].1 as int] == links[l].b
        }
}

pub open spec fn adj_ok(links: Seq<RoadLink>, nodes: Seq<(u32, u32)>, adj: Seq<Vec<(usize, usize)>>) -> bool {
    &&& adj.len() == nodes.len()
    &&& forall|t: int|
        0 <= t < nodes.len() ==> {
            &&& (#[trigger] adj[t])@.len() == incident(links, nodes[t]).len()
            &&& forall|k: int|
                0 <= k < adj[t]@.len() ==> {
                    &&& (#[trigger] adj[t]@[k]).1 == incident(links, nodes[t])[k]
                    &&& (adj[t]@[k].1 as int) < links.len()
                    &&& adj[t]@[k].0 < nodes.len()
                    &&& nodes[adj[t]@[k].0 as int] == other_end(links[adj[t]@[k].1 as int], nodes[t])
                }
        }
}

impl LinkGraph {
    pub open spec fn wf(&self, links: Seq<RoadLink>) -> bool {
        &&& nodes_distinct(self.nodes@)
        &&& ends_ok(links, self.nodes@, self.ends@, links.len() as int)
        &&& adj_ok(links, self.nodes@, self.adj@)
        &&& self.junction@.len() == self.nodes@.len()
        &&& forall|t: int|
            0 <= t < self.nodes@.len() ==> #[trigger] self.junction@[t] == is_junction(
                links,
                self.nodes@[t],
            )
    }
}

pub open spec fn map_ok(map: Map<u64, usize>, nodes: Seq<(u32, u32)>) -> bool {
    &&& forall|t: int|
        0 <= t < nodes.len() ==> map.contains_key(spec_pos_key(#[trigger] nodes[t])) && map[spec_pos_key(
            nodes[t],
        )] == t
    &&& forall|k: u64|
        #[trigger] map.contains_key(k) ==> map[k] < nodes.len() && spec_pos_key(nodes[map[k] as int])
            == k
}

fn node_of(map: &mut HashMap<u64, usize>, nodes: &mut Vec<(u32, u32)>, p: (u32, u32)) -> (i: usize)
    requires
        map_ok(old(map)@, old(nodes)@),
        old(nodes)@.len() < usize::MAX,
    ensures
        map_ok(final(map)@, final(nodes)@),
        i < final(nodes)@.len(),
        final(nodes)@[i as int] == p,
        final(nodes)@.len() <= old(nodes)@.len() + 1,
        old(nodes)@.is_prefix_of(final(nodes)@),
{
    broadcast use vstd::std_specs::hash::group_hash_axioms;

    let k = pos_key(p);
    match map.get(&k) {
        Some(i) => {
            let i = *i;
            proof {
                lemma_pos_key_injective(nodes@[i as int], p);
            }
            i
        },
        None => {
            let i = nodes.len();
            nodes.push(p);
            map.insert(k, i);
            proof {
                assert forall|t: int|
                    0 <= t < nodes@.len() implies map@.contains_key(
                    spec_pos_key(#[trigger] nodes@[t]),
                ) && map@[spec_pos_key(nodes@[t])] == t by {
                    if t < i {
                        assert(nodes@[t] == old(nodes)@[t]);
                        if spec_pos_key(nodes@[t]) == k {
                            lemma_pos_key_injective(nodes@[t], p);
                        }
                    }
                }
            }
            i
        },
    }
}

pub(crate) fn index_nodes(links: &Vec<RoadLink>) -> (res: (Vec<(u32, u32)>, Vec<(usize, usize)>))
    requires
        links@.len() <= 0x3fff_ffff,
    ensures
        nodes_distinct(res.0@),
        ends_ok(links@, res.0@, res.1@, links@.len() as int),
        res.0@.len() <= 2 * links@.len(),
{
    let n = links.len();
    let mut map: HashMap<u64, usize> = HashMap::new();
    let mut nodes: Vec<(u32, u32)> = Vec::new();
    let mut ends: Vec<(usize, usize)> = Vec::new();
    let mut l: usize = 0;
    while l < n
        invariant
            n == links@.len(),
            n <= 0x3fff_ffff,
            l <= n,
            map_ok(map@, nodes@),
            nodes@.len() <= 2 * l,
            ends_ok(links@, nodes@, ends@, l as int),
        decreases n - l,
    {
        let ghost before = nodes@;
        let ia = node_of(&mut map, &mut nodes, links[l].a);
        let ghost mid = nodes@;
        let ib = node_of(&mut map, &mut nodes, links[l].b);
        assert(nodes@[ia as int] == mid[ia as int]);
        assert forall|x: int| 0 <= x < l implies #[trigger] nodes@[ends@[x].0 as int] == before[ends@[x].0 as int] && nodes@[ends@[x].1 as int] == before[ends@[x].1 as int] by {
            assert(before.is_prefix_of(nodes@));
        }
        ends.push((ia, ib));
        l = l + 1;
    }
    proof {
        assert forall|i: int, j: int| 0 <= i < nodes@.len() && 0 <= j < nodes@.len() && i != j implies nodes@[i] != nodes@[j] by {
            if nodes@[i] == nodes@[j] {
                assert(map@[spec_pos_key(nodes@[i])] == i);
                assert(map@[spec_pos_key(nodes@[j])] == j);
            }
        }
    }
    (nodes, ends)
}

fn push_entry(adj: &mut Vec<Vec<(usize, usize)>>, t: usize, e: (usize, usize))
    requires
        t < old(adj)@.len(),
    ensures
        final(adj)@.len() == old(adj)@.len(),
        final(adj)@[t as int]@ == old(adj)@[t as int]@.push(e),
        forall|u: int| 0 <= u < old(adj)@.len() && u != t ==> final(adj)@[u] == old(adj)@[u],
{
    let mut inner: Vec<(usize, usize)> = Vec::new();
    adj.set_and_swap(t, &mut inner);
    inner.push(e);
    adj.set_and_swap(t, &mut inner);
}

pub(crate) fn build_adjacency(links: &Vec<RoadLink>, nodes: &Vec<(u32, u32)>, ends: &Vec<(usize, usize)>) -> (adj: Vec<Vec<(usize, usize)>>)
    requires
        nodes_distinct(nodes@),
        ends_ok(links@, nodes@, ends@, links@.len() as int),
    ensures
        adj_ok(links@, nodes@, adj@),
{
    let nn = nodes.len();
    let mut adj: Vec<Vec<(usize, usize)>> = Vec::new();
    let mut t: usize = 0;
    while t < nn
        invariant
            nn == nodes@.len(),
            t <= nn,
            adj@.len() == t,
            forall|u: int| 0 <= u < t ==> (#[trigger] adj@[u])@.len() == 0,
        decreases nn - t,
    {
        adj.push(Vec::new());
        t = t + 1;
    }
    proof {
        assert(links@.take(0) =~= Seq::<RoadLink>::empty());
        assert forall|u: int| 0 <= u < nn implies incident(links@.take(0), #[trigger] nodes@[u]).len() == 0 by {}
    }
    let n = links.len();
    let mut l: usize = 0;
    while l < n
        invariant
            n == links@.len(),
            nn == nodes@.len(),
            l <= n,
            nodes_distinct(nodes@),
            ends_ok(links@, nodes@, ends@, n as int),
            adj_ok(links@.take(l as int), nodes@, adj@),
        decreases n - l,
    {
        let (ia, ib) = ends[l];
        let ghost old_adj = adj@;
        let ghost pre = links@.take(l as int);
        let ghost cur = links@.take(l as int + 1);
        push_entry(&mut adj, ia, (ib, l));
        push_entry(&mut adj, ib, (ia, l));
        proof {
            assert(cur.drop_last() =~= pre);
            assert(cur[l as int] == links@[l as int]);
            assert forall|x: int| 0 <= x < l implies #[trigger] cur[x] == pre[x] by {}
            assert forall|u: int| 0 <= u < nn implies {
                &&& (#[trigger] adj@[u])@.len() == incident(cur, nodes@[u]).len()
                &&& forall|k: int|
                    0 <= k < adj@[u]@.len() ==> {
                        &&& (#[trigger] adj@[u]@[k]).1 == incident(cur, nodes@[u])[k]
                        &&& (adj@[u]@[k].1 as int) < cur.len()
                        &&& adj@[u]@[k].0 < nodes@.len()
                        &&& nodes@[adj@[u]@[k].0 as int] == other_end(cur[adj@[u]@[k].1 as int], nodes@[u])
                    }
            } by {
                let v = nodes@[u];
                lemma_incident(pre, v);
                let ip = incident(pre, v);
                let ic = incident(cur, v);
                assert(old_adj[u]@.len() == ip.len());
                assert forall|k: int| 0 <= k < ip.len() implies old_adj[u]@[k].1 < l && cur[old_adj[u]@[k].1 as int] == pre[old_adj[u]@[k].1 as int] by {
                    assert(old_adj[u]@[k].1 == ip[k]);
                }
                if u == ia && u == ib {
                    assert(adj@[u]@ =~= old_adj[u]@.push((ib, l)).push((ia, l)));
                } else if u == ia {
                    assert(v != links@[l as int].b);
                    assert(adj@[u]@ =~= old_adj[u]@.push((ib, l)));
                } else if u == ib {
                    assert(v != links@[l as int].a);
                    assert(adj@[u]@ =~= old_adj[u]@.push((ia, l)));
                } else {
                    assert(v != links@[l as int].a);
                    assert(v != links@[l as int].b);
                    assert(adj@[u] == old_adj[u]);
                }
            }
        }
        l = l + 1;
    }
    proof {
        assert(links@.take(n as int) =~= links@);
    }
    adj
}

pub(crate) fn classify_junctions(links: &Vec<RoadLink>, nodes: &Vec<(u32, u32)>, adj: &Vec<Vec<(usize, usize)>>) -> (junction: Vec<bool>)
    requires
        adj_ok(links@, nodes@, adj@),
    ensures
        junction@.len() == nodes@.len(),
        forall|t: int| 0 <= t < nodes@.len() ==> #[trigger] junction@[t] == is_junction(links@, nodes@[t]),
{
    let nn = nodes.len();
    let mut junction: Vec<bool> = Vec::new();
    let mut t: usize = 0;
    while t < nn
        invariant
            nn == nodes@.len(),
            t <= nn,
            adj_ok(links@, nodes@, adj@),
            junction@.len() == t,
            forall|u: int| 0 <= u < t ==> #[trigger] junction@[u] == is_junction(links@, nodes@[u]),
        decreases nn - t,
    {
        let ghost inc = incident(links@, nodes@[t as int]);
        assert(adj@[t as int]@.len() == inc.len());
        let j = if adj[t].len() != 2 {
            true
        } else {
            proof {
                lemma_incident(links@, nodes@[t as int]);
                assert(adj@[t as int]@[0].1 == inc[0]);
                assert(adj@[t as int]@[1].1 == inc[1]);
            }
            let l0 = adj[t][0].1;
            let l1 = adj[t][1].1;
            links[l0].road_type != links[l1].road_type
        };
        junction.push(j);
        t = t + 1;
    }
    junction
}

/// Both link ends at `v` are visited, or neither is.
pub open spec fn balanced(links: Seq<RoadLink>, vis: Seq<bool>, v: (u32, u32)) -> bool {
    let inc = incident(links, v);
    vis[inc[0]] == vis[inc[1]]
}

/// Every two-ended tile other than those in `skip` is balanced.
pub open spec fn settled(links: Seq<RoadLink>, vis: Seq<bool>, skip: Set<(u32, u32)>) -> bool {
    forall|v: (u32, u32)|
        !is_junction(links, v) && !skip.contains(v) ==> #[trigger] balanced(links, vis, v)
}

/// A walk stands on two-ended tile `v`, which it entered through link
/// `lin`: that link is visited, the tile's other link is not.
pub open spec fn half_open(links: Seq<RoadLink>, vis: Seq<bool>, v: (u32, u32), lin: int) -> bool {
    let inc = incident(links, v);
    &&& 0 <= lin < links.len()
    &&& touches(links[lin], v)
    &&& links[lin].a != links[lin].b
    &&& inc.len() == 2
    &&& vis[lin]
    &&& !vis[other_link(inc, lin)]
}

/// What a walk produced: a path of tiles, the links it crossed (each
/// previously unvisited, all distinct, all of the first link's type), and
/// exactly those links newly visited.
pub open spec fn walk_result(
    links: Seq<RoadLink>,
    old_vis: Seq<bool>,
    vis: Seq<bool>,
    path: Seq<(u32, u32)>,
    plinks: Seq<int>,
) -> bool {
    &&& vis.len() == old_vis.len()
    &&& plinks.len() >= 1
    &&& path.len() == plinks.len() + 1
    &&& forall|k: int|
        0 <= k < plinks.len() ==> {
            &&& 0 <= #[trigger] plinks[k] < links.len()
            &&& !old_vis[plinks[k]]
            &&& connects(links[plinks[k]], path[k], path[k + 1])
            &&& links[plinks[k]].road_type == links[plinks[0]].road_type
        }
    &&& forall|i: int, j: int| 0 <= i < j < plinks.len() ==> #[trigger] plinks[i] != #[trigger] plinks[j]
    &&& forall|k: int| 0 < k < path.len() - 1 ==> !is_junction(links, #[trigger] path[k])
    &&& forall|l: int|
        0 <= l < vis.len() ==> (#[trigger] vis[l] <==> (old_vis[l] || exists|k: int|
            0 <= k < plinks.len() && plinks[k] == l))
    &&& count_unvisited(vis) + plinks.len() == count_unvisited(old_vis)
}

/// Marking link `lx` disturbs the balance only at its own ends.
proof fn lemma_mark_elsewhere(links: Seq<RoadLink>, vis: Seq<bool>, lx: int, v: (u32, u32))
    requires
        0 <= lx < links.len(),
        vis.len() == links.len(),
        !touches(links[lx], v),
        incident(links, v).len() == 2,
    ensures
        balanced(links, vis.update(lx, true), v) == balanced(links, vis, v),
{
    lemma_incident(links, v);
}

/// Follows the chain that leaves junction `g.nodes[j]` through its `e`-th
/// link end, across two-ended tiles, until it reaches a junction.
fn follow_chain(links: &Vec<RoadLink>, g: &LinkGraph, visited: &mut Vec<bool>, j: usize, e: usize) -> (res: (Vec<(u32, u32)>, Ghost<Seq<int>>))
    requires
        g.wf(links@),
        old(visited)@.len() == links@.len(),
        j < g.nodes@.len(),
        g.junction@[j as int],
        e < g.adj@[j as int]@.len(),
        !old(visited)@[g.adj@[j as int]@[e as int].1 as int],
        settled(links@, old(visited)@, Set::empty()),
    ensures
        walk_result(links@, old(visited)@, final(visited)@, res.0@, res.1@),
        res.0@[0] == g.nodes@[j as int],
        is_junction(links@, res.0@.last()),
        res.1@[0] == g.adj@[j as int]@[e as int].1,
        settled(links@, final(visited)@, Set::empty()),
{
    let ghost ls = links@;
    let ghost vis0 = visited@;
    let (n0, l0) = g.adj[j][e];
    let ghost pj = g.nodes@[j as int];
    let ghost pn = g.nodes@[n0 as int];
    proof {
        lemma_incident(ls, pj);
        assert(g.adj@[j as int]@[e as int].1 == incident(ls, pj)[e as int]);
        assert(pn == other_end(ls[l0 as int], pj));
        assert(connects(ls[l0 as int], pj, pn));
    }
    visited.set(l0, true);
    proof {
        lemma_count_unvisited_mark(vis0, l0 as int);
        if !is_junction(ls, pn) {
            assert(pn != pj);
            lemma_incident(ls, pn);
            assert(touches(ls[l0 as int], pn));
            assert(balanced(ls, vis0, pn));
            lemma_two_ends(ls, pn, l0 as int);
        }
        assert forall|v: (u32, u32)| !is_junction(ls, v) && !set![pn].contains(v) implies #[trigger] balanced(ls, visited@, v) by {
            assert(v != pj);
            assert(balanced(ls, vis0, v));
            lemma_mark_elsewhere(ls, vis0, l0 as int, v);
        }
    }
    let mut path: Vec<(u32, u32)> = Vec::new();
    path.push(g.nodes[j]);
    path.push(g.nodes[n0]);
    let ghost mut plinks: Seq<int> = seq![l0 as int];
    let mut cur = n0;
    let mut lin = l0;
    proof {
        assert forall|l: int| 0 <= l < visited@.len() implies (#[trigger] visited@[l] <==> (vis0[l] || exists|k: int| 0 <= k < plinks.len() && plinks[k] == l)) by {
            if l == l0 {
                assert(plinks[0] == l);
            }
        }
    }
    while !g.junction[cur]
        invariant
            ls == links@,
            g.wf(ls),
            vis0.len() == ls.len(),
            cur < g.nodes@.len(),
            lin < ls.len(),
            lin == plinks.last(),
            plinks[0] == l0,
            l0 == g.adj@[j as int]@[e as int].1,
            path@[0] == pj,
            path@.last() == g.nodes@[cur as int],
            walk_result(ls, vis0, visited@, path@, plinks),
            !is_junction(ls, g.nodes@[cur as int]) ==> half_open(ls, visited@, g.nodes@[cur as int], lin as int),
            settled(ls, visited@, set![g.nodes@[cur as int]]),
        decreases count_unvisited(visited@),
    {
        let ghost pc = g.nodes@[cur as int];
        let ghost inc = incident(ls, pc);
        let ghost vis1 = visited@;
        proof {
            lemma_two_ends(ls, pc, lin as int);
            assert(g.adj@[cur as int]@[0].1 == inc[0]);
            assert(g.adj@[cur as int]@[1].1 == inc[1]);
        }
        let a0 = g.adj[cur][0];
        let a1 = g.adj[cur][1];
        let (nx, lx) = if a0.1 == lin {
            a1
        } else {
            a0
        };
        let ghost px = g.nodes@[nx as int];
        proof {
            assert(lx == other_link(inc, lin as int));
            assert(px == other_end(ls[lx as int], pc));
            assert(px != pc);
            assert(connects(ls[lx as int], pc, px));
            assert(ls[lx as int].road_type == ls[lin as int].road_type);
        }
        visited.set(lx, true);
        path.push(g.nodes[nx]);
        proof {
            lemma_count_unvisited_mark(vis1, lx as int);
            let old_plinks = plinks;
            plinks = plinks.push(lx as int);
            if !is_junction(ls, px) {
                lemma_incident(ls, px);
                assert(touches(ls[lx as int], px));
                assert(balanced(ls, vis1, px));
                lemma_two_ends(ls, px, lx as int);
            }
            assert forall|v: (u32, u32)| !is_junction(ls, v) && !set![px].contains(v) implies #[trigger] balanced(ls, visited@, v) by {
                if v != pc {
                    assert(balanced(ls, vis1, v));
                    lemma_mark_elsewhere(ls, vis1, lx as int, v);
                }
            }
            assert forall|i: int, k: int| 0 <= i < k < plinks.len() implies #[trigger] plinks[i] != #[trigger] plinks[k] by {
                if k == plinks.len() - 1 {
                    assert(vis1[old_plinks[i]]);
                } else {
                    assert(old_plinks[i] != old_plinks[k]);
                }
            }
            assert forall|k: int| 0 <= k < plinks.len() implies {
                &&& 0 <= #[trigger] plinks[k] < ls.len()
                &&& !vis0[plinks[k]]
                &&& connects(ls[plinks[k]], path@[k], path@[k + 1])
                &&& ls[plinks[k]].road_type == ls[plinks[0]].road_type
            } by {
                if k < plinks.len() - 1 {
                    assert(plinks[k] == old_plinks[k]);
                }
            }
            assert forall|k: int| 0 < k < path@.len() - 1 implies !is_junction(ls, #[trigger] path@[k]) by {}
            assert forall|l: int| 0 <= l < visited@.len() implies (#[trigger] visited@[l] <==> (vis0[l] || exists|k: int| 0 <= k < plinks.len() && plinks[k] == l)) by {
                if l == lx {
                    assert(plinks[plinks.len() - 1] == l);
                } else {
                    assert(visited@[l] == vis1[l]);
                    if exists|k: int| 0 <= k < old_plinks.len() && old_plinks[k] == l {
                        let k = choose|k: int| 0 <= k < old_plinks.len() && old_plinks[k] == l;
                        assert(plinks[k] == l);
                    }
                    if exists|k: int| 0 <= k < plinks.len() && plinks[k] == l {
                        let k = choose|k: int| 0 <= k < plinks.len() && plinks[k] == l;
                        assert(k < old_plinks.len());
                        assert(old_plinks[k] == l);
                    }
                }
            }
        }
        cur = nx;
        lin = lx;
    }
    proof {
        assert forall|v: (u32, u32)| !is_junction(ls, v) && !Set::<(u32, u32)>::empty().contains(v) implies #[trigger] balanced(ls, visited@, v) by {
            assert(!set![g.nodes@[cur as int]].contains(v));
        }
    }
    (path, Ghost(plinks))
}

/// Every link still unvisited joins two non-junction tiles.
pub open spec fn junctions_done(links: Seq<RoadLink>, vis: Seq<bool>) -> bool {
    forall|l: int|
        0 <= l < links.len() && !#[trigger] vis[l] ==> !is_junction(links, links[l].a)
            && !is_junction(links, links[l].b)
}

/// Follows the closed loop of two-ended tiles that contains the unvisited
/// link `l`, from `links[l].a` across `links[l].b` back to `links[l].a`.
fn follow_loop(links: &Vec<RoadLink>, g: &LinkGraph, visited: &mut Vec<bool>, l: usize) -> (res: (Vec<(u32, u32)>, Ghost<Seq<int>>))
    requires
        g.wf(links@),
        old(visited)@.len() == links@.len(),
        l < links@.len(),
        !old(visited)@[l as int],
        settled(links@, old(visited)@, Set::empty()),
        junctions_done(links@, old(visited)@),
    ensures
        walk_result(links@, old(visited)@, final(visited)@, res.0@, res.1@),
        res.0@[0] == links@[l as int].a,
        res.0@.last() == links@[l as int].a,
        !is_junction(links@, links@[l as int].a),
        res.1@[0] == l,
        settled(links@, final(visited)@, Set::empty()),
        junctions_done(links@, final(visited)@),
{
    let ghost ls = links@;
    let ghost vis0 = visited@;
    let (ea, eb) = g.ends[l];
    let ghost pa = ls[l as int].a;
    let ghost pb = ls[l as int].b;
    visited.set(l, true);
    proof {
        lemma_count_unvisited_mark(vis0, l as int);
        lemma_incident(ls, pa);
        lemma_incident(ls, pb);
        assert(touches(ls[l as int], pa));
        assert(touches(ls[l as int], pb));
        assert(balanced(ls, vis0, pa));
        assert(balanced(ls, vis0, pb));
        if pa != pb {
            lemma_two_ends(ls, pa, l as int);
            lemma_two_ends(ls, pb, l as int);
        } else {
            let (i, k) = choose|i: int, k: int| 0 <= i < k < incident(ls, pa).len() && incident(ls, pa)[i] == l && incident(ls, pa)[k] == l;
            assert(incident(ls, pa)[0] == l && incident(ls, pa)[1] == l);
        }
        assert forall|v: (u32, u32)| !is_junction(ls, v) && !set![pa, pb].contains(v) implies #[trigger] balanced(ls, visited@, v) by {
            assert(balanced(ls, vis0, v));
            lemma_mark_elsewhere(ls, vis0, l as int, v);
        }
    }
    let mut path: Vec<(u32, u32)> = Vec::new();
    path.push(links[l].a);
    path.push(links[l].b);
    let ghost mut plinks: Seq<int> = seq![l as int];
    let mut cur = eb;
    let mut lin = l;
    proof {
        assert forall|x: int| 0 <= x < visited@.len() implies (#[trigger] visited@[x] <==> (vis0[x] || exists|k: int| 0 <= k < plinks.len() && plinks[k] == x)) by {
            if x == l {
                assert(plinks[0] == x);
            }
        }
        assert(connects(ls[l as int], path@[0], path@[1]));
    }
    while cur != ea
        invariant
            ls == links@,
            g.wf(ls),
            vis0.len() == ls.len(),
            l < ls.len(),
            ea == g.ends@[l as int].0,
            pa == ls[l as int].a,
            !is_junction(ls, pa),
            cur < g.nodes@.len(),
            lin < ls.len(),
            !is_junction(ls, g.nodes@[cur as int]),
            lin == plinks.last(),
            plinks[0] == l,
            path@[0] == pa,
            path@.last() == g.nodes@[cur as int],
            walk_result(ls, vis0, visited@, path@, plinks),
            cur != ea ==> half_open(ls, visited@, g.nodes@[cur as int], lin as int),
            cur != ea ==> half_open(ls, visited@, pa, l as int),
            cur == ea ==> settled(ls, visited@, Set::empty()),
            settled(ls, visited@, set![pa, g.nodes@[cur as int]]),
            junctions_done(ls, visited@),
        decreases count_unvisited(visited@),
    {
        let ghost pc = g.nodes@[cur as int];
        let ghost inc = incident(ls, pc);
        let ghost vis1 = visited@;
        proof {
            assert(g.nodes@[ea as int] == pa);
            assert(pc != pa);
            lemma_two_ends(ls, pc, lin as int);
            lemma_two_ends(ls, pa, l as int);
            assert(g.adj@[cur as int]@[0].1 == inc[0]);
            assert(g.adj@[cur as int]@[1].1 == inc[1]);
        }
        let a0 = g.adj[cur][0];
        let a1 = g.adj[cur][1];
        let (nx, lx) = if a0.1 == lin {
            a1
        } else {
            a0
        };
        let ghost px = g.nodes@[nx as int];
        proof {
            assert(lx == other_link(inc, lin as int));
            assert(px == other_end(ls[lx as int], pc));
            assert(px != pc);
            assert(connects(ls[lx as int], pc, px));
            assert(ls[lx as int].road_type == ls[lin as int].road_type);
            assert(!vis1[lx as int]);
            assert(!is_junction(ls, px));
        }
        visited.set(lx, true);
        path.push(g.nodes[nx]);
        proof {
            lemma_count_unvisited_mark(vis1, lx as int);
            let old_plinks = plinks;
            plinks = plinks.push(lx as int);
            lemma_incident(ls, px);
            lemma_incident(ls, pa);
            assert(touches(ls[lx as int], px));
            if px == pa {
                assert(nx == ea);
                let oa = other_link(incident(ls, pa), l as int);
                assert(lx as int == oa);
                assert forall|v: (u32, u32)| !is_junction(ls, v) && !Set::<(u32, u32)>::empty().contains(v) implies #[trigger] balanced(ls, visited@, v) by {
                    if v != pc && v != pa {
                        assert(balanced(ls, vis1, v));
                        lemma_mark_elsewhere(ls, vis1, lx as int, v);
                    }
                }
            } else {
                assert(nx != ea);
                assert(balanced(ls, vis1, px));
                lemma_two_ends(ls, px, lx as int);
                let oa = other_link(incident(ls, pa), l as int);
                assert(touches(ls[oa], pa));
                assert(!touches(ls[lx as int], pa));
                assert(lx as int != oa);
            }
            assert forall|v: (u32, u32)| !is_junction(ls, v) && !set![pa, px].contains(v) implies #[trigger] balanced(ls, visited@, v) by {
                if v != pc {
                    assert(!set![pa, pc].contains(v));
                    assert(balanced(ls, vis1, v));
                    lemma_mark_elsewhere(ls, vis1, lx as int, v);
                }
            }
            assert forall|x: int| 0 <= x < ls.len() && !#[trigger] visited@[x] implies !is_junction(ls, ls[x].a) && !is_junction(ls, ls[x].b) by {
                assert(!vis1[x]);
            }
            assert forall|i: int, k: int| 0 <= i < k < plinks.len() implies #[trigger] plinks[i] != #[trigger] plinks[k] by {
                if k == plinks.len() - 1 {
                    assert(vis1[old_plinks[i]]);
                } else {
                    assert(old_plinks[i] != old_plinks[k]);
                }
            }
            assert forall|k: int| 0 <= k < plinks.len() implies {
                &&& 0 <= #[trigger] plinks[k] < ls.len()
                &&& !vis0[plinks[k]]
                &&& connects(ls[plinks[k]], path@[k], path@[k + 1])
                &&& ls[plinks[k]].road_type == ls[plinks[0]].road_type
            } by {
                if k < plinks.len() - 1 {
                    assert(plinks[k] == old_plinks[k]);
                }
            }
            assert forall|k: int| 0 < k < path@.len() - 1 implies !is_junction(ls, #[trigger] path@[k]) by {}
            assert forall|x: int| 0 <= x < visited@.len() implies (#[trigger] visited@[x] <==> (vis0[x] || exists|k: int| 0 <= k < plinks.len() && plinks[k] == x)) by {
                if x == lx {
                    assert(plinks[plinks.len() - 1] == x);
                } else {
                    assert(visited@[x] == vis1[x]);
                    if exists|k: int| 0 <= k < old_plinks.len() && old_plinks[k] == x {
                        let k = choose|k: int| 0 <= k < old_plinks.len() && old_plinks[k] == x;
                        assert(plinks[k] == x);
                    }
                    if exists|k: int| 0 <= k < plinks.len() && plinks[k] == x {
                        let k = choose|k: int| 0 <= k < plinks.len() && plinks[k] == x;
                        assert(k < old_plinks.len());
                        assert(old_plinks[k] == x);
                    }
                }
            }
        }
        cur = nx;
        lin = lx;
    }
    proof {
        assert(g.nodes@[ea as int] == pa);
    }
    (path, Ghost(plinks))
}

/// Segment `seg` is the walk `sl` over `links`: its points are joined by
/// the links `sl` (all of the segment's road type), its inner tiles are
/// two-ended, and it runs between junctions or closes a loop without any.
pub open spec fn seg_traced(links: Seq<RoadLink>, seg: RoadSegment, sl: Seq<int>) -> bool {
    let pts = seg.points@;
    &&& sl.len() >= 1
    &&& pts.len() == sl.len() + 1
    &&& seg.a == pts[0]
    &&& seg.b == pts.last()
    &&& forall|k: int|
        0 <= k < sl.len() ==> {
            &&& 0 <= #[trigger] sl[k] < links.len()
            &&& connects(links[sl[k]], pts[k], pts[k + 1])
            &&& links[sl[k]].road_type == seg.road_type
        }
    &&& forall|k: int| 0 < k < pts.len() - 1 ==> !is_junction(links, #[trigger] pts[k])
    &&& ((is_junction(links, seg.a) && is_junction(links, seg.b)) || (seg.a == seg.b
        && !is_junction(links, seg.a)))
    &&& seg.speed_mean == spec_speed_for(seg.road_type)
    &&& seg.length == sl.len()
}

/// No link is crossed twice, by one segment or by two.
pub open spec fn walks_disjoint(sls: Seq<Seq<int>>) -> bool {
    forall|i: int, k: int, i2: int, k2: int|
        0 <= i < sls.len() && 0 <= k < sls[i].len() && 0 <= i2 < sls.len() && 0 <= k2
            < sls[i2].len() && (i != i2 || k != k2) ==> #[trigger] sls[i][k] != #[trigger] sls[i2][k2]
}

/// Link `l` is crossed by some segment.
pub open spec fn walked(sls: Seq<Seq<int>>, l: int) -> bool {
    exists|i: int, k: int| 0 <= i < sls.len() && 0 <= k < sls[i].len() && sls[i][k] == l
}

/// Every link is crossed by some segment.
pub open spec fn walks_cover(sls: Seq<Seq<int>>, n: int) -> bool {
    forall|l: int| 0 <= l < n ==> #[trigger] walked(sls, l)
}

/// Each segment that closes a loop without a junction starts at the `a`
/// end of its first link and runs across that link's `b` end first, and
/// its first link is the lowest-numbered link of the loop.
pub open spec fn loop_starts(links: Seq<RoadLink>, segs: Seq<RoadSegment>, sls: Seq<Seq<int>>) -> bool {
    forall|i: int|
        0 <= i < segs.len() && !is_junction(links, (#[trigger] segs[i]).a) ==> {
            &&& links[sls[i][0]].a == segs[i].a
            &&& segs[i].points@[1] == links[sls[i][0]].b
            &&& forall|k: int| 0 <= k < sls[i].len() ==> sls[i][0] <= #[trigger] sls[i][k]
        }
}

pub open spec fn segs_traced(links: Seq<RoadLink>, segs: Seq<RoadSegment>, sls: Seq<Seq<int>>) -> bool {
    &&& sls.len() == segs.len()
    &&& forall|i: int| 0 <= i < segs.len() ==> seg_traced(links, #[trigger] segs[i], sls[i])
    &&& walks_disjoint(sls)
}

pub open spec fn visited_is_walked(vis: Seq<bool>, sls: Seq<Seq<int>>) -> bool {
    forall|l: int|
        0 <= l < vis.len() ==> (#[trigger] vis[l] <==> exists|i: int, k: int| 0 <= i < sls.len() && 0 <= k < sls[i].len() && sls[i][k] == l)
}

proof fn lemma_add_walk(
    links: Seq<RoadLink>,
    segs: Seq<RoadSegment>,
    sls: Seq<Seq<int>>,
    vis0: Seq<bool>,
    vis: Seq<bool>,
    seg: RoadSegment,
    plinks: Seq<int>,
)
    requires
        segs_traced(links, segs, sls),
        visited_is_walked(vis0, sls),
        vis0.len() == links.len(),
        walk_result(links, vis0, vis, seg.points@, plinks),
        seg_traced(links, seg, plinks),
    ensures
        segs_traced(links, segs.push(seg), sls.push(plinks)),
        visited_is_walked(vis, sls.push(plinks)),
{
    let s2 = sls.push(plinks);
    let g2 = segs.push(seg);
    assert forall|i: int| 0 <= i < g2.len() implies seg_traced(links, #[trigger] g2[i], s2[i]) by {
        if i < segs.len() {
            assert(g2[i] == segs[i]);
            assert(s2[i] == sls[i]);
        }
    }
    assert forall|i: int, k: int, i2: int, k2: int|
        0 <= i < s2.len() && 0 <= k < s2[i].len() && 0 <= i2 < s2.len() && 0 <= k2 < s2[i2].len() && (i != i2 || k != k2) implies #[trigger] s2[i][k] != #[trigger] s2[i2][k2] by {
        let last = sls.len() as int;
        if i == last && i2 == last {
        } else if i == last {
            assert(s2[i2] == sls[i2]);
            assert(seg_traced(links, segs[i2], sls[i2]));
            assert(0 <= sls[i2][k2] < links.len());
            assert(vis0[sls[i2][k2]]);
            assert(!vis0[plinks[k]]);
        } else if i2 == last {
            assert(s2[i] == sls[i]);
            assert(seg_traced(links, segs[i], sls[i]));
            assert(0 <= sls[i][k] < links.len());
            assert(vis0[sls[i][k]]);
            assert(!vis0[plinks[k2]]);
        } else {
            assert(s2[i] == sls[i]);
            assert(s2[i2] == sls[i2]);
        }
    }
    assert forall|l: int| 0 <= l < vis.len() implies (#[trigger] vis[l] <==> exists|i: int, k: int| 0 <= i < s2.len() && 0 <= k < s2[i].len() && s2[i][k] == l) by {
        if vis[l] {
            if vis0[l] {
                let (i, k) = choose|i: int, k: int| 0 <= i < sls.len() && 0 <= k < sls[i].len() && sls[i][k] == l;
                assert(s2[i] == sls[i]);
            } else {
                let k = choose|k: int| 0 <= k < plinks.len() && plinks[k] == l;
                assert(s2[sls.len() as int] == plinks);
            }
        }
        if exists|i: int, k: int| 0 <= i < s2.len() && 0 <= k < s2[i].len() && s2[i][k] == l {
            let (i, k) = choose|i: int, k: int| 0 <= i < s2.len() && 0 <= k < s2[i].len() && s2[i][k] == l;
            if i < sls.len() {
                assert(s2[i] == sls[i]);
                assert(vis0[l]);
            } else {
                assert(s2[i] == plinks);
            }
        }
    }
}

/// The points of segments `0..upto`, concatenated.
pub open spec fn flat_points(segs: Seq<RoadSegment>, upto: int) -> Seq<(u32, u32)>
    decreases upto,
{
    if upto <= 0 {
        Seq::empty()
    } else {
        flat_points(segs, upto - 1) + segs[upto - 1].points@
    }
}

/// `flat_points` only looks at the points of the first `upto` segments.
pub proof fn lemma_flat_points_same(s1: Seq<RoadSegment>, s2: Seq<RoadSegment>, upto: int)
    requires
        0 <= upto <= s1.len(),
        upto <= s2.len(),
        forall|j: int| 0 <= j < upto ==> (#[trigger] s1[j]).points@ == s2[j].points@,
    ensures
        flat_points(s1, upto) == flat_points(s2, upto),
    decreases upto,
{
    if upto > 0 {
        lemma_flat_points_same(s1, s2, upto - 1);
    }
}

/// Prefixes of the point list grow with the number of segments.
pub proof fn lemma_flat_points_mono(segs: Seq<RoadSegment>, i: int, j: int)
    requires
        0 <= i <= j <= segs.len(),
    ensures
        flat_points(segs, i).len() <= flat_points(segs, j).len(),
        flat_points(segs, i).is_prefix_of(flat_points(segs, j)),
    decreases j - i,
{
    if i < j {
        lemma_flat_points_mono(segs, i, j - 1);
        assert(flat_points(segs, j - 1).is_prefix_of(flat_points(segs, j)));
    }
}

/// Splits the links into segments: first every chain leaving a junction
/// (junctions in node order, their link ends in link order), then every
/// loop left over (in link order).
pub(crate) fn trace_segments(links: &Vec<RoadLink>, g: &LinkGraph) -> (res: (Vec<RoadSegment>, Ghost<Seq<Seq<int>>>))
    requires
        g.wf(links@),
        links@.len() <= 0x3fff_ffff,
    ensures
        segs_traced(links@, res.0@, res.1@),
        walks_cover(res.1@, links@.len() as int),
        loop_starts(links@, res.0@, res.1@),
        res.0@.len() <= links@.len(),
        flat_points(res.0@, res.0@.len() as int).len() == links@.len() + res.0@.len(),
        forall|i: int| 0 <= i < res.0@.len() ==> {
            &&& (#[trigger] res.0@[i]).conn_a@.len() == 0
            &&& res.0@[i].conn_b@.len() == 0
            &&& res.0@[i].links_offset == 0
        },
{
    let ghost ls = links@;
    let n = links.len();
    let mut visited: Vec<bool> = Vec::new();
    let mut x: usize = 0;
    while x < n
        invariant
            n == ls.len(),
            x <= n,
            visited@.len() == x,
            forall|y: int| 0 <= y < x ==> !(#[trigger] visited@[y]),
        decreases n - x,
    {
        visited.push(false);
        x = x + 1;
    }
    proof {
        lemma_count_unvisited_none(visited@);
        assert forall|v: (u32, u32)| !is_junction(ls, v) && !Set::<(u32, u32)>::empty().contains(v) implies #[trigger] balanced(ls, visited@, v) by {
            lemma_incident(ls, v);
        }
    }
    let mut segs: Vec<RoadSegment> = Vec::new();
    let ghost mut sls: Seq<Seq<int>> = Seq::empty();
    let nn = g.nodes.len();
    let mut t: usize = 0;
    while t < nn
        invariant
            ls == links@,
            n == ls.len(),
            n <= 0x3fff_ffff,
            nn == g.nodes@.len(),
            g.wf(ls),
            t <= nn,
            visited@.len() == n,
            settled(ls, visited@, Set::empty()),
            segs_traced(ls, segs@, sls),
            loop_starts(ls, segs@, sls),
            visited_is_walked(visited@, sls),
            segs@.len() + count_unvisited(visited@) <= n,
            flat_points(segs@, segs@.len() as int).len() + count_unvisited(visited@) == n + segs@.len(),
            forall|u: int, e: int| 0 <= u < t && g.junction@[u] && 0 <= e < g.adj@[u]@.len() ==> #[trigger] visited@[g.adj@[u]@[e].1 as int],
            forall|i: int| 0 <= i < segs@.len() ==> {
                &&& (#[trigger] segs@[i]).conn_a@.len() == 0
                &&& segs@[i].conn_b@.len() == 0
                &&& segs@[i].links_offset == 0
            },
        decreases nn - t,
    {
        if g.junction[t] {
            let deg = g.adj[t].len();
            let mut e: usize = 0;
            while e < deg
                invariant
                    ls == links@,
                    n == ls.len(),
                    n <= 0x3fff_ffff,
                    nn == g.nodes@.len(),
                    g.wf(ls),
                    t < nn,
                    g.junction@[t as int],
                    deg == g.adj@[t as int]@.len(),
                    e <= deg,
                    visited@.len() == n,
                    settled(ls, visited@, Set::empty()),
                    segs_traced(ls, segs@, sls),
                    loop_starts(ls, segs@, sls),
                    visited_is_walked(visited@, sls),
                    segs@.len() + count_unvisited(visited@) <= n,
            flat_points(segs@, segs@.len() as int).len() + count_unvisited(visited@) == n + segs@.len(),
                    forall|u: int, e2: int| 0 <= u < t && g.junction@[u] && 0 <= e2 < g.adj@[u]@.len() ==> #[trigger] visited@[g.adj@[u]@[e2].1 as int],
                    forall|e2: int| 0 <= e2 < e ==> #[trigger] visited@[g.adj@[t as int]@[e2].1 as int],
                    forall|i: int| 0 <= i < segs@.len() ==> {
                        &&& (#[trigger] segs@[i]).conn_a@.len() == 0
                        &&& segs@[i].conn_b@.len() == 0
                        &&& segs@[i].links_offset == 0
                    },
                decreases deg - e,
            {
                let l0 = g.adj[t][e].1;
                if !visited[l0] {
                    let ghost vis0 = visited@;
                    let (path, Ghost(plinks)) = follow_chain(links, g, &mut visited, t, e);
                    proof {
                        lemma_count_unvisited_bound(visited@);
                    }
                    let rtype = links[l0].road_type;
                    let plen = path.len();
                    let pa = path[0];
                    let pb = path[plen - 1];
                    let seg = RoadSegment {
                        a: pa,
                        b: pb,
                        points: path,
                        conn_a: Vec::new(),
                        conn_b: Vec::new(),
                        speed_mean: speed_for(rtype),
                        length: (plen - 1) as u32,
                        links_offset: 0,
                        road_type: rtype,
                    };
                    let ghost old_segs = segs@;
                    let ghost old_sls = sls;
                    proof {
                        assert(is_junction(ls, seg.a));
                        lemma_add_walk(ls, segs@, sls, vis0, visited@, seg, plinks);
                        sls = sls.push(plinks);
                    }
                    segs.push(seg);
                    proof {
                        lemma_flat_points_same(old_segs, segs@, old_segs.len() as int);
                        assert forall|i: int| 0 <= i < segs@.len() && !is_junction(ls, (#[trigger] segs@[i]).a) implies {
                            &&& ls[sls[i][0]].a == segs@[i].a
                            &&& segs@[i].points@[1] == ls[sls[i][0]].b
                            &&& forall|k: int| 0 <= k < sls[i].len() ==> sls[i][0] <= #[trigger] sls[i][k]
                        } by {
                            if i < old_segs.len() {
                                assert(segs@[i] == old_segs[i]);
                                assert(sls[i] == old_sls[i]);
                            }
                        }
                    }
                }
                e = e + 1;
            }
        }
        t = t + 1;
    }
    proof {
        assert forall|x: int| 0 <= x < n && !#[trigger] visited@[x] implies !is_junction(ls, ls[x].a) && !is_junction(ls, ls[x].b) by {
            let ta = g.ends@[x].0 as int;
            let tb = g.ends@[x].1 as int;
            lemma_incident(ls, ls[x].a);
            lemma_incident(ls, ls[x].b);
            assert(touches(ls[x], ls[x].a));
            assert(touches(ls[x], ls[x].b));
            if is_junction(ls, ls[x].a) {
                assert(g.junction@[ta]);
                let k = choose|k: int| 0 <= k < incident(ls, ls[x].a).len() && incident(ls, ls[x].a)[k] == x;
                assert(g.adj@[ta]@[k].1 == x);
                assert(visited@[g.adj@[ta]@[k].1 as int]);
            }
            if is_junction(ls, ls[x].b) {
                assert(g.junction@[tb]);
                let k = choose|k: int| 0 <= k < incident(ls, ls[x].b).len() && incident(ls, ls[x].b)[k] == x;
                assert(g.adj@[tb]@[k].1 == x);
                assert(visited@[g.adj@[tb]@[k].1 as int]);
            }
        }
    }
    let mut l: usize = 0;
    while l < n
        invariant
            ls == links@,
            n == ls.len(),
            n <= 0x3fff_ffff,
            g.wf(ls),
            l <= n,
            visited@.len() == n,
            settled(ls, visited@, Set::empty()),
            junctions_done(ls, visited@),
            segs_traced(ls, segs@, sls),
            loop_starts(ls, segs@, sls),
            visited_is_walked(visited@, sls),
            segs@.len() + count_unvisited(visited@) <= n,
            flat_points(segs@, segs@.len() as int).len() + count_unvisited(visited@) == n + segs@.len(),
            forall|y: int| 0 <= y < l ==> #[trigger] visited@[y],
            forall|i: int| 0 <= i < segs@.len() ==> {
                &&& (#[trigger] segs@[i]).conn_a@.len() == 0
                &&& segs@[i].conn_b@.len() == 0
                &&& segs@[i].links_offset == 0
            },
        decreases n - l,
    {
        if !visited[l] {
            let ghost vis0 = visited@;
            let (path, Ghost(plinks)) = follow_loop(links, g, &mut visited, l);
            proof {
                lemma_count_unvisited_bound(visited@);
            }
            let rtype = links[l].road_type;
            let plen = path.len();
            let pa = links[l].a;
            let seg = RoadSegment {
                a: pa,
                b: pa,
                points: path,
                conn_a: Vec::new(),
                conn_b: Vec::new(),
                speed_mean: speed_for(rtype),
                length: (plen - 1) as u32,
                links_offset: 0,
                road_type: rtype,
            };
            let ghost old_segs = segs@;
            let ghost old_sls = sls;
            proof {
                lemma_add_walk(ls, segs@, sls, vis0, visited@, seg, plinks);
                sls = sls.push(plinks);
                assert(connects(ls[plinks[0]], seg.points@[0], seg.points@[1]));
                assert forall|k: int| 0 <= k < plinks.len() implies plinks[0] <= #[trigger] plinks[k] by {
                    if plinks[k] < l {
                        assert(vis0[plinks[k]]);
                    }
                }
            }
            segs.push(seg);
            proof {
                lemma_flat_points_same(old_segs, segs@, old_segs.len() as int);
                assert forall|i: int| 0 <= i < segs@.len() && !is_junction(ls, (#[trigger] segs@[i]).a) implies {
                    &&& ls[sls[i][0]].a == segs@[i].a
                    &&& segs@[i].points@[1] == ls[sls[i][0]].b
                    &&& forall|k: int| 0 <= k < sls[i].len() ==> sls[i][0] <= #[trigger] sls[i][k]
                } by {
                    if i < old_segs.len() {
                        assert(segs@[i] == old_segs[i]);
                        assert(sls[i] == old_sls[i]);
                    }
                }
            }
        }
        l = l + 1;
    }
    proof {
        assert forall|x: int| 0 <= x < n implies #[trigger] walked(sls, x) by {
            assert(visited@[x]);
        }
        lemma_count_unvisited_all(visited@);
    }
    (segs, Ghost(sls))
}

} // verus!
