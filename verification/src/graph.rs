use vstd::prelude::*;
use crate::keyed::{key_sorted, key_split, upsert_by, find_by, lemma_upsert_sorted, lemma_find_sorted, lemma_find_none, lemma_find_after_upsert,
    lemma_upsert_elems};
use crate::model::{manhattan, Coordinates, RouteLeg, RoutePoint, Timestamp, VesselId};
use crate::sort::{pair_row, pair_rows};

verus! {

/// A node of the route graph: a channel code and a cell of about a kilometre.
#[derive(Debug, Clone, Copy, PartialEq, Eq, PartialOrd, Ord, Hash, Structural)]
pub struct NodeId(pub u32);

/// A place that routes pass, with the shallowest depth reported there.
#[derive(Debug, Clone, Copy, PartialEq, Eq, Structural)]
pub struct RouteNode {
    pub id: NodeId,
    pub position: Coordinates,
    pub min_depth_cm: u16,
    pub channel_code: u16,
}

/// One stretch of a vessel's route between two nodes.
#[derive(Debug, Clone, Copy, PartialEq, Eq, Structural)]
pub struct RouteEdge {
    pub from: NodeId,
    pub to: NodeId,
    pub vessel: VesselId,
    pub sequence: u16,
    pub eta_start: u64,
    pub eta_end: u64,
    pub distance_hint: u32,
}

/// The nodes, kept in ascending id order with one node per id, and the edges in the order
/// they were added.
#[derive(Debug, Clone)]
pub struct RouteGraph {
    pub nodes: Vec<RouteNode>,
    pub edges: Vec<RouteEdge>,
}

/// Nodes are found and ordered by their id.
pub open spec fn node_key() -> spec_fn(RouteNode) -> int {
    |n: RouteNode| n.id.0 as int
}

/// Vessels are ordered by their number.
pub open spec fn vessel_key() -> spec_fn(VesselId) -> int {
    |v: VesselId| v.0 as int
}

/// One coordinate in units of 1e-3 degree (the quotient truncated toward zero), its low
/// twelve bits.
pub open spec fn axis_cell_spec(v: i32) -> u32 {
    let q: int = if v >= 0 { v / 10_000 } else { -((-v) / 10_000) };
    ((q as i64) & 0x0fff) as u32
}

/// The node of a position on a channel: the channel code in the top byte, then the latitude
/// cell and the longitude cell, twelve bits each.
pub open spec fn quantized(position: Coordinates, channel_code: u16) -> NodeId {
    NodeId(((channel_code as u32) << 24u32) | (axis_cell_spec(position.lat_e7) << 12u32) | axis_cell_spec(position.lon_e7))
}

/// The low twelve bits of a coordinate's cell.
fn axis_cell(v: i32) -> (c: u32)
    ensures c == axis_cell_spec(v),
{
    let w = v as i64;
    let q: i64 = if w >= 0 {
        ((w as u64) / 10_000) as i64
    } else {
        -((((0 - w) as u64) / 10_000) as i64)
    };
    proof {
        let qs: int = if v >= 0 { v / 10_000 } else { -((-v) / 10_000) };
        assert(q as int == qs);
        assert((qs as i64) == q);
    }
    (q & 0x0fff) as u32
}

/// The node of a position on a channel.
pub fn quantized_node(position: Coordinates, channel_code: u16) -> (id: NodeId)
    ensures id == quantized(position, channel_code),
{
    let lat = axis_cell(position.lat_e7);
    let lon = axis_cell(position.lon_e7);
    NodeId(((channel_code as u32) << 24u32) | (lat << 12u32) | lon)
}

/// The smaller of two depths.
pub open spec fn min16(a: u16, b: u16) -> u16 {
    if a <= b { a } else { b }
}

/// Recording a point of a channel: the node for its position, new with the point's position
/// and depth, or the one already there with the shallower of its depth and the point's.
pub open spec fn node_for(nodes: Seq<RouteNode>, channel_code: u16, point: RoutePoint) -> (Seq<RouteNode>, NodeId) {
    let id = quantized(point.position, channel_code);
    let node = match find_by(nodes, id.0 as int, node_key()) {
        Some(n) => RouteNode { id: n.id, position: n.position, min_depth_cm: min16(n.min_depth_cm, point.depth_cm), channel_code: n.channel_code },
        None => RouteNode { id, position: point.position, min_depth_cm: point.depth_cm, channel_code },
    };
    (upsert_by(nodes, node, node_key()), id)
}

/// The Manhattan distance between two nodes' positions; 0 where either is unknown.
pub open spec fn node_distance(nodes: Seq<RouteNode>, from: NodeId, to: NodeId) -> u32 {
    match (find_by(nodes, from.0 as int, node_key()), find_by(nodes, to.0 as int, node_key())) {
        (Some(a), Some(b)) => manhattan(a.position, b.position),
        _ => 0,
    }
}

/// The edge of leg `r` from `from` to `to`, reached at `eta_end`.
pub open spec fn leg_edge(r: RouteLeg, from: NodeId, to: NodeId, eta_end: u64, nodes: Seq<RouteNode>) -> RouteEdge {
    RouteEdge {
        from,
        to,
        vessel: r.vessel,
        sequence: r.sequence,
        eta_start: r.eta_start.0,
        eta_end,
        distance_hint: node_distance(nodes, from, to),
    }
}

/// The point standing for a leg's start or end: no speed limit and no depth limit.
pub open spec fn end_point(position: Coordinates, eta: Timestamp) -> RoutePoint {
    RoutePoint { position, eta, speed_limit_tenths: 0, depth_cm: u16::MAX }
}

/// Walking the points of leg `r` from node `prev`: each point gets its node and an edge to it
/// from the node before.
pub open spec fn walk_points(nodes: Seq<RouteNode>, edges: Seq<RouteEdge>, prev: NodeId, r: RouteLeg, pts: Seq<RoutePoint>)
    -> (Seq<RouteNode>, Seq<RouteEdge>, NodeId)
    decreases pts.len(),
{
    if pts.len() == 0 {
        (nodes, edges, prev)
    } else {
        let (n0, e0, p0) = walk_points(nodes, edges, prev, r, pts.drop_last());
        let (n1, next) = node_for(n0, r.channel_code, pts.last());
        (n1, e0.push(leg_edge(r, p0, next, pts.last().eta.0, n1)), next)
    }
}

/// Adding a leg: its start, its points and its end become nodes, and consecutive ones are
/// joined by edges.
pub open spec fn add_route_spec(nodes: Seq<RouteNode>, edges: Seq<RouteEdge>, r: RouteLeg) -> (Seq<RouteNode>, Seq<RouteEdge>) {
    let (n0, first) = node_for(nodes, r.channel_code, end_point(r.from, r.eta_start));
    let (n1, e1, last) = walk_points(n0, edges, first, r, r.points@);
    let (n2, term) = node_for(n1, r.channel_code, end_point(r.to, r.eta_end));
    (n2, e1.push(leg_edge(r, last, term, r.eta_end.0, n2)))
}

/// The edges of leg `r` link up: each one starts where the one before ends.
pub open spec fn linked(es: Seq<RouteEdge>, b: int, r: RouteLeg) -> bool {
    &&& forall|k: int, j: int| b <= k && j == k + 1 && j < es.len() ==> (#[trigger] es[k]).to == (#[trigger] es[j]).from
    &&& forall|k: int| b <= k < es.len() ==> (#[trigger] es[k]).vessel == r.vessel && es[k].sequence == r.sequence
}

/// Walking points appends one edge per point, ending at that point's node, the first one
/// starting at `prev`, each starting where the one before ends, and leaves the edges before
/// alone; the walk ends at the last point's node, or at `prev` when there is none.
proof fn lemma_walk_path(nodes: Seq<RouteNode>, edges: Seq<RouteEdge>, prev: NodeId, r: RouteLeg, pts: Seq<RoutePoint>)
    ensures ({
        let (n1, e1, last) = walk_points(nodes, edges, prev, r, pts);
        let b = edges.len() as int;
        &&& e1.len() == b + pts.len()
        &&& e1.take(b) == edges
        &&& linked(e1, b, r)
        &&& pts.len() > 0 ==> e1[b].from == prev
        &&& forall|k: int| 0 <= k < pts.len() ==> (#[trigger] e1[b + k]).to == quantized(pts[k].position, r.channel_code)
        &&& last == if pts.len() == 0 { prev } else { quantized(pts.last().position, r.channel_code) }
    }),
    decreases pts.len(),
{
    let b = edges.len() as int;
    if pts.len() == 0 {
        assert(edges.take(b) =~= edges);
    } else {
        let q = pts.drop_last();
        lemma_walk_path(nodes, edges, prev, r, q);
        let (n0, e0, p0) = walk_points(nodes, edges, prev, r, q);
        let (n1, next) = node_for(n0, r.channel_code, pts.last());
        let e1 = e0.push(leg_edge(r, p0, next, pts.last().eta.0, n1));
        assert(e1.take(b) =~= e0.take(b));
        assert forall|k: int, j: int| b <= k && j == k + 1 && j < e1.len() implies (#[trigger] e1[k]).to == (#[trigger] e1[j]).from by {
            assert(e1[k] == e0[k]);
            if j < e0.len() {
                assert(e1[j] == e0[j]);
            } else {
                if q.len() == 0 {
                    assert(false);
                } else {
                    assert(e0[b + (q.len() - 1)].to == quantized(q[q.len() - 1].position, r.channel_code));
                }
            }
        }
        assert forall|k: int| b <= k < e1.len() implies (#[trigger] e1[k]).vessel == r.vessel && e1[k].sequence == r.sequence by {
            if k < e0.len() { assert(e1[k] == e0[k]); }
        }
        assert forall|k: int| 0 <= k < pts.len() implies (#[trigger] e1[b + k]).to == quantized(pts[k].position, r.channel_code) by {
            if k < q.len() { assert(e1[b + k] == e0[b + k]); assert(q[k] == pts[k]); }
        }
        if q.len() > 0 { assert(e1[b] == e0[b]); }
    }
}

/// Adding a leg appends one edge more than the leg has points and leaves the edges before
/// alone; the new edges form a path of the leg's vessel and sequence number from the node of
/// the leg's start to the node of its end, each starting where the one before ends.
pub proof fn lemma_add_route_path(nodes: Seq<RouteNode>, edges: Seq<RouteEdge>, r: RouteLeg)
    ensures ({
        let e2 = add_route_spec(nodes, edges, r).1;
        let b = edges.len() as int;
        let m = r.points@.len() as int;
        &&& e2.len() == b + m + 1
        &&& e2.take(b) == edges
        &&& e2[b].from == quantized(r.from, r.channel_code)
        &&& e2[b + m].to == quantized(r.to, r.channel_code)
        &&& linked(e2, b, r)
    }),
{
    let b = edges.len() as int;
    let (n0, first) = node_for(nodes, r.channel_code, end_point(r.from, r.eta_start));
    lemma_walk_path(n0, edges, first, r, r.points@);
    let (n1, e1, last) = walk_points(n0, edges, first, r, r.points@);
    let (n2, term) = node_for(n1, r.channel_code, end_point(r.to, r.eta_end));
    let e2 = e1.push(leg_edge(r, last, term, r.eta_end.0, n2));
    assert(e2.take(b) =~= e1.take(b));
    let m = r.points@.len() as int;
    assert forall|k: int, j: int| b <= k && j == k + 1 && j < e2.len() implies (#[trigger] e2[k]).to == (#[trigger] e2[j]).from by {
        assert(e2[k] == e1[k]);
        if j < e1.len() {
            assert(e2[j] == e1[j]);
        } else {
            assert(e1[b + (m - 1)].to == quantized(r.points@[m - 1].position, r.channel_code));
        }
    }
    assert forall|k: int| b <= k < e2.len() implies (#[trigger] e2[k]).vessel == r.vessel && e2[k].sequence == r.sequence by {
        if k < e1.len() { assert(e2[k] == e1[k]); }
    }
    if m > 0 { assert(e2[b] == e1[b]); }
}

/// `b`'s nodes include every node of `a`, each no deeper than before.
pub open spec fn nodes_kept(a: Seq<RouteNode>, b: Seq<RouteNode>) -> bool {
    forall|k: int| #[trigger] find_by(a, k, node_key()) is Some ==> find_by(b, k, node_key()) is Some
        && find_by(b, k, node_key())->Some_0.min_depth_cm <= find_by(a, k, node_key())->Some_0.min_depth_cm
}

/// Recording a point keeps the nodes in id order, keeps every node (none deeper), and leaves
/// a node under the point's id.
proof fn lemma_node_for_keeps(nodes: Seq<RouteNode>, channel_code: u16, point: RoutePoint)
    requires key_sorted(nodes, node_key()),
    ensures ({
        let (n1, id) = node_for(nodes, channel_code, point);
        &&& key_sorted(n1, node_key())
        &&& find_by(n1, id.0 as int, node_key()) is Some
        &&& nodes_kept(nodes, n1)
    }),
{
    let id = quantized(point.position, channel_code);
    let found = find_by(nodes, id.0 as int, node_key());
    lemma_find_none(nodes, id.0 as int, node_key());
    let node = match found {
        Some(n) => RouteNode { id: n.id, position: n.position, min_depth_cm: min16(n.min_depth_cm, point.depth_cm), channel_code: n.channel_code },
        None => RouteNode { id, position: point.position, min_depth_cm: point.depth_cm, channel_code },
    };
    assert(node_key()(node) == id.0 as int);
    let n1 = upsert_by(nodes, node, node_key());
    lemma_find_after_upsert(nodes, node, node_key(), id.0 as int);
    assert forall|k: int| #[trigger] find_by(nodes, k, node_key()) is Some implies find_by(n1, k, node_key()) is Some
        && find_by(n1, k, node_key())->Some_0.min_depth_cm <= find_by(nodes, k, node_key())->Some_0.min_depth_cm by {
        lemma_find_after_upsert(nodes, node, node_key(), k);
    }
}

/// Walking points keeps the nodes in id order and keeps every node (none deeper); every new
/// edge starts and ends at a node of the graph, given that `prev` is one.
proof fn lemma_walk_nodes(nodes: Seq<RouteNode>, edges: Seq<RouteEdge>, prev: NodeId, r: RouteLeg, pts: Seq<RoutePoint>)
    requires
        key_sorted(nodes, node_key()),
        find_by(nodes, prev.0 as int, node_key()) is Some,
    ensures ({
        let (n1, e1, last) = walk_points(nodes, edges, prev, r, pts);
        &&& key_sorted(n1, node_key())
        &&& nodes_kept(nodes, n1)
        &&& find_by(n1, last.0 as int, node_key()) is Some
        &&& forall|k: int| edges.len() <= k < e1.len() ==> find_by(n1, (#[trigger] e1[k]).from.0 as int, node_key()) is Some
            && find_by(n1, e1[k].to.0 as int, node_key()) is Some
    }),
    decreases pts.len(),
{
    if pts.len() > 0 {
        let q = pts.drop_last();
        lemma_walk_nodes(nodes, edges, prev, r, q);
        lemma_walk_path(nodes, edges, prev, r, q);
        let (n0, e0, p0) = walk_points(nodes, edges, prev, r, q);
        lemma_node_for_keeps(n0, r.channel_code, pts.last());
        let (n1, next) = node_for(n0, r.channel_code, pts.last());
        let e1 = e0.push(leg_edge(r, p0, next, pts.last().eta.0, n1));
        assert forall|k: int| #[trigger] find_by(nodes, k, node_key()) is Some implies find_by(n1, k, node_key()) is Some
            && find_by(n1, k, node_key())->Some_0.min_depth_cm <= find_by(nodes, k, node_key())->Some_0.min_depth_cm by {
            assert(find_by(n0, k, node_key()) is Some);
        }
        assert forall|k: int| edges.len() <= k < e1.len() implies find_by(n1, (#[trigger] e1[k]).from.0 as int, node_key()) is Some
            && find_by(n1, e1[k].to.0 as int, node_key()) is Some by {
            if k < e0.len() {
                assert(e1[k] == e0[k]);
                assert(find_by(n0, e0[k].from.0 as int, node_key()) is Some);
                assert(find_by(n0, e0[k].to.0 as int, node_key()) is Some);
            } else {
                assert(find_by(n0, p0.0 as int, node_key()) is Some);
            }
        }
    }
}

/// Adding a leg to a graph keeps its nodes in id order and keeps every node, none deeper than
/// before; every new edge starts and ends at a node of the graph.
pub proof fn lemma_add_route_nodes(nodes: Seq<RouteNode>, edges: Seq<RouteEdge>, r: RouteLeg)
    requires key_sorted(nodes, node_key()),
    ensures ({
        let (n2, e2) = add_route_spec(nodes, edges, r);
        &&& key_sorted(n2, node_key())
        &&& nodes_kept(nodes, n2)
        &&& forall|k: int| edges.len() <= k < e2.len() ==> find_by(n2, (#[trigger] e2[k]).from.0 as int, node_key()) is Some
            && find_by(n2, e2[k].to.0 as int, node_key()) is Some
    }),
{
    lemma_node_for_keeps(nodes, r.channel_code, end_point(r.from, r.eta_start));
    let (n0, first) = node_for(nodes, r.channel_code, end_point(r.from, r.eta_start));
    lemma_walk_nodes(n0, edges, first, r, r.points@);
    let (n1, e1, last) = walk_points(n0, edges, first, r, r.points@);
    lemma_node_for_keeps(n1, r.channel_code, end_point(r.to, r.eta_end));
    let (n2, term) = node_for(n1, r.channel_code, end_point(r.to, r.eta_end));
    let e2 = e1.push(leg_edge(r, last, term, r.eta_end.0, n2));
    assert forall|k: int| #[trigger] find_by(nodes, k, node_key()) is Some implies find_by(n2, k, node_key()) is Some
        && find_by(n2, k, node_key())->Some_0.min_depth_cm <= find_by(nodes, k, node_key())->Some_0.min_depth_cm by {
        assert(find_by(n0, k, node_key()) is Some);
        assert(find_by(n1, k, node_key()) is Some);
    }
    assert forall|k: int| edges.len() <= k < e2.len() implies find_by(n2, (#[trigger] e2[k]).from.0 as int, node_key()) is Some
        && find_by(n2, e2[k].to.0 as int, node_key()) is Some by {
        if k < e1.len() {
            assert(e2[k] == e1[k]);
            assert(find_by(n1, e1[k].from.0 as int, node_key()) is Some);
            assert(find_by(n1, e1[k].to.0 as int, node_key()) is Some);
        } else {
            assert(find_by(n1, last.0 as int, node_key()) is Some);
        }
    }
}

/// The graph of the legs, added in order.
pub open spec fn graph_of_routes(routes: Seq<RouteLeg>) -> (Seq<RouteNode>, Seq<RouteEdge>)
    decreases routes.len(),
{
    if routes.len() == 0 {
        (Seq::empty(), Seq::empty())
    } else {
        let (n, e) = graph_of_routes(routes.drop_last());
        add_route_spec(n, e, routes.last())
    }
}

/// The vessels with an edge starting or ending at `node`, each once, by ascending number.
pub open spec fn through_spec(edges: Seq<RouteEdge>, node: NodeId) -> Seq<VesselId>
    decreases edges.len(),
{
    if edges.len() == 0 {
        Seq::empty()
    } else {
        let prev = through_spec(edges.drop_last(), node);
        let e = edges.last();
        if e.from == node || e.to == node { upsert_by(prev, e.vessel, vessel_key()) } else { prev }
    }
}

/// The nodes, in order, with at least `min_vessels` vessels passing.
pub open spec fn choke_spec(nodes: Seq<RouteNode>, edges: Seq<RouteEdge>, min_vessels: usize) -> Seq<NodeId>
    decreases nodes.len(),
{
    if nodes.len() == 0 {
        Seq::empty()
    } else {
        let prev = choke_spec(nodes.drop_last(), edges, min_vessels);
        if through_spec(edges, nodes.last().id).len() >= min_vessels { prev.push(nodes.last().id) } else { prev }
    }
}

/// The nodes, in order, shallower than the draught plus 1 m (saturated at `u16::MAX`).
pub open spec fn shallow_spec(nodes: Seq<RouteNode>, draught_cm: u16) -> Seq<NodeId>
    decreases nodes.len(),
{
    if nodes.len() == 0 {
        Seq::empty()
    } else {
        let prev = shallow_spec(nodes.drop_last(), draught_cm);
        let limit: int = if draught_cm + 100 > u16::MAX { u16::MAX as int } else { draught_cm + 100 };
        if nodes.last().min_depth_cm < limit { prev.push(nodes.last().id) } else { prev }
    }
}

/// Two edges run the same stretch in opposite directions, for different vessels, at
/// overlapping times.
pub open spec fn crossing_at(edges: Seq<RouteEdge>) -> spec_fn(int, int) -> bool {
    |l: int, r: int| {
        let a = edges[l];
        let b = edges[r];
        a.vessel != b.vessel && a.from == b.to && a.to == b.from && a.eta_start < b.eta_end && b.eta_start < a.eta_end
    }
}

impl RouteGraph {
    /// One node per id, in ascending id order.
    pub open spec fn wf(&self) -> bool {
        key_sorted(self.nodes@, node_key())
    }

    pub fn new() -> (g: Self)
        ensures g.wf(), g.nodes@ == Seq::<RouteNode>::empty(), g.edges@ == Seq::<RouteEdge>::empty(),
    {
        RouteGraph { nodes: Vec::new(), edges: Vec::new() }
    }

    /// The graph of the legs, added in order.
    pub fn from_routes(routes: &[RouteLeg]) -> (g: Self)
        ensures g.wf(), (g.nodes@, g.edges@) == graph_of_routes(routes@),
    {
        let mut graph = RouteGraph::new();
        let mut i: usize = 0;
        while i < routes.len()
            invariant
                0 <= i <= routes@.len(),
                graph.wf(),
                (graph.nodes@, graph.edges@) == graph_of_routes(routes@.take(i as int)),
            decreases routes@.len() - i,
        {
            proof { assert(routes@.take(i + 1).drop_last() =~= routes@.take(i as int)); }
            graph.add_route(&routes[i]);
            i = i + 1;
        }
        proof { assert(routes@.take(i as int) =~= routes@); }
        graph
    }

    /// Adds a leg: its start, its points and its end become nodes, joined in order by edges.
    pub fn add_route(&mut self, route: &RouteLeg)
        requires old(self).wf(),
        ensures final(self).wf(), (final(self).nodes@, final(self).edges@) == add_route_spec(old(self).nodes@, old(self).edges@, *route),
    {
        let mut previous = self.node_for_point(route.channel_code, &RoutePoint {
            position: route.from,
            eta: route.eta_start,
            speed_limit_tenths: 0,
            depth_cm: u16::MAX,
        });
        let ghost n0 = self.nodes@;
        let ghost e0 = self.edges@;
        let ghost first = previous;
        let mut i: usize = 0;
        while i < route.points.len()
            invariant
                0 <= i <= route.points@.len(),
                self.wf(),
                walk_points(n0, e0, first, *route, route.points@.take(i as int)) == (self.nodes@, self.edges@, previous),
            decreases route.points@.len() - i,
        {
            proof { assert(route.points@.take(i + 1).drop_last() =~= route.points@.take(i as int)); }
            let point = route.points[i];
            let next = self.node_for_point(route.channel_code, &point);
            let distance_hint = self.distance(previous, next);
            self.edges.push(RouteEdge {
                from: previous,
                to: next,
                vessel: route.vessel,
                sequence: route.sequence,
                eta_start: route.eta_start.0,
                eta_end: point.eta.0,
                distance_hint,
            });
            previous = next;
            i = i + 1;
        }
        proof { assert(route.points@.take(i as int) =~= route.points@); }
        let terminal = self.node_for_point(route.channel_code, &RoutePoint {
            position: route.to,
            eta: route.eta_end,
            speed_limit_tenths: 0,
            depth_cm: u16::MAX,
        });
        let distance_hint = self.distance(previous, terminal);
        self.edges.push(RouteEdge {
            from: previous,
            to: terminal,
            vessel: route.vessel,
            sequence: route.sequence,
            eta_start: route.eta_start.0,
            eta_end: route.eta_end.0,
            distance_hint,
        });
    }

    /// Records a point of a channel and gives its node.
    fn node_for_point(&mut self, channel_code: u16, point: &RoutePoint) -> (id: NodeId)
        requires old(self).wf(),
        ensures
            final(self).wf(),
            (final(self).nodes@, id) == node_for(old(self).nodes@, channel_code, *point),
            final(self).edges@ == old(self).edges@,
    {
        let id = quantized_node(point.position, channel_code);
        let ghost s = self.nodes@;
        let mut p: usize = 0;
        while p < self.nodes.len() && self.nodes[p].id.0 < id.0
            invariant
                0 <= p <= self.nodes@.len(),
                self.nodes@ == s,
                key_sorted(s, node_key()),
                forall|j: int| 0 <= j < p ==> (#[trigger] s[j]).id.0 < id.0,
            decreases self.nodes@.len() - p,
        {
            p = p + 1;
        }
        proof {
            assert forall|j: int| p <= j < s.len() implies (#[trigger] s[j]).id.0 >= id.0 by {
                if j > p { assert(node_key()(s[p as int]) < node_key()(s[j])); }
            }
            assert(key_split(s, id.0 as int, p as int, node_key()));
        }
        if p < self.nodes.len() && self.nodes[p].id.0 == id.0 {
            let n = self.nodes[p];
            let depth = if n.min_depth_cm <= point.depth_cm { n.min_depth_cm } else { point.depth_cm };
            let node = RouteNode { id: n.id, position: n.position, min_depth_cm: depth, channel_code: n.channel_code };
            proof {
                lemma_find_sorted(s, id.0 as int, node_key(), p as int);
                lemma_upsert_sorted(s, node, node_key(), p as int);
            }
            self.nodes.set(p, node);
        } else {
            let node = RouteNode { id, position: point.position, min_depth_cm: point.depth_cm, channel_code };
            proof {
                lemma_find_none(s, id.0 as int, node_key());
                if find_by(s, id.0 as int, node_key()) is Some {
                    let j = choose|j: int| 0 <= j < s.len() && node_key()(#[trigger] s[j]) == id.0 as int;
                    if j < p { assert(s[j].id.0 < id.0); } else if j > p { assert(node_key()(s[p as int]) < node_key()(s[j])); }
                }
                lemma_upsert_sorted(s, node, node_key(), p as int);
            }
            self.nodes.insert(p, node);
        }
        id
    }

    /// Where the node with id `id` stands, as `find_by` finds it.
    fn node_index(&self, id: NodeId) -> (r: Option<usize>)
        ensures
            match r {
                Some(i) => i < self.nodes@.len() && find_by(self.nodes@, id.0 as int, node_key()) == Some(self.nodes@[i as int]),
                None => find_by(self.nodes@, id.0 as int, node_key()) is None,
            },
    {
        let mut j: usize = self.nodes.len();
        proof { assert(self.nodes@.take(j as int) =~= self.nodes@); }
        while j > 0
            invariant
                j <= self.nodes@.len(),
                find_by(self.nodes@, id.0 as int, node_key()) == find_by(self.nodes@.take(j as int), id.0 as int, node_key()),
            decreases j,
        {
            let t = Ghost(self.nodes@.take(j as int));
            proof {
                assert(t@.last() == self.nodes@[j - 1]);
                assert(t@.drop_last() =~= self.nodes@.take(j - 1));
            }
            if self.nodes[j - 1].id.0 == id.0 {
                return Some(j - 1);
            }
            j = j - 1;
        }
        None
    }

    /// The Manhattan distance between two nodes' positions; 0 where either is unknown.
    pub fn distance(&self, from: NodeId, to: NodeId) -> (d: u32)
        ensures d == node_distance(self.nodes@, from, to),
    {
        match (self.node_index(from), self.node_index(to)) {
            (Some(a), Some(b)) => self.nodes[a].position.manhattan_to(self.nodes[b].position),
            _ => 0,
        }
    }

    /// The vessels with an edge starting or ending at `node`, each once, by ascending number.
    pub fn vessels_through(&self, node: NodeId) -> (r: Vec<VesselId>)
        ensures
            r@ == through_spec(self.edges@, node),
            key_sorted(r@, vessel_key()),
            forall|v: VesselId| r@.contains(v) <==> exists|i: int| 0 <= i < self.edges@.len()
                && (#[trigger] self.edges@[i]).vessel == v && (self.edges@[i].from == node || self.edges@[i].to == node),
    {
        let mut vessels: Vec<VesselId> = Vec::new();
        let mut i: usize = 0;
        while i < self.edges.len()
            invariant
                0 <= i <= self.edges@.len(),
                vessels@ == through_spec(self.edges@.take(i as int), node),
            decreases self.edges@.len() - i,
        {
            proof {
                assert(self.edges@.take(i + 1).drop_last() =~= self.edges@.take(i as int));
                lemma_through(self.edges@.take(i as int), node);
            }
            let edge = self.edges[i];
            if edge.from == node || edge.to == node {
                insert_vessel(&mut vessels, edge.vessel);
            }
            i = i + 1;
        }
        proof {
            assert(self.edges@.take(i as int) =~= self.edges@);
            lemma_through(self.edges@, node);
        }
        vessels
    }

    /// The nodes, in id order, that at least `min_vessels` vessels pass.
    pub fn choke_points(&self, min_vessels: usize) -> (r: Vec<NodeId>)
        ensures r@ == choke_spec(self.nodes@, self.edges@, min_vessels),
    {
        let mut out: Vec<NodeId> = Vec::new();
        let mut i: usize = 0;
        while i < self.nodes.len()
            invariant
                0 <= i <= self.nodes@.len(),
                out@ == choke_spec(self.nodes@.take(i as int), self.edges@, min_vessels),
            decreases self.nodes@.len() - i,
        {
            proof { assert(self.nodes@.take(i + 1).drop_last() =~= self.nodes@.take(i as int)); }
            let id = self.nodes[i].id;
            if self.vessels_through(id).len() >= min_vessels {
                out.push(id);
            }
            i = i + 1;
        }
        proof { assert(self.nodes@.take(i as int) =~= self.nodes@); }
        out
    }

    /// The pairs of edges that run the same stretch in opposite directions for different
    /// vessels at overlapping times, by first and then second index.
    pub fn crossing_edges(&self) -> (r: Vec<(usize, usize)>)
        ensures r@ == pair_rows(self.edges@.len() as int, self.edges@.len() as int, crossing_at(self.edges@)),
    {
        let n = self.edges.len();
        let ghost p = crossing_at(self.edges@);
        let mut out: Vec<(usize, usize)> = Vec::new();
        let mut left: usize = 0;
        while left < n
            invariant
                0 <= left <= n,
                n == self.edges@.len(),
                p == crossing_at(self.edges@),
                out@ == pair_rows(left as int, n as int, p),
            decreases n - left,
        {
            let mut right: usize = left + 1;
            let ghost start = out@;
            proof { assert(start + pair_row(left as int, right as int, p) =~= start); }
            while right < n
                invariant
                    left < n,
                    left + 1 <= right <= n,
                    n == self.edges@.len(),
                    p == crossing_at(self.edges@),
                    start == pair_rows(left as int, n as int, p),
                    out@ == start + pair_row(left as int, right as int, p),
                decreases n - right,
            {
                let a = self.edges[left];
                let b = self.edges[right];
                if a.vessel != b.vessel && a.from == b.to && a.to == b.from && a.eta_start < b.eta_end
                    && b.eta_start < a.eta_end {
                    out.push((left, right));
                }
                right = right + 1;
                proof { assert(out@ =~= start + pair_row(left as int, right as int, p)); }
            }
            left = left + 1;
        }
        out
    }

    /// The nodes, in id order, shallower than the draught plus 1 m.
    pub fn low_depth_nodes(&self, draught_cm: u16) -> (r: Vec<NodeId>)
        ensures r@ == shallow_spec(self.nodes@, draught_cm),
    {
        let limit = draught_cm.saturating_add(100);
        let mut out: Vec<NodeId> = Vec::new();
        let mut i: usize = 0;
        while i < self.nodes.len()
            invariant
                0 <= i <= self.nodes@.len(),
                limit == (if draught_cm + 100 > u16::MAX { u16::MAX as int } else { draught_cm + 100 }),
                out@ == shallow_spec(self.nodes@.take(i as int), draught_cm),
            decreases self.nodes@.len() - i,
        {
            proof { assert(self.nodes@.take(i + 1).drop_last() =~= self.nodes@.take(i as int)); }
            let node = self.nodes[i];
            if node.min_depth_cm < limit {
                out.push(node.id);
            }
            i = i + 1;
        }
        proof { assert(self.nodes@.take(i as int) =~= self.nodes@); }
        out
    }
}

impl Default for RouteGraph {
    fn default() -> (g: Self)
        ensures g.wf(), g.nodes@ == Seq::<RouteNode>::empty(), g.edges@ == Seq::<RouteEdge>::empty(),
    {
        RouteGraph::new()
    }
}

/// Adds a vessel to an ascending list of distinct vessels.
fn insert_vessel(out: &mut Vec<VesselId>, v: VesselId)
    requires key_sorted(old(out)@, vessel_key()),
    ensures final(out)@ == upsert_by(old(out)@, v, vessel_key()),
{
    let ghost s = out@;
    let mut p: usize = 0;
    while p < out.len() && out[p].0 < v.0
        invariant
            0 <= p <= out@.len(),
            out@ == s,
            key_sorted(s, vessel_key()),
            forall|j: int| 0 <= j < p ==> (#[trigger] s[j]).0 < v.0,
        decreases out@.len() - p,
    {
        p = p + 1;
    }
    proof {
        assert forall|j: int| p <= j < s.len() implies (#[trigger] s[j]).0 >= v.0 by {
            if j > p { assert(vessel_key()(s[p as int]) < vessel_key()(s[j])); }
        }
        assert(key_split(s, v.0 as int, p as int, vessel_key()));
        lemma_upsert_sorted(s, v, vessel_key(), p as int);
    }
    if p < out.len() && out[p].0 == v.0 {
        out.set(p, v);
    } else {
        out.insert(p, v);
    }
}

/// The vessels through a node are ascending and distinct, and are exactly those with an edge
/// starting or ending there.
pub proof fn lemma_through(edges: Seq<RouteEdge>, node: NodeId)
    ensures
        key_sorted(through_spec(edges, node), vessel_key()),
        forall|v: VesselId| through_spec(edges, node).contains(v) <==> exists|i: int| 0 <= i < edges.len()
            && (#[trigger] edges[i]).vessel == v && (edges[i].from == node || edges[i].to == node),
    decreases edges.len(),
{
    if edges.len() > 0 {
        let d = edges.drop_last();
        let prev = through_spec(d, node);
        lemma_through(d, node);
        let e = edges.last();
        let r = through_spec(edges, node);
        if e.from == node || e.to == node {
            lemma_find_after_upsert_vessel(prev, e.vessel);
            lemma_upsert_elems(prev, e.vessel, vessel_key());
        }
        assert forall|v: VesselId| r.contains(v) <==> exists|i: int| 0 <= i < edges.len()
            && (#[trigger] edges[i]).vessel == v && (edges[i].from == node || edges[i].to == node) by {
            if r.contains(v) {
                if (e.from == node || e.to == node) && v == e.vessel {
                    assert(edges[edges.len() - 1] == e);
                } else {
                    assert(prev.contains(v));
                    let i = choose|i: int| 0 <= i < d.len() && (#[trigger] d[i]).vessel == v && (d[i].from == node || d[i].to == node);
                    assert(edges[i] == d[i]);
                }
            }
            if exists|i: int| 0 <= i < edges.len() && (#[trigger] edges[i]).vessel == v && (edges[i].from == node || edges[i].to == node) {
                let i = choose|i: int| 0 <= i < edges.len() && (#[trigger] edges[i]).vessel == v && (edges[i].from == node || edges[i].to == node);
                if i < d.len() {
                    assert(d[i] == edges[i]);
                    assert(prev.contains(v));
                } else {
                    assert(edges[i] == e);
                }
            }
        }
    }
}

/// A vessel written into an ascending list is there afterwards, and so is each vessel that was.
proof fn lemma_find_after_upsert_vessel(s: Seq<VesselId>, v: VesselId)
    requires key_sorted(s, vessel_key()),
    ensures
        key_sorted(upsert_by(s, v, vessel_key()), vessel_key()),
        upsert_by(s, v, vessel_key()).contains(v),
        forall|w: VesselId| s.contains(w) ==> upsert_by(s, v, vessel_key()).contains(w),
{
    crate::keyed::lemma_find_after_upsert(s, v, vessel_key(), v.0 as int);
    lemma_find_none(upsert_by(s, v, vessel_key()), v.0 as int, vessel_key());
    assert forall|w: VesselId| s.contains(w) implies upsert_by(s, v, vessel_key()).contains(w) by {
        let n = upsert_by(s, v, vessel_key());
        if w != v {
            crate::keyed::lemma_find_after_upsert(s, v, vessel_key(), w.0 as int);
            let i = choose|i: int| 0 <= i < s.len() && s[i] == w;
            lemma_find_sorted(s, w.0 as int, vessel_key(), i);
            lemma_find_none(n, w.0 as int, vessel_key());
        }
    }
}

} // verus!
