//! Graph paths: paths where each point can have more than one connected edge. Edges are categorized into
//! interior and exterior edges depending on whether they are on the outside or the inside of the combined
//! shape; the exterior edges are then followed to produce the resulting paths.

use vstd::prelude::*;
use smallvec::SmallVec;

use crate::geo::{Coord2, fraction_along, fraction_along_exec, lemma_fraction_along_near, near_point_fraction};
use crate::path::SimpleBezierPath;
use crate::curve::{Bounds, Curve, fast_bounds_spec, reversed_curve};

verus! {

/// Maximum number of edges to traverse when 'healing' gaps found in an external path
pub const MAX_HEAL_DEPTH: usize = 3;

/// Winding direction of a particular path
#[derive(Clone, Copy, Debug, PartialEq, Eq, Structural)]
pub enum PathDirection {
    Clockwise,
    Anticlockwise,
}

/// Label attached to a path used for arithmetic: the path number (counting from 0) and the winding
/// direction of the path
#[derive(Clone, Copy, Debug, PartialEq, Eq, Structural)]
pub struct PathLabel(pub u32, pub PathDirection);

/// Kind of a graph path edge
#[derive(Clone, Copy, Debug, PartialEq, Eq, Structural)]
pub enum GraphPathEdgeKind {
    /// An edge that hasn't been categorised yet
    Uncategorised,
    /// An edge that is uncategorised but has been visited
    Visited,
    /// An exterior edge: a transition between the inside and the outside of the path
    Exterior,
    /// An interior edge: on the inside of the path
    Interior,
}

/// Reference to a graph edge
#[derive(Clone, Copy, Debug, PartialEq, Eq, Hash, Structural)]
pub struct GraphEdgeRef {
    /// The index of the point this edge starts from
    pub start_idx: usize,
    /// The index of the edge within the point
    pub edge_idx: usize,
    /// True if this reference is for the reverse of this edge
    pub reverse: bool,
}

/// An edge leaving a point of a graph path
#[derive(Clone, Copy, Debug, PartialEq, Eq, Structural)]
pub struct GraphPathEdge {
    /// The label attached to this edge
    pub label: PathLabel,
    /// The index of the edge following this one on the target point
    pub following_edge_idx: usize,
    /// The kind of this edge
    pub kind: GraphPathEdgeKind,
    /// Position of the first control point
    pub cp1: Coord2,
    /// Position of the second control point
    pub cp2: Coord2,
    /// The index of the target point
    pub end_idx: usize,
}

/// The edges leaving a point, held in a small inline vector. The `SmallVec` is held in a private field of this
/// struct because Verus does not accept a direct declaration of `SmallVec` (its `A: Array` bound); its contents
/// are named by `edge_list_items`.
#[verifier::external_body]
pub struct EdgeList {
    items: SmallVec<[GraphPathEdge; 2]>,
}

/// The edges held by an edge list, in order.
pub uninterp spec fn edge_list_items(v: EdgeList) -> Seq<GraphPathEdge>;

/// The indices of the points with an edge arriving at a point, held in a small inline vector (in a private field,
/// as for `EdgeList`); its contents are named by `index_list_items`.
#[verifier::external_body]
pub struct IndexList {
    items: SmallVec<[usize; 2]>,
}

/// The indices held by an index list, in order.
pub uninterp spec fn index_list_items(v: IndexList) -> Seq<usize>;

/// `SmallVec::new`: an empty edge list.
#[verifier::external_body]
fn edge_list_new() -> (r: EdgeList)
    ensures
        edge_list_items(r) == Seq::<GraphPathEdge>::empty(),
{
    EdgeList { items: SmallVec::new() }
}

/// `SmallVec::len`: the number of edges in the list.
#[verifier::external_body]
fn edge_list_len(v: &EdgeList) -> (r: usize)
    ensures
        r == edge_list_items(*v).len(),
{
    v.items.len()
}

/// Indexing a `SmallVec`: a copy of the edge at `index`.
#[verifier::external_body]
fn edge_list_get(v: &EdgeList, index: usize) -> (r: GraphPathEdge)
    requires
        index < edge_list_items(*v).len(),
    ensures
        r == edge_list_items(*v)[index as int],
{
    v.items[index]
}

/// Assigning through `IndexMut` on a `SmallVec`: replaces the edge at `index`.
#[verifier::external_body]
fn edge_list_set(v: &mut EdgeList, index: usize, edge: GraphPathEdge)
    requires
        index < edge_list_items(*old(v)).len(),
    ensures
        edge_list_items(*final(v)) == edge_list_items(*old(v)).update(index as int, edge),
{
    v.items[index] = edge;
}

/// `SmallVec::push`: appends an edge.
#[verifier::external_body]
fn edge_list_push(v: &mut EdgeList, edge: GraphPathEdge)
    requires
        edge_list_items(*old(v)).len() < usize::MAX,
    ensures
        edge_list_items(*final(v)) == edge_list_items(*old(v)).push(edge),
{
    v.items.push(edge);
}

/// `SmallVec::remove`: removes and returns the edge at `index`, shifting the later edges down.
#[verifier::external_body]
fn edge_list_remove(v: &mut EdgeList, index: usize) -> (r: GraphPathEdge)
    requires
        index < edge_list_items(*old(v)).len(),
    ensures
        r == edge_list_items(*old(v))[index as int],
        edge_list_items(*final(v)) == edge_list_items(*old(v)).remove(index as int),
{
    v.items.remove(index)
}

/// `SmallVec::new`: an empty index list.
#[verifier::external_body]
fn index_list_new() -> (r: IndexList)
    ensures
        index_list_items(r) == Seq::<usize>::empty(),
{
    IndexList { items: SmallVec::new() }
}

/// `SmallVec::len`: the number of indices in the list.
#[verifier::external_body]
fn index_list_len(v: &IndexList) -> (r: usize)
    ensures
        r == index_list_items(*v).len(),
{
    v.items.len()
}

/// Indexing a `SmallVec`: the index at position `index`.
#[verifier::external_body]
fn index_list_get(v: &IndexList, index: usize) -> (r: usize)
    requires
        index < index_list_items(*v).len(),
    ensures
        r == index_list_items(*v)[index as int],
{
    v.items[index]
}

/// `SmallVec::push`: appends an index.
#[verifier::external_body]
fn index_list_push(v: &mut IndexList, value: usize)
    requires
        index_list_items(*old(v)).len() < usize::MAX,
    ensures
        index_list_items(*final(v)) == index_list_items(*old(v)).push(value),
{
    v.items.push(value);
}

/// A point in a graph path: its position, the edges leaving it, and the points with edges arriving at it
pub struct GraphPathPoint {
    position: Coord2,
    forward_edges: EdgeList,
    connected_from: IndexList,
}

/// What a graph path point holds, as plain values
pub struct PointModel {
    pub position: Coord2,
    pub edges: Seq<GraphPathEdge>,
    pub connected_from: Seq<usize>,
}

pub closed spec fn point_model(p: GraphPathPoint) -> PointModel {
    PointModel {
        position: p.position,
        edges: edge_list_items(p.forward_edges),
        connected_from: index_list_items(p.connected_from),
    }
}

/// The models of a sequence of points.
pub closed spec fn point_models(points: Seq<GraphPathPoint>) -> Seq<PointModel> {
    points.map_values(|p: GraphPathPoint| point_model(p))
}

/// A graph path is a path where each point can have more than one connected edge. Edges are categorized
/// into interior and exterior edges depending on if they are on the outside or the inside of the combined
/// shape.
pub struct GraphPath {
    /// The points in this graph and their edges
    points: Vec<GraphPathPoint>,
    /// The index to assign to the next path added to this path
    next_path_index: usize,
}

impl View for GraphPath {
    type V = Seq<PointModel>;

    closed spec fn view(&self) -> Seq<PointModel> {
        point_models(self.points@)
    }
}

impl GraphPath {
    /// The number of source paths merged into this graph (the index the next merged path would get).
    pub closed spec fn path_count(&self) -> nat {
        self.next_path_index as nat
    }
}

/// The edge an edge ref points at (ignoring its direction).
pub open spec fn edge_at(g: Seq<PointModel>, r: GraphEdgeRef) -> GraphPathEdge {
    g[r.start_idx as int].edges[r.edge_idx as int]
}

/// The edge ref names an edge of the graph.
pub open spec fn valid_ref(g: Seq<PointModel>, r: GraphEdgeRef) -> bool {
    r.start_idx < g.len() && r.edge_idx < g[r.start_idx as int].edges.len()
}

/// Point `p` has an edge to point `q`.
pub open spec fn has_edge_to(g: Seq<PointModel>, p: int, q: int) -> bool {
    exists|e: int| 0 <= e < g[p].edges.len() && #[trigger] g[p].edges[e].end_idx == q
}

/// The points (in ascending order) among the first `m` that have an edge to `q`.
pub open spec fn sources_upto(g: Seq<PointModel>, q: int, m: nat) -> Seq<usize>
    decreases m,
{
    if m == 0 {
        Seq::empty()
    } else if has_edge_to(g, m - 1, q) {
        sources_upto(g, q, (m - 1) as nat).push((m - 1) as usize)
    } else {
        sources_upto(g, q, (m - 1) as nat)
    }
}

/// The points (in ascending order) that have an edge to `q`.
pub open spec fn sources(g: Seq<PointModel>, q: int) -> Seq<usize> {
    sources_upto(g, q, g.len())
}

/// Every edge ends at a point of the graph, and its following edge is an edge of that point.
pub open spec fn edges_well_formed(g: Seq<PointModel>) -> bool {
    forall|p: int, e: int|
        #![trigger g[p].edges[e]]
        0 <= p < g.len() && 0 <= e < g[p].edges.len() ==> {
            &&& g[p].edges[e].end_idx < g.len()
            &&& g[p].edges[e].following_edge_idx < g[g[p].edges[e].end_idx as int].edges.len()
        }
}

/// The list of points connected to each point is exactly the points with an edge to it, in ascending order.
pub open spec fn connections_consistent(g: Seq<PointModel>) -> bool {
    forall|q: int| 0 <= q < g.len() ==> #[trigger] g[q].connected_from == sources(g, q)
}

/// A graph path whose edges and reverse connections are consistent.
pub open spec fn graph_wf(g: Seq<PointModel>) -> bool {
    edges_well_formed(g) && connections_consistent(g)
}

/// The same points and edges, except perhaps for the kinds of the edges.
pub open spec fn same_except_kinds(a: Seq<PointModel>, b: Seq<PointModel>) -> bool {
    &&& a.len() == b.len()
    &&& forall|p: int|
        0 <= p < a.len() ==> {
            &&& #[trigger] a[p].position == b[p].position
            &&& a[p].connected_from == b[p].connected_from
            &&& a[p].edges.len() == b[p].edges.len()
            &&& forall|e: int|
                0 <= e < a[p].edges.len() ==> (GraphPathEdge { kind: b[p].edges[e].kind, ..#[trigger] a[p].edges[e] })
                    == b[p].edges[e]
        }
}

proof fn lemma_sources_upto_bounded(g: Seq<PointModel>, q: int, m: nat)
    requires
        m <= usize::MAX,
    ensures
        sources_upto(g, q, m).len() <= m,
        forall|i: int| 0 <= i < sources_upto(g, q, m).len() ==> #[trigger] sources_upto(g, q, m)[i] < m,
        forall|i: int|
            0 <= i < sources_upto(g, q, m).len() ==> has_edge_to(g, #[trigger] sources_upto(g, q, m)[i] as int, q),
        forall|i: int, j: int|
            0 <= i < j < sources_upto(g, q, m).len() ==> #[trigger] sources_upto(g, q, m)[i]
                < #[trigger] sources_upto(g, q, m)[j],
    decreases m,
{
    if m > 0 {
        lemma_sources_upto_bounded(g, q, (m - 1) as nat);
    }
}

/// A point has an edge to `q` exactly when it is listed among the sources of `q`.
pub proof fn lemma_sources_complete(g: Seq<PointModel>, q: int, p: int)
    requires
        0 <= p < g.len(),
        g.len() <= usize::MAX,
    ensures
        has_edge_to(g, p, q) <==> sources(g, q).contains(p as usize),
{
    lemma_sources_upto_complete(g, q, p, g.len());
}

proof fn lemma_sources_upto_complete(g: Seq<PointModel>, q: int, p: int, m: nat)
    requires
        0 <= p <= usize::MAX,
        m <= usize::MAX,
    ensures
        (p < m && has_edge_to(g, p, q)) <==> sources_upto(g, q, m).contains(p as usize),
    decreases m,
{
    lemma_sources_upto_bounded(g, q, m);
    if m > 0 {
        lemma_sources_upto_complete(g, q, p, (m - 1) as nat);
        let prev = sources_upto(g, q, (m - 1) as nat);
        if has_edge_to(g, m - 1, q) {
            assert(sources_upto(g, q, m) == prev.push((m - 1) as usize));
            if sources_upto(g, q, m).contains(p as usize) {
                let i = choose|i: int| 0 <= i < sources_upto(g, q, m).len() && sources_upto(g, q, m)[i] == p as usize;
                if i < prev.len() {
                    assert(prev.contains(p as usize));
                }
            }
            if p < m - 1 && has_edge_to(g, p, q) {
                let i = choose|i: int| 0 <= i < prev.len() && prev[i] == p as usize;
                assert(sources_upto(g, q, m)[i] == p as usize);
            }
            if p == m - 1 {
                assert(sources_upto(g, q, m)[prev.len() as int] == p as usize);
            }
        }
    }
}

/// The graph with the kind of one edge replaced.
pub open spec fn with_edge_kind(g: Seq<PointModel>, r: GraphEdgeRef, kind: GraphPathEdgeKind) -> Seq<PointModel> {
    let p = g[r.start_idx as int];
    g.update(
        r.start_idx as int,
        PointModel { edges: p.edges.update(r.edge_idx as int, GraphPathEdge { kind, ..edge_at(g, r) }), ..p },
    )
}

/// The graph with the label of one edge replaced.
pub open spec fn with_edge_label(g: Seq<PointModel>, r: GraphEdgeRef, label: PathLabel) -> Seq<PointModel> {
    let p = g[r.start_idx as int];
    g.update(
        r.start_idx as int,
        PointModel { edges: p.edges.update(r.edge_idx as int, GraphPathEdge { label, ..edge_at(g, r) }), ..p },
    )
}

/// The edge refs of the edges leaving point `p`, in order.
pub open spec fn point_edge_refs(g: Seq<PointModel>, p: int) -> Seq<GraphEdgeRef> {
    Seq::new(g[p].edges.len(), |e: int| GraphEdgeRef { start_idx: p as usize, edge_idx: e as usize, reverse: false })
}

/// The edge refs of all the edges leaving the first `m` points, point by point.
pub open spec fn all_edge_refs_upto(g: Seq<PointModel>, m: nat) -> Seq<GraphEdgeRef>
    decreases m,
{
    if m == 0 {
        Seq::empty()
    } else {
        all_edge_refs_upto(g, (m - 1) as nat) + point_edge_refs(g, m - 1)
    }
}

/// The reversed refs of the first `m` edges of point `c` that end at point `q`, in order.
pub open spec fn edges_into_upto(g: Seq<PointModel>, c: int, q: int, m: nat) -> Seq<GraphEdgeRef>
    decreases m,
{
    if m == 0 {
        Seq::empty()
    } else if g[c].edges[m - 1].end_idx == q {
        edges_into_upto(g, c, q, (m - 1) as nat).push(GraphEdgeRef { start_idx: c as usize, edge_idx: (m - 1) as usize, reverse: true })
    } else {
        edges_into_upto(g, c, q, (m - 1) as nat)
    }
}

/// The reversed refs of the edges arriving at `q` from the first `k` points it is connected from.
pub open spec fn reverse_refs_upto(g: Seq<PointModel>, q: int, k: nat) -> Seq<GraphEdgeRef>
    decreases k,
{
    if k == 0 {
        Seq::empty()
    } else {
        let c = g[q].connected_from[k - 1] as int;
        reverse_refs_upto(g, q, (k - 1) as nat) + edges_into_upto(g, c, q, g[c].edges.len())
    }
}

/// The edges arriving at a point, as reversed edge refs, ordered by the point they come from.
pub open spec fn reverse_edge_refs(g: Seq<PointModel>, q: int) -> Seq<GraphEdgeRef> {
    reverse_refs_upto(g, q, g[q].connected_from.len())
}

/// The point an edge ref starts from, taking its direction into account.
pub open spec fn ref_start_point(g: Seq<PointModel>, r: GraphEdgeRef) -> int {
    if r.reverse { edge_at(g, r).end_idx as int } else { r.start_idx as int }
}

/// The point an edge ref ends at, taking its direction into account.
pub open spec fn ref_end_point(g: Seq<PointModel>, r: GraphEdgeRef) -> int {
    if r.reverse { r.start_idx as int } else { edge_at(g, r).end_idx as int }
}

/// A point moved into a graph after `offset` other points: its edge targets and connections shift by the offset.
pub open spec fn offset_point(p: PointModel, offset: int) -> PointModel {
    PointModel {
        position: p.position,
        edges: p.edges.map_values(|e: GraphPathEdge| GraphPathEdge { end_idx: (e.end_idx + offset) as usize, ..e }),
        connected_from: p.connected_from.map_values(|c: usize| (c + offset) as usize),
    }
}

/// Two graphs side by side: the points of `b` follow those of `a`, renumbered.
pub open spec fn merged_model(a: Seq<PointModel>, b: Seq<PointModel>) -> Seq<PointModel> {
    a + b.map_values(|p: PointModel| offset_point(p, a.len() as int))
}

proof fn lemma_merged_sources_low(a: Seq<PointModel>, b: Seq<PointModel>, q: int, m: nat)
    requires
        edges_well_formed(a),
        m <= a.len(),
    ensures
        sources_upto(merged_model(a, b), q, m) == sources_upto(a, q, m),
    decreases m,
{
    if m > 0 {
        lemma_merged_sources_low(a, b, q, (m - 1) as nat);
        assert(merged_model(a, b)[m - 1] == a[m - 1]);
    }
}

proof fn lemma_merged_sources_skip_b(a: Seq<PointModel>, b: Seq<PointModel>, q: int, m: nat)
    requires
        edges_well_formed(b),
        0 <= q < a.len(),
        a.len() <= m <= a.len() + b.len(),
        a.len() + b.len() <= usize::MAX,
    ensures
        sources_upto(merged_model(a, b), q, m) == sources_upto(merged_model(a, b), q, a.len()),
    decreases m,
{
    if m > a.len() {
        lemma_merged_sources_skip_b(a, b, q, (m - 1) as nat);
        let g = merged_model(a, b);
        let p = m - 1;
        assert(g[p] == offset_point(b[p - a.len()], a.len() as int));
        if has_edge_to(g, p, q) {
            let e = choose|e: int| 0 <= e < g[p].edges.len() && #[trigger] g[p].edges[e].end_idx == q;
            assert(b[p - a.len()].edges[e].end_idx < b.len());
            assert(g[p].edges[e].end_idx == b[p - a.len()].edges[e].end_idx + a.len());
        }
    }
}

proof fn lemma_merged_sources_none_from_a(a: Seq<PointModel>, b: Seq<PointModel>, q: int, m: nat)
    requires
        edges_well_formed(a),
        q >= a.len(),
        m <= a.len(),
    ensures
        sources_upto(merged_model(a, b), q, m) == Seq::<usize>::empty(),
    decreases m,
{
    if m > 0 {
        lemma_merged_sources_none_from_a(a, b, q, (m - 1) as nat);
        let g = merged_model(a, b);
        assert(g[m - 1] == a[m - 1]);
        if has_edge_to(g, m - 1, q) {
            let e = choose|e: int| 0 <= e < g[m - 1].edges.len() && #[trigger] g[m - 1].edges[e].end_idx == q;
            assert(a[m - 1].edges[e].end_idx < a.len());
        }
    }
}

proof fn lemma_merged_sources_high(a: Seq<PointModel>, b: Seq<PointModel>, q: int, j: nat)
    requires
        edges_well_formed(a),
        edges_well_formed(b),
        a.len() <= q < a.len() + b.len(),
        j <= b.len(),
        a.len() + b.len() <= usize::MAX,
    ensures
        sources_upto(merged_model(a, b), q, a.len() + j) == sources_upto(b, q - a.len(), j).map_values(
            |c: usize| (c + a.len()) as usize,
        ),
    decreases j,
{
    let off = a.len() as int;
    let g = merged_model(a, b);
    if j == 0 {
        lemma_merged_sources_none_from_a(a, b, q, a.len());
        assert(sources_upto(b, q - off, 0).map_values(|c: usize| (c + a.len()) as usize) =~= Seq::<usize>::empty());
    } else {
        lemma_merged_sources_high(a, b, q, (j - 1) as nat);
        let p = off + j - 1;
        assert(g[p] == offset_point(b[j - 1], off));
        let pb = (j - 1) as int;
        assert(has_edge_to(g, p, q) == has_edge_to(b, pb, q - off)) by {
            if has_edge_to(g, p, q) {
                let e = choose|e: int| 0 <= e < g[p].edges.len() && #[trigger] g[p].edges[e].end_idx == q;
                assert(b[pb].edges[e].end_idx < b.len());
                assert(b[pb].edges[e].end_idx == q - off);
            }
            if has_edge_to(b, pb, q - off) {
                let e = choose|e: int| 0 <= e < b[pb].edges.len() && #[trigger] b[pb].edges[e].end_idx == q - off;
                assert(g[p].edges[e].end_idx == q);
            }
        }
        let prev = sources_upto(b, q - off, (j - 1) as nat);
        if has_edge_to(b, pb, q - off) {
            assert(prev.push(pb as usize).map_values(|c: usize| (c + a.len()) as usize) =~= prev.map_values(
                |c: usize| (c + a.len()) as usize,
            ).push(p as usize));
        }
    }
}

/// Merging two well-formed graphs gives a well-formed graph: the renumbered edges of the second graph still
/// end at its own points, and every point's reverse connections stay exactly its incoming edges.
pub proof fn lemma_merged_wf(a: Seq<PointModel>, b: Seq<PointModel>)
    requires
        graph_wf(a),
        graph_wf(b),
        a.len() + b.len() <= usize::MAX,
    ensures
        graph_wf(merged_model(a, b)),
{
    let g = merged_model(a, b);
    let off = a.len() as int;
    assert forall|p: int, e: int| #![trigger g[p].edges[e]] 0 <= p < g.len() && 0 <= e < g[p].edges.len() implies {
        &&& g[p].edges[e].end_idx < g.len()
        &&& g[p].edges[e].following_edge_idx < g[g[p].edges[e].end_idx as int].edges.len()
    } by {
        if p < off {
            assert(g[p] == a[p]);
            assert(a[p].edges[e].end_idx < a.len());
            assert(g[a[p].edges[e].end_idx as int] == a[a[p].edges[e].end_idx as int]);
        } else {
            assert(g[p] == offset_point(b[p - off], off));
            let end = b[p - off].edges[e].end_idx as int;
            assert(end < b.len());
            assert(g[end + off] == offset_point(b[end], off));
        }
    }
    assert forall|q: int| 0 <= q < g.len() implies #[trigger] g[q].connected_from == sources(g, q) by {
        if q < off {
            assert(g[q] == a[q]);
            lemma_merged_sources_low(a, b, q, a.len());
            lemma_merged_sources_skip_b(a, b, q, g.len());
        } else {
            assert(g[q] == offset_point(b[q - off], off));
            lemma_merged_sources_high(a, b, q, b.len());
            assert(a.len() + b.len() == g.len());
        }
    }
}

impl GraphEdgeRef {
    /// Creates a reversed version of this edge ref
    pub fn reversed(self) -> (r: GraphEdgeRef)
        ensures
            r == (GraphEdgeRef { reverse: !self.reverse, ..self }),
    {
        GraphEdgeRef { reverse: !self.reverse, ..self }
    }
}

impl GraphPath {
    /// Creates a new graph path with no points
    pub fn new() -> (r: GraphPath)
        ensures
            r@.len() == 0,
            r.path_count() == 0,
    {
        GraphPath { points: Vec::new(), next_path_index: 0 }
    }

    /// Returns the number of points in this graph. Points are numbered from 0 to this value.
    pub fn num_points(&self) -> (r: usize)
        ensures
            r == self@.len(),
    {
        self.points.len()
    }

    /// Returns the position of a particular point
    pub fn point_position(&self, point_num: usize) -> (r: Coord2)
        requires
            point_num < self@.len(),
        ensures
            r == self@[point_num as int].position,
    {
        self.points[point_num].position
    }

    /// The number of edges leaving a point
    pub fn num_edges(&self, point_num: usize) -> (r: usize)
        requires
            point_num < self@.len(),
        ensures
            r == self@[point_num as int].edges.len(),
    {
        edge_list_len(&self.points[point_num].forward_edges)
    }

    /// A copy of the edge an edge ref points at (ignoring its direction)
    pub fn edge(&self, edge: GraphEdgeRef) -> (r: GraphPathEdge)
        requires
            valid_ref(self@, edge),
        ensures
            r == edge_at(self@, edge),
    {
        edge_list_get(&self.points[edge.start_idx].forward_edges, edge.edge_idx)
    }

    /// Returns the type of the edge pointed to by an edgeref
    pub fn edge_kind(&self, edge: GraphEdgeRef) -> (r: GraphPathEdgeKind)
        requires
            valid_ref(self@, edge),
        ensures
            r == edge_at(self@, edge).kind,
    {
        self.edge(edge).kind
    }

    /// Returns the label of the edge pointed to by an edgeref
    pub fn edge_label(&self, edge: GraphEdgeRef) -> (r: PathLabel)
        requires
            valid_ref(self@, edge),
        ensures
            r == edge_at(self@, edge).label,
    {
        self.edge(edge).label
    }

    /// The index of the point an edge ref starts from (the end of the underlying edge for a reversed ref)
    pub fn edge_start_point_idx(&self, edge: GraphEdgeRef) -> (r: usize)
        requires
            valid_ref(self@, edge),
        ensures
            r == ref_start_point(self@, edge),
    {
        if edge.reverse {
            self.edge(edge).end_idx
        } else {
            edge.start_idx
        }
    }

    /// The index of the point an edge ref ends at (the start of the underlying edge for a reversed ref)
    pub fn edge_end_point_idx(&self, edge: GraphEdgeRef) -> (r: usize)
        requires
            valid_ref(self@, edge),
        ensures
            r == ref_end_point(self@, edge),
    {
        if edge.reverse {
            edge.start_idx
        } else {
            self.edge(edge).end_idx
        }
    }

    /// The index of the edge following an edge on its end point
    pub fn edge_following_edge_idx(&self, edge: GraphEdgeRef) -> (r: usize)
        requires
            valid_ref(self@, edge),
        ensures
            r == edge_at(self@, edge).following_edge_idx,
    {
        self.edge(edge).following_edge_idx
    }

    /// Sets the kind of a single edge
    pub fn set_edge_kind(&mut self, edge: GraphEdgeRef, new_type: GraphPathEdgeKind)
        requires
            valid_ref(old(self)@, edge),
        ensures
            final(self)@ == with_edge_kind(old(self)@, edge, new_type),
            final(self).path_count() == old(self).path_count(),
            graph_wf(old(self)@) ==> graph_wf(final(self)@),
            removal_wf(old(self)@) ==> removal_wf(final(self)@),
    {
        let mut changed = edge_list_get(&self.points[edge.start_idx].forward_edges, edge.edge_idx);
        changed.kind = new_type;
        edge_list_set(&mut self.points[edge.start_idx].forward_edges, edge.edge_idx, changed);
        proof {
            assert(final(self)@ =~= with_edge_kind(old(self)@, edge, new_type));
            lemma_same_shape_wf(old(self)@, final(self)@);
        }
    }

    /// Sets the label of a single edge
    pub fn set_edge_label(&mut self, edge: GraphEdgeRef, new_label: PathLabel)
        requires
            valid_ref(old(self)@, edge),
        ensures
            final(self)@ == with_edge_label(old(self)@, edge, new_label),
            final(self).path_count() == old(self).path_count(),
            graph_wf(old(self)@) ==> graph_wf(final(self)@),
            removal_wf(old(self)@) ==> removal_wf(final(self)@),
    {
        let mut changed = edge_list_get(&self.points[edge.start_idx].forward_edges, edge.edge_idx);
        changed.label = new_label;
        edge_list_set(&mut self.points[edge.start_idx].forward_edges, edge.edge_idx, changed);
        proof {
            assert(final(self)@ =~= with_edge_label(old(self)@, edge, new_label));
            lemma_same_shape_wf(old(self)@, final(self)@);
        }
    }
}

/// Point `p` has an edge to point `q` among its first `m` edges.
pub open spec fn has_edge_to_upto(g: Seq<PointModel>, p: int, q: int, m: int) -> bool {
    exists|e: int| 0 <= e < m && #[trigger] g[p].edges[e].end_idx == q
}

/// The points and edges of `a` and `b` are the same (their reverse connections may differ).
pub open spec fn same_points_and_edges(a: Seq<PointModel>, b: Seq<PointModel>) -> bool {
    &&& a.len() == b.len()
    &&& forall|p: int| #![trigger a[p]] #![trigger b[p]] 0 <= p < a.len() ==> a[p].position == b[p].position && a[p].edges == b[p].edges
}

proof fn lemma_sources_same_edges(a: Seq<PointModel>, b: Seq<PointModel>, q: int, m: nat)
    requires
        same_points_and_edges(a, b),
        m <= a.len(),
    ensures
        sources_upto(a, q, m) == sources_upto(b, q, m),
    decreases m,
{
    if m > 0 {
        lemma_sources_same_edges(a, b, q, (m - 1) as nat);
        assert(a[m - 1].edges == b[m - 1].edges);
        assert(has_edge_to(a, m - 1, q) == has_edge_to(b, m - 1, q));
    }
}

impl GraphPath {
    /// Recomputes the list of points that have connections to each point: afterwards the list for each point
    /// holds, in ascending order and once each, the points with an edge ending at it
    #[verifier::spinoff_prover]
    pub fn recalculate_reverse_connections(&mut self)
        requires
            forall|p: int, e: int|
                0 <= p < old(self)@.len() && 0 <= e < old(self)@[p].edges.len() ==> #[trigger] old(self)@[p].edges[e].end_idx
                    < old(self)@.len(),
        ensures
            same_points_and_edges(old(self)@, final(self)@),
            connections_consistent(final(self)@),
            final(self).path_count() == old(self).path_count(),
    {
        let ghost g0 = self@;
        let n = self.points.len();

        // Reset the list of connections to be empty
        for q in 0..n
            invariant
                n == self@.len(),
                same_points_and_edges(g0, self@),
                self.path_count() == old(self).path_count(),
                forall|j: int| 0 <= j < q ==> #[trigger] self@[j].connected_from == Seq::<usize>::empty(),
        {
            let ghost before = self@;
            self.points[q].connected_from = index_list_new();
            proof {
                assert(self@ =~= before.update(q as int, PointModel { connected_from: Seq::empty(), ..before[q as int] }));
            }
        }

        // Add a reverse connection for every edge (points are visited in ascending order, so each list stays sorted)
        for p in 0..n
            invariant
                n == self@.len(),
                n == g0.len(),
                same_points_and_edges(g0, self@),
                self.path_count() == old(self).path_count(),
                forall|p2: int, e: int|
                    0 <= p2 < g0.len() && 0 <= e < g0[p2].edges.len() ==> #[trigger] g0[p2].edges[e].end_idx < g0.len(),
                forall|q: int| 0 <= q < n ==> #[trigger] self@[q].connected_from == sources_upto(g0, q, p as nat),
        {
            let num_edges = edge_list_len(&self.points[p].forward_edges);
            proof {
                assert(self@[p as int] == point_model(self.points@[p as int]));
            }
            for e in 0..num_edges
                invariant
                    n == self@.len(),
                    n == g0.len(),
                    p < n,
                    num_edges == g0[p as int].edges.len(),
                    same_points_and_edges(g0, self@),
                    self.path_count() == old(self).path_count(),
                    forall|p2: int, e2: int|
                        0 <= p2 < g0.len() && 0 <= e2 < g0[p2].edges.len() ==> #[trigger] g0[p2].edges[e2].end_idx < g0.len(),
                    forall|q: int|
                        0 <= q < n ==> #[trigger] self@[q].connected_from == (if has_edge_to_upto(g0, p as int, q, e as int) {
                            sources_upto(g0, q, p as nat).push(p)
                        } else {
                            sources_upto(g0, q, p as nat)
                        }),
            {
                proof {
                    assert(self@[p as int] == point_model(self.points@[p as int]));
                }
                let end_idx = edge_list_get(&self.points[p].forward_edges, e).end_idx;
                proof {
                    assert(g0[p as int].edges[e as int].end_idx == end_idx);
                    assert(self@[end_idx as int] == point_model(self.points@[end_idx as int]));
                    lemma_sources_upto_bounded(g0, end_idx as int, p as nat);
                }
                let len = index_list_len(&self.points[end_idx].connected_from);
                let already = len > 0 && index_list_get(&self.points[end_idx].connected_from, len - 1) == p;
                proof {
                    assert(self@[end_idx as int].connected_from == (if has_edge_to_upto(g0, p as int, end_idx as int, e as int) {
                        sources_upto(g0, end_idx as int, p as nat).push(p)
                    } else {
                        sources_upto(g0, end_idx as int, p as nat)
                    }));
                    if has_edge_to_upto(g0, p as int, end_idx as int, e as int) {
                        assert(already);
                    } else if len > 0 {
                        assert(self@[end_idx as int].connected_from == sources_upto(g0, end_idx as int, p as nat));
                        assert(self@[end_idx as int].connected_from[len - 1] < p);
                    }
                }
                let ghost before = self@;
                if !already {
                    index_list_push(&mut self.points[end_idx].connected_from, p);
                    proof {
                        assert(self@ =~= before.update(
                            end_idx as int,
                            PointModel { connected_from: before[end_idx as int].connected_from.push(p), ..before[end_idx as int] },
                        ));
                    }
                }
                proof {
                    assert forall|q: int| 0 <= q < n implies #[trigger] self@[q].connected_from == (if has_edge_to_upto(g0, p as int, q, e + 1) {
                        sources_upto(g0, q, p as nat).push(p)
                    } else {
                        sources_upto(g0, q, p as nat)
                    }) by {
                        if q == end_idx {
                            assert(has_edge_to_upto(g0, p as int, q, e + 1));
                        } else {
                            if has_edge_to_upto(g0, p as int, q, e + 1) {
                                let w = choose|w: int| 0 <= w < e + 1 && #[trigger] g0[p as int].edges[w].end_idx == q;
                                assert(has_edge_to_upto(g0, p as int, q, e as int));
                            }
                        }
                    }
                }
            }
            proof {
                assert forall|q: int| 0 <= q < n implies #[trigger] self@[q].connected_from == sources_upto(g0, q, (p + 1) as nat) by {
                    assert(has_edge_to_upto(g0, p as int, q, num_edges as int) == has_edge_to(g0, p as int, q));
                }
            }
        }

        proof {
            assert forall|q: int| 0 <= q < n implies #[trigger] self@[q].connected_from == sources(self@, q) by {
                lemma_sources_same_edges(g0, self@, q, n as nat);
            }
        }
    }

    /// Returns the edge refs for a particular point
    pub fn edge_refs_for_point(&self, point_num: usize) -> (r: Vec<GraphEdgeRef>)
        requires
            point_num < self@.len(),
        ensures
            r@ == point_edge_refs(self@, point_num as int),
            forall|i: int| 0 <= i < r@.len() ==> valid_ref(self@, #[trigger] r@[i]) && !r@[i].reverse
                && r@[i].start_idx == point_num,
    {
        let mut refs: Vec<GraphEdgeRef> = Vec::new();
        let num_edges = edge_list_len(&self.points[point_num].forward_edges);
        for edge_idx in 0..num_edges
            invariant
                point_num < self@.len(),
                num_edges == self@[point_num as int].edges.len(),
                refs@ =~= point_edge_refs(self@, point_num as int).take(edge_idx as int),
                forall|i: int| 0 <= i < refs@.len() ==> valid_ref(self@, #[trigger] refs@[i]) && !refs@[i].reverse
                    && refs@[i].start_idx == point_num,
        {
            refs.push(GraphEdgeRef { start_idx: point_num, edge_idx, reverse: false });
        }
        proof {
            assert(refs@ =~= point_edge_refs(self@, point_num as int));
        }
        refs
    }

    /// Returns the edge refs of all the edges in this graph
    pub fn all_edge_refs(&self) -> (r: Vec<GraphEdgeRef>)
        ensures
            r@ == all_edge_refs_upto(self@, self@.len()),
            forall|i: int| 0 <= i < r@.len() ==> valid_ref(self@, #[trigger] r@[i]) && !r@[i].reverse,
    {
        let mut refs: Vec<GraphEdgeRef> = Vec::new();
        let n = self.points.len();
        for point_idx in 0..n
            invariant
                n == self@.len(),
                refs@ == all_edge_refs_upto(self@, point_idx as nat),
                forall|i: int| 0 <= i < refs@.len() ==> valid_ref(self@, #[trigger] refs@[i]) && !refs@[i].reverse,
        {
            let mut point_refs = self.edge_refs_for_point(point_idx);
            let ghost before = refs@;
            let ghost added = point_refs@;
            refs.append(&mut point_refs);
            proof {
                assert forall|i: int| 0 <= i < refs@.len() implies valid_ref(self@, #[trigger] refs@[i]) && !refs@[i].reverse by {
                    if i >= before.len() {
                        assert(refs@[i] == added[i - before.len()]);
                    } else {
                        assert(refs@[i] == before[i]);
                    }
                }
            }
        }
        refs
    }

    /// Returns the edges that arrive at a particular point, as reversed edge refs
    pub fn reverse_edges_for_point(&self, point_num: usize) -> (r: Vec<GraphEdgeRef>)
        requires
            point_num < self@.len(),
            graph_wf(self@),
        ensures
            r@ == reverse_edge_refs(self@, point_num as int),
            forall|i: int| 0 <= i < r@.len() ==> valid_ref(self@, #[trigger] r@[i]) && r@[i].reverse
                && edge_at(self@, r@[i]).end_idx == point_num,
    {
        let ghost g = self@;
        let mut refs: Vec<GraphEdgeRef> = Vec::new();
        let num_connected = index_list_len(&self.points[point_num].connected_from);
        let num_points = self.points.len();
        proof {
            assert(g.len() == num_points);
            assert(self@[point_num as int] == point_model(self.points@[point_num as int]));
            lemma_sources_upto_bounded(g, point_num as int, g.len());
        }
        for k in 0..num_connected
            invariant
                g == self@,
                graph_wf(g),
                point_num < g.len(),
                num_connected == g[point_num as int].connected_from.len(),
                forall|i: int| 0 <= i < num_connected ==> #[trigger] g[point_num as int].connected_from[i] < g.len(),
                refs@ == reverse_refs_upto(g, point_num as int, k as nat),
                forall|i: int| 0 <= i < refs@.len() ==> valid_ref(g, #[trigger] refs@[i]) && refs@[i].reverse
                    && edge_at(g, refs@[i]).end_idx == point_num,
        {
            proof {
                assert(self@[point_num as int] == point_model(self.points@[point_num as int]));
            }
            let connected_from = index_list_get(&self.points[point_num].connected_from, k);
            proof {
                assert(self@[connected_from as int] == point_model(self.points@[connected_from as int]));
            }
            let num_edges = edge_list_len(&self.points[connected_from].forward_edges);
            let ghost before = refs@;
            for edge_idx in 0..num_edges
                invariant
                    g == self@,
                    connected_from < g.len(),
                    num_edges == g[connected_from as int].edges.len(),
                    refs@ == before + edges_into_upto(g, connected_from as int, point_num as int, edge_idx as nat),
                    forall|i: int| 0 <= i < refs@.len() ==> valid_ref(g, #[trigger] refs@[i]) && refs@[i].reverse
                        && edge_at(g, refs@[i]).end_idx == point_num,
            {
                proof {
                    assert(self@[connected_from as int] == point_model(self.points@[connected_from as int]));
                }
                if edge_list_get(&self.points[connected_from].forward_edges, edge_idx).end_idx == point_num {
                    refs.push(GraphEdgeRef { start_idx: connected_from, edge_idx, reverse: true });
                }
            }
        }
        refs
    }

    /// Merges in another path: adds its points and edges (renumbered to follow the points of this path) without
    /// considering if they are internal or external
    #[verifier::spinoff_prover]
    pub fn merge(self, merge_path: GraphPath) -> (r: GraphPath)
        requires
            graph_wf(self@),
            graph_wf(merge_path@),
            self@.len() + merge_path@.len() <= usize::MAX,
            self.path_count() + merge_path.path_count() <= usize::MAX,
        ensures
            r@ == merged_model(self@, merge_path@),
            graph_wf(r@),
            r.path_count() == self.path_count() + merge_path.path_count(),
    {
        let mut new_points = self.points;
        let next_path_idx = self.next_path_index;
        let offset = new_points.len();
        let ghost a = self@;
        proof {
            assert(point_models(new_points@) =~= merged_model(a, merge_path@).take(offset as int));
        }
        let ghost b = merge_path@;
        let m = merge_path.points.len();

        for i in 0..m
            invariant
                offset == a.len(),
                m == b.len(),
                b == merge_path@,
                a.len() + b.len() <= usize::MAX,
                graph_wf(b),
                new_points@.len() == offset + i,
                point_models(new_points@) =~= merged_model(a, b).take(offset + i),
        {
            let point = &merge_path.points[i];
            proof {
                assert(b[i as int] == point_model(*point));
                lemma_sources_upto_bounded(b, i as int, b.len());
            }
            let mut forward_edges = edge_list_new();
            let num_edges = edge_list_len(&point.forward_edges);
            for e in 0..num_edges
                invariant
                    offset == a.len(),
                    a.len() + b.len() <= usize::MAX,
                    i < b.len(),
                    graph_wf(b),
                    b[i as int] == point_model(*point),
                    num_edges == b[i as int].edges.len(),
                    edge_list_items(forward_edges) =~= offset_point(b[i as int], offset as int).edges.take(e as int),
            {
                proof {
                    assert(b[i as int].edges[e as int].end_idx < b.len());
                }
                let mut edge = edge_list_get(&point.forward_edges, e);
                edge.end_idx = edge.end_idx + offset;
                edge_list_push(&mut forward_edges, edge);
            }
            let mut connected_from = index_list_new();
            let num_connected = index_list_len(&point.connected_from);
            for c in 0..num_connected
                invariant
                    offset == a.len(),
                    a.len() + b.len() <= usize::MAX,
                    i < b.len(),
                    graph_wf(b),
                    b[i as int] == point_model(*point),
                    num_connected == b[i as int].connected_from.len(),
                    forall|j: int| 0 <= j < num_connected ==> #[trigger] b[i as int].connected_from[j] < b.len(),
                    index_list_items(connected_from) =~= offset_point(b[i as int], offset as int).connected_from.take(c as int),
            {
                let previous = index_list_get(&point.connected_from, c);
                index_list_push(&mut connected_from, previous + offset);
            }
            proof {
                assert(edge_list_items(forward_edges) =~= offset_point(b[i as int], offset as int).edges);
                assert(index_list_items(connected_from) =~= offset_point(b[i as int], offset as int).connected_from);
            }
            let ghost before = new_points@;
            let new_point = GraphPathPoint { position: point.position, forward_edges, connected_from };
            proof {
                assert(point_model(new_point) == offset_point(b[i as int], offset as int));
                assert(merged_model(a, b)[offset + i] == offset_point(b[i as int], offset as int));
            }
            new_points.push(new_point);
            proof {
                assert(new_points@ == before.push(new_point));
                assert forall|j: int| 0 <= j < offset + i + 1 implies #[trigger] point_models(new_points@)[j]
                    == merged_model(a, b)[j] by {
                    assert(point_models(new_points@)[j] == point_model(new_points@[j]));
                    if j < offset + i {
                        assert(new_points@[j] == before[j]);
                        assert(point_models(before)[j] == point_model(before[j]));
                        assert(point_models(before)[j] == merged_model(a, b).take(offset + i)[j]);
                    } else {
                        assert(j == offset + i);
                        assert(new_points@[j] == new_point);
                    }
                }
                assert(point_models(new_points@) =~= merged_model(a, b).take(offset + i + 1));
            }
        }

        let merged = GraphPath { points: new_points, next_path_index: next_path_idx + merge_path.next_path_index };
        proof {
            assert(merged@ =~= merged_model(a, b));
            lemma_merged_wf(a, b);
        }
        merged
    }
}

/// A new, uncategorised edge with no following edge chosen yet.
pub open spec fn new_edge_spec(cp1: Coord2, cp2: Coord2, end_idx: int, label: PathLabel) -> GraphPathEdge {
    GraphPathEdge {
        label,
        following_edge_idx: 0,
        kind: GraphPathEdgeKind::Uncategorised,
        cp1,
        cp2,
        end_idx: end_idx as usize,
    }
}

/// The sections of a path (among its first `n`) that are kept when it becomes a graph: a section is dropped
/// when its end point and both control points stay at the point where the previously kept section ended
/// (within `CLOSE_DISTANCE`, which on the grid means at that point).
pub open spec fn kept_sections(start: Coord2, points: Seq<(Coord2, Coord2, Coord2)>, n: nat) -> Seq<(Coord2, Coord2, Coord2)>
    decreases n,
{
    if n == 0 {
        Seq::empty()
    } else {
        let kept = kept_sections(start, points, (n - 1) as nat);
        let last = if kept.len() == 0 { start } else { kept.last().2 };
        let section = points[n - 1];
        if section.2 == last && section.0 == last && section.1 == section.0 {
            kept
        } else {
            kept.push(section)
        }
    }
}

/// The position of point `i` of the graph made from the kept sections: the start point, then the end point of
/// each kept section.
pub open spec fn chain_position(start: Coord2, kept: Seq<(Coord2, Coord2, Coord2)>, i: int) -> Coord2 {
    if i == 0 { start } else { kept[i - 1].2 }
}

/// The graph made from the kept sections before it is closed: one point per section end, each joined to the
/// next by the section's curve.
pub open spec fn open_chain(start: Coord2, kept: Seq<(Coord2, Coord2, Coord2)>, label: PathLabel) -> Seq<PointModel> {
    Seq::new(
        kept.len() + 1,
        |i: int|
            PointModel {
                position: chain_position(start, kept, i),
                edges: if i < kept.len() {
                    seq![new_edge_spec(kept[i].0, kept[i].1, i + 1, label)]
                } else {
                    Seq::empty()
                },
                connected_from: Seq::empty(),
            },
    )
}

/// The point `percent`% of the way from `from` to `to` along one axis, rounded down to the grid.
pub open spec fn part_along(from: int, to: int, percent: int) -> int {
    from + (percent * (to - from)) / 100
}

/// The point `percent`% of the way from `from` to `to`, rounded down to the grid.
pub open spec fn point_along(from: Coord2, to: Coord2, percent: int) -> Coord2 {
    Coord2(part_along(from.0 as int, to.0 as int, percent) as i32, part_along(from.1 as int, to.1 as int, percent) as i32)
}

/// The control points of the closing edge of a graph made from a path lie less than one grid step below (in
/// each coordinate) the points exactly 33% and 66% of the way from the start point to the last point.
pub proof fn lemma_closing_edge_near(start: Coord2, last: Coord2)
    ensures
        near_point_fraction(start, last, 33, 100, point_along(start, last, 33)),
        near_point_fraction(start, last, 66, 100, point_along(start, last, 66)),
{
    lemma_fraction_along_near(start.0 as int, last.0 as int, 33, 100);
    lemma_fraction_along_near(start.1 as int, last.1 as int, 33, 100);
    lemma_fraction_along_near(start.0 as int, last.0 as int, 66, 100);
    lemma_fraction_along_near(start.1 as int, last.1 as int, 66, 100);
    assert(part_along(start.0 as int, last.0 as int, 33) == fraction_along(start.0 as int, last.0 as int, 33, 100));
    assert(part_along(start.1 as int, last.1 as int, 33) == fraction_along(start.1 as int, last.1 as int, 33, 100));
    assert(part_along(start.0 as int, last.0 as int, 66) == fraction_along(start.0 as int, last.0 as int, 66, 100));
    assert(part_along(start.1 as int, last.1 as int, 66) == fraction_along(start.1 as int, last.1 as int, 66, 100));
}

/// The points and edges of the graph made from a path (before its reverse connections are computed). If the
/// last kept section ends at the start point, its edge returns to point 0; otherwise a straight closing edge
/// (control points 33% and 66% of the way back) joins the last point to point 0.
pub open spec fn from_path_skeleton(start: Coord2, points: Seq<(Coord2, Coord2, Coord2)>, label: PathLabel) -> Seq<PointModel> {
    let kept = kept_sections(start, points, points.len());
    let k = kept.len();
    if k == 0 {
        Seq::empty()
    } else if kept[k - 1].2 == start {
        let chain = open_chain(start, kept, label);
        chain.take(k as int).update(
            k - 1,
            PointModel { edges: seq![new_edge_spec(kept[k - 1].0, kept[k - 1].1, 0, label)], ..chain[k - 1] },
        )
    } else {
        let chain = open_chain(start, kept, label);
        let last = kept[k - 1].2;
        chain.update(
            k as int,
            PointModel {
                edges: seq![new_edge_spec(point_along(start, last, 33), point_along(start, last, 66), 0, label)],
                ..chain[k as int]
            },
        )
    }
}

fn new_point(position: Coord2) -> (r: GraphPathPoint)
    ensures
        point_model(r) == (PointModel { position, edges: Seq::empty(), connected_from: Seq::empty() }),
{
    GraphPathPoint { position, forward_edges: edge_list_new(), connected_from: index_list_new() }
}

fn new_edge(cp1: Coord2, cp2: Coord2, end_idx: usize, label: PathLabel) -> (r: GraphPathEdge)
    ensures
        r == new_edge_spec(cp1, cp2, end_idx as int, label),
{
    GraphPathEdge { label, following_edge_idx: 0, kind: GraphPathEdgeKind::Uncategorised, cp1, cp2, end_idx }
}

proof fn lemma_kept_sections_bounded(start: Coord2, points: Seq<(Coord2, Coord2, Coord2)>, n: nat)
    ensures
        kept_sections(start, points, n).len() <= n,
    decreases n,
{
    if n > 0 {
        lemma_kept_sections_bounded(start, points, (n - 1) as nat);
    }
}

impl GraphPath {
    /// Creates a graph path from a bezier path: one point for the start and for the end of every section that
    /// moves away from the point before it, joined by uncategorised edges carrying `label`, closed back to the
    /// start point (by a straight edge when the path does not already end there)
    #[verifier::spinoff_prover]
    pub fn from_path(path: &SimpleBezierPath, label: PathLabel) -> (r: GraphPath)
        requires
            path.points@.len() < usize::MAX,
        ensures
            same_points_and_edges(r@, from_path_skeleton(path.start_point, path.points@, label)),
            graph_wf(r@),
            r.path_count() == 1,
    {
        let start_point = path.start_point;
        let ghost pts = path.points@;
        let mut points: Vec<GraphPathPoint> = Vec::new();

        // Push the start point (with an open path)
        points.push(new_point(start_point));

        // We'll add edges to the previous point
        let mut last_point_pos = start_point;
        let mut last_point_idx: usize = 0;
        let n = path.points.len();

        proof {
            assert(point_models(points@) =~= open_chain(start_point, kept_sections(start_point, pts, 0), label));
        }

        // Iterate through the points in the path
        for i in 0..n
            invariant
                n == pts.len(),
                pts == path.points@,
                n < usize::MAX,
                last_point_idx == kept_sections(start_point, pts, i as nat).len(),
                last_point_idx <= i,
                points@.len() == last_point_idx + 1,
                last_point_pos == chain_position(start_point, kept_sections(start_point, pts, i as nat), last_point_idx as int),
                point_models(points@) =~= open_chain(start_point, kept_sections(start_point, pts, i as nat), label),
        {
            let ghost kept = kept_sections(start_point, pts, i as nat);
            proof {
                lemma_kept_sections_bounded(start_point, pts, i as nat);
                if kept.len() > 0 {
                    assert(kept.last() == kept[last_point_idx - 1]);
                }
            }
            let (cp1, cp2, end_point) = path.points[i];
            // Ignore sections that stay at the last point
            if end_point == last_point_pos && cp1 == last_point_pos && cp2 == cp1 {
                proof {
                    assert(kept_sections(start_point, pts, (i + 1) as nat) == kept);
                }
            } else {
                let ghost before = points@;
                let ghost new_kept = kept.push(pts[i as int]);
                assert(kept_sections(start_point, pts, (i + 1) as nat) == new_kept);

                // Push the point and add an edge from the last point to it
                points.push(new_point(end_point));
                let next_point_idx = last_point_idx + 1;
                proof {
                    assert(point_models(before)[last_point_idx as int] == point_model(before[last_point_idx as int]));
                    assert(open_chain(start_point, kept, label)[last_point_idx as int].edges.len() == 0);
                    assert(points@[last_point_idx as int] == before[last_point_idx as int]);
                }
                edge_list_push(&mut points[last_point_idx].forward_edges, new_edge(cp1, cp2, next_point_idx, label));

                proof {
                    let chain = open_chain(start_point, new_kept, label);
                    assert forall|j: int| 0 <= j < chain.len() implies #[trigger] point_models(points@)[j] == chain[j] by {
                        assert(point_models(points@)[j] == point_model(points@[j]));
                        if j < last_point_idx {
                            assert(points@[j] == before[j]);
                            assert(point_models(before)[j] == point_model(before[j]));
                            assert(open_chain(start_point, kept, label)[j] == point_models(before)[j]);
                            assert(chain[j].edges =~= open_chain(start_point, kept, label)[j].edges);
                        } else if j == last_point_idx {
                            assert(point_models(before)[j] == point_model(before[j]));
                            assert(open_chain(start_point, kept, label)[j] == point_models(before)[j]);
                            assert(point_model(points@[j]).edges =~= chain[j].edges);
                        } else {
                            assert(point_model(points@[j]).edges =~= chain[j].edges);
                        }
                    }
                    assert(point_models(points@) =~= chain);
                }

                last_point_idx = next_point_idx;
                last_point_pos = end_point;
            }
        }

        let ghost kept = kept_sections(start_point, pts, n as nat);
        let ghost chain = open_chain(start_point, kept, label);

        // Close the path
        if last_point_idx > 0 {
            proof {
                assert(chain[last_point_idx as int].position == kept[last_point_idx - 1].2);
                assert(point_models(points@)[last_point_idx as int] == point_model(points@[last_point_idx as int]));
            }
            if points[last_point_idx].position == start_point {
                // Remove the last point (we're replacing it with an edge back to the start)
                let ghost before = points@;
                points.pop();
                last_point_idx = last_point_idx - 1;

                // Change the edge to point back to the start
                proof {
                    assert(point_models(before)[last_point_idx as int] == point_model(before[last_point_idx as int]));
                    assert(chain[last_point_idx as int].edges.len() == 1);
                }
                let mut closing = edge_list_get(&points[last_point_idx].forward_edges, 0);
                closing.end_idx = 0;
                let ghost before_set = points@;
                edge_list_set(&mut points[last_point_idx].forward_edges, 0, closing);
                proof {
                    let skeleton = from_path_skeleton(start_point, pts, label);
                    assert forall|j: int| 0 <= j < skeleton.len() implies #[trigger] point_models(points@)[j] == skeleton[j] by {
                        assert(point_models(points@)[j] == point_model(points@[j]));
                        assert(point_models(before)[j] == point_model(before[j]));
                        if j < last_point_idx {
                            assert(points@[j] == before[j]);
                        } else {
                            assert(point_model(points@[j]).edges =~= skeleton[j].edges);
                        }
                    }
                    assert(point_models(points@) =~= skeleton);
                }
            } else {
                // Need to draw a line from the last point back to the start
                let last_pos = points[last_point_idx].position;
                let cp1 = Coord2(fraction_along_exec(start_point.0, last_pos.0, 33, 100), fraction_along_exec(start_point.1, last_pos.1, 33, 100));
                let cp2 = Coord2(fraction_along_exec(start_point.0, last_pos.0, 66, 100), fraction_along_exec(start_point.1, last_pos.1, 66, 100));
                let ghost before = points@;
                edge_list_push(&mut points[last_point_idx].forward_edges, new_edge(cp1, cp2, 0, label));
                proof {
                    let skeleton = from_path_skeleton(start_point, pts, label);
                    assert forall|j: int| 0 <= j < skeleton.len() implies #[trigger] point_models(points@)[j] == skeleton[j] by {
                        assert(point_models(points@)[j] == point_model(points@[j]));
                        assert(point_models(before)[j] == point_model(before[j]));
                        if j < last_point_idx {
                            assert(points@[j] == before[j]);
                        } else {
                            assert(point_model(points@[j]).edges =~= skeleton[j].edges);
                        }
                    }
                    assert(point_models(points@) =~= skeleton);
                }
            }
        } else {
            // Just a start point and no edges: remove the start point as it doesn't really make sense
            points.pop();
            proof {
                assert(point_models(points@) =~= from_path_skeleton(start_point, pts, label));
            }
        }

        // Create the graph path from the points
        let mut graph = GraphPath { points, next_path_index: 1 };
        proof {
            assert(graph@ == from_path_skeleton(start_point, pts, label));
        }
        graph.recalculate_reverse_connections();
        proof {
            assert(edges_well_formed(graph@));
        }
        graph
    }
}

/// The graphs made from the first `n` labelled paths, merged in order (points and edges only).
pub open spec fn merged_skeletons(paths: Seq<(SimpleBezierPath, PathLabel)>, n: nat) -> Seq<PointModel>
    decreases n,
{
    if n == 0 {
        Seq::empty()
    } else {
        merged_model(
            merged_skeletons(paths, (n - 1) as nat),
            from_path_skeleton(paths[n - 1].0.start_point, paths[n - 1].0.points@, paths[n - 1].1),
        )
    }
}

/// An upper bound on the number of points of the graph made from the first `n` paths.
pub open spec fn merged_point_bound(paths: Seq<(SimpleBezierPath, PathLabel)>, n: nat) -> int
    decreases n,
{
    if n == 0 {
        0
    } else {
        merged_point_bound(paths, (n - 1) as nat) + paths[n - 1].0.points@.len() + 1
    }
}

proof fn lemma_skeleton_len(start: Coord2, points: Seq<(Coord2, Coord2, Coord2)>, label: PathLabel)
    ensures
        from_path_skeleton(start, points, label).len() <= points.len() + 1,
{
    lemma_kept_sections_bounded(start, points, points.len());
}

proof fn lemma_merged_skeletons_len(paths: Seq<(SimpleBezierPath, PathLabel)>, n: nat)
    requires
        n <= paths.len(),
    ensures
        merged_skeletons(paths, n).len() <= merged_point_bound(paths, n),
        merged_point_bound(paths, n) >= 0,
    decreases n,
{
    if n > 0 {
        lemma_merged_skeletons_len(paths, (n - 1) as nat);
        lemma_skeleton_len(paths[n - 1].0.start_point, paths[n - 1].0.points@, paths[n - 1].1);
    }
}

proof fn lemma_merged_bound_monotonic(paths: Seq<(SimpleBezierPath, PathLabel)>, m: nat, n: nat)
    requires
        m <= n <= paths.len(),
    ensures
        merged_point_bound(paths, m) <= merged_point_bound(paths, n),
    decreases n,
{
    if m < n {
        lemma_merged_bound_monotonic(paths, m, (n - 1) as nat);
    }
}

/// Merging keeps points and edges when the parts have the same points and edges.
proof fn lemma_merged_same(x: Seq<PointModel>, xs: Seq<PointModel>, y: Seq<PointModel>, ys: Seq<PointModel>)
    requires
        same_points_and_edges(x, xs),
        same_points_and_edges(y, ys),
    ensures
        same_points_and_edges(merged_model(x, y), merged_model(xs, ys)),
{
    let a = merged_model(x, y);
    let b = merged_model(xs, ys);
    assert forall|p: int| #![trigger a[p]] #![trigger b[p]] 0 <= p < a.len() implies a[p].position == b[p].position && a[p].edges == b[p].edges by {
        if p >= x.len() {
            assert(y[p - x.len()].edges == ys[p - x.len()].edges);
            assert(a[p].edges =~= b[p].edges);
        }
    }
}

impl GraphPath {
    /// Creates a new graph path by merging (not colliding) a set of paths with their labels
    #[verifier::spinoff_prover]
    pub fn from_merged_paths(paths: &Vec<(SimpleBezierPath, PathLabel)>) -> (r: GraphPath)
        requires
            merged_point_bound(paths@, paths@.len()) <= usize::MAX,
        ensures
            same_points_and_edges(r@, merged_skeletons(paths@, paths@.len())),
            graph_wf(r@),
            r.path_count() == paths@.len(),
    {
        // Create an empty path
        let mut merged_path = GraphPath::new();
        let n = paths.len();
        proof {
            assert(merged_path@ =~= merged_skeletons(paths@, 0));
        }

        // Merge each path in turn
        for i in 0..n
            invariant
                n == paths@.len(),
                merged_point_bound(paths@, n as nat) <= usize::MAX,
                same_points_and_edges(merged_path@, merged_skeletons(paths@, i as nat)),
                graph_wf(merged_path@),
                merged_path.path_count() == i,
        {
            let (path, label) = &paths[i];
            proof {
                assert(*path == paths@[i as int].0 && *label == paths@[i as int].1);
                lemma_merged_skeletons_len(paths@, i as nat);
                lemma_merged_skeletons_len(paths@, (i + 1) as nat);
                lemma_merged_bound_monotonic(paths@, (i + 1) as nat, n as nat);
                lemma_skeleton_len(path.start_point, path.points@, *label);
            }
            let next = GraphPath::from_path(path, *label);
            proof {
                lemma_merged_same(merged_path@, merged_skeletons(paths@, i as nat), next@, from_path_skeleton(path.start_point, path.points@, *label));
            }
            merged_path = merged_path.merge(next);
        }

        merged_path
    }
}

/// The ref that follows an edge ref: for a forward ref, the following edge on its end point; for a reversed
/// ref, the first edge (in the order of `reverse_edge_refs`) that arrives at its start point, reversed.
pub open spec fn following_ref_spec(g: Seq<PointModel>, r: GraphEdgeRef) -> GraphEdgeRef {
    if r.reverse {
        reverse_edge_refs(g, r.start_idx as int)[0]
    } else {
        GraphEdgeRef { start_idx: edge_at(g, r).end_idx, edge_idx: edge_at(g, r).following_edge_idx, reverse: false }
    }
}

proof fn lemma_reverse_refs_prefix(g: Seq<PointModel>, q: int, k: nat)
    requires
        1 <= k <= g[q].connected_from.len(),
    ensures
        reverse_refs_upto(g, q, k).len() >= reverse_refs_upto(g, q, 1).len(),
        forall|i: int| 0 <= i < reverse_refs_upto(g, q, 1).len() ==> #[trigger] reverse_refs_upto(g, q, k)[i] == reverse_refs_upto(g, q, 1)[i],
    decreases k,
{
    if k > 1 {
        lemma_reverse_refs_prefix(g, q, (k - 1) as nat);
    }
}

proof fn lemma_edges_into_first(g: Seq<PointModel>, c: int, q: int, m: nat, e: int)
    requires
        0 <= e < m <= g[c].edges.len(),
        g[c].edges[e].end_idx == q,
        forall|f: int| 0 <= f < e ==> g[c].edges[f].end_idx != q,
        m <= usize::MAX + 1,
        c <= usize::MAX,
    ensures
        edges_into_upto(g, c, q, m).len() > 0,
        edges_into_upto(g, c, q, m)[0] == (GraphEdgeRef { start_idx: c as usize, edge_idx: e as usize, reverse: true }),
    decreases m,
{
    if e < m - 1 {
        lemma_edges_into_first(g, c, q, (m - 1) as nat, e);
    } else {
        lemma_edges_into_empty(g, c, q, e as nat);
    }
}

proof fn lemma_edges_into_empty(g: Seq<PointModel>, c: int, q: int, m: nat)
    requires
        m <= g[c].edges.len(),
        forall|f: int| 0 <= f < m ==> g[c].edges[f].end_idx != q,
    ensures
        edges_into_upto(g, c, q, m) == Seq::<GraphEdgeRef>::empty(),
    decreases m,
{
    if m > 0 {
        lemma_edges_into_empty(g, c, q, (m - 1) as nat);
    }
}

impl GraphPath {
    /// Given an edge ref, returns the edge ref that follows it
    pub fn following_edge_ref(&self, edge_ref: GraphEdgeRef) -> (r: GraphEdgeRef)
        requires
            graph_wf(self@),
            valid_ref(self@, edge_ref),
            edge_ref.reverse ==> self@[edge_ref.start_idx as int].connected_from.len() > 0,
        ensures
            r == following_ref_spec(self@, edge_ref),
    {
        let ghost g = self@;
        if edge_ref.reverse {
            // Search the points this point is connected from for an edge that arrives here
            let q = edge_ref.start_idx;
            let num_points = self.points.len();
            proof {
                assert(g[q as int] == point_model(self.points@[q as int]));
                assert(g.len() == num_points);
                lemma_sources_upto_bounded(g, q as int, g.len());
            }
            let connected_from = index_list_get(&self.points[q].connected_from, 0);
            proof {
                assert(g[connected_from as int] == point_model(self.points@[connected_from as int]));
                assert(has_edge_to(g, connected_from as int, q as int));
            }
            let ghost witness = choose|e: int| 0 <= e < g[connected_from as int].edges.len() && #[trigger] g[connected_from as int].edges[e].end_idx == q;
            let num_edges = edge_list_len(&self.points[connected_from].forward_edges);
            let mut edge_idx: usize = 0;
            while edge_idx < num_edges
                invariant
                    g == self@,
                    edge_ref.reverse,
                    edge_ref.start_idx == q,
                    q < g.len(),
                    g.len() <= usize::MAX,
                    g[q as int].connected_from.len() > 0,
                    g[q as int].connected_from[0] == connected_from,
                    connected_from < g.len(),
                    num_edges == g[connected_from as int].edges.len(),
                    0 <= witness < num_edges,
                    g[connected_from as int].edges[witness].end_idx == q,
                    edge_idx <= witness,
                    forall|f: int| 0 <= f < edge_idx ==> g[connected_from as int].edges[f].end_idx != q,
                decreases num_edges - edge_idx,
            {
                proof {
                    assert(g[connected_from as int] == point_model(self.points@[connected_from as int]));
                }
                if edge_list_get(&self.points[connected_from].forward_edges, edge_idx).end_idx == q {
                    proof {
                        lemma_edges_into_first(g, connected_from as int, q as int, num_edges as nat, edge_idx as int);
                        lemma_reverse_refs_prefix(g, q as int, g[q as int].connected_from.len());
                        assert(reverse_refs_upto(g, q as int, 1) =~= reverse_refs_upto(g, q as int, 0) + edges_into_upto(g, connected_from as int, q as int, num_edges as nat));
                        let first = GraphEdgeRef { start_idx: connected_from, edge_idx, reverse: true };
                        assert(reverse_refs_upto(g, q as int, 1)[0] == first);
                        assert(reverse_refs_upto(g, q as int, g[q as int].connected_from.len())[0] == first);
                    }
                    return GraphEdgeRef { start_idx: connected_from, edge_idx, reverse: true };
                }
                edge_idx = edge_idx + 1;
            }
            // The witness edge ends at this point, so the search always succeeds before this
            proof {
                assert(false);
            }
            GraphEdgeRef { start_idx: connected_from, edge_idx: 0, reverse: true }
        } else {
            // Can just use the following edge
            let edge = self.edge(edge_ref);
            GraphEdgeRef { start_idx: edge.end_idx, edge_idx: edge.following_edge_idx, reverse: false }
        }
    }

    /// Returns true if the specified edge is very short: it starts and ends at the same point and its control
    /// points are at that point too (within `CLOSE_DISTANCE`, which on the grid means equal)
    pub fn edge_is_very_short(&self, edge_ref: GraphEdgeRef) -> (r: bool)
        requires
            valid_ref(self@, edge_ref),
            edges_well_formed(self@),
        ensures
            r == is_very_short(self@, edge_ref),
    {
        let edge = self.edge(edge_ref);
        if edge_ref.start_idx == edge.end_idx {
            let start_point = self.points[edge_ref.start_idx].position;
            let end_point = self.points[edge.end_idx].position;
            proof {
                assert(self@[edge_ref.start_idx as int] == point_model(self.points@[edge_ref.start_idx as int]));
                assert(self@[edge.end_idx as int] == point_model(self.points@[edge.end_idx as int]));
            }
            start_point == end_point && start_point == edge.cp1 && edge.cp1 == edge.cp2 && edge.cp2 == end_point
        } else {
            false
        }
    }
}

/// The edge starts and ends at the same point and its control points are at that point too (within
/// `CLOSE_DISTANCE`, which on the grid means equal).
pub open spec fn is_very_short(g: Seq<PointModel>, r: GraphEdgeRef) -> bool {
    let edge = edge_at(g, r);
    let start = g[r.start_idx as int].position;
    &&& r.start_idx == edge.end_idx
    &&& start == g[edge.end_idx as int].position
    &&& start == edge.cp1
    &&& edge.cp1 == edge.cp2
    &&& edge.cp2 == g[edge.end_idx as int].position
}

/// The edges visited walking forward from `cur` through points with a single outgoing edge, stopping at a
/// point with more or fewer edges or at a point already in `visited`.
pub open spec fn forward_walk(g: Seq<PointModel>, cur: GraphEdgeRef, visited: Set<int>, fuel: nat) -> Seq<GraphEdgeRef>
    decreases fuel,
{
    let visited = visited.insert(cur.start_idx as int);
    let end = edge_at(g, cur).end_idx as int;
    let here = GraphEdgeRef { reverse: false, ..cur };
    if fuel == 0 || g[end].edges.len() != 1 || visited.contains(end) {
        seq![here]
    } else {
        seq![here] + forward_walk(g, GraphEdgeRef { start_idx: end as usize, edge_idx: 0, reverse: false }, visited, (fuel - 1) as nat)
    }
}

/// The points visited by `forward_walk`.
pub open spec fn forward_visited(g: Seq<PointModel>, cur: GraphEdgeRef, visited: Set<int>, fuel: nat) -> Set<int>
    decreases fuel,
{
    let visited = visited.insert(cur.start_idx as int);
    let end = edge_at(g, cur).end_idx as int;
    if fuel == 0 || g[end].edges.len() != 1 || visited.contains(end) {
        visited
    } else {
        forward_visited(g, GraphEdgeRef { start_idx: end as usize, edge_idx: 0, reverse: false }, visited, (fuel - 1) as nat)
    }
}

/// The edges visited walking backwards from `cur`, through points reached from a single point by a single
/// edge, stopping (after taking it) at an edge that starts from a point already visited.
pub open spec fn backward_walk(g: Seq<PointModel>, cur: GraphEdgeRef, visited: Set<int>, fuel: nat) -> Seq<GraphEdgeRef>
    decreases fuel,
{
    let p = cur.start_idx as int;
    let visited = visited.insert(p);
    if fuel == 0 || g[p].connected_from.len() != 1 {
        Seq::empty()
    } else {
        let prev = g[p].connected_from[0] as int;
        let into = edges_into_upto(g, prev, p, g[prev].edges.len());
        if into.len() != 1 {
            Seq::empty()
        } else {
            let e = GraphEdgeRef { start_idx: prev as usize, edge_idx: into[0].edge_idx, reverse: false };
            if visited.contains(prev) {
                seq![e]
            } else {
                seq![e] + backward_walk(g, e, visited, (fuel - 1) as nat)
            }
        }
    }
}

/// The edges whose kind `set_edge_kind_connected` sets: the edge itself and the edges joined to it, forwards
/// and backwards, up to the first point where the path branches or loops back.
pub open spec fn connected_walk(g: Seq<PointModel>, edge: GraphEdgeRef) -> Seq<GraphEdgeRef> {
    forward_walk(g, edge, Set::empty(), g.len())
        + backward_walk(g, edge, forward_visited(g, edge, Set::empty(), g.len()), g.len())
}

proof fn lemma_edges_into_valid(g: Seq<PointModel>, c: int, q: int, m: nat)
    requires
        m <= g[c].edges.len(),
        m <= usize::MAX + 1,
        0 <= c <= usize::MAX,
    ensures
        forall|i: int|
            0 <= i < edges_into_upto(g, c, q, m).len() ==> (#[trigger] edges_into_upto(g, c, q, m)[i]).edge_idx < m
                && edges_into_upto(g, c, q, m)[i].start_idx == c && g[c].edges[edges_into_upto(g, c, q, m)[i].edge_idx as int].end_idx == q,
    decreases m,
{
    if m > 0 {
        lemma_edges_into_valid(g, c, q, (m - 1) as nat);
    }
}

proof fn lemma_edges_into_of_edge(g: Seq<PointModel>, c: int, q: int, m: nat, e: int)
    requires
        0 <= e < m <= g[c].edges.len(),
        m <= usize::MAX + 1,
        g[c].edges[e].end_idx == q,
    ensures
        edges_into_upto(g, c, q, m).len() >= 1,
    decreases m,
{
    if e < m - 1 {
        lemma_edges_into_of_edge(g, c, q, (m - 1) as nat, e);
    }
}

proof fn lemma_set_range_len(s: Set<int>, n: int)
    requires
        n >= 0,
        forall|i: int| s.contains(i) ==> 0 <= i < n,
    ensures
        s.finite(),
        s.len() <= n,
{
    vstd::set_lib::lemma_int_range(0, n);
    assert(s.subset_of(vstd::set_lib::set_int_range(0, n)));
    vstd::set_lib::lemma_len_subset(s, vstd::set_lib::set_int_range(0, n));
}

/// Setting the kind of an edge keeps everything else about a graph.
proof fn lemma_with_edge_kind_same(g0: Seq<PointModel>, g: Seq<PointModel>, r: GraphEdgeRef, kind: GraphPathEdgeKind)
    requires
        same_except_kinds(g0, g),
        valid_ref(g, r),
    ensures
        same_except_kinds(g0, with_edge_kind(g, r, kind)),
        forall|p: int, e: int|
            0 <= p < g.len() && 0 <= e < g[p].edges.len() ==> #[trigger] with_edge_kind(g, r, kind)[p].edges[e].kind == (if p
                == r.start_idx && e == r.edge_idx {
                kind
            } else {
                g[p].edges[e].kind
            }),
{
    let h = with_edge_kind(g, r, kind);
    assert(h.len() == g0.len());
    assert forall|p: int| 0 <= p < g0.len() implies {
        &&& #[trigger] g0[p].position == h[p].position
        &&& g0[p].connected_from == h[p].connected_from
        &&& g0[p].edges.len() == h[p].edges.len()
        &&& forall|e: int|
            0 <= e < g0[p].edges.len() ==> (GraphPathEdge { kind: h[p].edges[e].kind, ..#[trigger] g0[p].edges[e] }) == h[p].edges[e]
    } by {
        assert(g0[p].position == g[p].position);
        assert(h[p].position == g[p].position);
        assert(h[p].connected_from == g[p].connected_from);
        assert(h[p].edges.len() == g[p].edges.len());
        assert forall|e: int| 0 <= e < g0[p].edges.len() implies (GraphPathEdge { kind: h[p].edges[e].kind, ..#[trigger] g0[p].edges[e] })
            == h[p].edges[e] by {
            assert((GraphPathEdge { kind: g[p].edges[e].kind, ..g0[p].edges[e] }) == g[p].edges[e]);
            if p == r.start_idx && e == r.edge_idx {
                assert(h[p].edges[e] == GraphPathEdge { kind, ..g[p].edges[e] });
            } else {
                assert(h[p].edges[e] == g[p].edges[e]);
            }
        }
    }
}

proof fn lemma_set_contains_len<A>(s: Set<A>, x: A)
    requires
        s.finite(),
        s.contains(x),
    ensures
        s.len() >= 1,
{
    assert(s.remove(x).insert(x) =~= s);
    vstd::set::axiom_set_insert_len(s.remove(x), x);
    vstd::set::axiom_set_remove_finite(s, x);
}

/// Graphs that differ only in the kinds of their edges have the same walks, and one is well formed when the
/// other is.
/// The same points, connections and edge ends and following edges (the kinds and labels of edges may differ).
pub open spec fn same_shape(a: Seq<PointModel>, b: Seq<PointModel>) -> bool {
    &&& a.len() == b.len()
    &&& forall|p: int|
        0 <= p < a.len() ==> {
            &&& #[trigger] a[p].position == b[p].position
            &&& a[p].connected_from == b[p].connected_from
            &&& a[p].edges.len() == b[p].edges.len()
            &&& forall|e: int|
                0 <= e < a[p].edges.len() ==> #[trigger] a[p].edges[e].end_idx == b[p].edges[e].end_idx
                    && a[p].edges[e].following_edge_idx == b[p].edges[e].following_edge_idx
        }
}

proof fn lemma_same_shape_sources(a: Seq<PointModel>, b: Seq<PointModel>, q: int, m: nat)
    requires
        same_shape(a, b),
        m <= a.len(),
    ensures
        sources_upto(a, q, m) == sources_upto(b, q, m),
    decreases m,
{
    if m > 0 {
        lemma_same_shape_sources(a, b, q, (m - 1) as nat);
        let p = m - 1;
        assert(a[p].position == b[p].position);
        if has_edge_to(a, p, q) {
            let e = choose|e: int| 0 <= e < a[p].edges.len() && #[trigger] a[p].edges[e].end_idx == q;
            assert(a[p].edges[e].end_idx == b[p].edges[e].end_idx);
            assert(has_edge_to(b, p, q));
        }
        if has_edge_to(b, p, q) {
            let e = choose|e: int| 0 <= e < b[p].edges.len() && #[trigger] b[p].edges[e].end_idx == q;
            assert(a[p].edges[e].end_idx == b[p].edges[e].end_idx);
            assert(has_edge_to(a, p, q));
        }
    }
}

/// Graphs of the same shape are well formed together: changing only the kinds or labels of edges keeps a graph
/// well formed.
pub proof fn lemma_same_shape_wf(a: Seq<PointModel>, b: Seq<PointModel>)
    requires
        same_shape(a, b),
    ensures
        graph_wf(a) ==> graph_wf(b),
        removal_wf(a) ==> removal_wf(b),
{
    assert forall|p: int, e: int| #![trigger b[p].edges[e]] 0 <= p < b.len() && 0 <= e < b[p].edges.len() implies
        a[p].edges[e].end_idx == b[p].edges[e].end_idx && a[p].edges[e].following_edge_idx == b[p].edges[e].following_edge_idx
        && a[p].edges.len() == b[p].edges.len() by {
        assert(a[p].position == b[p].position);
        assert(a[p].edges[e].end_idx == b[p].edges[e].end_idx);
    }
    assert forall|p: int| 0 <= p < b.len() implies #[trigger] b[p].connected_from == a[p].connected_from && a[p].edges.len()
        == b[p].edges.len() by {
        assert(a[p].position == b[p].position);
    }
    if edges_well_formed(a) {
        assert forall|p: int, e: int| #![trigger b[p].edges[e]] 0 <= p < b.len() && 0 <= e < b[p].edges.len() implies {
            &&& b[p].edges[e].end_idx < b.len()
            &&& b[p].edges[e].following_edge_idx < b[b[p].edges[e].end_idx as int].edges.len()
        } by {
            assert(a[p].edges[e].end_idx < a.len());
            let end = a[p].edges[e].end_idx as int;
            assert(a[end].position == b[end].position);
        }
    }
    if graph_wf(a) {
        assert forall|q: int| 0 <= q < b.len() implies #[trigger] b[q].connected_from == sources(b, q) by {
            assert(a[q].position == b[q].position);
            assert(a[q].connected_from == sources(a, q));
            lemma_same_shape_sources(a, b, q, b.len());
        }
    }
    if removal_wf(a) {
        assert forall|p1: int, e1: int, p2: int, e2: int|
            #![trigger b[p1].edges[e1], b[p2].edges[e2]]
            0 <= p1 < b.len() && 0 <= e1 < b[p1].edges.len() && 0 <= p2 < b.len() && 0 <= e2 < b[p2].edges.len()
                && b[p1].edges[e1].end_idx == b[p2].edges[e2].end_idx && b[p1].edges[e1].following_edge_idx
                == b[p2].edges[e2].following_edge_idx implies p1 == p2 && e1 == e2 by {
            assert(a[p1].edges[e1].end_idx == b[p1].edges[e1].end_idx);
            assert(a[p2].edges[e2].end_idx == b[p2].edges[e2].end_idx);
        }
        assert forall|q: int, i: int, j: int|
            0 <= q < b.len() && 0 <= i < j < b[q].connected_from.len() implies #[trigger] b[q].connected_from[i]
                < #[trigger] b[q].connected_from[j] by {
            assert(a[q].position == b[q].position);
        }
        assert forall|q: int, i: int| 0 <= q < b.len() && 0 <= i < b[q].connected_from.len() implies #[trigger] b[q].connected_from[i]
            < b.len() by {
            assert(a[q].position == b[q].position);
        }
        assert forall|p: int, e: int| #![trigger b[p].edges[e]] 0 <= p < b.len() && 0 <= e < b[p].edges.len() implies b[b[p].edges[e].end_idx
            as int].connected_from.contains(p as usize) by {
            assert(a[p].edges[e].end_idx == b[p].edges[e].end_idx);
            let end = a[p].edges[e].end_idx as int;
            assert(a[end].position == b[end].position);
        }
    }
}

proof fn lemma_same_except_kinds_wf(g0: Seq<PointModel>, g: Seq<PointModel>)
    requires
        same_except_kinds(g0, g),
        graph_wf(g0),
    ensures
        graph_wf(g),
        forall|r: GraphEdgeRef| valid_ref(g0, r) ==> #[trigger] edge_at(g, r).end_idx == edge_at(g0, r).end_idx,
        forall|r: GraphEdgeRef| #[trigger] valid_ref(g0, r) ==> valid_ref(g, r),
{
    assert forall|r: GraphEdgeRef| #[trigger] valid_ref(g0, r) implies valid_ref(g, r) by {
        assert(g0[r.start_idx as int].position == g[r.start_idx as int].position);
    }
    assert forall|r: GraphEdgeRef| valid_ref(g0, r) implies #[trigger] edge_at(g, r).end_idx == edge_at(g0, r).end_idx by {
        let p = r.start_idx as int;
        assert(g0[p].position == g[p].position);
        assert((GraphPathEdge { kind: g[p].edges[r.edge_idx as int].kind, ..g0[p].edges[r.edge_idx as int] }) == g[p].edges[r.edge_idx as int]);
    }
    assert forall|p: int, e: int| #![trigger g[p].edges[e]] 0 <= p < g.len() && 0 <= e < g[p].edges.len() implies {
        &&& g[p].edges[e].end_idx < g.len()
        &&& g[p].edges[e].following_edge_idx < g[g[p].edges[e].end_idx as int].edges.len()
    } by {
        assert(g0[p].position == g[p].position);
        assert((GraphPathEdge { kind: g[p].edges[e].kind, ..g0[p].edges[e] }) == g[p].edges[e]);
        assert(g0[p].edges[e].end_idx < g0.len());
        let end = g0[p].edges[e].end_idx as int;
        assert(g0[end].position == g[end].position);
    }
    lemma_same_except_kinds_sources(g0, g);
}

proof fn lemma_same_except_kinds_sources(g0: Seq<PointModel>, g: Seq<PointModel>)
    requires
        same_except_kinds(g0, g),
        connections_consistent(g0),
    ensures
        connections_consistent(g),
{
    assert forall|q: int| 0 <= q < g.len() implies #[trigger] g[q].connected_from == sources(g, q) by {
        assert(g0[q].position == g[q].position);
        lemma_sources_same_ends(g0, g, q, g.len());
    }
}

proof fn lemma_sources_same_ends(g0: Seq<PointModel>, g: Seq<PointModel>, q: int, m: nat)
    requires
        same_except_kinds(g0, g),
        m <= g.len(),
    ensures
        sources_upto(g0, q, m) == sources_upto(g, q, m),
    decreases m,
{
    if m > 0 {
        lemma_sources_same_ends(g0, g, q, (m - 1) as nat);
        let p = m - 1;
        assert(g0[p].position == g[p].position);
        if has_edge_to(g0, p, q) {
            let e = choose|e: int| 0 <= e < g0[p].edges.len() && #[trigger] g0[p].edges[e].end_idx == q;
            assert((GraphPathEdge { kind: g[p].edges[e].kind, ..g0[p].edges[e] }) == g[p].edges[e]);
            assert(g[p].edges[e].end_idx == q);
            assert(has_edge_to(g, p, q));
        }
        if has_edge_to(g, p, q) {
            let e = choose|e: int| 0 <= e < g[p].edges.len() && #[trigger] g[p].edges[e].end_idx == q;
            assert((GraphPathEdge { kind: g[p].edges[e].kind, ..g0[p].edges[e] }) == g[p].edges[e]);
            assert(g0[p].edges[e].end_idx == q);
            assert(has_edge_to(g0, p, q));
        }
    }
}

/// The kind of every edge is `kind` if the edge is in `done`, and what it was in `g0` otherwise.
pub open spec fn kinds_follow(g0: Seq<PointModel>, g: Seq<PointModel>, done: Seq<GraphEdgeRef>, kind: GraphPathEdgeKind) -> bool {
    forall|p: int, e: int|
        0 <= p < g0.len() && 0 <= e < g0[p].edges.len() ==> #[trigger] g[p].edges[e].kind == (if walk_covers(done, p, e) {
            kind
        } else {
            g0[p].edges[e].kind
        })
}

/// Some ref in the walk names edge `e` of point `p`.
pub open spec fn walk_covers(done: Seq<GraphEdgeRef>, p: int, e: int) -> bool {
    exists|i: int| 0 <= i < done.len() && #[trigger] done[i].start_idx == p && done[i].edge_idx == e
}

proof fn lemma_kinds_follow_step(
    g0: Seq<PointModel>,
    before: Seq<PointModel>,
    done: Seq<GraphEdgeRef>,
    here: GraphEdgeRef,
    kind: GraphPathEdgeKind,
)
    requires
        same_except_kinds(g0, before),
        kinds_follow(g0, before, done, kind),
        valid_ref(before, here),
        !here.reverse,
    ensures
        kinds_follow(g0, with_edge_kind(before, here, kind), done.push(here), kind),
        same_except_kinds(g0, with_edge_kind(before, here, kind)),
{
    lemma_with_edge_kind_same(g0, before, here, kind);
    let after = with_edge_kind(before, here, kind);
    let done2 = done.push(here);
    assert forall|p: int, e: int| 0 <= p < g0.len() && 0 <= e < g0[p].edges.len() implies #[trigger] after[p].edges[e].kind == (if walk_covers(done2, p, e) {
        kind
    } else {
        g0[p].edges[e].kind
    }) by {
        assert(g0[p].position == before[p].position);
        assert(before[p].edges[e].kind == (if walk_covers(done, p, e) { kind } else { g0[p].edges[e].kind }));
        if p == here.start_idx && e == here.edge_idx {
            assert(done2[done.len() as int] == here);
            assert(walk_covers(done2, p, e));
        } else {
            if walk_covers(done2, p, e) {
                let i = choose|i: int| 0 <= i < done2.len() && #[trigger] done2[i].start_idx == p && done2[i].edge_idx == e;
                assert(done[i] == done2[i]);
                assert(walk_covers(done, p, e));
            }
            if walk_covers(done, p, e) {
                let i = choose|i: int| 0 <= i < done.len() && #[trigger] done[i].start_idx == p && done[i].edge_idx == e;
                assert(done2[i] == done[i]);
                assert(walk_covers(done2, p, e));
            }
        }
    }
}

impl GraphPath {
    /// Sets the kind of an edge and of the edges connected to it where there are no intersections: walking
    /// forwards while each point has a single outgoing edge, and backwards while each point is reached from a
    /// single point by a single edge, stopping when the walk comes back round to a point it has visited
    #[verifier::spinoff_prover]
    pub fn set_edge_kind_connected(&mut self, edge: GraphEdgeRef, kind: GraphPathEdgeKind)
        requires
            graph_wf(old(self)@),
            valid_ref(old(self)@, edge),
        ensures
            same_except_kinds(old(self)@, final(self)@),
            graph_wf(final(self)@),
            final(self).path_count() == old(self).path_count(),
            kinds_follow(old(self)@, final(self)@, connected_walk(old(self)@, edge), kind),
    {
        let ghost g0 = self@;
        let n = self.points.len();
        let mut visited: Vec<bool> = vec![false; n];
        let ghost mut vis: Set<int> = Set::empty();
        let ghost mut done: Seq<GraphEdgeRef> = Seq::empty();
        let ghost mut fuel: nat = n as nat;
        let mut current_edge = edge;
        let ghost total_forward = forward_walk(g0, edge, Set::empty(), n as nat);
        let ghost visited_forward = forward_visited(g0, edge, Set::empty(), n as nat);
        proof {
            assert(g0.len() == n);
            assert(done + forward_walk(g0, current_edge, vis, fuel) =~= total_forward);
            assert(same_except_kinds(g0, self@));
            assert(kinds_follow(g0, self@, done, kind));
        }

        // Move forward
        loop
            invariant_except_break
                !vis.contains(current_edge.start_idx as int),
                done + forward_walk(g0, current_edge, vis, fuel) == total_forward,
                forward_visited(g0, current_edge, vis, fuel) == visited_forward,
            invariant
                n == g0.len(),
                n == visited@.len(),
                graph_wf(g0),
                same_except_kinds(g0, self@),
                self.path_count() == old(self).path_count(),
                valid_ref(g0, current_edge),
                current_edge == edge || vis.contains(edge.start_idx as int),
                forall|i: int| 0 <= i < n ==> visited@[i] == vis.contains(i),
                forall|i: int| vis.contains(i) ==> 0 <= i < n,
                fuel + vis.len() >= n,
                forall|i: int| 0 <= i < done.len() ==> valid_ref(g0, #[trigger] done[i]),
                kinds_follow(g0, self@, done, kind),
            ensures
                done == total_forward,
                vis == visited_forward,
                vis.contains(edge.start_idx as int),
            decreases fuel,
        {
            proof {
                lemma_set_range_len(vis, n as int);
                lemma_set_range_len(vis.insert(current_edge.start_idx as int), n as int);
                lemma_same_except_kinds_wf(g0, self@);
            }
            let ghost vis0 = vis;
            let ghost fuel0 = fuel;
            let here = GraphEdgeRef { reverse: false, ..current_edge };
            proof {
                assert(fuel0 >= 1);
                lemma_kinds_follow_step(g0, self@, done, here, kind);
            }

            // Set the kind of the current edge
            self.set_edge_kind(here, kind);
            visited.set(current_edge.start_idx, true);
            proof {
                done = done.push(here);
                vis = vis.insert(current_edge.start_idx as int);
                if current_edge.start_idx == edge.start_idx {
                    assert(vis.contains(edge.start_idx as int));
                }
            }

            // Pick the next edge
            let end_idx = self.edge(here).end_idx;
            proof {
                lemma_same_except_kinds_wf(g0, self@);
                assert(end_idx == edge_at(g0, current_edge).end_idx);
                assert(self@[end_idx as int] == point_model(self.points@[end_idx as int]));
                assert(g0[end_idx as int].position == self@[end_idx as int].position);
            }
            if edge_list_len(&self.points[end_idx].forward_edges) != 1 {
                // At an intersection
                break;
            }

            // Also stop if we've followed the loop all the way around
            if visited[end_idx] {
                break;
            }

            // Move on
            current_edge = GraphEdgeRef { start_idx: end_idx, edge_idx: 0, reverse: false };
            proof {
                fuel = (fuel - 1) as nat;
            }
        }

        proof {
            assert(vis.contains(edge.start_idx as int));
            lemma_set_range_len(vis, n as int);
            lemma_set_contains_len(vis, edge.start_idx as int);
            assert(vis.insert(edge.start_idx as int) =~= vis);
        }

        // Move backwards
        let ghost total_backward = backward_walk(g0, edge, visited_forward, n as nat);
        let ghost done_forward = done;
        current_edge = GraphEdgeRef { reverse: false, ..edge };
        proof {
            fuel = n as nat;
            assert(backward_walk(g0, current_edge, vis, fuel) == total_backward);
            assert(done_forward + Seq::<GraphEdgeRef>::empty() + backward_walk(g0, current_edge, vis, fuel) =~= done_forward + total_backward);
            assert(done =~= done_forward + Seq::<GraphEdgeRef>::empty());
        }
        loop
            invariant_except_break
                done + backward_walk(g0, current_edge, vis, fuel) == done_forward + total_backward,
                fuel + vis.insert(current_edge.start_idx as int).len() >= n + 1,
            invariant
                n == g0.len(),
                n == visited@.len(),
                graph_wf(g0),
                same_except_kinds(g0, self@),
                self.path_count() == old(self).path_count(),
                valid_ref(g0, current_edge),
                !current_edge.reverse,
                forall|i: int| 0 <= i < n ==> visited@[i] == vis.contains(i),
                forall|i: int| vis.contains(i) ==> 0 <= i < n,
                forall|i: int| 0 <= i < done.len() ==> valid_ref(g0, #[trigger] done[i]),
                kinds_follow(g0, self@, done, kind),
            ensures
                done == done_forward + total_backward,
            decreases fuel,
        {
            proof {
                lemma_set_range_len(vis, n as int);
                lemma_set_range_len(vis.insert(current_edge.start_idx as int), n as int);
                lemma_same_except_kinds_wf(g0, self@);
            }
            let ghost vis0 = vis;
            let ghost fuel0 = fuel;
            let ghost cur0 = current_edge;

            // Mark this point as visited
            visited.set(current_edge.start_idx, true);
            proof {
                vis = vis.insert(current_edge.start_idx as int);
                assert(fuel0 >= 1);
            }

            let current_point_idx = current_edge.start_idx;
            proof {
                assert(self@[current_point_idx as int] == point_model(self.points@[current_point_idx as int]));
                assert(g0[current_point_idx as int].position == self@[current_point_idx as int].position);
            }
            if index_list_len(&self.points[current_point_idx].connected_from) != 1 {
                // There is more than one incoming edge
                proof {
                    assert(backward_walk(g0, cur0, vis0, fuel0) =~= Seq::<GraphEdgeRef>::empty());
                    assert(done + Seq::<GraphEdgeRef>::empty() =~= done);
                }
                break;
            }

            // There's a single preceding point (but maybe more than one edge)
            let previous_point_idx = index_list_get(&self.points[current_point_idx].connected_from, 0);
            proof {
                lemma_sources_upto_bounded(g0, current_point_idx as int, g0.len());
                assert(previous_point_idx < n);
                assert(self@[previous_point_idx as int] == point_model(self.points@[previous_point_idx as int]));
                assert(g0[previous_point_idx as int].position == self@[previous_point_idx as int].position);
                assert(has_edge_to(g0, previous_point_idx as int, current_point_idx as int));
            }
            let ghost into = edges_into_upto(g0, previous_point_idx as int, current_point_idx as int, g0[previous_point_idx as int].edges.len());

            // Find the index of the preceding edge, and whether there is a second one
            let num_edges = edge_list_len(&self.points[previous_point_idx].forward_edges);
            proof {
                assert(g0[previous_point_idx as int].position == self@[previous_point_idx as int].position);
            }
            let mut first: Option<usize> = None;
            let mut second = false;
            let mut edge_idx: usize = 0;
            while edge_idx < num_edges
                invariant
                    same_except_kinds(g0, self@),
                    previous_point_idx < n,
                    self@[previous_point_idx as int].edges.len() == num_edges,
                    n == g0.len(),
                    n <= usize::MAX,
                    num_edges == g0[previous_point_idx as int].edges.len(),
                    self@[previous_point_idx as int] == point_model(self.points@[previous_point_idx as int]),
                    edge_idx <= num_edges,
                    first is None ==> edges_into_upto(g0, previous_point_idx as int, current_point_idx as int, edge_idx as nat).len() == 0,
                    first matches Some(f) ==> edges_into_upto(g0, previous_point_idx as int, current_point_idx as int, edge_idx as nat).len() >= 1
                        && edges_into_upto(g0, previous_point_idx as int, current_point_idx as int, edge_idx as nat)[0].edge_idx == f,
                    second == (edges_into_upto(g0, previous_point_idx as int, current_point_idx as int, edge_idx as nat).len() >= 2),
                decreases num_edges - edge_idx,
            {
                let candidate = edge_list_get(&self.points[previous_point_idx].forward_edges, edge_idx);
                proof {
                    assert(g0[previous_point_idx as int].position == self@[previous_point_idx as int].position);
                    assert((GraphPathEdge { kind: candidate.kind, ..g0[previous_point_idx as int].edges[edge_idx as int] }) == candidate);
                }
                if candidate.end_idx == current_point_idx {
                    if first.is_none() {
                        first = Some(edge_idx);
                    } else {
                        second = true;
                    }
                }
                edge_idx = edge_idx + 1;
            }
            proof {
                let e = choose|e: int| 0 <= e < g0[previous_point_idx as int].edges.len() && #[trigger] g0[previous_point_idx as int].edges[e].end_idx == current_point_idx;
                lemma_edges_into_of_edge(g0, previous_point_idx as int, current_point_idx as int, num_edges as nat, e);
                lemma_edges_into_valid(g0, previous_point_idx as int, current_point_idx as int, num_edges as nat);
            }
            let previous_edge_idx = match first {
                Some(f) => f,
                None => {
                    proof {
                        assert(false);
                    }
                    0
                },
            };
            if second {
                // There is more than one edge connecting these two points
                proof {
                    assert(backward_walk(g0, cur0, vis0, fuel0) =~= Seq::<GraphEdgeRef>::empty());
                    assert(done + Seq::<GraphEdgeRef>::empty() =~= done);
                }
                break;
            }

            // Move on to the previous edge and change its kind
            current_edge = GraphEdgeRef { start_idx: previous_point_idx, edge_idx: previous_edge_idx, reverse: false };
            proof {
                assert(into.len() == 1);
                assert(into[0].edge_idx == previous_edge_idx);
                lemma_kinds_follow_step(g0, self@, done, current_edge, kind);
            }
            self.set_edge_kind(current_edge, kind);
            proof {
                done = done.push(current_edge);
            }

            // Also stop if we've followed the loop all the way around
            if visited[previous_point_idx] {
                proof {
                    assert(backward_walk(g0, cur0, vis0, fuel0) == seq![current_edge]);
                }
                break;
            }
            proof {
                assert(backward_walk(g0, cur0, vis0, fuel0) == seq![current_edge] + backward_walk(g0, current_edge, vis, (fuel0 - 1) as nat));
                assert(done + backward_walk(g0, current_edge, vis, (fuel0 - 1) as nat) =~= done_forward + total_backward);
                fuel = (fuel - 1) as nat;
            }
        }

        proof {
            assert(done =~= connected_walk(g0, edge));
            lemma_same_except_kinds_wf(g0, self@);
        }
    }
}

/// The edges leaving point `p` followed by the edges arriving at it (reversed).
pub open spec fn point_all_refs(g: Seq<PointModel>, p: int) -> Seq<GraphEdgeRef> {
    point_edge_refs(g, p) + reverse_edge_refs(g, p)
}

/// The number of refs that name exterior edges.
pub open spec fn exterior_count(g: Seq<PointModel>, refs: Seq<GraphEdgeRef>) -> nat
    decreases refs.len(),
{
    if refs.len() == 0 {
        0
    } else {
        exterior_count(g, refs.drop_last()) + (if edge_at(g, refs.last()).kind == GraphPathEdgeKind::Exterior { 1nat } else { 0nat })
    }
}

/// Exactly one exterior edge leaves or arrives at the point.
pub open spec fn single_exterior_edge(g: Seq<PointModel>, p: int) -> bool {
    exterior_count(g, point_all_refs(g, p)) == 1
}

/// An exterior edge has a gap when no other exterior edge (one that does not lead back to the edge's start)
/// leaves or arrives at its end point.
pub open spec fn edge_gap(g: Seq<PointModel>, edge: GraphEdgeRef) -> bool {
    let start = ref_start_point(g, edge);
    let end = ref_end_point(g, edge);
    let refs = point_all_refs(g, end);
    &&& edge_at(g, edge).kind == GraphPathEdgeKind::Exterior
    &&& !exists|i: int|
        0 <= i < refs.len() && ref_end_point(g, #[trigger] refs[i]) != start && edge_at(g, refs[i]).kind
            == GraphPathEdgeKind::Exterior
}

impl GraphPath {
    /// The edges leaving a point followed by the edges arriving at it (as reversed refs)
    fn all_refs_for_point(&self, point_idx: usize) -> (r: Vec<GraphEdgeRef>)
        requires
            graph_wf(self@),
            point_idx < self@.len(),
        ensures
            r@ == point_all_refs(self@, point_idx as int),
            forall|i: int| 0 <= i < r@.len() ==> valid_ref(self@, #[trigger] r@[i]) && ref_start_point(self@, r@[i]) == point_idx,
    {
        let mut refs = self.edge_refs_for_point(point_idx);
        let mut reverse = self.reverse_edges_for_point(point_idx);
        let ghost forward = refs@;
        let ghost backward = reverse@;
        refs.append(&mut reverse);
        proof {
            assert forall|i: int| 0 <= i < refs@.len() implies valid_ref(self@, #[trigger] refs@[i]) && ref_start_point(self@, refs@[i]) == point_idx by {
                if i < forward.len() {
                    assert(refs@[i] == forward[i]);
                } else {
                    assert(refs@[i] == backward[i - forward.len()]);
                }
            }
        }
        refs
    }

    /// Returns true if the specified point has a single exterior edge attached to it
    pub fn has_single_exterior_edge(&self, point_idx: usize) -> (r: bool)
        requires
            graph_wf(self@),
            point_idx < self@.len(),
        ensures
            r == single_exterior_edge(self@, point_idx as int),
    {
        let refs = self.all_refs_for_point(point_idx);
        let mut count: usize = 0;
        let n = refs.len();
        for i in 0..n
            invariant
                n == refs@.len(),
                forall|j: int| 0 <= j < n ==> valid_ref(self@, #[trigger] refs@[j]),
                count == exterior_count(self@, refs@.take(i as int)),
                count <= i,
        {
            proof {
                assert(refs@.take(i + 1).drop_last() =~= refs@.take(i as int));
            }
            if self.edge_kind(refs[i]) == GraphPathEdgeKind::Exterior {
                count = count + 1;
            }
        }
        proof {
            assert(refs@.take(n as int) =~= refs@);
        }
        count == 1
    }

    /// Returns true if the specified edge has a gap (it is exterior and its end point has no other exterior edge
    /// that does not lead back to its start point)
    #[verifier::spinoff_prover]
    pub fn edge_has_gap(&self, edge: GraphEdgeRef) -> (r: bool)
        requires
            graph_wf(self@),
            valid_ref(self@, edge),
        ensures
            r == edge_gap(self@, edge),
    {
        // Interior edges have no gaps
        if self.edge_kind(edge) != GraphPathEdgeKind::Exterior {
            return false;
        }

        // Get the start and end point index for this edge
        let start_idx = self.edge_start_point_idx(edge);
        let end_idx = self.edge_end_point_idx(edge);

        // Result is true if there is no edge attached to the end point that is marked exterior (other than the edge leading back to the initial point)
        let refs = self.all_refs_for_point(end_idx);
        let n = refs.len();
        for i in 0..n
            invariant
                n == refs@.len(),
                refs@ == point_all_refs(self@, end_idx as int),
                forall|j: int| 0 <= j < n ==> valid_ref(self@, #[trigger] refs@[j]),
                start_idx == ref_start_point(self@, edge),
                end_idx == ref_end_point(self@, edge),
                edge_at(self@, edge).kind == GraphPathEdgeKind::Exterior,
                forall|j: int|
                    0 <= j < i ==> !(ref_end_point(self@, #[trigger] refs@[j]) != start_idx && edge_at(self@, refs@[j]).kind
                        == GraphPathEdgeKind::Exterior),
        {
            let following = refs[i];
            if self.edge_end_point_idx(following) != start_idx && self.edge_kind(following) == GraphPathEdgeKind::Exterior {
                return false;
            }
        }
        true
    }
}

/// The control points of the curve an edge ref follows, in the order it passes them.
pub open spec fn ref_control_points(g: Seq<PointModel>, r: GraphEdgeRef) -> (Coord2, Coord2) {
    let e = edge_at(g, r);
    if r.reverse {
        (e.cp2, e.cp1)
    } else {
        (e.cp1, e.cp2)
    }
}

/// The path section that follows an edge ref: its control points, then the position of the point it ends at.
pub open spec fn ref_section(g: Seq<PointModel>, r: GraphEdgeRef) -> (Coord2, Coord2, Coord2) {
    (ref_control_points(g, r).0, ref_control_points(g, r).1, g[ref_end_point(g, r)].position)
}

/// Edges that an exterior path may follow: exterior edges, and edges that leave a point with a single exterior
/// edge (used to bridge gaps).
pub open spec fn may_follow(g: Seq<PointModel>, r: GraphEdgeRef) -> bool {
    edge_at(g, r).kind == GraphPathEdgeKind::Exterior || single_exterior_edge(g, ref_start_point(g, r))
}

/// `path` is the closed walk through the graph given by `refs` and the points `idx`: it starts at point
/// `idx[0]`, section `k` follows `refs[k]` from point `idx[k]` to point `idx[k + 1]`, and the walk ends where it
/// started.
pub open spec fn traces_closed_walk(g: Seq<PointModel>, path: SimpleBezierPath, refs: Seq<GraphEdgeRef>, idx: Seq<int>) -> bool {
    &&& refs.len() >= 1
    &&& path.points@.len() == refs.len()
    &&& idx.len() == refs.len() + 1
    &&& 0 <= idx[0] < g.len()
    &&& idx[refs.len() as int] == idx[0]
    &&& path.start_point == g[idx[0]].position
    &&& forall|k: int| 0 <= k < refs.len() ==> #[trigger] section_follows(g, path.points@, refs, idx, k)
}

/// Section `k` of a path (given by its sections `points`) follows `refs[k]` from point `idx[k]` to point
/// `idx[k + 1]`.
pub open spec fn section_follows(g: Seq<PointModel>, points: Seq<(Coord2, Coord2, Coord2)>, refs: Seq<GraphEdgeRef>, idx: Seq<int>, k: int) -> bool {
    &&& valid_ref(g, refs[k])
    &&& ref_start_point(g, refs[k]) == idx[k]
    &&& ref_end_point(g, refs[k]) == idx[k + 1]
    &&& points[k] == ref_section(g, refs[k])
    &&& may_follow(g, refs[k])
}

/// `path` is a closed walk along the edges of the graph.
pub open spec fn is_closed_walk(g: Seq<PointModel>, path: SimpleBezierPath) -> bool {
    exists|refs: Seq<GraphEdgeRef>, idx: Seq<int>| #[trigger] traces_closed_walk(g, path, refs, idx)
}

/// The state of the search for a loop back to `root`: every point with a recorded predecessor was reached from
/// it along a valid ref that an exterior path may follow (taken backwards), and the predecessor is the root or
/// was itself reached, at a smaller depth.
pub open spec fn search_consistent(g: Seq<PointModel>, prev: Seq<Option<(usize, GraphEdgeRef)>>, root: int, depth: Seq<nat>) -> bool {
    &&& prev.len() == g.len()
    &&& depth.len() == g.len()
    &&& forall|p: int|
        0 <= p < g.len() && (#[trigger] prev[p]) is Some ==> {
            let (last_idx, e) = prev[p]->0;
            let last = last_idx as int;
            &&& valid_ref(g, e)
            &&& 0 <= last < g.len()
            &&& ref_start_point(g, e) == last
            &&& ref_end_point(g, e) == p
            &&& may_follow(g, e.reversed_spec())
            &&& (last == root || (prev[last] is Some && depth[last] < depth[p]))
        }
}

impl GraphEdgeRef {
    /// The same edge, taken in the other direction.
    pub open spec fn reversed_spec(self) -> GraphEdgeRef {
        GraphEdgeRef { reverse: !self.reverse, ..self }
    }
}

impl GraphPath {
    /// The control points of the curve an edge ref follows (swapped for a reversed ref)
    pub fn edge_control_points(&self, edge: GraphEdgeRef) -> (r: (Coord2, Coord2))
        requires
            valid_ref(self@, edge),
        ensures
            r == ref_control_points(self@, edge),
    {
        let e = self.edge(edge);
        if edge.reverse {
            (e.cp2, e.cp1)
        } else {
            (e.cp1, e.cp2)
        }
    }

    /// The position of the point an edge ref starts from
    pub fn edge_start_point(&self, edge: GraphEdgeRef) -> (r: Coord2)
        requires
            valid_ref(self@, edge),
            edges_well_formed(self@),
        ensures
            r == self@[ref_start_point(self@, edge)].position,
    {
        let idx = self.edge_start_point_idx(edge);
        proof {
            assert(self@[idx as int] == point_model(self.points@[idx as int]));
        }
        self.points[idx].position
    }

    /// The position of the point an edge ref ends at
    pub fn edge_end_point(&self, edge: GraphEdgeRef) -> (r: Coord2)
        requires
            valid_ref(self@, edge),
            edges_well_formed(self@),
        ensures
            r == self@[ref_end_point(self@, edge)].position,
    {
        let idx = self.edge_end_point_idx(edge);
        proof {
            assert(self@[idx as int] == point_model(self.points@[idx as int]));
        }
        self.points[idx].position
    }
}

/// Adding a section that follows `r` on to the end of a walk keeps every section following its ref.
proof fn lemma_walk_extend(
    g: Seq<PointModel>,
    points: Seq<(Coord2, Coord2, Coord2)>,
    refs: Seq<GraphEdgeRef>,
    idx: Seq<int>,
    section: (Coord2, Coord2, Coord2),
    r: GraphEdgeRef,
    next: int,
)
    requires
        points.len() == refs.len(),
        idx.len() == refs.len() + 1,
        forall|k: int| 0 <= k < refs.len() ==> #[trigger] section_follows(g, points, refs, idx, k),
        valid_ref(g, r),
        ref_start_point(g, r) == idx[refs.len() as int],
        ref_end_point(g, r) == next,
        section == ref_section(g, r),
        may_follow(g, r),
    ensures
        forall|k: int|
            0 <= k < refs.len() + 1 ==> #[trigger] section_follows(g, points.push(section), refs.push(r), idx.push(next), k),
{
    assert forall|k: int| 0 <= k < refs.len() + 1 implies #[trigger] section_follows(g, points.push(section), refs.push(r), idx.push(next), k) by {
        if k < refs.len() {
            assert(section_follows(g, points, refs, idx, k));
        }
    }
}

/// Recording that `next` was reached from `current` along `edge` keeps the search consistent.
proof fn lemma_search_step(
    g: Seq<PointModel>,
    prev: Seq<Option<(usize, GraphEdgeRef)>>,
    root: int,
    depth: Seq<nat>,
    current: usize,
    next: usize,
    edge: GraphEdgeRef,
)
    requires
        search_consistent(g, prev, root, depth),
        current < g.len(),
        next < g.len(),
        prev[next as int] is None,
        valid_ref(g, edge),
        ref_start_point(g, edge) == current,
        ref_end_point(g, edge) == next,
        may_follow(g, edge.reversed_spec()),
        current == root || prev[current as int] is Some,
    ensures
        search_consistent(
            g,
            prev.update(next as int, Some((current, edge))),
            root,
            depth.update(next as int, depth[current as int] + 1),
        ),
{
    let prev2 = prev.update(next as int, Some((current, edge)));
    let depth2 = depth.update(next as int, depth[current as int] + 1);
    assert forall|p: int| 0 <= p < g.len() && (#[trigger] prev2[p]) is Some implies {
        let (last_idx, e) = prev2[p]->0;
        let last = last_idx as int;
        &&& valid_ref(g, e)
        &&& 0 <= last < g.len()
        &&& ref_start_point(g, e) == last
        &&& ref_end_point(g, e) == p
        &&& may_follow(g, e.reversed_spec())
        &&& (last == root || (prev2[last] is Some && depth2[last] < depth2[p]))
    } by {
        if p == next {
            assert(prev2[p] == Some((current, edge)));
            if current as int != root {
                assert(prev[current as int] is Some);
                assert(current != next);
                assert(prev2[current as int] == prev[current as int]);
                assert(depth2[current as int] == depth[current as int]);
            }
        } else {
            assert(prev2[p] == prev[p]);
            let (last_idx, e) = prev[p]->0;
            if last_idx as int != root {
                assert(last_idx != next);
            }
        }
    }
}

/// On a loop of `n` points searched from point 0, the entry waiting to be checked after `t` passes: the point the
/// search came from and the point reached (`n - t`, or 0 before the first pass).
pub open spec fn cycle_entry(n: int, t: int) -> (usize, usize) {
    (if t == 0 { 0usize } else { ((n - t + 1) % n) as usize }, ((n - t) % n) as usize)
}

/// On a loop of `n` points searched from point 0, the state after `t` passes: the last `t` points have been
/// reached, each from the point after it along its own edge taken backwards.
pub open spec fn cycle_search_state(n: int, prev: Seq<Option<(usize, GraphEdgeRef)>>, t: int) -> bool {
    &&& 0 <= t <= n
    &&& prev.len() == n
    &&& forall|p: int| 0 <= p < n ==> ((#[trigger] prev[p]) is Some <==> p >= n - t)
    &&& forall|p: int| 0 <= p < n && p >= n - t ==> #[trigger] prev[p] == Some((((p + 1) % n) as usize, only_edge(p, true)))
}

/// The point after `p` on a loop of `n` points.
pub open spec fn cycle_succ(p: int, n: int) -> int {
    (p + 1) % n
}

/// Every point of a loop was reached from the point after it, along its own edge taken backwards.
pub open spec fn cycle_predecessors(g: Seq<PointModel>, prev: Seq<Option<(usize, GraphEdgeRef)>>) -> bool {
    forall|p: int|
        0 <= p < g.len() ==> #[trigger] prev[p] == Some((((p + 1) % (g.len() as int)) as usize, only_edge(p, true)))
}

/// The point after the point before `p` is `p`.
proof fn lemma_cycle_succ_pred(p: int, n: int)
    requires
        n >= 3,
        0 <= p < n,
    ensures
        cycle_succ(cycle_pred(p, n), n) == p,
        0 <= cycle_pred(p, n) < n,
{
    if p == 0 {
        assert((n - 1 + 1) % n == 0) by (nonlinear_arith)
            requires n >= 3;
    } else {
        assert((p - 1 + 1) % n == p) by (nonlinear_arith)
            requires 0 < p < n;
    }
}

/// Following the only edge at point `c` of a loop backwards: its control points and end.
proof fn lemma_cycle_step(g: Seq<PointModel>, c: int)
    requires
        is_cycle_shape(g),
        edges_well_formed(g),
        0 <= c < g.len(),
        g.len() <= usize::MAX,
    ensures
        0 <= cycle_succ(c, g.len() as int) < g.len(),
        valid_ref(g, only_edge(c, true)),
        ref_control_points(g, only_edge(c, true)) == (g[c].edges[0].cp2, g[c].edges[0].cp1),
        ref_start_point(g, only_edge(c, true)) == cycle_succ(c, g.len() as int),
        ref_end_point(g, only_edge(c, true)) == c,
        cycle_sections(g)[c] == (g[c].edges[0].cp1, g[c].edges[0].cp2, g[cycle_succ(c, g.len() as int)].position),
{
    let n = g.len() as int;
    assert(g[c].edges[0].end_idx == (c + 1) % n);
    assert(0 <= (c + 1) % n < n) by (nonlinear_arith)
        requires n >= 3, 0 <= c < n;
}

/// Reaching point `n - t - 1` from the point after it moves the search round a loop on by one pass.
proof fn lemma_cycle_search_update(n: int, prev: Seq<Option<(usize, GraphEdgeRef)>>, t: int, current: usize)
    requires
        cycle_search_state(n, prev, t),
        t < n,
        ((n - t - 1) + 1) % n == current,
    ensures
        cycle_search_state(n, prev.update(n - t - 1, Some((current, only_edge(n - t - 1, true)))), t + 1),
{
    let tg = n - t - 1;
    let prev2 = prev.update(tg, Some((current, only_edge(tg, true))));
    assert forall|p: int| 0 <= p < n implies ((#[trigger] prev2[p]) is Some <==> p >= n - (t + 1)) by {
        if p != tg {
            assert(prev2[p] == prev[p]);
        }
    }
    assert forall|p: int| 0 <= p < n && p >= n - (t + 1) implies #[trigger] prev2[p] == Some((((p + 1) % n) as usize, only_edge(p, true))) by {
        if p != tg {
            assert(prev2[p] == prev[p]);
        }
    }
}

/// The arithmetic of one pass of the search round a loop.
proof fn lemma_cycle_entry(n: int, t: int)
    requires
        n >= 3,
        0 <= t < n,
        n <= usize::MAX,
    ensures
        ({
            let (a, c) = cycle_entry(n, t);
            &&& c as int == (n - t) % n
            &&& 0 <= c < n
            &&& (t == 0 <==> c == 0)
            &&& cycle_pred(c as int, n) == n - t - 1
            &&& (t == 0 ==> a == 0)
            &&& (t > 0 ==> a as int == (c + 1) % n)
            &&& cycle_entry(n, t + 1) == (c, (n - t - 1) as usize)
            &&& ((n - t - 1) + 1) % n == c
        }),
{
    if t == 0 {
        assert((n - 0) % n == 0) by (nonlinear_arith)
            requires n >= 3;
        assert(((n - 1) + 1) % n == 0) by (nonlinear_arith)
            requires n >= 3;
        assert((n - 1) % n == n - 1) by (nonlinear_arith)
            requires n >= 3;
    } else {
        assert((n - t) % n == n - t) by (nonlinear_arith)
            requires n >= 3, 0 < t < n;
        assert((n - t - 1) % n == n - t - 1) by (nonlinear_arith)
            requires n >= 3, 0 < t < n;
        assert(((n - t - 1) + 1) % n == n - t) by (nonlinear_arith)
            requires n >= 3, 0 < t < n;
    }
}

/// The edges the loop search considers at `cur`: the edges arriving at the root, taken backwards, when `cur` is
/// the root, and otherwise all the edges leaving or arriving at `cur`.
pub open spec fn loop_candidate_refs(g: Seq<PointModel>, root: int, cur: int) -> Seq<GraphEdgeRef> {
    if cur == root { reverse_edge_refs(g, cur) } else { point_all_refs(g, cur) }
}

/// The first `i` candidates hold an exterior edge that does not go to `previous`.
pub open spec fn exterior_way_on(g: Seq<PointModel>, refs: Seq<GraphEdgeRef>, previous: int, i: int) -> bool {
    exists|j: int|
        0 <= j < i && edge_at(g, #[trigger] refs[j]).kind == GraphPathEdgeKind::Exterior && ref_end_point(g, refs[j])
            != previous
}

/// Whether the loop search at `cur` (reached from `previous`) follows exterior edges only: at the root, or where
/// an exterior edge leads on; otherwise it bridges to points with a single exterior edge.
pub open spec fn loop_follows_exterior(g: Seq<PointModel>, root: int, previous: int, cur: int) -> bool {
    let refs = loop_candidate_refs(g, root, cur);
    cur == root || exterior_way_on(g, refs, previous, refs.len() as int)
}

/// The loop search keeps the candidate `r`: an exterior edge when following exterior edges, otherwise an edge to
/// a point with a single exterior edge.
pub open spec fn loop_keeps(g: Seq<PointModel>, follow: bool, r: GraphEdgeRef) -> bool {
    if follow {
        edge_at(g, r).kind == GraphPathEdgeKind::Exterior
    } else {
        single_exterior_edge(g, ref_end_point(g, r))
    }
}

/// The candidates among the first `i` that the loop search keeps, in order.
pub open spec fn loop_kept_refs(g: Seq<PointModel>, follow: bool, refs: Seq<GraphEdgeRef>, i: int) -> Seq<GraphEdgeRef>
    decreases i,
{
    if i <= 0 {
        Seq::empty()
    } else if loop_keeps(g, follow, refs[i - 1]) {
        loop_kept_refs(g, follow, refs, i - 1).push(refs[i - 1])
    } else {
        loop_kept_refs(g, follow, refs, i - 1)
    }
}

/// The edges the loop search follows (backwards) from `cur`, reached from `previous`.
pub open spec fn loop_search_refs(g: Seq<PointModel>, root: int, previous: int, cur: int) -> Seq<GraphEdgeRef> {
    let refs = loop_candidate_refs(g, root, cur);
    loop_kept_refs(g, loop_follows_exterior(g, root, previous, cur), refs, refs.len() as int)
}

proof fn lemma_loop_kept_contains(g: Seq<PointModel>, follow: bool, refs: Seq<GraphEdgeRef>, n: int, i: int)
    requires
        0 <= i < n <= refs.len(),
        loop_keeps(g, follow, refs[i]),
    ensures
        loop_kept_refs(g, follow, refs, n).contains(refs[i]),
    decreases n,
{
    if i < n - 1 {
        lemma_loop_kept_contains(g, follow, refs, n - 1, i);
        if loop_keeps(g, follow, refs[n - 1]) {
            let prev = loop_kept_refs(g, follow, refs, n - 1);
            let j = choose|j: int| 0 <= j < prev.len() && #[trigger] prev[j] == refs[i];
            assert(prev.push(refs[n - 1])[j] == refs[i]);
        }
    } else {
        let prev = loop_kept_refs(g, follow, refs, n - 1);
        assert(prev.push(refs[n - 1])[prev.len() as int] == refs[i]);
    }
}

proof fn lemma_loop_kept_sound(g: Seq<PointModel>, follow: bool, refs: Seq<GraphEdgeRef>, n: int, r: GraphEdgeRef)
    requires
        0 <= n <= refs.len(),
        loop_kept_refs(g, follow, refs, n).contains(r),
    ensures
        loop_keeps(g, follow, r),
        exists|i: int| 0 <= i < n && refs[i] == r,
    decreases n,
{
    if n > 0 {
        let prev = loop_kept_refs(g, follow, refs, n - 1);
        if loop_keeps(g, follow, refs[n - 1]) && r == refs[n - 1] {
        } else {
            if loop_keeps(g, follow, refs[n - 1]) {
                let pushed = prev.push(refs[n - 1]);
                let j = choose|j: int| 0 <= j < pushed.len() && #[trigger] pushed[j] == r;
                assert(j < prev.len());
                assert(prev[j] == r);
            }
            lemma_loop_kept_sound(g, follow, refs, n - 1, r);
        }
    }
}

/// How the loop search chooses the edges to follow from a point `cur` (other than its root) that it reached from
/// `previous`: while some exterior edge at `cur` leads anywhere but back to `previous`, it follows exactly the
/// exterior edges; at a gap, where no exterior edge leads on, it bridges the gap by following exactly the edges
/// to points with a single exterior edge.
pub proof fn lemma_loop_search_bridges_gaps(g: Seq<PointModel>, root: int, previous: int, cur: int, r: GraphEdgeRef)
    requires
        cur != root,
        point_all_refs(g, cur).contains(r),
    ensures
        (exists|e: GraphEdgeRef|
            #[trigger] point_all_refs(g, cur).contains(e) && edge_at(g, e).kind == GraphPathEdgeKind::Exterior && ref_end_point(g, e)
                != previous) ==> (loop_search_refs(g, root, previous, cur).contains(r) <==> edge_at(g, r).kind
            == GraphPathEdgeKind::Exterior),
        !(exists|e: GraphEdgeRef|
            #[trigger] point_all_refs(g, cur).contains(e) && edge_at(g, e).kind == GraphPathEdgeKind::Exterior && ref_end_point(g, e)
                != previous) ==> (loop_search_refs(g, root, previous, cur).contains(r) <==> single_exterior_edge(
            g,
            ref_end_point(g, r),
        )),
{
    let refs = point_all_refs(g, cur);
    let follow = loop_follows_exterior(g, root, previous, cur);
    assert(loop_candidate_refs(g, root, cur) == refs);
    let i = choose|i: int| 0 <= i < refs.len() && #[trigger] refs[i] == r;
    if exists|e: GraphEdgeRef| #[trigger] refs.contains(e) && edge_at(g, e).kind == GraphPathEdgeKind::Exterior && ref_end_point(g, e)
        != previous {
        let e = choose|e: GraphEdgeRef| #[trigger] refs.contains(e) && edge_at(g, e).kind == GraphPathEdgeKind::Exterior
            && ref_end_point(g, e) != previous;
        let j = choose|j: int| 0 <= j < refs.len() && #[trigger] refs[j] == e;
        assert(edge_at(g, refs[j]).kind == GraphPathEdgeKind::Exterior && ref_end_point(g, refs[j]) != previous);
        assert(exterior_way_on(g, refs, previous, refs.len() as int));
        assert(follow);
    } else {
        if exterior_way_on(g, refs, previous, refs.len() as int) {
            let j = choose|j: int|
                0 <= j < refs.len() && edge_at(g, #[trigger] refs[j]).kind == GraphPathEdgeKind::Exterior && ref_end_point(g, refs[j])
                    != previous;
            assert(refs.contains(refs[j]));
            assert(false);
        }
        assert(!follow);
    }
    if loop_keeps(g, follow, r) {
        lemma_loop_kept_contains(g, follow, refs, refs.len() as int, i);
    }
    if loop_search_refs(g, root, previous, cur).contains(r) {
        lemma_loop_kept_sound(g, follow, refs, refs.len() as int, r);
    }
}

/// The state of the loop search: the point (and edge) each point was reached from, and the points reached in
/// the current pass, each with the point it was reached from.
#[verifier::ext_equal]
pub struct LoopSearchState {
    pub previous: Seq<Option<(usize, GraphEdgeRef)>>,
    pub found: Seq<(usize, usize)>,
}

/// The loop search looks at the edge `e` from `cur` (reached from `from`): it records the point the edge leads
/// to unless that point was reached already or is `from`.
pub open spec fn loop_edge_step(g: Seq<PointModel>, st: LoopSearchState, from: int, cur: int, e: GraphEdgeRef) -> LoopSearchState {
    let next = ref_end_point(g, e);
    if st.previous[next] is None && next != from {
        LoopSearchState {
            previous: st.previous.update(next, Some((cur as usize, e))),
            found: st.found.push((cur as usize, next as usize)),
        }
    } else {
        st
    }
}

/// The loop search looks at the edges `edges` from index `i` on, in order.
pub open spec fn loop_scan_edges(g: Seq<PointModel>, st: LoopSearchState, from: int, cur: int, edges: Seq<GraphEdgeRef>, i: int) -> LoopSearchState
    decreases edges.len() - i,
{
    if i >= edges.len() {
        st
    } else {
        loop_scan_edges(g, loop_edge_step(g, st, from, cur, edges[i]), from, cur, edges, i + 1)
    }
}

/// The loop search looks at the points of `frontier` (each with the point it was reached from) from index `j` on.
pub open spec fn loop_scan_frontier(g: Seq<PointModel>, root: int, st: LoopSearchState, frontier: Seq<(usize, usize)>, j: int) -> LoopSearchState
    decreases frontier.len() - j,
{
    if j >= frontier.len() {
        st
    } else {
        let (from, cur) = frontier[j];
        loop_scan_frontier(
            g,
            root,
            loop_scan_edges(g, st, from as int, cur as int, loop_search_refs(g, root, from as int, cur as int), 0),
            frontier,
            j + 1,
        )
    }
}

/// The loop search runs passes over the points the previous pass reached until it reaches the root again or a
/// pass reaches nothing (`passes` bounds the number of passes; the search never needs more than one per point,
/// plus one).
pub open spec fn loop_layers(g: Seq<PointModel>, root: int, st: LoopSearchState, frontier: Seq<(usize, usize)>, passes: nat) -> Seq<Option<(usize, GraphEdgeRef)>>
    decreases passes,
{
    if passes == 0 || st.previous[root] is Some || frontier.len() == 0 {
        st.previous
    } else {
        let next = loop_scan_frontier(g, root, LoopSearchState { found: Seq::empty(), ..st }, frontier, 0);
        loop_layers(g, root, next, next.found, (passes - 1) as nat)
    }
}

/// The point reached after following the recorded predecessors `m` times from `root`.
pub open spec fn chain_point(previous: Seq<Option<(usize, GraphEdgeRef)>>, root: int, m: nat) -> int
    decreases m,
{
    if m == 0 {
        root
    } else {
        recorded_from(previous[chain_point(previous, root, (m - 1) as nat)])
    }
}

/// The point a recorded predecessor entry names (0 when nothing is recorded).
pub open spec fn recorded_from(entry: Option<(usize, GraphEdgeRef)>) -> int {
    match entry {
        Some((p, _)) => p as int,
        None => 0,
    }
}

/// `q` is on the loop that following the recorded predecessors from `root` traces, up to its return to `root`
/// (included).
pub open spec fn on_traced_loop(previous: Seq<Option<(usize, GraphEdgeRef)>>, root: int, q: int) -> bool {
    exists|m: nat|
        1 <= m && #[trigger] chain_point(previous, root, m) == q && forall|m2: nat|
            1 <= m2 < m ==> #[trigger] chain_point(previous, root, m2) != root
}

/// The edge a recorded predecessor entry names.
pub open spec fn recorded_edge(entry: Option<(usize, GraphEdgeRef)>) -> GraphEdgeRef {
    match entry {
        Some((_, e)) => e,
        None => GraphEdgeRef { start_idx: 0, edge_idx: 0, reverse: false },
    }
}

/// The number of steps the loop traced from `root` takes to come back to `root`.
pub open spec fn traced_loop_length(previous: Seq<Option<(usize, GraphEdgeRef)>>, root: int) -> nat {
    choose|m: nat|
        1 <= m && chain_point(previous, root, m) == root && forall|m2: nat|
            1 <= m2 < m ==> #[trigger] chain_point(previous, root, m2) != root
}

/// The sections of the path traced from `root` along the recorded predecessors: section `k` follows the edge
/// recorded at the `k`-th point of the loop, in the direction opposite to the search.
pub open spec fn traced_loop_sections(g: Seq<PointModel>, previous: Seq<Option<(usize, GraphEdgeRef)>>, root: int) -> Seq<
    (Coord2, Coord2, Coord2),
> {
    Seq::new(
        traced_loop_length(previous, root),
        |k: int| ref_section(g, recorded_edge(previous[chain_point(previous, root, k as nat)]).reversed_spec()),
    )
}

/// `visited` with the points of the loop traced from `root` marked.
pub open spec fn visited_after_loop(previous: Seq<Option<(usize, GraphEdgeRef)>>, root: int, visited: Seq<bool>) -> Seq<bool> {
    Seq::new(visited.len(), |q: int| visited[q] || on_traced_loop(previous, root, q))
}

/// The starting points of the exterior paths, in order, looking at the points from `p` on with `visited` marking
/// the points already on a path: a point not yet on a path starts one when the loop search from it comes back
/// round to it, and the points of the loop it traces are then on a path.
pub open spec fn exterior_loop_roots(g: Seq<PointModel>, p: int, visited: Seq<bool>) -> Seq<int>
    decreases g.len() - p,
{
    if p < 0 || p >= g.len() {
        Seq::empty()
    } else if !visited[p] && loop_search(g, p)[p] is Some {
        seq![p] + exterior_loop_roots(g, p + 1, visited_after_loop(loop_search(g, p), p, visited))
    } else {
        exterior_loop_roots(g, p + 1, visited)
    }
}

/// One pass of the loop search: the passes left after it start from the state it ends in.
proof fn lemma_loop_layer_step(
    g: Seq<PointModel>,
    root: int,
    pre0: Seq<Option<(usize, GraphEdgeRef)>>,
    frontier: Seq<(usize, usize)>,
    passes: nat,
    pre: Seq<Option<(usize, GraphEdgeRef)>>,
    next: Seq<(usize, usize)>,
)
    requires
        passes > 0,
        pre0[root] is None,
        frontier.len() > 0,
        loop_scan_frontier(g, root, LoopSearchState { previous: pre0, found: Seq::empty() }, frontier, 0)
            == (LoopSearchState { previous: pre, found: next }),
    ensures
        loop_layers(g, root, LoopSearchState { previous: pre0, found: Seq::empty() }, frontier, passes) == loop_layers(
            g,
            root,
            LoopSearchState { previous: pre, found: Seq::empty() },
            next,
            (passes - 1) as nat,
        ),
{
    let st0 = LoopSearchState { previous: pre0, found: Seq::empty() };
    let st1 = LoopSearchState { previous: pre, found: next };
    let st2 = LoopSearchState { previous: pre, found: Seq::empty() };
    let rest = (passes - 1) as nat;
    assert(LoopSearchState { found: Seq::empty(), ..st0 } =~= st0);
    assert(loop_layers(g, root, st0, frontier, passes) == loop_layers(g, root, st1, st1.found, rest));
    assert(LoopSearchState { found: Seq::empty(), ..st1 } =~= LoopSearchState { found: Seq::empty(), ..st2 });
    if !(rest == 0 || pre[root] is Some || next.len() == 0) {
        let n1 = loop_scan_frontier(g, root, LoopSearchState { found: Seq::empty(), ..st1 }, next, 0);
        let n2 = loop_scan_frontier(g, root, LoopSearchState { found: Seq::empty(), ..st2 }, next, 0);
        assert(n1 == n2);
        assert(loop_layers(g, root, st1, next, rest) == loop_layers(g, root, n1, n1.found, (rest - 1) as nat));
        assert(loop_layers(g, root, st2, next, rest) == loop_layers(g, root, n2, n2.found, (rest - 1) as nat));
    }
}

/// The result of the breadth-first search for a loop back to `root`: for each point reached, the point (and
/// edge) it was reached from.
pub open spec fn loop_search(g: Seq<PointModel>, root: int) -> Seq<Option<(usize, GraphEdgeRef)>> {
    loop_layers(
        g,
        root,
        LoopSearchState { previous: Seq::new(g.len(), |i: int| None), found: Seq::empty() },
        seq![(root as usize, root as usize)],
        g.len() + 1,
    )
}

impl GraphPath {
    /// The edges the search for an exterior loop follows from a point: from the starting point, the edges that
    /// arrive at it (searching backwards) and are exterior; elsewhere, all the edges at the point that are
    /// exterior, if any of them leads somewhere other than where the search came from, or else the edges that
    /// lead to a point with a single exterior edge (to bridge gaps)
    #[verifier::spinoff_prover]
    fn loop_search_edges(&self, root: usize, previous_point_idx: usize, current_point_idx: usize) -> (r: Vec<GraphEdgeRef>)
        requires
            graph_wf(self@),
            current_point_idx < self@.len(),
        ensures
            forall|i: int|
                0 <= i < r@.len() ==> valid_ref(self@, #[trigger] r@[i]) && ref_start_point(self@, r@[i]) == current_point_idx
                    && may_follow(self@, r@[i].reversed_spec()),
            r@ == loop_search_refs(self@, root as int, previous_point_idx as int, current_point_idx as int),
            is_exterior_cycle(self@) && current_point_idx == root ==> r@ == seq![
                only_edge(cycle_pred(current_point_idx as int, self@.len() as int), true),
            ],
            is_exterior_cycle(self@) && current_point_idx != root && previous_point_idx == (current_point_idx + 1) % (
            self@.len() as int) ==> r@ == seq![
                only_edge(current_point_idx as int, false),
                only_edge(cycle_pred(current_point_idx as int, self@.len() as int), true),
            ],
    {
        let ghost g = self@;
        let ghost cyc = is_exterior_cycle(g);
        let ghost len = g.len() as int;
        let edges = if current_point_idx == root {
            self.reverse_edges_for_point(current_point_idx)
        } else {
            self.all_refs_for_point(current_point_idx)
        };
        let ghost pc = cycle_pred(current_point_idx as int, len);
        let num_points = self.points.len();
        proof {
            assert(g.len() == num_points);
            if cyc {
                lemma_cycle_refs(g, current_point_idx as int);
                lemma_cycle_neighbours(g, current_point_idx as int);
            }
        }
        let n = edges.len();
        let mut follow_exterior = current_point_idx == root;
        proof {
            assert(edges@ == loop_candidate_refs(g, root as int, current_point_idx as int));
        }
        if !follow_exterior {
            for i in 0..n
                invariant
                    edges@ == loop_candidate_refs(g, root as int, current_point_idx as int),
                    current_point_idx != root,
                    follow_exterior == exterior_way_on(g, edges@, previous_point_idx as int, i as int),
                    g == self@,
                    n == edges@.len(),
                    graph_wf(self@),
                    forall|j: int| 0 <= j < n ==> valid_ref(self@, #[trigger] edges@[j]),
                    cyc && previous_point_idx == (current_point_idx + 1) % len ==> edges@ == seq![
                        only_edge(current_point_idx as int, false),
                        only_edge(pc, true),
                    ],
                    cyc ==> g[pc].edges[0].kind == GraphPathEdgeKind::Exterior,
                    len == g.len(),
                    len <= usize::MAX,
                    current_point_idx < len,
                    0 <= pc < len,
                    cyc && previous_point_idx == (current_point_idx + 1) % len ==> pc != previous_point_idx,
                    cyc && previous_point_idx == (current_point_idx + 1) % len && i >= 2 ==> follow_exterior,
            {
                proof {
                    if cyc && previous_point_idx == (current_point_idx + 1) % len && i == 1 {
                        assert(edges@[1] == only_edge(pc, true));
                        assert(0 <= pc < len);
                        assert(ref_end_point(g, edges@[1]) == pc);
                        assert(edge_at(g, edges@[1]).kind == GraphPathEdgeKind::Exterior);
                    }
                }
                let ghost before = follow_exterior;
                if self.edge_kind(edges[i]) == GraphPathEdgeKind::Exterior && self.edge_end_point_idx(edges[i]) != previous_point_idx {
                    follow_exterior = true;
                }
                proof {
                    let refs = edges@;
                    let prev = previous_point_idx as int;
                    if edge_at(g, refs[i as int]).kind == GraphPathEdgeKind::Exterior && ref_end_point(g, refs[i as int]) != prev {
                        assert(exterior_way_on(g, refs, prev, i + 1));
                    } else {
                        if exterior_way_on(g, refs, prev, i + 1) {
                            let j = choose|j: int|
                                0 <= j < i + 1 && edge_at(g, #[trigger] refs[j]).kind == GraphPathEdgeKind::Exterior
                                    && ref_end_point(g, refs[j]) != prev;
                            assert(j < i);
                            assert(exterior_way_on(g, refs, prev, i as int));
                        }
                        if before {
                            let j = choose|j: int|
                                0 <= j < i && edge_at(g, #[trigger] refs[j]).kind == GraphPathEdgeKind::Exterior
                                    && ref_end_point(g, refs[j]) != prev;
                            assert(exterior_way_on(g, refs, prev, i + 1));
                        }
                    }
                }
            }
        }
        proof {
            assert(follow_exterior == loop_follows_exterior(g, root as int, previous_point_idx as int, current_point_idx as int));
        }
        let mut kept: Vec<GraphEdgeRef> = Vec::new();
        for i in 0..n
            invariant
                g == self@,
                n == edges@.len(),
                graph_wf(self@),
                forall|j: int| 0 <= j < n ==> valid_ref(self@, #[trigger] edges@[j]) && ref_start_point(self@, edges@[j]) == current_point_idx,
                forall|j: int|
                    0 <= j < kept@.len() ==> valid_ref(self@, #[trigger] kept@[j]) && ref_start_point(self@, kept@[j]) == current_point_idx
                        && may_follow(self@, kept@[j].reversed_spec()),
                cyc && follow_exterior ==> kept@ == edges@.take(i as int),
                cyc ==> forall|j: int| 0 <= j < n ==> edge_at(g, #[trigger] edges@[j]).kind == GraphPathEdgeKind::Exterior,
                kept@ == loop_kept_refs(g, follow_exterior, edges@, i as int),
        {
            let edge = edges[i];
            let keep = if follow_exterior {
                self.edge_kind(edge) == GraphPathEdgeKind::Exterior
            } else {
                let end_idx = self.edge_end_point_idx(edge);
                self.has_single_exterior_edge(end_idx)
            };
            if keep {
                kept.push(edge);
            }
            proof {
                if cyc && follow_exterior {
                    assert(edges@.take(i + 1) =~= edges@.take(i as int).push(edge));
                }
            }
        }
        proof {
            if cyc && follow_exterior {
                assert(edges@.take(n as int) =~= edges@);
            }
        }
        kept
    }

    /// Searches breadth-first, backwards from `root`, along the edges an exterior path may follow, until the
    /// search comes back round to `root` or runs out of points; records for each point reached the point it was
    /// reached from and the edge between them
    #[verifier::rlimit(60)]
    #[verifier::spinoff_prover]
    fn search_for_loop(&self, root: usize, previous_point: &mut Vec<Option<(usize, GraphEdgeRef)>>) -> (depth: Ghost<Seq<nat>>)
        requires
            graph_wf(self@),
            root < self@.len(),
            old(previous_point)@.len() == self@.len(),
            forall|p: int| 0 <= p < self@.len() ==> (#[trigger] old(previous_point)@[p]) is None,
        ensures
            search_consistent(self@, final(previous_point)@, root as int, depth@),
            final(previous_point)@ == loop_search(self@, root as int),
            is_exterior_cycle(self@) && root == 0 ==> cycle_predecessors(self@, final(previous_point)@),
    {
        let ghost g = self@;
        let n = self.points.len();
        let ghost mut depth: Seq<nat> = Seq::new(n as nat, |i: int| 0nat);
        let ghost mut found: Set<int> = Set::empty();
        let mut points_to_check: Vec<(usize, usize)> = vec![(root, root)];
        let ghost cyc0 = is_exterior_cycle(g) && root == 0;
        let ghost mut t: int = 0;
        let ghost mut passes: nat = 0;
        let ghost total = loop_search(g, root as int);
        proof {
            assert(previous_point@ =~= Seq::new(g.len(), |i: int| None));
            assert(points_to_check@ =~= seq![(root, root)]);
            assert(found =~= Set::new(|p: int| 0 <= p < n && previous_point@[p] is Some));
            if cyc0 {
                let nn = n as int;
                assert((nn - 0) % nn == 0) by (nonlinear_arith)
                    requires nn >= 3;
                assert(points_to_check@ =~= seq![cycle_entry(n as int, 0)]);
            }
        }
        while previous_point[root].is_none() && points_to_check.len() > 0
            invariant
                g == self@,
                graph_wf(g),
                n == g.len(),
                root < n,
                search_consistent(g, previous_point@, root as int, depth),
                found == Set::new(|p: int| 0 <= p < n && previous_point@[p] is Some),
                found.finite(),
                found.len() <= n,
                forall|j: int|
                    0 <= j < points_to_check@.len() ==> (#[trigger] points_to_check@[j]).1 < n && (points_to_check@[j].1 == root
                        || previous_point@[points_to_check@[j].1 as int] is Some),
                cyc0 == (is_exterior_cycle(g) && root == 0),
                cyc0 ==> cycle_search_state(n as int, previous_point@, t),
                cyc0 && t < n ==> points_to_check@ == seq![cycle_entry(n as int, t)],
                total == loop_search(g, root as int),
                passes <= n + 1,
                points_to_check@.len() > 0 ==> passes <= found.len(),
                loop_layers(g, root as int, LoopSearchState { previous: previous_point@, found: Seq::empty() }, points_to_check@, (n + 1 - passes) as nat)
                    == total,
            decreases 2 * (n - found.len()) + (if points_to_check@.len() > 0 { 1int } else { 0int }),
        {
            proof {
                if cyc0 {
                    assert(previous_point@[0] is None);
                    assert(t < n);
                    lemma_cycle_entry(n as int, t);
                }
            }
            let ghost found_before = found;
            let mut next_points_to_check: Vec<(usize, usize)> = Vec::new();
            let m = points_to_check.len();
            let ghost pre_layer = previous_point@;
            let ghost layer = loop_scan_frontier(g, root as int, LoopSearchState { previous: previous_point@, found: Seq::empty() }, points_to_check@, 0);
            proof {
                assert(next_points_to_check@ =~= Seq::<(usize, usize)>::empty());
            }
            for j in 0..m
                invariant
                    loop_scan_frontier(g, root as int, LoopSearchState { previous: previous_point@, found: next_points_to_check@ }, points_to_check@, j as int)
                        == layer,
                    g == self@,
                    graph_wf(g),
                    n == g.len(),
                    root < n,
                    m == points_to_check@.len(),
                    search_consistent(g, previous_point@, root as int, depth),
                    found == Set::new(|p: int| 0 <= p < n && previous_point@[p] is Some),
                    found.finite(),
                    found_before.finite(),
                    found_before.subset_of(found),
                    found.len() == found_before.len() + next_points_to_check@.len(),
                    forall|j: int|
                        0 <= j < points_to_check@.len() ==> (#[trigger] points_to_check@[j]).1 < n && (points_to_check@[j].1 == root
                            || previous_point@[points_to_check@[j].1 as int] is Some),
                    forall|j: int|
                        0 <= j < next_points_to_check@.len() ==> (#[trigger] next_points_to_check@[j]).1 < n && (
                        next_points_to_check@[j].1 == root || previous_point@[next_points_to_check@[j].1 as int] is Some),
                    cyc0 == (is_exterior_cycle(g) && root == 0),
                    cyc0 ==> 0 <= t < n && points_to_check@ == seq![cycle_entry(n as int, t)],
                    cyc0 && j == 0 ==> cycle_search_state(n as int, previous_point@, t) && next_points_to_check@.len() == 0,
                    cyc0 && j == 1 ==> cycle_search_state(n as int, previous_point@, t + 1) && next_points_to_check@ == seq![
                        cycle_entry(n as int, t + 1),
                    ],
            {
                let ghost st_j = LoopSearchState { previous: previous_point@, found: next_points_to_check@ };
                let (previous_point_idx, current_point_idx) = points_to_check[j];
                let edges = self.loop_search_edges(root, previous_point_idx, current_point_idx);
                let k = edges.len();
                let ghost scanned = loop_scan_edges(g, st_j, previous_point_idx as int, current_point_idx as int, edges@, 0);
                let ghost tg = n - t - 1;
                proof {
                    if cyc0 {
                        lemma_cycle_entry(n as int, t);
                        assert(j == 0);
                        assert((previous_point_idx, current_point_idx) == cycle_entry(n as int, t));
                        lemma_cycle_neighbours(g, current_point_idx as int);
                    }
                }
                for i in 0..k
                    invariant
                        loop_scan_edges(g, LoopSearchState { previous: previous_point@, found: next_points_to_check@ }, previous_point_idx as int, current_point_idx as int, edges@, i as int)
                            == scanned,
                        g == self@,
                        graph_wf(g),
                        n == g.len(),
                        root < n,
                        k == edges@.len(),
                        current_point_idx < n,
                        current_point_idx == root || previous_point@[current_point_idx as int] is Some,
                        forall|j: int|
                            0 <= j < points_to_check@.len() ==> (#[trigger] points_to_check@[j]).1 < n && (points_to_check@[j].1
                                == root || previous_point@[points_to_check@[j].1 as int] is Some),
                        forall|j: int|
                            0 <= j < k ==> valid_ref(g, #[trigger] edges@[j]) && ref_start_point(g, edges@[j]) == current_point_idx
                                && may_follow(g, edges@[j].reversed_spec()),
                        search_consistent(g, previous_point@, root as int, depth),
                        found == Set::new(|p: int| 0 <= p < n && previous_point@[p] is Some),
                        found.finite(),
                        found_before.finite(),
                        found_before.subset_of(found),
                        found.len() == found_before.len() + next_points_to_check@.len(),
                        forall|j: int|
                            0 <= j < next_points_to_check@.len() ==> (#[trigger] next_points_to_check@[j]).1 < n && (
                            next_points_to_check@[j].1 == root || previous_point@[next_points_to_check@[j].1 as int] is Some),
                        cyc0 == (is_exterior_cycle(g) && root == 0),
                        cyc0 ==> 0 <= t < n && tg == n - t - 1,
                        cyc0 ==> (current_point_idx as int, previous_point_idx as int) == (((n - t) % (n as int)), (if t == 0 { 0 } else { (current_point_idx + 1) % (n as int) })),
                        cyc0 ==> k == (if t == 0 { 1int } else { 2int }) && edges@[k - 1] == only_edge(tg, true),
                        cyc0 && t > 0 ==> edges@[0] == only_edge(current_point_idx as int, false),
                        cyc0 ==> tg != previous_point_idx && ((tg + 1) % (n as int)) == current_point_idx,
                        cyc0 ==> cycle_entry(n as int, t + 1) == (current_point_idx, tg as usize),
                        cyc0 && t > 0 ==> (current_point_idx + 1) % (n as int) == previous_point_idx,
                        cyc0 && i < k ==> cycle_search_state(n as int, previous_point@, t) && next_points_to_check@.len() == 0,
                        cyc0 && i == k ==> cycle_search_state(n as int, previous_point@, t + 1) && next_points_to_check@ == seq![
                            cycle_entry(n as int, t + 1),
                        ],
                {
                    let ghost st_i = LoopSearchState { previous: previous_point@, found: next_points_to_check@ };
                    let edge = edges[i];
                    let next_point_idx = self.edge_end_point_idx(edge);
                    let ghost prev_before = previous_point@;
                    proof {
                        if cyc0 {
                            if i == k - 1 {
                                assert(next_point_idx == tg);
                                assert(previous_point@[tg] is None);
                            } else {
                                assert(next_point_idx == previous_point_idx);
                            }
                        }
                    }
                    if previous_point[next_point_idx].is_none() && next_point_idx != previous_point_idx {
                        proof {
                            lemma_search_step(g, previous_point@, root as int, depth, current_point_idx, next_point_idx, edge);
                        }
                        let ghost found_old = found;
                        previous_point.set(next_point_idx, Some((current_point_idx, edge)));
                        proof {
                            depth = depth.update(next_point_idx as int, depth[current_point_idx as int] + 1);
                            found = found.insert(next_point_idx as int);
                            assert(found =~= Set::new(|p: int| 0 <= p < n && previous_point@[p] is Some));
                            assert(!found_old.contains(next_point_idx as int));
                            vstd::set::axiom_set_insert_len(found_old, next_point_idx as int);
                            vstd::set::axiom_set_insert_finite(found_old, next_point_idx as int);
                            assert forall|x: int| 0 <= x < n && found_old.contains(x) implies (#[trigger] previous_point@[x]) is Some by {
                                assert(found.contains(x));
                            }
                            assert forall|j: int| 0 <= j < points_to_check@.len() implies (#[trigger] points_to_check@[j]).1 < n && (
                                points_to_check@[j].1 == root || previous_point@[points_to_check@[j].1 as int] is Some) by {
                                let x = points_to_check@[j].1 as int;
                                if x != root {
                                    assert(found_old.contains(x));
                                }
                            }
                        }
                        next_points_to_check.push((current_point_idx, next_point_idx));
                        proof {
                            if cyc0 {
                                assert(previous_point@ == prev_before.update(tg, Some((current_point_idx, only_edge(tg, true)))));
                                assert(next_points_to_check@ =~= seq![cycle_entry(n as int, t + 1)]);
                                lemma_cycle_search_update(n as int, prev_before, t, current_point_idx);
                            }
                        }
                    }
                    proof {
                        let st_now = LoopSearchState { previous: previous_point@, found: next_points_to_check@ };
                        assert(st_now =~= loop_edge_step(g, st_i, previous_point_idx as int, current_point_idx as int, edges@[i as int]));
                    }
                }
                proof {
                    assert(points_to_check@[j as int] == (previous_point_idx, current_point_idx));
                }
            }
            proof {
                lemma_loop_layer_step(g, root as int, pre_layer, points_to_check@, (n + 1 - passes) as nat, previous_point@,
                    next_points_to_check@);
                passes = passes + 1;
            }
            points_to_check = next_points_to_check;
            proof {
                lemma_set_range_len(found, n as int);
                if cyc0 {
                    t = t + 1;
                }
            }
        }
        proof {
            if cyc0 {
                if t < n {
                    assert(points_to_check@.len() == 1);
                    assert(previous_point@[0] is Some);
                }
                assert(t == n);
                assert forall|p: int| 0 <= p < n implies #[trigger] previous_point@[p] == Some(
                    (((p + 1) % (n as int)) as usize, only_edge(p, true)),
                ) by {
                    assert(p >= n - t);
                }
            }
        }
        Ghost(depth)
    }

    /// Follows the recorded predecessors from `root` back round to `root`, building the path along the loop (each
    /// edge taken in the direction opposite to the search) and marking its points as visited
    #[verifier::rlimit(60)]
    #[verifier::spinoff_prover]
    fn trace_loop(
        &self,
        root: usize,
        previous_point: &Vec<Option<(usize, GraphEdgeRef)>>,
        visited: &mut Vec<bool>,
        depth: Ghost<Seq<nat>>,
    ) -> (r: SimpleBezierPath)
        requires
            graph_wf(self@),
            root < self@.len(),
            search_consistent(self@, previous_point@, root as int, depth@),
            previous_point@[root as int] is Some,
            old(visited)@.len() == self@.len(),
        ensures
            is_closed_walk(self@, r),
            r.start_point == self@[root as int].position,
            r.points@ == traced_loop_sections(self@, previous_point@, root as int),
            final(visited)@ == visited_after_loop(previous_point@, root as int, old(visited)@),
            final(visited)@.len() == self@.len(),
            is_exterior_cycle(self@) && root == 0 && cycle_predecessors(self@, previous_point@) ==> r.start_point == self@[0].position
                && r.points@ == cycle_sections(self@) && forall|p: int| 0 <= p < self@.len() ==> #[trigger] final(visited)@[p],
    {
        let ghost g = self@;
        let n = self.points.len();
        let ghost cyc = is_exterior_cycle(g) && root == 0 && cycle_predecessors(g, previous_point@);
        let (last_point_idx, edge) = previous_point[root].unwrap();
        let (cp1, cp2) = self.edge_control_points(edge);
        let start_point = self.edge_start_point(edge);
        let mut path_points: Vec<(Coord2, Coord2, Coord2)> = Vec::new();
        path_points.push((cp2, cp1, start_point));
        let ghost visited0 = visited@;
        visited.set(last_point_idx, true);
        let ghost mut steps: nat = 1;
        proof {
            assert(chain_point(previous_point@, root as int, 0) == root);
            assert(previous_point@[root as int] == Some((last_point_idx, edge)));
            assert(chain_point(previous_point@, root as int, 1) == last_point_idx);
            assert(visited@ =~= Seq::new(visited0.len(), |q: int| visited0[q] || exists|m: nat| 1 <= m <= steps && #[trigger] chain_point(previous_point@, root as int, m) == q)) by {
                assert forall|q: int| 0 <= q < visited0.len() implies visited@[q] == (visited0[q] || exists|m: nat| 1 <= m <= steps && #[trigger] chain_point(previous_point@, root as int, m) == q) by {
                    if exists|m: nat| 1 <= m <= steps && #[trigger] chain_point(previous_point@, root as int, m) == q {
                        let m = choose|m: nat| 1 <= m <= steps && #[trigger] chain_point(previous_point@, root as int, m) == q;
                        assert(m == 1);
                    }
                    if q == last_point_idx {
                        assert(chain_point(previous_point@, root as int, 1) == q);
                    }
                }
            }
        }
        let ghost mut refs: Seq<GraphEdgeRef> = seq![edge.reversed_spec()];
        let ghost mut idx: Seq<int> = seq![root as int, last_point_idx as int];
        proof {
            assert(section_follows(g, path_points@, refs, idx, 0));
            if cyc {
                lemma_cycle_step(g, 0);
                assert(previous_point@[0] == Some((cycle_succ(0, n as int) as usize, only_edge(0, true))));
                assert(path_points@[0] == cycle_sections(g)[0]);
                assert(visited@[cycle_succ(0, n as int)]);
            }
        }
        let mut cur_point_idx = last_point_idx;
        while cur_point_idx != root
            invariant
                cyc == (is_exterior_cycle(g) && root == 0 && cycle_predecessors(g, previous_point@)),
                cyc ==> 1 <= refs.len() <= n && cur_point_idx as int == refs.len() as int % (n as int),
                cyc ==> forall|k: int| 0 <= k < refs.len() ==> #[trigger] path_points@[k] == cycle_sections(g)[k],
                cyc ==> forall|k: int| 0 <= k < refs.len() ==> #[trigger] visited@[cycle_succ(k, n as int)],
                g == self@,
                graph_wf(g),
                n == g.len(),
                root < n,
                search_consistent(g, previous_point@, root as int, depth@),
                cur_point_idx < n,
                cur_point_idx == root || previous_point@[cur_point_idx as int] is Some,
                visited@.len() == n,
                refs.len() >= 1,
                path_points@.len() == refs.len(),
                idx.len() == refs.len() + 1,
                idx[0] == root,
                idx[refs.len() as int] == cur_point_idx,
                forall|k: int| 0 <= k < refs.len() ==> #[trigger] section_follows(g, path_points@, refs, idx, k),
                steps >= 1,
                refs.len() == steps,
                forall|k: int|
                    0 <= k < steps ==> #[trigger] refs[k] == recorded_edge(previous_point@[chain_point(previous_point@, root as int, k as nat)]).reversed_spec(),
                cur_point_idx == chain_point(previous_point@, root as int, steps),
                forall|m2: nat| 1 <= m2 < steps ==> #[trigger] chain_point(previous_point@, root as int, m2) != root,
                visited0.len() == n,
                visited@ == Seq::new(visited0.len(), |q: int| visited0[q] || exists|m: nat| 1 <= m <= steps && #[trigger] chain_point(previous_point@, root as int, m) == q),
            decreases (if cur_point_idx == root { 0 } else { depth@[cur_point_idx as int] + 1 }),
        {
            let (last_point_idx, edge) = previous_point[cur_point_idx].unwrap();
            let (cp1, cp2) = self.edge_control_points(edge);
            let start_point = self.edge_start_point(edge);
            let ghost before = path_points@;
            let ghost visited_before = visited@;
            path_points.push((cp2, cp1, start_point));
            let ghost marked_before = visited@;
            visited.set(last_point_idx, true);
            proof {
                let pv = previous_point@;
                let rt = root as int;
                assert(chain_point(pv, rt, steps + 1) == last_point_idx);
                assert forall|m2: nat| 1 <= m2 < steps + 1 implies #[trigger] chain_point(pv, rt, m2) != rt by {
                    if m2 == steps {
                        assert(chain_point(pv, rt, m2) == cur_point_idx);
                    }
                }
                assert forall|q: int| 0 <= q < visited0.len() implies visited@[q] == (visited0[q] || exists|m: nat| 1 <= m <= steps + 1 && #[trigger] chain_point(pv, rt, m) == q) by {
                    if exists|m: nat| 1 <= m <= steps + 1 && #[trigger] chain_point(pv, rt, m) == q {
                        let m = choose|m: nat| 1 <= m <= steps + 1 && #[trigger] chain_point(pv, rt, m) == q;
                        if m <= steps {
                            assert(marked_before[q]);
                        }
                    }
                    if q == last_point_idx {
                        assert(chain_point(pv, rt, steps + 1) == q);
                    } else if marked_before[q] && !visited0[q] {
                        let m = choose|m: nat| 1 <= m <= steps && #[trigger] chain_point(pv, rt, m) == q;
                        assert(1 <= m <= steps + 1);
                    }
                }
                assert(visited@ =~= Seq::new(visited0.len(), |q: int| visited0[q] || exists|m: nat| 1 <= m <= steps + 1 && #[trigger] chain_point(pv, rt, m) == q));
                assert(previous_point@[cur_point_idx as int] == Some((last_point_idx, edge)));
                assert(recorded_edge(pv[chain_point(pv, rt, steps)]) == edge);
                steps = steps + 1;
            }
            proof {
                lemma_walk_extend(g, before, refs, idx, (cp2, cp1, start_point), edge.reversed_spec(), last_point_idx as int);
                if cyc {
                    let c = cur_point_idx as int;
                    let len = refs.len() as int;
                    assert(c == len) by {
                        if len == n {
                            let nn = n as int;
                            assert(nn % nn == 0) by (nonlinear_arith)
                                requires nn >= 3;
                        }
                        assert(len % (n as int) == len) by (nonlinear_arith)
                            requires 1 <= len < n;
                    }
                    lemma_cycle_step(g, c);
                    assert(previous_point@[c] == Some((cycle_succ(c, n as int) as usize, only_edge(c, true))));
                    assert(path_points@[len] == cycle_sections(g)[len]);
                    assert forall|k: int| 0 <= k < len + 1 implies #[trigger] path_points@[k] == cycle_sections(g)[k] by {
                        if k < len {
                            assert(path_points@[k] == before[k]);
                        }
                    }
                    assert forall|k: int| 0 <= k < len + 1 implies #[trigger] visited@[cycle_succ(k, n as int)] by {
                        if k < len {
                            assert(visited_before[cycle_succ(k, n as int)]);
                        }
                    }
                    assert(cycle_succ(c, n as int) == (len + 1) % (n as int));
                }
                refs = refs.push(edge.reversed_spec());
                idx = idx.push(last_point_idx as int);
            }
            cur_point_idx = last_point_idx;
        }
        let root_position = self.edge_end_point(edge);
        let path = SimpleBezierPath::from_points(root_position, path_points);
        proof {
            let pv = previous_point@;
            let rt = root as int;
            assert forall|q: int| 0 <= q < visited0.len() implies visited@[q] == (visited0[q] || on_traced_loop(pv, rt, q)) by {
                if on_traced_loop(pv, rt, q) {
                    let m = choose|m: nat|
                        1 <= m && #[trigger] chain_point(pv, rt, m) == q && forall|m2: nat|
                            1 <= m2 < m ==> #[trigger] chain_point(pv, rt, m2) != rt;
                    if m > steps {
                        assert(chain_point(pv, rt, steps) == rt);
                        assert(false);
                    }
                    assert(1 <= m <= steps && chain_point(pv, rt, m) == q);
                }
                if !visited0[q] && visited@[q] {
                    let m = choose|m: nat| 1 <= m <= steps && #[trigger] chain_point(pv, rt, m) == q;
                    assert forall|m2: nat| 1 <= m2 < m implies #[trigger] chain_point(pv, rt, m2) != rt by {}
                    assert(on_traced_loop(pv, rt, q));
                }
            }
            assert(visited@ =~= visited_after_loop(pv, rt, visited0));
            assert(1 <= steps && chain_point(pv, rt, steps) == rt && forall|m2: nat|
                1 <= m2 < steps ==> #[trigger] chain_point(pv, rt, m2) != rt);
            let len = traced_loop_length(pv, rt);
            assert(len == steps) by {
                assert(1 <= len && chain_point(pv, rt, len) == rt && forall|m2: nat|
                    1 <= m2 < len ==> #[trigger] chain_point(pv, rt, m2) != rt);
                if len < steps {
                    assert(chain_point(pv, rt, len) != rt);
                } else if len > steps {
                    assert(chain_point(pv, rt, steps) != rt);
                }
            }
            assert forall|k: int| 0 <= k < steps implies path.points@[k] == traced_loop_sections(g, pv, rt)[k] by {
                assert(section_follows(g, path_points@, refs, idx, k));
            }
            assert(path.points@ =~= traced_loop_sections(g, pv, rt));
            assert(traces_closed_walk(g, path, refs, idx));
            if cyc {
                let len = refs.len() as int;
                assert(len == n) by {
                    if len < n {
                        assert(len % (n as int) == len) by (nonlinear_arith)
                            requires 1 <= len < n;
                    }
                }
                assert(path.points@ =~= cycle_sections(g));
                assert forall|p: int| 0 <= p < n implies #[trigger] visited@[p] by {
                    let k = cycle_pred(p, n as int);
                    lemma_cycle_succ_pred(p, n as int);
                    assert(visited@[cycle_succ(k, n as int)]);
                }
            }
        }
        path
    }

    /// Finds the exterior edges and turns them into a series of paths: for each point (in order) not yet on a
    /// path found, searches breadth-first for a loop back to it along exterior edges (bridging gaps through
    /// points with a single exterior edge; `loop_search`), and adds the path that follows that loop
    /// (`traced_loop_sections`), whose points are then on a path (`exterior_loop_roots`)
    #[verifier::rlimit(60)]
    #[verifier::spinoff_prover]
    pub fn exterior_paths(&self) -> (r: Vec<SimpleBezierPath>)
        requires
            graph_wf(self@),
        ensures
            r@.len() <= self@.len(),
            forall|k: int| 0 <= k < r@.len() ==> is_closed_walk(self@, #[trigger] r@[k]),
            r@.len() == exterior_loop_roots(self@, 0, Seq::new(self@.len(), |i: int| false)).len(),
            forall|k: int|
                0 <= k < r@.len() ==> (#[trigger] r@[k]).start_point == self@[exterior_loop_roots(
                    self@,
                    0,
                    Seq::new(self@.len(), |i: int| false),
                )[k]].position,
            forall|k: int|
                0 <= k < r@.len() ==> (#[trigger] r@[k]).points@ == ({
                    let root = exterior_loop_roots(self@, 0, Seq::new(self@.len(), |i: int| false))[k];
                    traced_loop_sections(self@, loop_search(self@, root), root)
                }),
            forall|m: int|
                #[trigger] is_cycle_with_gap(self@, m) ==> r@.len() == 1 && r@[0].start_point == self@[gap_cycle_root(
                    self@.len() as int,
                    m,
                )].position && r@[0].points@ == cycle_sections_from(self@, gap_cycle_root(self@.len() as int, m)),
            is_exterior_cycle(self@) ==> r@.len() == 1 && r@[0].start_point == self@[0].position && r@[0].points@
                == cycle_sections(self@),
    {
        let ghost g = self@;
        let ghost cyc = is_exterior_cycle(g);
        let n = self.points.len();
        let mut exterior_paths: Vec<SimpleBezierPath> = Vec::new();
        let mut visited: Vec<bool> = Vec::new();
        let mut previous_point: Vec<Option<(usize, GraphEdgeRef)>> = Vec::new();
        for i in 0..n
            invariant
                previous_point@.len() == i,
                visited@.len() == i,
                forall|p: int| 0 <= p < i ==> !#[trigger] visited@[p],
        {
            previous_point.push(None);
            visited.push(false);
        }
        let ghost all_roots = exterior_loop_roots(g, 0, Seq::new(g.len(), |i: int| false));
        let ghost mut roots: Seq<int> = Seq::empty();
        proof {
            assert(visited@ =~= Seq::new(g.len(), |i: int| false));
            assert(roots + exterior_loop_roots(g, 0, visited@) =~= all_roots);
        }
        for point_idx in 0..n
            invariant
                all_roots == exterior_loop_roots(g, 0, Seq::new(g.len(), |i: int| false)),
                roots + exterior_loop_roots(g, point_idx as int, visited@) == all_roots,
                exterior_paths@.len() == roots.len(),
                forall|k: int| 0 <= k < roots.len() ==> 0 <= #[trigger] roots[k] < n,
                forall|k: int| 0 <= k < roots.len() ==> (#[trigger] exterior_paths@[k]).start_point == g[roots[k]].position,
                forall|k: int|
                    0 <= k < roots.len() ==> (#[trigger] exterior_paths@[k]).points@ == traced_loop_sections(
                        g,
                        loop_search(g, roots[k]),
                        roots[k],
                    ),
                g == self@,
                cyc == is_exterior_cycle(g),
                n == self@.len(),
                graph_wf(self@),
                visited@.len() == n,
                previous_point@.len() == n,
                exterior_paths@.len() <= point_idx,
                forall|k: int| 0 <= k < exterior_paths@.len() ==> is_closed_walk(self@, #[trigger] exterior_paths@[k]),
                cyc && point_idx == 0 ==> forall|p: int| 0 <= p < n ==> !#[trigger] visited@[p],
                cyc && point_idx > 0 ==> (forall|p: int| 0 <= p < n ==> #[trigger] visited@[p]) && exterior_paths@.len() == 1
                    && exterior_paths@[0].start_point == g[0].position && exterior_paths@[0].points@ == cycle_sections(g),
        {
            if !visited[point_idx] {
                for i in 0..n
                    invariant
                        previous_point@.len() == n,
                        forall|p: int| 0 <= p < i ==> (#[trigger] previous_point@[p]) is None,
                {
                    previous_point.set(i, None);
                }
                let depth = self.search_for_loop(point_idx, &mut previous_point);
                proof {
                    if cyc {
                        assert(point_idx == 0);
                        assert(previous_point@[0] == Some((((0int + 1) % (n as int)) as usize, only_edge(0, true))));
                    }
                }
                let ghost visited_before = visited@;
                if previous_point[point_idx].is_some() {
                    let path = self.trace_loop(point_idx, &previous_point, &mut visited, depth);
                    exterior_paths.push(path);
                    proof {
                        let rest = exterior_loop_roots(g, point_idx + 1, visited@);
                        assert(exterior_loop_roots(g, point_idx as int, visited_before) == seq![point_idx as int] + rest);
                        assert(roots.push(point_idx as int) + rest =~= roots + (seq![point_idx as int] + rest));
                        roots = roots.push(point_idx as int);
                    }
                }
            }
            proof {
                assert(exterior_paths@.len() == roots.len());
            }
        }
        proof {
            assert(exterior_loop_roots(g, n as int, visited@) == Seq::<int>::empty());
            assert(roots =~= all_roots);
            assert forall|m: int| #[trigger] is_cycle_with_gap(g, m) implies exterior_paths@.len() == 1
                && exterior_paths@[0].start_point == g[gap_cycle_root(g.len() as int, m)].position
                && exterior_paths@[0].points@ == cycle_sections_from(g, gap_cycle_root(g.len() as int, m)) by {
                lemma_gap_cycle_exterior_path(g, m);
                assert(all_roots[0] == gap_cycle_root(g.len() as int, m));
            }
        }
        exterior_paths
    }
}

/// Link `k` of a healing chain: a forward edge from point `idx[k + 1]` to point `idx[k]`, exterior exactly when
/// it is the first link (the exterior edge the search reached).
pub open spec fn chain_link(g: Seq<PointModel>, refs: Seq<GraphEdgeRef>, idx: Seq<int>, k: int) -> bool {
    &&& valid_ref(g, refs[k])
    &&& !refs[k].reverse
    &&& refs[k].start_idx == idx[k + 1]
    &&& edge_at(g, refs[k]).end_idx == idx[k]
    &&& (edge_at(g, refs[k]).kind == GraphPathEdgeKind::Exterior) == (k == 0)
}

/// `refs` (through the points `idx`) is a chain of at most `max_depth` edges found to heal a gap at `end_point`:
/// read backwards it leads from `end_point` along edges that are not exterior to an exterior edge.
pub open spec fn healing_chain(g: Seq<PointModel>, refs: Seq<GraphEdgeRef>, idx: Seq<int>, end_point: int, max_depth: int) -> bool {
    &&& refs.len() <= max_depth
    &&& idx.len() == refs.len() + 1
    &&& idx[refs.len() as int] == end_point
    &&& forall|k: int| 0 <= k < refs.len() ==> #[trigger] chain_link(g, refs, idx, k)
}

/// `t` is the exterior edge a healing chain reached: its reverse has a gap, it arrives at the first point of the
/// chain, and it is the first link when the chain has any.
pub open spec fn heal_target(g: Seq<PointModel>, t: GraphEdgeRef, refs: Seq<GraphEdgeRef>, idx: Seq<int>) -> bool {
    &&& valid_ref(g, t)
    &&& !t.reverse
    &&& edge_at(g, t).kind == GraphPathEdgeKind::Exterior
    &&& edge_gap(g, t.reversed_spec())
    &&& edge_at(g, t).end_idx == idx[0]
    &&& (refs.len() > 0 ==> refs[0] == t)
}

/// The state of the breadth-first search for a route across a gap: the edge each point was reached by, the
/// points reached in the current pass (with the point each was reached from), and the point where the search
/// crossed the gap, once it has.
#[verifier::ext_equal]
pub struct HealSearchState {
    pub preceding: Seq<Option<GraphEdgeRef>>,
    pub found: Seq<(usize, usize)>,
    pub target: Option<usize>,
}

/// The search looks at the edge `e`, leaving a point it reached from `from`: it follows the edge unless the edge
/// goes back to `from` or to a point already reached, or is an exterior edge whose reverse has no gap. An
/// exterior edge it follows crosses the gap; any other edge it follows leads to a point to search from next.
pub open spec fn heal_edge_step(g: Seq<PointModel>, st: HealSearchState, from: int, e: GraphEdgeRef) -> HealSearchState {
    let end = ref_end_point(g, e);
    let exterior = edge_at(g, e).kind == GraphPathEdgeKind::Exterior;
    if end != from && st.preceding[end] is None && (!exterior || edge_gap(g, e.reversed_spec())) {
        let preceding = st.preceding.update(end, Some(e));
        if exterior {
            HealSearchState { preceding, target: Some(end as usize), ..st }
        } else {
            HealSearchState { preceding, found: st.found.push((ref_start_point(g, e) as usize, end as usize)), ..st }
        }
    } else {
        st
    }
}

/// The search looks at the edges `edges` from index `i` on, in order, until it crosses the gap.
pub open spec fn heal_scan_edges(g: Seq<PointModel>, st: HealSearchState, from: int, edges: Seq<GraphEdgeRef>, i: int) -> HealSearchState
    decreases edges.len() - i,
{
    if i >= edges.len() || st.target is Some {
        st
    } else {
        heal_scan_edges(g, heal_edge_step(g, st, from, edges[i]), from, edges, i + 1)
    }
}

/// The search looks at the edges leaving each point of `frontier` (reached from the point paired with it) from
/// index `j` on, in order, until it crosses the gap.
pub open spec fn heal_scan_frontier(g: Seq<PointModel>, st: HealSearchState, frontier: Seq<(usize, usize)>, j: int) -> HealSearchState
    decreases frontier.len() - j,
{
    if j >= frontier.len() || st.target is Some {
        st
    } else {
        heal_scan_frontier(
            g,
            heal_scan_edges(g, st, frontier[j].0 as int, point_edge_refs(g, frontier[j].1 as int), 0),
            frontier,
            j + 1,
        )
    }
}

/// The search runs at most `passes` more passes, each over the points the previous one reached, stopping once
/// it has crossed the gap (the points reached by the last pass are left out of the result).
pub open spec fn heal_layers(g: Seq<PointModel>, st: HealSearchState, frontier: Seq<(usize, usize)>, passes: nat) -> HealSearchState
    decreases passes,
{
    if passes == 0 || st.target is Some {
        HealSearchState { found: Seq::empty(), ..st }
    } else {
        let next = heal_scan_frontier(g, HealSearchState { found: Seq::empty(), ..st }, frontier, 0);
        heal_layers(g, next, next.found, (passes - 1) as nat)
    }
}

/// The search for a route across the gap at the end of edge `e` of point `p`: breadth-first from the edge's end
/// point, for at most `max_depth` passes, along forward edges that are not exterior, until it follows an exterior
/// edge whose reverse has a gap.
pub open spec fn heal_search(g: Seq<PointModel>, p: int, e: int, max_depth: nat) -> HealSearchState {
    let end = g[p].edges[e].end_idx;
    heal_layers(
        g,
        HealSearchState { preceding: Seq::new(g.len(), |i: int| None), found: Seq::empty(), target: None },
        seq![(p as usize, end)],
        max_depth,
    )
}

/// The route the search for a way across a gap found: from `cur` (at first the point where it crossed the gap)
/// back along the edges it reached each point by, until the end point of the gap (at most `fuel` edges).
pub open spec fn heal_route(preceding: Seq<Option<GraphEdgeRef>>, cur: int, end: int, fuel: nat) -> Seq<GraphEdgeRef>
    decreases fuel,
{
    if fuel == 0 || cur == end {
        Seq::empty()
    } else {
        let e = preceding[cur]->0;
        seq![e] + heal_route(preceding, e.start_idx as int, end, (fuel - 1) as nat)
    }
}

/// One pass of the search: the passes left after it start from the state it ends in, whatever points that state
/// lists as reached.
proof fn lemma_heal_layer_step(
    g: Seq<PointModel>,
    pre0: Seq<Option<GraphEdgeRef>>,
    frontier: Seq<(usize, usize)>,
    passes: nat,
    pre: Seq<Option<GraphEdgeRef>>,
    next: Seq<(usize, usize)>,
    target: Option<usize>,
)
    requires
        passes > 0,
        heal_scan_frontier(g, HealSearchState { preceding: pre0, found: Seq::empty(), target: None }, frontier, 0)
            == (HealSearchState { preceding: pre, found: next, target }),
    ensures
        heal_layers(g, HealSearchState { preceding: pre0, found: Seq::empty(), target: None }, frontier, passes) == heal_layers(
            g,
            HealSearchState { preceding: pre, found: Seq::empty(), target },
            next,
            (passes - 1) as nat,
        ),
{
    let st0 = HealSearchState { preceding: pre0, found: Seq::empty(), target: None };
    let st1 = HealSearchState { preceding: pre, found: next, target };
    let st2 = HealSearchState { preceding: pre, found: Seq::empty(), target };
    let rest = (passes - 1) as nat;
    assert(HealSearchState { found: Seq::empty(), ..st0 } =~= st0);
    assert(heal_layers(g, st0, frontier, passes) == heal_layers(g, st1, st1.found, rest));
    assert(HealSearchState { found: Seq::empty(), ..st1 } =~= HealSearchState { found: Seq::empty(), ..st2 });
    if rest == 0 || target is Some {
        assert(heal_layers(g, st1, next, rest) == HealSearchState { found: Seq::empty(), ..st1 });
        assert(heal_layers(g, st2, next, rest) == HealSearchState { found: Seq::empty(), ..st2 });
    } else {
        let n1 = heal_scan_frontier(g, HealSearchState { found: Seq::empty(), ..st1 }, next, 0);
        let n2 = heal_scan_frontier(g, HealSearchState { found: Seq::empty(), ..st2 }, next, 0);
        assert(n1 == n2);
        assert(heal_layers(g, st1, next, rest) == heal_layers(g, n1, n1.found, (rest - 1) as nat));
        assert(heal_layers(g, st2, next, rest) == heal_layers(g, n2, n2.found, (rest - 1) as nat));
    }
}

/// One visit of gap healing to the forward edge `e` of point `p`: if the edge has a gap in `a`, healing was
/// attempted, `b` being the graph afterwards and `ok` the outcome, which is whether the search `heal_search`
/// (at most `MAX_HEAL_DEPTH` passes) found a route across the gap (with nothing changed on failure, and on
/// success the route it found, `heal_route`, a healing chain from the edge's end point, made exterior);
/// otherwise nothing changed and `ok` holds.
pub open spec fn heal_visit(a: Seq<PointModel>, b: Seq<PointModel>, p: int, e: int, ok: bool) -> bool {
    if edge_gap(a, GraphEdgeRef { start_idx: p as usize, edge_idx: e as usize, reverse: false }) {
        &&& same_except_kinds(a, b)
        &&& ok == heal_search(a, p, e, MAX_HEAL_DEPTH as nat).target is Some
        &&& (!ok ==> b == a)
        &&& (ok ==> kinds_follow(a, b, ({
            let search = heal_search(a, p, e, MAX_HEAL_DEPTH as nat);
            heal_route(search.preceding, search.target->0 as int, a[p].edges[e].end_idx as int, MAX_HEAL_DEPTH as nat)
        }), GraphPathEdgeKind::Exterior))
        &&& (ok ==> exists|refs: Seq<GraphEdgeRef>, idx: Seq<int>, t: GraphEdgeRef|
            #[trigger] healing_chain(a, refs, idx, a[p].edges[e].end_idx as int, MAX_HEAL_DEPTH as int)
                && kinds_follow(a, b, refs, GraphPathEdgeKind::Exterior) && #[trigger] heal_target(a, t, refs, idx))
    } else {
        b == a && ok
    }
}

/// The graphs `graphs` (starting from `g0`) and outcomes `oks` of visiting the edges `visits` one after another
/// to heal their gaps.
pub open spec fn heal_trace(g0: Seq<PointModel>, visits: Seq<GraphEdgeRef>, graphs: Seq<Seq<PointModel>>, oks: Seq<bool>) -> bool {
    &&& graphs.len() == visits.len() + 1
    &&& oks.len() == visits.len()
    &&& graphs[0] == g0
    &&& forall|k: int|
        0 <= k < visits.len() ==> #[trigger] heal_visit(
            graphs[k],
            graphs[k + 1],
            visits[k].start_idx as int,
            visits[k].edge_idx as int,
            oks[k],
        )
}

proof fn lemma_heal_trace_push(
    g0: Seq<PointModel>,
    visits: Seq<GraphEdgeRef>,
    graphs: Seq<Seq<PointModel>>,
    oks: Seq<bool>,
    r: GraphEdgeRef,
    next: Seq<PointModel>,
    ok: bool,
)
    requires
        heal_trace(g0, visits, graphs, oks),
        heal_visit(graphs.last(), next, r.start_idx as int, r.edge_idx as int, ok),
    ensures
        heal_trace(g0, visits.push(r), graphs.push(next), oks.push(ok)),
        graphs.push(next).last() == next,
{
    let v2 = visits.push(r);
    let g2 = graphs.push(next);
    let o2 = oks.push(ok);
    assert forall|k: int| 0 <= k < v2.len() implies #[trigger] heal_visit(
        g2[k],
        g2[k + 1],
        v2[k].start_idx as int,
        v2[k].edge_idx as int,
        o2[k],
    ) by {
        if k < visits.len() {
            assert(heal_visit(graphs[k], graphs[k + 1], visits[k].start_idx as int, visits[k].edge_idx as int, oks[k]));
            assert(g2[k] == graphs[k] && g2[k + 1] == graphs[k + 1] && v2[k] == visits[k] && o2[k] == oks[k]);
        } else {
            assert(g2[k] == graphs.last());
        }
    }
}

/// No edge of the graph (taken forwards) has a gap.
pub open spec fn has_no_gaps(g: Seq<PointModel>) -> bool {
    forall|p: int, e: int|
        0 <= p < g.len() && 0 <= e < g[p].edges.len() ==> !#[trigger] edge_gap(
            g,
            GraphEdgeRef { start_idx: p as usize, edge_idx: e as usize, reverse: false },
        )
}

/// Every edge of `b` has the kind it has in `a`, or is exterior.
pub open spec fn only_made_exterior(a: Seq<PointModel>, b: Seq<PointModel>) -> bool {
    forall|p: int, e: int|
        0 <= p < a.len() && 0 <= e < a[p].edges.len() ==> #[trigger] b[p].edges[e].kind == a[p].edges[e].kind
            || b[p].edges[e].kind == GraphPathEdgeKind::Exterior
}

/// The state of the search for a route across a gap at `end_point`: every point with a recorded preceding edge
/// is reached by that forward edge from `end_point` or from a point reached earlier (at a smaller depth, at
/// most `level`), and the only preceding edge that is exterior is the one into the target point.
pub open spec fn heal_search_consistent(
    g: Seq<PointModel>,
    preceding: Seq<Option<GraphEdgeRef>>,
    end_point: int,
    target: Option<usize>,
    depth: Seq<nat>,
    level: int,
) -> bool {
    &&& preceding.len() == g.len()
    &&& depth.len() == g.len()
    &&& (target matches Some(t) ==> t < g.len() && preceding[t as int] is Some && edge_gap(g, (preceding[t as int]->0).reversed_spec()))
    &&& forall|p: int|
        0 <= p < g.len() && (#[trigger] preceding[p]) is Some ==> {
            let e = preceding[p]->0;
            &&& valid_ref(g, e)
            &&& !e.reverse
            &&& edge_at(g, e).end_idx == p
            &&& (e.start_idx == end_point || (preceding[e.start_idx as int] is Some && depth[e.start_idx as int] < depth[p]))
            &&& 1 <= depth[p] <= level
            &&& (edge_at(g, e).kind == GraphPathEdgeKind::Exterior) == (target == Some(p as usize))
        }
}

/// The state of the search across the gap at point `m` of a loop whose only edge that is not exterior leaves
/// `m`, after `stage` passes: the point after `m` is reached along `m`'s edge, then the point after that along
/// the next (exterior) edge, which is the target.
pub open spec fn loop_gap_search_state(n: int, m: int, preceding: Seq<Option<GraphEdgeRef>>, target: Option<usize>, stage: int) -> bool {
    let s = (m + 1) % n;
    let s2 = (s + 1) % n;
    &&& preceding.len() == n
    &&& forall|p: int| 0 <= p < n ==> ((#[trigger] preceding[p]) is Some <==> ((stage >= 1 && p == s) || (stage >= 2 && p == s2)))
    &&& stage >= 1 ==> preceding[s] == Some(only_edge(m, false))
    &&& stage >= 2 ==> preceding[s2] == Some(only_edge(s, false))
    &&& target == (if stage >= 2 { Some(s2 as usize) } else { None::<usize> })
}

/// One pass of the search across the gap of a loop: the state moves on by one stage.
proof fn lemma_loop_gap_search_step(
    n: int,
    m: int,
    before: Seq<Option<GraphEdgeRef>>,
    after: Seq<Option<GraphEdgeRef>>,
    stage: int,
)
    requires
        n >= 3,
        0 <= m < n,
        loop_gap_search_state(n, m, before, None, stage),
        0 <= stage < 2,
        stage == 0 ==> after == before.update((m + 1) % n, Some(only_edge(m, false))),
        stage == 1 ==> after == before.update(((m + 1) % n + 1) % n, Some(only_edge((m + 1) % n, false))),
        (m + 1) % n != ((m + 1) % n + 1) % n,
    ensures
        loop_gap_search_state(
            n,
            m,
            after,
            if stage == 1 { Some((((m + 1) % n + 1) % n) as usize) } else { None },
            stage + 1,
        ),
{
    let s = (m + 1) % n;
    let s2 = (s + 1) % n;
    assert forall|p: int| 0 <= p < n implies ((#[trigger] after[p]) is Some <==> ((stage + 1 >= 1 && p == s) || (stage + 1 >= 2 && p == s2))) by {
        if stage == 0 {
            if p != s {
                assert(after[p] == before[p]);
            }
        } else {
            if p != s2 {
                assert(after[p] == before[p]);
            }
        }
    }
}

/// Setting the kinds of the edges in a walk to exterior only makes edges exterior.
proof fn lemma_kinds_follow_exterior(a: Seq<PointModel>, b: Seq<PointModel>, done: Seq<GraphEdgeRef>)
    requires
        kinds_follow(a, b, done, GraphPathEdgeKind::Exterior),
    ensures
        only_made_exterior(a, b),
{
    assert forall|p: int, e: int| 0 <= p < a.len() && 0 <= e < a[p].edges.len() implies #[trigger] b[p].edges[e].kind
        == a[p].edges[e].kind || b[p].edges[e].kind == GraphPathEdgeKind::Exterior by {
        assert(b[p].edges[e].kind == (if walk_covers(done, p, e) { GraphPathEdgeKind::Exterior } else { a[p].edges[e].kind }));
    }
}

/// Making edges exterior twice over only makes edges exterior.
proof fn lemma_only_made_exterior_trans(a: Seq<PointModel>, b: Seq<PointModel>, c: Seq<PointModel>)
    requires
        same_except_kinds(a, b),
        only_made_exterior(a, b),
        only_made_exterior(b, c),
    ensures
        only_made_exterior(a, c),
{
    assert forall|p: int, e: int| 0 <= p < a.len() && 0 <= e < a[p].edges.len() implies #[trigger] c[p].edges[e].kind
        == a[p].edges[e].kind || c[p].edges[e].kind == GraphPathEdgeKind::Exterior by {
        assert(a[p].position == b[p].position);
        assert(b[p].edges[e].kind == a[p].edges[e].kind || b[p].edges[e].kind == GraphPathEdgeKind::Exterior);
        assert(c[p].edges[e].kind == b[p].edges[e].kind || c[p].edges[e].kind == GraphPathEdgeKind::Exterior);
    }
}

/// Graphs that differ only in the kinds of their edges: the relation is transitive.
proof fn lemma_same_except_kinds_trans(a: Seq<PointModel>, b: Seq<PointModel>, c: Seq<PointModel>)
    requires
        same_except_kinds(a, b),
        same_except_kinds(b, c),
    ensures
        same_except_kinds(a, c),
{
    assert forall|p: int| 0 <= p < a.len() implies {
        &&& #[trigger] a[p].position == c[p].position
        &&& a[p].connected_from == c[p].connected_from
        &&& a[p].edges.len() == c[p].edges.len()
        &&& forall|e: int|
            0 <= e < a[p].edges.len() ==> (GraphPathEdge { kind: c[p].edges[e].kind, ..#[trigger] a[p].edges[e] }) == c[p].edges[e]
    } by {
        assert(a[p].position == b[p].position);
        assert(b[p].position == c[p].position);
        assert forall|e: int| 0 <= e < a[p].edges.len() implies (GraphPathEdge { kind: c[p].edges[e].kind, ..#[trigger] a[p].edges[e] })
            == c[p].edges[e] by {
            assert((GraphPathEdge { kind: b[p].edges[e].kind, ..a[p].edges[e] }) == b[p].edges[e]);
            assert((GraphPathEdge { kind: c[p].edges[e].kind, ..b[p].edges[e] }) == c[p].edges[e]);
        }
    }
}

/// A graph is the same as itself, apart from the kinds of its edges.
proof fn lemma_same_except_kinds_refl(a: Seq<PointModel>)
    ensures
        same_except_kinds(a, a),
        only_made_exterior(a, a),
{
    assert forall|p: int| 0 <= p < a.len() implies {
        &&& #[trigger] a[p].position == a[p].position
        &&& a[p].connected_from == a[p].connected_from
        &&& a[p].edges.len() == a[p].edges.len()
        &&& forall|e: int|
            0 <= e < a[p].edges.len() ==> (GraphPathEdge { kind: a[p].edges[e].kind, ..#[trigger] a[p].edges[e] }) == a[p].edges[e]
    } by {
        assert forall|e: int| 0 <= e < a[p].edges.len() implies (GraphPathEdge { kind: a[p].edges[e].kind, ..#[trigger] a[p].edges[e] })
            == a[p].edges[e] by {}
    }
}

/// Recording the preceding edge of a newly reached point keeps the healing search consistent.
proof fn lemma_heal_search_step(
    g: Seq<PointModel>,
    preceding: Seq<Option<GraphEdgeRef>>,
    end_point: int,
    target: Option<usize>,
    depth: Seq<nat>,
    level: int,
    current: usize,
    next: usize,
    edge: GraphEdgeRef,
    found: bool,
)
    requires
        heal_search_consistent(g, preceding, end_point, target, depth, level),
        target is None,
        next < g.len(),
        preceding[next as int] is None,
        valid_ref(g, edge),
        !edge.reverse,
        edge.start_idx == current,
        edge_at(g, edge).end_idx == next,
        found == (edge_at(g, edge).kind == GraphPathEdgeKind::Exterior),
        found ==> edge_gap(g, edge.reversed_spec()),
        current == end_point || (preceding[current as int] is Some && depth[current as int] < level),
        level >= 1,
    ensures
        heal_search_consistent(
            g,
            preceding.update(next as int, Some(edge)),
            end_point,
            if found { Some(next) } else { None },
            depth.update(next as int, level as nat),
            level,
        ),
{
    let pre2 = preceding.update(next as int, Some(edge));
    let depth2 = depth.update(next as int, level as nat);
    let target2: Option<usize> = if found { Some(next) } else { None };
    if found {
        assert(pre2[next as int] == Some(edge));
    }
    assert forall|p: int| 0 <= p < g.len() && (#[trigger] pre2[p]) is Some implies {
        let e = pre2[p]->0;
        &&& valid_ref(g, e)
        &&& !e.reverse
        &&& edge_at(g, e).end_idx == p
        &&& (e.start_idx == end_point || (pre2[e.start_idx as int] is Some && depth2[e.start_idx as int] < depth2[p]))
        &&& 1 <= depth2[p] <= level
        &&& (edge_at(g, e).kind == GraphPathEdgeKind::Exterior) == (target2 == Some(p as usize))
    } by {
        if p == next {
            assert(pre2[p] == Some(edge));
            if current as int != end_point {
                assert(current != next);
            }
        } else {
            assert(pre2[p] == preceding[p]);
            let e = preceding[p]->0;
            if e.start_idx as int != end_point {
                assert(e.start_idx != next);
            }
        }
    }
}

impl GraphPath {
    /// Given an edge that ends in a gap, attempts to bridge the gap: searches breadth-first, up to `max_depth`
    /// edges deep, forward from the edge's end point along edges that are not exterior (never straight back to
    /// the point it came from, nor to a point already reached) until it reaches an exterior edge whose reverse
    /// also has a gap, then marks the edges that led there as exterior. Returns false, changing nothing, if no
    /// such route was found.
    #[verifier::rlimit(100)]
    #[verifier::spinoff_prover]
    fn heal_edge_with_gap(&mut self, point_idx: usize, edge_idx: usize, max_depth: usize) -> (r: bool)
        requires
            graph_wf(old(self)@),
            point_idx < old(self)@.len(),
            edge_idx < old(self)@[point_idx as int].edges.len(),
        ensures
            same_except_kinds(old(self)@, final(self)@),
            graph_wf(final(self)@),
            final(self).path_count() == old(self).path_count(),
            !r ==> final(self)@ == old(self)@,
            r == heal_search(old(self)@, point_idx as int, edge_idx as int, max_depth as nat).target is Some,
            r ==> kinds_follow(old(self)@, final(self)@, ({
                let search = heal_search(old(self)@, point_idx as int, edge_idx as int, max_depth as nat);
                heal_route(
                    search.preceding,
                    search.target->0 as int,
                    old(self)@[point_idx as int].edges[edge_idx as int].end_idx as int,
                    max_depth as nat,
                )
            }), GraphPathEdgeKind::Exterior),
            r ==> exists|refs: Seq<GraphEdgeRef>, idx: Seq<int>, t: GraphEdgeRef|
                #[trigger] healing_chain(old(self)@, refs, idx, old(self)@[point_idx as int].edges[edge_idx as int].end_idx as int, max_depth as int)
                    && kinds_follow(old(self)@, final(self)@, refs, GraphPathEdgeKind::Exterior) && #[trigger] heal_target(old(self)@, t, refs, idx),
            is_cycle_with_gap(old(self)@, old(self)@[point_idx as int].edges[edge_idx as int].end_idx as int) && max_depth >= 2 ==> r
                && final(self)@ == with_edge_kind(
                old(self)@,
                only_edge(old(self)@[point_idx as int].edges[edge_idx as int].end_idx as int, false),
                GraphPathEdgeKind::Exterior,
            ),
    {
        let ghost g0 = self@;
        let n = self.points.len();
        let end_point_idx = self.edge(GraphEdgeRef { start_idx: point_idx, edge_idx, reverse: false }).end_idx;
        let ghost cg = is_cycle_with_gap(g0, end_point_idx as int) && max_depth >= 2;
        let ghost gm = end_point_idx as int;
        let ghost gs = (gm + 1) % (n as int);
        let ghost gs2 = (gs + 1) % (n as int);
        proof {
            if cg {
                lemma_cycle_neighbours(g0, point_idx as int);
                lemma_cycle_neighbours(g0, gm);
                lemma_cycle_neighbours(g0, gs);
                lemma_cycle_gaps(g0, gm);
                assert(edge_idx == 0);
                assert(g0[point_idx as int].edges[0].end_idx == (point_idx + 1) % (n as int));
                assert(point_idx == cycle_pred(gm, n as int));
                assert(gm != gs2) by {
                    if gm == gs2 {
                        assert(cycle_pred(gs2, n as int) == gs);
                        assert(cycle_pred(gs, n as int) == gm);
                    }
                }
                assert(gs != gs2) by {
                    if gs == gs2 {
                        assert(cycle_pred(gs2, n as int) == gs);
                        assert(cycle_pred(gs, n as int) == gm);
                    }
                }
            }
        }

        // State of the search
        let mut preceding_edge: Vec<Option<GraphEdgeRef>> = Vec::new();
        for i in 0..n
            invariant
                preceding_edge@.len() == i,
                forall|p: int| 0 <= p < i ==> (#[trigger] preceding_edge@[p]) is None,
        {
            preceding_edge.push(None);
        }
        let mut points_to_process: Vec<(usize, usize)> = vec![(point_idx, end_point_idx)];
        let mut current_depth: usize = 0;
        let mut target_point_idx: Option<usize> = None;
        let ghost mut depth: Seq<nat> = Seq::new(n as nat, |i: int| 0nat);
        let ghost search = heal_search(g0, point_idx as int, edge_idx as int, max_depth as nat);
        proof {
            if cg {
                assert(loop_gap_search_state(n as int, gm, preceding_edge@, target_point_idx, 0));
            }
            assert(preceding_edge@ =~= Seq::new(g0.len(), |i: int| None));
            assert(points_to_process@ =~= seq![(point_idx, end_point_idx)]);
            assert(end_point_idx == g0[point_idx as int].edges[edge_idx as int].end_idx);
            assert(HealSearchState { preceding: preceding_edge@, found: Seq::empty(), target: target_point_idx } =~= HealSearchState {
                preceding: Seq::new(g0.len(), |i: int| None),
                found: Seq::empty(),
                target: None,
            });
        }

        // Iterate until we hit the maximum depth
        while current_depth < max_depth && target_point_idx.is_none()
            invariant
                g0 == self@,
                graph_wf(g0),
                n == g0.len(),
                end_point_idx < n,
                current_depth <= max_depth,
                heal_search_consistent(g0, preceding_edge@, end_point_idx as int, target_point_idx, depth, current_depth as int),
                forall|j: int|
                    0 <= j < points_to_process@.len() ==> (#[trigger] points_to_process@[j]).1 < n && (points_to_process@[j].1
                        == end_point_idx || (preceding_edge@[points_to_process@[j].1 as int] is Some
                        && depth[points_to_process@[j].1 as int] <= current_depth)),
                cg == (is_cycle_with_gap(g0, end_point_idx as int) && max_depth >= 2),
                gm == end_point_idx as int,
                gs == (gm + 1) % (n as int),
                gs2 == (gs + 1) % (n as int),
                cg ==> current_depth <= 2 && loop_gap_search_state(n as int, gm, preceding_edge@, target_point_idx, current_depth as int),
                cg ==> gs != gs2,
                cg && current_depth == 0 ==> points_to_process@ == seq![(cycle_pred(gm, n as int) as usize, end_point_idx)],
                cg && current_depth == 1 ==> points_to_process@ == seq![(end_point_idx, gs as usize)],
                search == heal_search(g0, point_idx as int, edge_idx as int, max_depth as nat),
                heal_layers(
                    g0,
                    HealSearchState { preceding: preceding_edge@, found: Seq::empty(), target: target_point_idx },
                    points_to_process@,
                    (max_depth - current_depth) as nat,
                ) == search,
            decreases max_depth - current_depth,
        {
            proof {
                if cg {
                    lemma_cycle_neighbours(g0, gm);
                    lemma_cycle_neighbours(g0, gs);
                    lemma_cycle_gaps(g0, gm);
                    assert(current_depth < 2);
                }
            }
            let level: usize = current_depth + 1;
            let mut next_points_to_process: Vec<(usize, usize)> = Vec::new();
            let m = points_to_process.len();
            let ghost pre_layer = preceding_edge@;
            let ghost layer = heal_scan_frontier(
                g0,
                HealSearchState { preceding: preceding_edge@, found: Seq::empty(), target: target_point_idx },
                points_to_process@,
                0,
            );
            proof {
                assert(next_points_to_process@ =~= Seq::<(usize, usize)>::empty());
            }
            for j in 0..m
                invariant
                    heal_scan_frontier(
                        g0,
                        HealSearchState { preceding: preceding_edge@, found: next_points_to_process@, target: target_point_idx },
                        points_to_process@,
                        j as int,
                    ) == layer,
                    g0 == self@,
                    graph_wf(g0),
                    n == g0.len(),
                    end_point_idx < n,
                    level == current_depth + 1,
                    m == points_to_process@.len(),
                    heal_search_consistent(g0, preceding_edge@, end_point_idx as int, target_point_idx, depth, level as int),
                    forall|j: int|
                        0 <= j < points_to_process@.len() ==> (#[trigger] points_to_process@[j]).1 < n && (points_to_process@[j].1
                            == end_point_idx || (preceding_edge@[points_to_process@[j].1 as int] is Some
                            && depth[points_to_process@[j].1 as int] <= current_depth)),
                    forall|j: int|
                        0 <= j < next_points_to_process@.len() ==> (#[trigger] next_points_to_process@[j]).1 < n && (
                        next_points_to_process@[j].1 == end_point_idx || (preceding_edge@[next_points_to_process@[j].1 as int] is Some
                            && depth[next_points_to_process@[j].1 as int] <= level)),
                    cg == (is_cycle_with_gap(g0, end_point_idx as int) && max_depth >= 2),
                    gm == end_point_idx as int,
                    gs == (gm + 1) % (n as int),
                    gs2 == (gs + 1) % (n as int),
                    cg ==> current_depth < 2 && m == 1 && gs != gs2,
                    cg && current_depth == 0 ==> points_to_process@ == seq![(cycle_pred(gm, n as int) as usize, end_point_idx)],
                    cg && current_depth == 1 ==> points_to_process@ == seq![(end_point_idx, gs as usize)],
                    cg && j == 0 ==> loop_gap_search_state(n as int, gm, preceding_edge@, target_point_idx, current_depth as int)
                        && next_points_to_process@.len() == 0,
                    cg && j == 1 ==> loop_gap_search_state(n as int, gm, preceding_edge@, target_point_idx, level as int),
                    cg && j == 1 && current_depth == 0 ==> next_points_to_process@ == seq![(end_point_idx, gs as usize)],
            {
                let ghost st_j = HealSearchState { preceding: preceding_edge@, found: next_points_to_process@, target: target_point_idx };
                // Stop once we find a point
                if target_point_idx.is_none() {
                    let (from_point_idx, next_point_idx) = points_to_process[j];
                    let edges = self.edge_refs_for_point(next_point_idx);
                    let k = edges.len();
                    let ghost scanned = heal_scan_edges(g0, st_j, from_point_idx as int, edges@, 0);
                    proof {
                        if cg {
                            lemma_cycle_refs(g0, next_point_idx as int);
                            lemma_cycle_neighbours(g0, gm);
                            lemma_cycle_neighbours(g0, gs);
                            lemma_cycle_gaps(g0, gm);
                            assert(j == 0);
                            assert(g0[gm].edges[0].end_idx == gs);
                            assert(g0[gs].edges[0].end_idx == gs2);
                        }
                    }
                    let mut i: usize = 0;
                    while i < k && target_point_idx.is_none()
                        invariant
                            heal_scan_edges(
                                g0,
                                HealSearchState { preceding: preceding_edge@, found: next_points_to_process@, target: target_point_idx },
                                from_point_idx as int,
                                edges@,
                                i as int,
                            ) == scanned,
                            g0 == self@,
                            graph_wf(g0),
                            n == g0.len(),
                            end_point_idx < n,
                            level == current_depth + 1,
                            next_point_idx < n,
                            next_point_idx == end_point_idx || (preceding_edge@[next_point_idx as int] is Some
                                && depth[next_point_idx as int] <= current_depth),
                            k == edges@.len(),
                            i <= k,
                            forall|j: int|
                                0 <= j < k ==> valid_ref(g0, #[trigger] edges@[j]) && !edges@[j].reverse && edges@[j].start_idx
                                    == next_point_idx,
                            heal_search_consistent(g0, preceding_edge@, end_point_idx as int, target_point_idx, depth, level as int),
                            forall|j: int|
                                0 <= j < points_to_process@.len() ==> (#[trigger] points_to_process@[j]).1 < n && (
                                points_to_process@[j].1 == end_point_idx || (preceding_edge@[points_to_process@[j].1 as int] is Some
                                    && depth[points_to_process@[j].1 as int] <= current_depth)),
                            forall|j: int|
                                0 <= j < next_points_to_process@.len() ==> (#[trigger] next_points_to_process@[j]).1 < n && (
                                next_points_to_process@[j].1 == end_point_idx || (
                                preceding_edge@[next_points_to_process@[j].1 as int] is Some && depth[next_points_to_process@[j].1 as int]
                                    <= level)),
                            cg == (is_cycle_with_gap(g0, end_point_idx as int) && max_depth >= 2),
                            gm == end_point_idx as int,
                            gs == (gm + 1) % (n as int),
                            gs2 == (gs + 1) % (n as int),
                            cg ==> current_depth < 2 && k == 1 && edges@[0] == only_edge(next_point_idx as int, false),
                            cg && current_depth == 0 ==> next_point_idx == gm && from_point_idx == cycle_pred(gm, n as int)
                                && from_point_idx != gs,
                            cg && current_depth == 1 ==> next_point_idx == gs && from_point_idx == gm && gm != gs2 && gs != gs2 && gs != gm,
                            cg ==> 0 <= gs < n && 0 <= gs2 < n && g0[gm].edges[0].end_idx == gs && g0[gs].edges[0].end_idx == gs2
                                && gs != gs2,
                            cg ==> g0[gm].edges[0].kind != GraphPathEdgeKind::Exterior && g0[gs].edges[0].kind == GraphPathEdgeKind::Exterior,
                            cg ==> edge_gap(g0, only_edge(gs, true)),
                            cg && i == 0 ==> loop_gap_search_state(n as int, gm, preceding_edge@, target_point_idx, current_depth as int)
                                && next_points_to_process@.len() == 0,
                            cg && i == 1 ==> loop_gap_search_state(n as int, gm, preceding_edge@, target_point_idx, level as int),
                            cg && i == 1 && current_depth == 0 ==> next_points_to_process@ == seq![(end_point_idx, gs as usize)],
                            cg && i == 1 && current_depth == 1 ==> next_points_to_process@.len() == 0,
                        decreases k - i,
                    {
                        let ghost st_i = HealSearchState {
                            preceding: preceding_edge@,
                            found: next_points_to_process@,
                            target: target_point_idx,
                        };
                        let next_edge_ref = edges[i];
                        let edge_end_point_idx = self.edge_end_point_idx(next_edge_ref);
                        let edge_start_idx = self.edge_start_point_idx(next_edge_ref);

                        // Don't go back the way we came, and don't revisit points we already have a trail for
                        if edge_end_point_idx != from_point_idx && preceding_edge[edge_end_point_idx].is_none() {
                            // Ignore exterior edges (except exterior edges where edge_has_gap is true, which indicate
                            // we've crossed our gap)
                            let reversed_edge_ref = next_edge_ref.reversed();
                            let is_exterior = self.edge_kind(next_edge_ref) == GraphPathEdgeKind::Exterior;
                            if !is_exterior || self.edge_has_gap(reversed_edge_ref) {
                                let ghost pre_before = preceding_edge@;
                                proof {
                                    lemma_heal_search_step(g0, preceding_edge@, end_point_idx as int, target_point_idx, depth,
                                        level as int, next_point_idx, edge_end_point_idx, next_edge_ref, is_exterior);
                                }
                                // Add this as a preceding edge
                                preceding_edge.set(edge_end_point_idx, Some(next_edge_ref));
                                proof {
                                    depth = depth.update(edge_end_point_idx as int, level as nat);
                                    assert forall|j: int| 0 <= j < points_to_process@.len() implies (#[trigger] points_to_process@[j]).1
                                        < n && (points_to_process@[j].1 == end_point_idx || (
                                    preceding_edge@[points_to_process@[j].1 as int] is Some && depth[points_to_process@[j].1 as int]
                                        <= current_depth)) by {
                                        let x = points_to_process@[j].1 as int;
                                        if x != end_point_idx {
                                            assert(pre_before[x] is Some);
                                        }
                                    }
                                    assert forall|j: int| 0 <= j < next_points_to_process@.len() implies (
                                    #[trigger] next_points_to_process@[j]).1 < n && (next_points_to_process@[j].1 == end_point_idx || (
                                    preceding_edge@[next_points_to_process@[j].1 as int] is Some
                                        && depth[next_points_to_process@[j].1 as int] <= level)) by {
                                        let x = next_points_to_process@[j].1 as int;
                                        if x != end_point_idx {
                                            assert(pre_before[x] is Some);
                                        }
                                    }
                                }
                                if is_exterior {
                                    // We've found a path across the gap
                                    target_point_idx = Some(edge_end_point_idx);
                                } else {
                                    // Continue searching from this point
                                    next_points_to_process.push((edge_start_idx, edge_end_point_idx));
                                }
                                proof {
                                    if cg {
                                        lemma_loop_gap_search_step(n as int, gm, pre_before, preceding_edge@, current_depth as int);
                                        if current_depth == 0 {
                                            assert(next_points_to_process@ =~= seq![(end_point_idx, gs as usize)]);
                                        }
                                    }
                                }
                            } else {
                                proof {
                                    if cg {
                                        assert(false);
                                    }
                                }
                            }
                        } else {
                            proof {
                                if cg {
                                    assert(false);
                                }
                            }
                        }
                        proof {
                            let st_now = HealSearchState {
                                preceding: preceding_edge@,
                                found: next_points_to_process@,
                                target: target_point_idx,
                            };
                            assert(st_now =~= heal_edge_step(g0, st_i, from_point_idx as int, edges@[i as int]));
                        }
                        i = i + 1;
                    }
                    proof {
                        let st_now = HealSearchState {
                            preceding: preceding_edge@,
                            found: next_points_to_process@,
                            target: target_point_idx,
                        };
                        assert(st_now == scanned);
                        assert(points_to_process@[j as int] == (from_point_idx, next_point_idx));
                    }
                }
            }

            proof {
                lemma_heal_layer_step(g0, pre_layer, points_to_process@, (max_depth - current_depth) as nat, preceding_edge@,
                    next_points_to_process@, target_point_idx);
            }
            // Process any points we found in the next pass
            points_to_process = next_points_to_process;
            current_depth = level;
        }
        proof {
            assert(target_point_idx == search.target);
            assert(preceding_edge@ == search.preceding);
        }

        match target_point_idx {
            Some(target) => {
                // Mark the edges leading back from the target point to the gap as exterior
                let mut current_point_idx = target;
                let ghost mut refs: Seq<GraphEdgeRef> = Seq::empty();
                let ghost mut idx: Seq<int> = seq![target as int];
                let ghost t = preceding_edge@[target as int]->0;
                proof {
                    assert(refs + heal_route(preceding_edge@, target as int, end_point_idx as int, (max_depth - refs.len()) as nat)
                        =~= heal_route(preceding_edge@, target as int, end_point_idx as int, max_depth as nat));
                    lemma_same_except_kinds_refl(g0);
                    assert(heal_target(g0, t, refs, idx));
                    if cg {
                        assert(current_depth == 2);
                        lemma_cycle_neighbours(g0, gm);
                        lemma_cycle_gaps(g0, gm);
                        assert(gm != gs) by {
                            lemma_cycle_neighbours(g0, gs);
                        }
                    }
                }
                while current_point_idx != end_point_idx
                    invariant
                        graph_wf(g0),
                        n == g0.len(),
                        end_point_idx < n,
                        target < n,
                        current_depth <= max_depth,
                        heal_search_consistent(g0, preceding_edge@, end_point_idx as int, Some(target), depth, current_depth as int),
                        same_except_kinds(g0, self@),
                        self.path_count() == old(self).path_count(),
                        g0 == old(self)@,
                        kinds_follow(g0, self@, refs, GraphPathEdgeKind::Exterior),
                        current_point_idx < n,
                        current_point_idx == end_point_idx || preceding_edge@[current_point_idx as int] is Some,
                        current_point_idx == end_point_idx || refs.len() + depth[current_point_idx as int] <= depth[target as int],
                        current_point_idx == end_point_idx ==> refs.len() <= depth[target as int] || refs.len() == 0,
                        idx.len() == refs.len() + 1,
                        idx[0] == target,
                        idx[refs.len() as int] == current_point_idx,
                        forall|k: int| 0 <= k < refs.len() ==> #[trigger] chain_link(g0, refs, idx, k),
                        t == preceding_edge@[target as int]->0,
                        heal_target(g0, t, refs, idx),
                        cg == (is_cycle_with_gap(g0, end_point_idx as int) && max_depth >= 2),
                        gm == end_point_idx as int,
                        gs == (gm + 1) % (n as int),
                        gs2 == (gs + 1) % (n as int),
                        cg ==> loop_gap_search_state(n as int, gm, preceding_edge@, Some(target), 2),
                        cg ==> 0 <= gs < n && 0 <= gs2 < n && gs != gs2 && gm != gs2 && gm != gs,
                        cg ==> g0[gs].edges[0].kind == GraphPathEdgeKind::Exterior,
                        cg ==> current_point_idx == gs2 || current_point_idx == gs || current_point_idx == gm,
                        cg && current_point_idx != gm ==> self@ == g0,
                        cg && current_point_idx == gm ==> self@ == with_edge_kind(g0, only_edge(gm, false), GraphPathEdgeKind::Exterior),
                        refs + heal_route(preceding_edge@, current_point_idx as int, end_point_idx as int, (max_depth - refs.len()) as nat)
                            == heal_route(preceding_edge@, target as int, end_point_idx as int, max_depth as nat),
                        depth[target as int] <= max_depth,
                    decreases (if current_point_idx == end_point_idx { 0 } else { depth[current_point_idx as int] + 1 }),
                {
                    let previous_edge_ref = preceding_edge[current_point_idx].unwrap();
                    proof {
                        lemma_same_except_kinds_wf(g0, self@);
                        lemma_kinds_follow_step(g0, self@, refs, previous_edge_ref, GraphPathEdgeKind::Exterior);
                        if cg {
                            if current_point_idx == gs2 {
                                assert(previous_edge_ref == only_edge(gs, false));
                                lemma_with_same_kind(g0, previous_edge_ref, GraphPathEdgeKind::Exterior);
                            } else {
                                assert(current_point_idx == gs);
                                assert(previous_edge_ref == only_edge(gm, false));
                            }
                        }
                    }
                    // Mark this edge as exterior
                    self.set_edge_kind(previous_edge_ref, GraphPathEdgeKind::Exterior);
                    proof {
                        lemma_same_except_kinds_wf(g0, self@);
                        let old_refs = refs;
                        let old_idx = idx;
                        let f = (max_depth - old_refs.len()) as nat;
                        assert(f > 0);
                        let pre = preceding_edge@;
                        assert(heal_route(pre, current_point_idx as int, end_point_idx as int, f) == seq![previous_edge_ref]
                            + heal_route(pre, previous_edge_ref.start_idx as int, end_point_idx as int, (f - 1) as nat));
                        assert(old_refs.push(previous_edge_ref) + heal_route(pre, previous_edge_ref.start_idx as int, end_point_idx as int, (f - 1) as nat)
                            =~= old_refs + (seq![previous_edge_ref] + heal_route(pre, previous_edge_ref.start_idx as int, end_point_idx as int, (f - 1) as nat)));
                        refs = refs.push(previous_edge_ref);
                        idx = idx.push(previous_edge_ref.start_idx as int);
                        assert forall|k: int| 0 <= k < refs.len() implies #[trigger] chain_link(g0, refs, idx, k) by {
                            if k < old_refs.len() {
                                assert(chain_link(g0, old_refs, old_idx, k));
                            } else {
                                if k > 0 {
                                    assert(depth[current_point_idx as int] < depth[target as int]);
                                    assert(current_point_idx != target);
                                }
                            }
                        }
                    }
                    // Move to the previous point
                    current_point_idx = self.edge_start_point_idx(previous_edge_ref);
                }
                proof {
                    assert(heal_route(preceding_edge@, end_point_idx as int, end_point_idx as int, (max_depth - refs.len()) as nat)
                        == Seq::<GraphEdgeRef>::empty());
                    assert(refs =~= heal_route(preceding_edge@, target as int, end_point_idx as int, max_depth as nat));
                    lemma_same_except_kinds_wf(g0, self@);
                    assert(healing_chain(g0, refs, idx, end_point_idx as int, max_depth as int));
                    assert(heal_target(g0, t, refs, idx));
                }
                true
            },
            None => {
                // Failed to cross the gap
                false
            },
        }
    }

    /// Finds any gaps in the edges marked as exterior and attempts to 'heal' them by finding a route to another
    /// part of the path with a missing edge. Returns true if all the gaps that were found were 'healed'. The
    /// forward edges are visited point by point (`heal_trace`); each gap found is searched across for at most
    /// `MAX_HEAL_DEPTH` edges (`heal_search`), and the route found is made exterior (`heal_route`).
    #[verifier::spinoff_prover]
    pub fn heal_exterior_gaps(&mut self) -> (r: bool)
        requires
            graph_wf(old(self)@),
        ensures
            same_except_kinds(old(self)@, final(self)@),
            graph_wf(final(self)@),
            final(self).path_count() == old(self).path_count(),
            only_made_exterior(old(self)@, final(self)@),
            has_no_gaps(old(self)@) ==> r && final(self)@ == old(self)@,
            exists|graphs: Seq<Seq<PointModel>>, oks: Seq<bool>|
                #[trigger] heal_trace(old(self)@, all_edge_refs_upto(old(self)@, old(self)@.len()), graphs, oks)
                    && graphs.last() == final(self)@ && r == (forall|k: int| 0 <= k < oks.len() ==> #[trigger] oks[k]),
            forall|m: int|
                #[trigger] is_cycle_with_gap(old(self)@, m) ==> r && final(self)@ == with_edge_kind(
                    old(self)@,
                    only_edge(m, false),
                    GraphPathEdgeKind::Exterior,
                ),
    {
        let ghost g0 = self@;
        let mut all_healed = true;
        let n = self.points.len();
        let ghost mut graphs: Seq<Seq<PointModel>> = seq![g0];
        let ghost mut oks: Seq<bool> = Seq::empty();
        let ghost mut visits: Seq<GraphEdgeRef> = Seq::empty();
        let ghost gm = choose|m: int| is_cycle_with_gap(g0, m);
        let ghost cg = is_cycle_with_gap(g0, gm);
        let ghost pm = cycle_pred(gm, n as int);
        let ghost closed = with_edge_kind(g0, only_edge(gm, false), GraphPathEdgeKind::Exterior);
        proof {
            lemma_same_except_kinds_refl(g0);
            if cg {
                lemma_cycle_gap_closed(g0, gm);
                lemma_exterior_cycle_no_gaps(closed);
                lemma_cycle_gaps(g0, gm);
                lemma_cycle_neighbours(g0, gm);
            }
        }

        // Iterate over all the edges in this graph
        for point_idx in 0..n
            invariant
                n == g0.len(),
                g0 == old(self)@,
                graph_wf(self@),
                same_except_kinds(g0, self@),
                only_made_exterior(g0, self@),
                self.path_count() == old(self).path_count(),
                has_no_gaps(g0) ==> all_healed && self@ == g0,
                visits == all_edge_refs_upto(g0, point_idx as nat),
                heal_trace(g0, visits, graphs, oks),
                graphs.last() == self@,
                all_healed == (forall|k: int| 0 <= k < oks.len() ==> #[trigger] oks[k]),
                cg == is_cycle_with_gap(g0, gm),
                pm == cycle_pred(gm, n as int),
                closed == with_edge_kind(g0, only_edge(gm, false), GraphPathEdgeKind::Exterior),
                cg ==> has_no_gaps(closed) && graph_wf(closed) && 0 <= pm < n,
                cg ==> forall|p: int| 0 <= p < n ==> (#[trigger] edge_gap(g0, only_edge(p, false)) <==> p == pm),
                cg && point_idx <= pm ==> self@ == g0 && all_healed,
                cg && point_idx > pm ==> self@ == closed && all_healed,
        {
            proof {
                assert(g0[point_idx as int].position == self@[point_idx as int].position);
            }
            let num_edges = self.num_edges(point_idx);
            let ghost visits_before = visits;
            for edge_idx in 0..num_edges
                invariant
                    n == g0.len(),
                    point_idx < n,
                    g0 == old(self)@,
                    graph_wf(self@),
                    same_except_kinds(g0, self@),
                    only_made_exterior(g0, self@),
                    self.path_count() == old(self).path_count(),
                    num_edges == g0[point_idx as int].edges.len(),
                    has_no_gaps(g0) ==> all_healed && self@ == g0,
                    visits_before == all_edge_refs_upto(g0, point_idx as nat),
                    visits == visits_before + point_edge_refs(g0, point_idx as int).take(edge_idx as int),
                    heal_trace(g0, visits, graphs, oks),
                    graphs.last() == self@,
                    all_healed == (forall|k: int| 0 <= k < oks.len() ==> #[trigger] oks[k]),
                    cg == is_cycle_with_gap(g0, gm),
                    pm == cycle_pred(gm, n as int),
                    closed == with_edge_kind(g0, only_edge(gm, false), GraphPathEdgeKind::Exterior),
                    cg ==> has_no_gaps(closed) && graph_wf(closed) && 0 <= pm < n,
                    cg ==> forall|p: int| 0 <= p < n ==> (#[trigger] edge_gap(g0, only_edge(p, false)) <==> p == pm),
                    cg && (point_idx < pm || (point_idx == pm && edge_idx == 0)) ==> self@ == g0 && all_healed,
                    cg && (point_idx > pm || (point_idx == pm && edge_idx >= 1)) ==> self@ == closed && all_healed,
            {
                proof {
                    assert(g0[point_idx as int].position == self@[point_idx as int].position);
                    if cg {
                        assert(g0[point_idx as int].edges[0].end_idx == (point_idx + 1) % (n as int));
                        assert(edge_idx == 0);
                    }
                }
                let edge = GraphEdgeRef { start_idx: point_idx, edge_idx, reverse: false };
                proof {
                    if has_no_gaps(g0) {
                        let p = point_idx as int;
                        let e = edge_idx as int;
                        assert(!edge_gap(g0, GraphEdgeRef { start_idx: p as usize, edge_idx: e as usize, reverse: false }));
                        assert(edge == GraphEdgeRef { start_idx: p as usize, edge_idx: e as usize, reverse: false });
                    }
                }
                let ghost before = self@;
                let ghost mut ok = true;
                proof {
                    if cg {
                        assert(edge == only_edge(point_idx as int, false));
                        if self@ == closed {
                            let p = point_idx as int;
                            let e = edge_idx as int;
                            assert(!edge_gap(closed, GraphEdgeRef { start_idx: p as usize, edge_idx: e as usize, reverse: false }));
                            assert(edge == GraphEdgeRef { start_idx: p as usize, edge_idx: e as usize, reverse: false });
                        }
                    }
                }
                // If this edge has a gap, try to heal it
                if self.edge_has_gap(edge) {
                    proof {
                        if cg {
                            assert(self@ == g0);
                            assert(point_idx == pm);
                            lemma_cycle_neighbours(g0, pm);
                            assert(g0[pm].edges[0].end_idx == gm);
                        }
                    }
                    let healed = self.heal_edge_with_gap(point_idx, edge_idx, MAX_HEAL_DEPTH);
                    proof {
                        ok = healed;
                        if healed {
                            let (refs, idx, t) = choose|refs: Seq<GraphEdgeRef>, idx: Seq<int>, t: GraphEdgeRef|
                                #[trigger] healing_chain(before, refs, idx, before[point_idx as int].edges[edge_idx as int].end_idx as int, MAX_HEAL_DEPTH as int)
                                    && kinds_follow(before, self@, refs, GraphPathEdgeKind::Exterior) && #[trigger] heal_target(before, t, refs, idx);
                            lemma_kinds_follow_exterior(before, self@, refs);
                        } else {
                            lemma_same_except_kinds_refl(before);
                        }
                        lemma_only_made_exterior_trans(g0, before, self@);
                        lemma_same_except_kinds_trans(g0, before, self@);
                    }
                    if !healed {
                        all_healed = false;
                    }
                }
                proof {
                    assert(heal_visit(before, self@, point_idx as int, edge_idx as int, ok));
                    lemma_heal_trace_push(g0, visits, graphs, oks, edge, self@, ok);
                    let old_oks = oks;
                    visits = visits.push(edge);
                    graphs = graphs.push(self@);
                    oks = oks.push(ok);
                    assert(point_edge_refs(g0, point_idx as int).take(edge_idx + 1) =~= point_edge_refs(g0, point_idx as int).take(
                        edge_idx as int,
                    ).push(edge));
                    assert(all_healed == (forall|k: int| 0 <= k < oks.len() ==> #[trigger] oks[k])) by {
                        if all_healed {
                            assert forall|k: int| 0 <= k < oks.len() implies #[trigger] oks[k] by {
                                if k < old_oks.len() {
                                    assert(old_oks[k]);
                                }
                            }
                        } else if ok {
                            let k = choose|k: int| 0 <= k < old_oks.len() && !#[trigger] old_oks[k];
                            assert(!oks[k]);
                        } else {
                            assert(!oks[old_oks.len() as int]);
                        }
                    }
                }
            }
            proof {
                assert(point_edge_refs(g0, point_idx as int).take(num_edges as int) =~= point_edge_refs(g0, point_idx as int));
                if cg {
                    assert(g0[point_idx as int].edges[0].end_idx == (point_idx + 1) % (n as int));
                }
            }
        }

        proof {
            assert forall|m: int| #[trigger] is_cycle_with_gap(g0, m) implies all_healed && self@ == with_edge_kind(
                g0,
                only_edge(m, false),
                GraphPathEdgeKind::Exterior,
            ) by {
                assert(cg);
                assert(g0[m].edges[0].kind != GraphPathEdgeKind::Exterior);
                assert(m == gm);
            }
        }
        all_healed
    }
}

/// The curve an edge ref follows: from the point it starts at, through its control points (swapped for a
/// reversed ref), to the point it ends at.
pub open spec fn ref_curve(g: Seq<PointModel>, r: GraphEdgeRef) -> Curve {
    Curve {
        start_point: g[ref_start_point(g, r)].position,
        end_point: g[ref_end_point(g, r)].position,
        control_points: ref_control_points(g, r),
    }
}

/// Following an edge backwards traces the edge's curve in reverse: the curve of the reversed ref is the reverse
/// of the curve of the ref.
pub proof fn lemma_reversed_ref_curve(g: Seq<PointModel>, r: GraphEdgeRef)
    ensures
        ref_curve(g, r.reversed_spec()) == reversed_curve(ref_curve(g, r)),
{
}

/// A very short edge is exactly a loop from a point back to itself whose curve never leaves that point: its start
/// point, both control points and end point are all the point's position. In particular an edge with a control
/// point away from the point it leaves is never very short, so removing the very short edges keeps it.
pub proof fn lemma_very_short_is_a_point(g: Seq<PointModel>, r: GraphEdgeRef)
    requires
        valid_ref(g, r),
        !r.reverse,
    ensures
        is_very_short(g, r) <==> ({
            let c = ref_curve(g, r);
            &&& ref_end_point(g, r) == ref_start_point(g, r)
            &&& c.start_point == g[r.start_idx as int].position
            &&& c.control_points.0 == g[r.start_idx as int].position
            &&& c.control_points.1 == g[r.start_idx as int].position
            &&& c.end_point == g[r.start_idx as int].position
        }),
        edge_at(g, r).cp1 != g[r.start_idx as int].position || edge_at(g, r).cp2 != g[r.start_idx as int].position
            ==> !is_very_short(g, r),
{
}

impl GraphPath {
    /// The curve an edge ref follows, in the direction of the ref
    pub fn edge_curve(&self, edge: GraphEdgeRef) -> (r: Curve)
        requires
            valid_ref(self@, edge),
            edges_well_formed(self@),
        ensures
            r == ref_curve(self@, edge),
    {
        Curve::from_points(self.edge_start_point(edge), self.edge_control_points(edge), self.edge_end_point(edge))
    }

    /// The box around the control polygon of an edge (the same whichever way the ref points): contains the edge
    /// but may be larger than necessary
    pub fn edge_fast_bounding_box(&self, edge: GraphEdgeRef) -> (r: Bounds)
        requires
            valid_ref(self@, edge),
            edges_well_formed(self@),
        ensures
            r == fast_bounds_spec(ref_curve(self@, GraphEdgeRef { reverse: false, ..edge })),
    {
        let e = self.edge(edge);
        let start = self.points[edge.start_idx].position;
        let end = self.points[e.end_idx].position;
        proof {
            assert(self@[edge.start_idx as int] == point_model(self.points@[edge.start_idx as int]));
            assert(self@[e.end_idx as int] == point_model(self.points@[e.end_idx as int]));
        }
        Curve::from_points(start, (e.cp1, e.cp2), end).fast_bounding_box()
    }

    /// The ref that continues from an edge ref on the point it ends at (the following edge of the underlying
    /// edge, in the same direction), with the curve it follows
    pub fn get_next_edge(&self, edge: GraphEdgeRef) -> (r: (GraphEdgeRef, Curve))
        requires
            valid_ref(self@, edge),
            edges_well_formed(self@),
            valid_ref(
                self@,
                GraphEdgeRef {
                    start_idx: ref_end_point(self@, edge) as usize,
                    edge_idx: edge_at(self@, edge).following_edge_idx,
                    reverse: edge.reverse,
                },
            ),
        ensures
            r.0 == (GraphEdgeRef {
                start_idx: ref_end_point(self@, edge) as usize,
                edge_idx: edge_at(self@, edge).following_edge_idx,
                reverse: edge.reverse,
            }),
            r.1 == ref_curve(self@, r.0),
    {
        let next_point_idx = self.edge_end_point_idx(edge);
        let next_edge_idx = self.edge_following_edge_idx(edge);
        let next_edge_ref = GraphEdgeRef { start_idx: next_point_idx, edge_idx: next_edge_idx, reverse: edge.reverse };
        (next_edge_ref, self.edge_curve(next_edge_ref))
    }
}

/// No two edges are followed by the same edge.
pub open spec fn following_unique(g: Seq<PointModel>) -> bool {
    forall|p1: int, e1: int, p2: int, e2: int|
        #![trigger g[p1].edges[e1], g[p2].edges[e2]]
        0 <= p1 < g.len() && 0 <= e1 < g[p1].edges.len() && 0 <= p2 < g.len() && 0 <= e2 < g[p2].edges.len()
            && g[p1].edges[e1].end_idx == g[p2].edges[e2].end_idx && g[p1].edges[e1].following_edge_idx
            == g[p2].edges[e2].following_edge_idx ==> p1 == p2 && e1 == e2
}

/// Each point's list of connected points is strictly increasing, names points of the graph, and includes every
/// point with an edge to it (it may name more).
pub open spec fn connections_complete(g: Seq<PointModel>) -> bool {
    &&& forall|q: int, i: int, j: int|
        0 <= q < g.len() && 0 <= i < j < g[q].connected_from.len() ==> #[trigger] g[q].connected_from[i]
            < #[trigger] g[q].connected_from[j]
    &&& forall|q: int, i: int| 0 <= q < g.len() && 0 <= i < g[q].connected_from.len() ==> #[trigger] g[q].connected_from[i] < g.len()
    &&& forall|p: int, e: int|
        #![trigger g[p].edges[e]]
        0 <= p < g.len() && 0 <= e < g[p].edges.len() ==> g[g[p].edges[e].end_idx as int].connected_from.contains(p as usize)
}

/// What removing edges needs of a graph: its edges are well formed, no two edges are followed by the same edge,
/// and the lists of connected points are complete.
pub open spec fn removal_wf(g: Seq<PointModel>) -> bool {
    edges_well_formed(g) && following_unique(g) && connections_complete(g)
}

/// Edge `e` of point `p` is followed by the edge `r` names.
pub open spec fn is_predecessor(g: Seq<PointModel>, r: GraphEdgeRef, p: int, e: int) -> bool {
    &&& 0 <= p < g.len()
    &&& 0 <= e < g[p].edges.len()
    &&& g[p].edges[e].end_idx == r.start_idx
    &&& g[p].edges[e].following_edge_idx == r.edge_idx
}

/// Some edge is followed by the edge `r` names.
pub open spec fn has_predecessor(g: Seq<PointModel>, r: GraphEdgeRef) -> bool {
    exists|p: int, e: int| #[trigger] is_predecessor(g, r, p, e)
}

/// The point and index of the edge followed by the edge `r` names (unique when `following_unique` holds).
pub open spec fn predecessor(g: Seq<PointModel>, r: GraphEdgeRef) -> (int, int) {
    choose|p: int, e: int| #[trigger] is_predecessor(g, r, p, e)
}

/// An edge with its following index moved down by one if it arrives at point `start` after edge `idx`.
pub open spec fn decremented(edge: GraphPathEdge, start: usize, idx: usize) -> GraphPathEdge {
    if edge.end_idx == start && edge.following_edge_idx > idx {
        GraphPathEdge { following_edge_idx: (edge.following_edge_idx - 1) as usize, ..edge }
    } else {
        edge
    }
}

/// The graph with the predecessor of the edge `r` names reconnected to the edge's end and following edge, and
/// the edge itself taken out of its point's list.
pub open spec fn reconnected_model(g: Seq<PointModel>, r: GraphEdgeRef) -> Seq<PointModel> {
    let (pp, pe) = predecessor(g, r);
    let removed = edge_at(g, r);
    let g1 = g.update(
        pp,
        PointModel {
            edges: g[pp].edges.update(
                pe,
                GraphPathEdge { end_idx: removed.end_idx, following_edge_idx: removed.following_edge_idx, ..g[pp].edges[pe] },
            ),
            ..g[pp]
        },
    );
    g1.update(
        r.start_idx as int,
        PointModel { edges: g1[r.start_idx as int].edges.remove(r.edge_idx as int), ..g1[r.start_idx as int] },
    )
}

/// A point with the following index of each of its edges into `start` past `idx` moved down by one.
pub open spec fn renumbered_point(pt: PointModel, start: usize, idx: usize) -> PointModel {
    PointModel { edges: pt.edges.map_values(|e: GraphPathEdge| decremented(e, start, idx)), ..pt }
}

/// Some edge of the graph arrives at point `q`.
pub open spec fn has_edge_into(g: Seq<PointModel>, q: int) -> bool {
    exists|p: int| 0 <= p < g.len() && #[trigger] has_edge_to(g, p, q)
}

/// The sequence with every occurrence of `v` taken out.
pub open spec fn without_value(s: Seq<usize>, v: usize) -> Seq<usize>
    decreases s.len(),
{
    if s.len() == 0 {
        s
    } else if s.last() == v {
        without_value(s.drop_last(), v)
    } else {
        without_value(s.drop_last(), v).push(s.last())
    }
}

/// The graph after removing the edge `r` names: if some edge is followed by it, that edge is reconnected to the
/// removed edge's end point and following edge, the edge is taken out of its point's list, the following indices
/// into that point past it move down by one, and if no edge arrives at the point any more, the point is taken
/// out of its own list of connected points. Without a preceding edge, nothing changes.
pub open spec fn removed_edge_model(g: Seq<PointModel>, r: GraphEdgeRef) -> Seq<PointModel> {
    if has_predecessor(g, r) {
        let s = r.start_idx as int;
        let h = reconnected_model(g, r).map_values(|pt: PointModel| renumbered_point(pt, r.start_idx, r.edge_idx));
        if has_edge_into(h, s) {
            h
        } else {
            h.update(s, PointModel { connected_from: without_value(h[s].connected_from, r.start_idx), ..h[s] })
        }
    } else {
        g
    }
}

proof fn lemma_without_value(s: Seq<usize>, v: usize)
    ensures
        forall|x: usize| #[trigger] without_value(s, v).contains(x) <==> (s.contains(x) && x != v),
        (forall|i: int, j: int| 0 <= i < j < s.len() ==> #[trigger] s[i] < #[trigger] s[j]) ==> (forall|i: int, j: int|
            0 <= i < j < without_value(s, v).len() ==> #[trigger] without_value(s, v)[i] < #[trigger] without_value(s, v)[j]),
    decreases s.len(),
{
    if s.len() > 0 {
        let prev = s.drop_last();
        lemma_without_value(prev, v);
        let w = without_value(prev, v);
        assert forall|x: usize| #[trigger] without_value(s, v).contains(x) <==> (s.contains(x) && x != v) by {
            let ws = without_value(s, v);
            if s.contains(x) && x != v {
                let i = choose|i: int| 0 <= i < s.len() && s[i] == x;
                if i < s.len() - 1 {
                    assert(prev[i] == x);
                    assert(prev.contains(x));
                    assert(w.contains(x));
                    let k = choose|k: int| 0 <= k < w.len() && w[k] == x;
                    assert(ws[k] == x);
                } else {
                    assert(ws == w.push(s.last()));
                    assert(ws[w.len() as int] == x);
                }
            }
            if ws.contains(x) {
                let i = choose|i: int| 0 <= i < ws.len() && ws[i] == x;
                if s.last() == v || i < w.len() {
                    assert(ws[i] == w[i]);
                    assert(w.contains(x));
                    assert(prev.contains(x));
                    let j = choose|j: int| 0 <= j < prev.len() && prev[j] == x;
                    assert(s[j] == prev[j]);
                } else {
                    assert(s[s.len() - 1] == x);
                }
            }
        }
        if forall|i: int, j: int| 0 <= i < j < s.len() ==> #[trigger] s[i] < #[trigger] s[j] {
            assert forall|i: int, j: int| 0 <= i < j < prev.len() implies #[trigger] prev[i] < #[trigger] prev[j] by {
                assert(s[i] < s[j]);
            }
            if s.last() != v {
                assert forall|i: int, j: int|
                    0 <= i < j < without_value(s, v).len() implies #[trigger] without_value(s, v)[i] < #[trigger] without_value(s, v)[j] by {
                    if j == w.len() {
                        assert(w.contains(w[i]));
                        let k = choose|k: int| 0 <= k < prev.len() && prev[k] == w[i];
                        assert(s[k] < s[s.len() - 1]);
                    } else {
                        assert(w[i] < w[j]);
                    }
                }
            }
        }
    }
}

/// In a well formed graph, each point's list of connected points is strictly increasing, names points of the
/// graph, and includes every point with an edge to it.
pub proof fn lemma_wf_connections_complete(g: Seq<PointModel>)
    requires
        graph_wf(g),
        g.len() <= usize::MAX,
    ensures
        connections_complete(g),
{
    assert forall|q: int, i: int, j: int| 0 <= q < g.len() && 0 <= i < j < g[q].connected_from.len() implies #[trigger] g[q].connected_from[i]
        < #[trigger] g[q].connected_from[j] by {
        lemma_sources_upto_bounded(g, q, g.len());
    }
    assert forall|q: int, i: int| 0 <= q < g.len() && 0 <= i < g[q].connected_from.len() implies #[trigger] g[q].connected_from[i] < g.len() by {
        lemma_sources_upto_bounded(g, q, g.len());
    }
    assert forall|p: int, e: int| #![trigger g[p].edges[e]] 0 <= p < g.len() && 0 <= e < g[p].edges.len() implies g[g[p].edges[e].end_idx as int].connected_from.contains(p as usize) by {
        let q = g[p].edges[e].end_idx as int;
        assert(has_edge_to(g, p, q));
        lemma_sources_complete(g, q, p);
    }
}

/// Removing an edge keeps the number of points; the edge's point loses exactly that edge when some edge leads
/// into it, and otherwise nothing changes.
pub proof fn lemma_removed_edge_sizes(g: Seq<PointModel>, r: GraphEdgeRef)
    requires
        valid_ref(g, r),
    ensures
        removed_edge_model(g, r).len() == g.len(),
        removed_edge_model(g, r)[r.start_idx as int].edges.len() <= g[r.start_idx as int].edges.len(),
        has_predecessor(g, r) ==> removed_edge_model(g, r)[r.start_idx as int].edges.len() == g[r.start_idx as int].edges.len() - 1,
        !has_predecessor(g, r) ==> removed_edge_model(g, r) == g,
{
    if has_predecessor(g, r) {
        lemma_removed_edge_shape(g, r);
    }
}

/// Edge `e` of point `p` after the predecessor of the edge `r` names is reconnected (before anything is removed).
pub open spec fn redirected_edge(g: Seq<PointModel>, r: GraphEdgeRef, p: int, e: int) -> GraphPathEdge {
    let (pp, pe) = predecessor(g, r);
    if p == pp && e == pe {
        GraphPathEdge { end_idx: edge_at(g, r).end_idx, following_edge_idx: edge_at(g, r).following_edge_idx, ..g[p].edges[e] }
    } else {
        g[p].edges[e]
    }
}

/// The index, before the edge `r` names was removed, of edge `e` of point `p`.
pub open spec fn origin_idx(r: GraphEdgeRef, p: int, e: int) -> int {
    if p == r.start_idx && e >= r.edge_idx {
        e + 1
    } else {
        e
    }
}

/// What each point holds after an edge with a predecessor is removed, in terms of the graph before.
proof fn lemma_removed_edge_shape(g: Seq<PointModel>, r: GraphEdgeRef)
    requires
        has_predecessor(g, r),
        valid_ref(g, r),
    ensures
        ({
            let m = removed_edge_model(g, r);
            let s = r.start_idx as int;
            &&& m.len() == g.len()
            &&& forall|p: int| 0 <= p < g.len() ==> #[trigger] m[p].position == g[p].position
            &&& forall|p: int| 0 <= p < g.len() && p != s ==> #[trigger] m[p].connected_from == g[p].connected_from
            &&& forall|p: int| 0 <= p < g.len() ==> #[trigger] m[p].edges.len() == g[p].edges.len() - (if p == s { 1int } else { 0int })
            &&& forall|p: int, e: int|
                0 <= p < g.len() && 0 <= e < m[p].edges.len() ==> #[trigger] m[p].edges[e] == decremented(
                    redirected_edge(g, r, p, origin_idx(r, p, e)),
                    r.start_idx,
                    r.edge_idx,
                )
            &&& m[s].connected_from == (if has_edge_into(m, s) {
                g[s].connected_from
            } else {
                without_value(g[s].connected_from, r.start_idx)
            })
        }),
{
    let s = r.start_idx as int;
    let (pp, pe) = predecessor(g, r);
    assert(is_predecessor(g, r, pp, pe));
    let c = reconnected_model(g, r);
    let h = c.map_values(|pt: PointModel| renumbered_point(pt, r.start_idx, r.edge_idx));
    let m = removed_edge_model(g, r);
    assert(c.len() == g.len());
    assert forall|p: int, e: int| 0 <= p < g.len() && 0 <= e < c[p].edges.len() implies #[trigger] c[p].edges[e] == redirected_edge(
        g,
        r,
        p,
        origin_idx(r, p, e),
    ) by {}
    assert forall|p: int| 0 <= p < g.len() implies #[trigger] h[p].edges.len() == c[p].edges.len() && h[p].position == c[p].position
        && h[p].connected_from == c[p].connected_from by {}
    assert forall|p: int, e: int| 0 <= p < g.len() && 0 <= e < h[p].edges.len() implies #[trigger] h[p].edges[e] == decremented(
        c[p].edges[e],
        r.start_idx,
        r.edge_idx,
    ) by {}
    if !has_edge_into(h, s) {
        assert forall|p: int| 0 <= p < g.len() implies #[trigger] has_edge_to(m, p, s) == has_edge_to(h, p, s) by {
            if has_edge_to(m, p, s) {
                let e = choose|e: int| 0 <= e < m[p].edges.len() && #[trigger] m[p].edges[e].end_idx == s;
                assert(h[p].edges[e].end_idx == s);
            }
            if has_edge_to(h, p, s) {
                let e = choose|e: int| 0 <= e < h[p].edges.len() && #[trigger] h[p].edges[e].end_idx == s;
                assert(m[p].edges[e].end_idx == s);
            }
        }
    }
}

/// After reconnecting, the only edge that arrived at the removed edge's point followed by the removed edge is the
/// removed edge itself (if it follows itself).
proof fn lemma_redirected_not_followed_by_removed(g: Seq<PointModel>, r: GraphEdgeRef, p: int, e: int)
    requires
        removal_wf(g),
        valid_ref(g, r),
        has_predecessor(g, r),
        0 <= p < g.len(),
        0 <= e < g[p].edges.len(),
        !(p == r.start_idx && e == r.edge_idx),
    ensures
        redirected_edge(g, r, p, e).end_idx < g.len(),
        redirected_edge(g, r, p, e).following_edge_idx < g[redirected_edge(g, r, p, e).end_idx as int].edges.len(),
        redirected_edge(g, r, p, e).end_idx == r.start_idx ==> redirected_edge(g, r, p, e).following_edge_idx != r.edge_idx,
        edge_at(g, r).end_idx == r.start_idx ==> redirected_edge(g, r, p, e).end_idx == g[p].edges[e].end_idx,
{
    let (pp, pe) = predecessor(g, r);
    assert(is_predecessor(g, r, pp, pe));
    let s = r.start_idx as int;
    let removed = g[s].edges[r.edge_idx as int];
    assert(removed.end_idx < g.len());
    assert(g[p].edges[e].end_idx < g.len());
    if p == pp && e == pe {
        if removed.end_idx == r.start_idx && removed.following_edge_idx == r.edge_idx {
            assert(is_predecessor(g, r, s, r.edge_idx as int));
            assert(g[pp].edges[pe].end_idx == g[s].edges[r.edge_idx as int].end_idx);
        }
    } else {
        if g[p].edges[e].end_idx == r.start_idx && g[p].edges[e].following_edge_idx == r.edge_idx {
            assert(g[pp].edges[pe].end_idx == g[p].edges[e].end_idx);
        }
    }
}

/// Removing an edge keeps the edges well formed and no two of them followed by the same edge; removing an edge
/// that loops back to its own point also keeps the lists of connected points complete.
#[verifier::spinoff_prover]
#[verifier::rlimit(40)]
proof fn lemma_removed_edge_wf(g: Seq<PointModel>, r: GraphEdgeRef)
    requires
        removal_wf(g),
        valid_ref(g, r),
    ensures
        edges_well_formed(removed_edge_model(g, r)),
        following_unique(removed_edge_model(g, r)),
        edge_at(g, r).end_idx == r.start_idx ==> connections_complete(removed_edge_model(g, r)),
        removed_edge_model(g, r).len() == g.len(),
{
    if has_predecessor(g, r) {
        lemma_removed_edge_shape(g, r);
        let m = removed_edge_model(g, r);
        let s = r.start_idx as int;
        let idx = r.edge_idx as int;
        let (pp, pe) = predecessor(g, r);
        assert(is_predecessor(g, r, pp, pe));
        assert forall|p: int, e: int| #![trigger m[p].edges[e]] 0 <= p < m.len() && 0 <= e < m[p].edges.len() implies {
            &&& m[p].edges[e].end_idx < m.len()
            &&& m[p].edges[e].following_edge_idx < m[m[p].edges[e].end_idx as int].edges.len()
        } by {
            let o = origin_idx(r, p, e);
            lemma_redirected_not_followed_by_removed(g, r, p, o);
            let x = redirected_edge(g, r, p, o);
            assert(m[p].edges[e] == decremented(x, r.start_idx, r.edge_idx));
            assert(m[x.end_idx as int].edges.len() == g[x.end_idx as int].edges.len() - (if x.end_idx == s { 1int } else { 0int }));
        }
        assert forall|p1: int, e1: int, p2: int, e2: int|
            #![trigger m[p1].edges[e1], m[p2].edges[e2]]
            0 <= p1 < m.len() && 0 <= e1 < m[p1].edges.len() && 0 <= p2 < m.len() && 0 <= e2 < m[p2].edges.len()
                && m[p1].edges[e1].end_idx == m[p2].edges[e2].end_idx && m[p1].edges[e1].following_edge_idx
                == m[p2].edges[e2].following_edge_idx implies p1 == p2 && e1 == e2 by {
            let o1 = origin_idx(r, p1, e1);
            let o2 = origin_idx(r, p2, e2);
            lemma_redirected_not_followed_by_removed(g, r, p1, o1);
            lemma_redirected_not_followed_by_removed(g, r, p2, o2);
            let x1 = redirected_edge(g, r, p1, o1);
            let x2 = redirected_edge(g, r, p2, o2);
            assert(m[p1].edges[e1] == decremented(x1, r.start_idx, r.edge_idx));
            assert(m[p2].edges[e2] == decremented(x2, r.start_idx, r.edge_idx));
            assert(x1.end_idx == x2.end_idx && x1.following_edge_idx == x2.following_edge_idx);
            let removed = g[s].edges[idx];
            if p1 == pp && o1 == pe && !(p2 == pp && o2 == pe) {
                assert(g[p2].edges[o2].end_idx == removed.end_idx && g[p2].edges[o2].following_edge_idx == removed.following_edge_idx);
                assert(g[p2].edges[o2].end_idx == g[s].edges[idx].end_idx);
            } else if p2 == pp && o2 == pe && !(p1 == pp && o1 == pe) {
                assert(g[p1].edges[o1].end_idx == g[s].edges[idx].end_idx);
            } else if !(p1 == pp && o1 == pe) {
                assert(g[p1].edges[o1].end_idx == g[p2].edges[o2].end_idx);
            }
            assert(p1 == p2 && o1 == o2);
        }
        if edge_at(g, r).end_idx == r.start_idx {
            lemma_without_value(g[s].connected_from, r.start_idx);
            assert forall|q: int, i: int, j: int| 0 <= q < m.len() && 0 <= i < j < m[q].connected_from.len() implies #[trigger] m[q].connected_from[i]
                < #[trigger] m[q].connected_from[j] by {
                if q != s {
                    assert(m[q].connected_from == g[q].connected_from);
                } else if has_edge_into(m, s) {
                    assert(g[s].connected_from[i] < g[s].connected_from[j]);
                }
            }
            assert forall|q: int, i: int| 0 <= q < m.len() && 0 <= i < m[q].connected_from.len() implies #[trigger] m[q].connected_from[i] < m.len() by {
                if q != s {
                    assert(m[q].connected_from == g[q].connected_from);
                } else if has_edge_into(m, s) {
                    assert(g[s].connected_from[i] < g.len());
                } else {
                    let x = m[s].connected_from[i];
                    assert(without_value(g[s].connected_from, r.start_idx).contains(x));
                    let k = choose|k: int| 0 <= k < g[s].connected_from.len() && g[s].connected_from[k] == x;
                    assert(g[s].connected_from[k] < g.len());
                }
            }
            assert forall|p: int, e: int| #![trigger m[p].edges[e]] 0 <= p < m.len() && 0 <= e < m[p].edges.len() implies m[m[p].edges[e].end_idx as int].connected_from.contains(p as usize) by {
                let o = origin_idx(r, p, e);
                lemma_redirected_not_followed_by_removed(g, r, p, o);
                let x = redirected_edge(g, r, p, o);
                assert(m[p].edges[e] == decremented(x, r.start_idx, r.edge_idx));
                let q = x.end_idx as int;
                assert(g[p].edges[o].end_idx == q);
                assert(g[q].connected_from.contains(p as usize));
                if q == s {
                    assert(has_edge_to(m, p, s));
                    assert(has_edge_into(m, s));
                } else {
                    assert(m[q].connected_from == g[q].connected_from);
                }
            }
        }
    }
}

/// The points of `h` in `done` renumbered past edge `idx` of point `start`; the others as they are.
pub open spec fn renumbered_points(h: Seq<PointModel>, start: usize, idx: usize, done: Set<int>) -> Seq<PointModel> {
    Seq::new(h.len(), |p: int| if done.contains(p) { renumbered_point(h[p], start, idx) } else { h[p] })
}

/// Every edge into the removed edge's point, after reconnecting, comes from a point on that point's list.
proof fn lemma_reconnected_sources(g: Seq<PointModel>, r: GraphEdgeRef, p: int)
    requires
        removal_wf(g),
        valid_ref(g, r),
        has_predecessor(g, r),
        0 <= p < g.len(),
        has_edge_to(reconnected_model(g, r), p, r.start_idx as int),
    ensures
        g[r.start_idx as int].connected_from.contains(p as usize),
{
    let s = r.start_idx as int;
    let h = reconnected_model(g, r);
    let (pp, pe) = predecessor(g, r);
    assert(is_predecessor(g, r, pp, pe));
    lemma_removed_edge_shape(g, r);
    let e = choose|e: int| 0 <= e < h[p].edges.len() && #[trigger] h[p].edges[e].end_idx == s;
    let o = origin_idx(r, p, e);
    assert(h[p].edges[e] == redirected_edge(g, r, p, o));
    if p == pp && o == pe {
        assert(g[pp].edges[pe].end_idx == s);
    } else {
        assert(g[p].edges[o].end_idx == s);
    }
}

impl GraphPath {
    /// Removes an edge by updating the previous edge (the edge it follows) to point at its next edge; the control
    /// points are not updated, so the shape is distorted if the removed edge is long. The following edges into
    /// the edge's point are renumbered, and the point is taken out of its own list of connected points if no
    /// edge arrives at it any more. Nothing changes if no edge is followed by this one.
    #[verifier::spinoff_prover]
    fn remove_edge(&mut self, edge_ref: GraphEdgeRef)
        requires
            removal_wf(old(self)@),
            valid_ref(old(self)@, edge_ref),
        ensures
            final(self)@ == removed_edge_model(old(self)@, edge_ref),
            final(self).path_count() == old(self).path_count(),
    {
        let ghost g0 = self@;
        let n = self.points.len();
        let start = edge_ref.start_idx;
        let removed = self.edge(edge_ref);
        let next_point_idx = removed.end_idx;
        let next_edge_idx = removed.following_edge_idx;
        proof {
            assert(g0[start as int] == point_model(self.points@[start as int]));
        }

        // Find the preceding edge, by searching the edges of the points connected to this one
        let num_connected = index_list_len(&self.points[start].connected_from);
        let mut previous: Option<GraphEdgeRef> = None;
        let mut k: usize = 0;
        while k < num_connected && previous.is_none()
            invariant
                g0 == self@,
                removal_wf(g0),
                n == g0.len(),
                start < n,
                start == edge_ref.start_idx,
                num_connected == g0[start as int].connected_from.len(),
                k <= num_connected,
                previous is None ==> forall|kk: int, e: int|
                    0 <= kk < k ==> !#[trigger] is_predecessor(g0, edge_ref, g0[start as int].connected_from[kk] as int, e),
                previous matches Some(pr) ==> is_predecessor(g0, edge_ref, pr.start_idx as int, pr.edge_idx as int) && !pr.reverse,
            decreases num_connected - k,
        {
            proof {
                assert(g0[start as int] == point_model(self.points@[start as int]));
            }
            let c = index_list_get(&self.points[start].connected_from, k);
            proof {
                assert(g0[start as int].connected_from[k as int] < n);
                assert(g0[c as int] == point_model(self.points@[c as int]));
            }
            let num_edges = edge_list_len(&self.points[c].forward_edges);
            let mut e: usize = 0;
            while e < num_edges && previous.is_none()
                invariant
                    g0 == self@,
                    n == g0.len(),
                    start < n,
                    start == edge_ref.start_idx,
                    k < num_connected,
                    num_connected == g0[start as int].connected_from.len(),
                    c < n,
                    c == g0[start as int].connected_from[k as int],
                    num_edges == g0[c as int].edges.len(),
                    e <= num_edges,
                    previous is None ==> forall|ee: int| 0 <= ee < e ==> !#[trigger] is_predecessor(g0, edge_ref, c as int, ee),
                    previous matches Some(pr) ==> is_predecessor(g0, edge_ref, pr.start_idx as int, pr.edge_idx as int) && !pr.reverse,
                decreases num_edges - e,
            {
                proof {
                    assert(g0[c as int] == point_model(self.points@[c as int]));
                }
                let candidate = edge_list_get(&self.points[c].forward_edges, e);
                if candidate.end_idx == start && candidate.following_edge_idx == edge_ref.edge_idx {
                    previous = Some(GraphEdgeRef { start_idx: c, edge_idx: e, reverse: false });
                }
                e = e + 1;
            }
            proof {
                if previous is None {
                    assert forall|kk: int, ee: int| 0 <= kk < k + 1 implies !#[trigger] is_predecessor(
                        g0,
                        edge_ref,
                        g0[start as int].connected_from[kk] as int,
                        ee,
                    ) by {
                        if kk == k && 0 <= ee < num_edges {
                            assert(!is_predecessor(g0, edge_ref, c as int, ee));
                        }
                    }
                }
            }
            k = k + 1;
        }

        let prev = match previous {
            Some(prev) => prev,
            None => {
                proof {
                    if has_predecessor(g0, edge_ref) {
                        let (p, e) = predecessor(g0, edge_ref);
                        assert(is_predecessor(g0, edge_ref, p, e));
                        assert(g0[g0[p].edges[e].end_idx as int].connected_from.contains(p as usize));
                        let kk = choose|kk: int| 0 <= kk < num_connected && g0[start as int].connected_from[kk] == p as usize;
                        assert(!is_predecessor(g0, edge_ref, g0[start as int].connected_from[kk] as int, e));
                    }
                }
                return;
            },
        };
        proof {
            let (pp, pe) = predecessor(g0, edge_ref);
            assert(is_predecessor(g0, edge_ref, pp, pe));
            assert(g0[pp].edges[pe].end_idx == g0[prev.start_idx as int].edges[prev.edge_idx as int].end_idx);
            assert(pp == prev.start_idx && pe == prev.edge_idx);
            assert(g0[prev.start_idx as int] == point_model(self.points@[prev.start_idx as int]));
        }

        // Reconnect the previous edge to the next edge
        let ghost before = self@;
        let mut previous_edge = edge_list_get(&self.points[prev.start_idx].forward_edges, prev.edge_idx);
        previous_edge.end_idx = next_point_idx;
        previous_edge.following_edge_idx = next_edge_idx;
        edge_list_set(&mut self.points[prev.start_idx].forward_edges, prev.edge_idx, previous_edge);
        proof {
            let pp = prev.start_idx as int;
            assert(self@ =~= before.update(pp, PointModel { edges: before[pp].edges.update(prev.edge_idx as int, previous_edge), ..before[pp] }));
            assert(self@[start as int] == point_model(self.points@[start as int]));
        }

        // Remove the old edge from the list
        let ghost before = self@;
        edge_list_remove(&mut self.points[start].forward_edges, edge_ref.edge_idx);
        proof {
            assert(self@ =~= before.update(
                start as int,
                PointModel { edges: before[start as int].edges.remove(edge_ref.edge_idx as int), ..before[start as int] },
            ));
            assert(self@ =~= reconnected_model(g0, edge_ref));
            lemma_removed_edge_shape(g0, edge_ref);
        }

        // For all the connected points, update the following edge refs
        let ghost h0 = self@;
        let ghost cf = g0[start as int].connected_from;
        let ghost mut done: Set<int> = Set::empty();
        let mut still_connected = false;
        proof {
            assert(renumbered_points(h0, start, edge_ref.edge_idx, done) =~= h0);
            assert(h0[start as int].connected_from == cf);
        }
        for k in 0..num_connected
            invariant
                removal_wf(g0),
                n == g0.len(),
                n == h0.len(),
                start < n,
                start == edge_ref.start_idx,
                cf == g0[start as int].connected_from,
                cf == h0[start as int].connected_from,
                num_connected == cf.len(),
                self@ == renumbered_points(h0, start, edge_ref.edge_idx, done),
                self@.len() == n,
                self.path_count() == old(self).path_count(),
                forall|p: int| #[trigger] done.contains(p) <==> exists|kk: int| 0 <= kk < k && cf[kk] == p,
                still_connected == exists|p: int| #[trigger] done.contains(p) && 0 <= p < n && has_edge_to(h0, p, start as int),
        {
            proof {
                assert(self@[start as int] == point_model(self.points@[start as int]));
                assert(self@[start as int].connected_from == cf);
            }
            let c = index_list_get(&self.points[start].connected_from, k);
            proof {
                assert(cf[k as int] < n);
                assert(self@[c as int] == point_model(self.points@[c as int]));
                if done.contains(c as int) {
                    let kk = choose|kk: int| 0 <= kk < k && cf[kk] == c as int;
                    assert(cf[kk] < cf[k as int]);
                }
            }
            let num_edges = edge_list_len(&self.points[c].forward_edges);
            let ghost before = self@;
            let ghost hc = h0[c as int];
            proof {
                assert(before[c as int] == hc);
                let initial = Seq::new(
                    hc.edges.len(),
                    |j: int| if j < 0 { decremented(hc.edges[j], start, edge_ref.edge_idx) } else { hc.edges[j] },
                );
                assert(initial =~= hc.edges);
                assert(PointModel { edges: initial, ..hc } == hc);
                assert(before.update(c as int, PointModel { edges: initial, ..hc }) =~= before);
            }
            for e in 0..num_edges
                invariant
                    n == h0.len(),
                    c < n,
                    start == edge_ref.start_idx,
                    !done.contains(c as int),
                    before == renumbered_points(h0, start, edge_ref.edge_idx, done),
                    hc == h0[c as int],
                    num_edges == hc.edges.len(),
                    self@.len() == n,
                    self@ == before.update(
                        c as int,
                        PointModel {
                            edges: Seq::new(
                                hc.edges.len(),
                                |j: int| if j < e { decremented(hc.edges[j], start, edge_ref.edge_idx) } else { hc.edges[j] },
                            ),
                            ..hc
                        },
                    ),
                    self.path_count() == old(self).path_count(),
                    still_connected == ((exists|p: int| #[trigger] done.contains(p) && 0 <= p < n && has_edge_to(h0, p, start as int))
                        || has_edge_to_upto(h0, c as int, start as int, e as int)),
            {
                proof {
                    assert(self@[c as int] == point_model(self.points@[c as int]));
                }
                let connected_edge = edge_list_get(&self.points[c].forward_edges, e);
                let ghost mid = self@;
                let ghost s_e = Seq::new(
                    hc.edges.len(),
                    |j: int| if j < e { decremented(hc.edges[j], start, edge_ref.edge_idx) } else { hc.edges[j] },
                );
                let ghost s_next = Seq::new(
                    hc.edges.len(),
                    |j: int| if j < e + 1 { decremented(hc.edges[j], start, edge_ref.edge_idx) } else { hc.edges[j] },
                );
                proof {
                    assert(mid[c as int].edges == s_e);
                    assert(connected_edge == hc.edges[e as int]);
                }
                if connected_edge.end_idx == start {
                    // Update the following edge if it was affected by the deletion
                    if connected_edge.following_edge_idx > edge_ref.edge_idx {
                        let mut changed = connected_edge;
                        changed.following_edge_idx = connected_edge.following_edge_idx - 1;
                        edge_list_set(&mut self.points[c].forward_edges, e, changed);
                        proof {
                            assert(self@ =~= mid.update(c as int, PointModel { edges: mid[c as int].edges.update(e as int, changed), ..mid[c as int] }));
                            assert(s_e.update(e as int, changed) =~= s_next);
                        }
                    }
                    // There's another edge ending at the removed edge's point, so that point is still connected
                    still_connected = true;
                }
                proof {
                    if !(connected_edge.end_idx == start && connected_edge.following_edge_idx > edge_ref.edge_idx) {
                        assert(s_e =~= s_next);
                    }
                    assert(self@ =~= before.update(c as int, PointModel { edges: s_next, ..hc }));
                    if connected_edge.end_idx == start {
                        assert(has_edge_to_upto(h0, c as int, start as int, e + 1));
                    } else if has_edge_to_upto(h0, c as int, start as int, e + 1) {
                        let w = choose|w: int| 0 <= w < e + 1 && #[trigger] h0[c as int].edges[w].end_idx == start as int;
                        assert(has_edge_to_upto(h0, c as int, start as int, e as int));
                    }
                }
            }
            proof {
                let old_done = done;
                done = done.insert(c as int);
                let s_all = Seq::new(
                    hc.edges.len(),
                    |j: int| if j < num_edges { decremented(hc.edges[j], start, edge_ref.edge_idx) } else { hc.edges[j] },
                );
                assert(s_all =~= renumbered_point(hc, start, edge_ref.edge_idx).edges);
                assert(PointModel { edges: s_all, ..hc } == renumbered_point(hc, start, edge_ref.edge_idx));
                assert(self@ =~= renumbered_points(h0, start, edge_ref.edge_idx, done));
                assert forall|p: int| #[trigger] done.contains(p) <==> exists|kk: int| 0 <= kk < k + 1 && cf[kk] == p by {
                    if done.contains(p) && p != c as int {
                        assert(old_done.contains(p));
                    }
                    if exists|kk: int| 0 <= kk < k + 1 && cf[kk] == p {
                        let kk = choose|kk: int| 0 <= kk < k + 1 && cf[kk] == p;
                        if kk < k {
                            assert(old_done.contains(p));
                        }
                    }
                }
                assert(has_edge_to_upto(h0, c as int, start as int, num_edges as int) == has_edge_to(h0, c as int, start as int));
                if still_connected {
                    if has_edge_to(h0, c as int, start as int) {
                        assert(done.contains(c as int));
                    } else {
                        let p = choose|p: int| #[trigger] old_done.contains(p) && 0 <= p < n && has_edge_to(h0, p, start as int);
                        assert(done.contains(p));
                    }
                } else {
                    assert forall|p: int| #[trigger] done.contains(p) && 0 <= p < n implies !has_edge_to(h0, p, start as int) by {
                        if p != c as int {
                            assert(old_done.contains(p));
                        }
                    }
                }
            }
        }

        proof {
            let h = h0.map_values(|pt: PointModel| renumbered_point(pt, start, edge_ref.edge_idx));
            assert forall|p: int| 0 <= p < n implies #[trigger] self@[p] == h[p] by {
                if !done.contains(p) {
                    if has_edge_to(h0, p, start as int) {
                        lemma_reconnected_sources(g0, edge_ref, p);
                        let kk = choose|kk: int| 0 <= kk < cf.len() && cf[kk] == p as usize;
                        assert(done.contains(p));
                    }
                    assert(renumbered_point(h0[p], start, edge_ref.edge_idx).edges =~= h0[p].edges);
                }
            }
            assert(self@ =~= h);
            assert forall|p: int| 0 <= p < n implies #[trigger] has_edge_to(h, p, start as int) == has_edge_to(h0, p, start as int) by {
                if has_edge_to(h, p, start as int) {
                    let e = choose|e: int| 0 <= e < h[p].edges.len() && #[trigger] h[p].edges[e].end_idx == start as int;
                    assert(h0[p].edges[e].end_idx == start as int);
                }
                if has_edge_to(h0, p, start as int) {
                    let e = choose|e: int| 0 <= e < h0[p].edges.len() && #[trigger] h0[p].edges[e].end_idx == start as int;
                    assert(h[p].edges[e].end_idx == start as int);
                }
            }
            if still_connected {
                let p = choose|p: int| #[trigger] done.contains(p) && 0 <= p < n && has_edge_to(h0, p, start as int);
                assert(has_edge_to(h, p, start as int));
            } else {
                assert forall|p: int| 0 <= p < n implies !#[trigger] has_edge_to(h, p, start as int) by {
                    if has_edge_to(h0, p, start as int) {
                        lemma_reconnected_sources(g0, edge_ref, p);
                        let kk = choose|kk: int| 0 <= kk < cf.len() && cf[kk] == p as usize;
                        assert(done.contains(p));
                    }
                }
            }
            assert(still_connected == has_edge_into(h, start as int));
        }

        // If no edge arrives at the point any more, remove it from its own list of connected points
        if !still_connected {
            let mut connected_from = index_list_new();
            for k in 0..num_connected
                invariant
                    n == self@.len(),
                    start < n,
                    cf == self@[start as int].connected_from,
                    num_connected == cf.len(),
                    index_list_items(connected_from) == without_value(cf.take(k as int), start),
                    index_list_items(connected_from).len() <= k,
            {
                proof {
                    assert(self@[start as int] == point_model(self.points@[start as int]));
                    assert(cf.take(k + 1).drop_last() =~= cf.take(k as int));
                }
                let previous_point_idx = index_list_get(&self.points[start].connected_from, k);
                if previous_point_idx != start {
                    index_list_push(&mut connected_from, previous_point_idx);
                }
            }
            let ghost before = self@;
            self.points[start].connected_from = connected_from;
            proof {
                assert(cf.take(num_connected as int) =~= cf);
                assert(self@ =~= before.update(
                    start as int,
                    PointModel { connected_from: without_value(cf, start), ..before[start as int] },
                ));
            }
        }
    }
}

/// The graph after the pass that removes very short edges, from edge `e` of point `p` on: each edge visited is
/// removed if it is very short and some edge leads into it (an edge nothing leads into cannot be removed), and
/// then the same index is visited again, since the next edge has moved into its place; otherwise the next index
/// on the same point is visited, and after the last one the next point.
pub open spec fn short_edges_removed_from(g: Seq<PointModel>, p: int, e: int) -> Seq<PointModel>
    decreases g.len() - p, g[p].edges.len() + 1 - e,
{
    if p < 0 || p >= g.len() || e < 0 || g.len() > usize::MAX || g[p].edges.len() > usize::MAX {
        g
    } else if e >= g[p].edges.len() {
        short_edges_removed_from(g, p + 1, 0)
    } else {
        let r = GraphEdgeRef { start_idx: p as usize, edge_idx: e as usize, reverse: false };
        if is_very_short(g, r) && has_predecessor(g, r) {
            proof {
                lemma_removed_edge_sizes(g, r);
            }
            short_edges_removed_from(removed_edge_model(g, r), p, e)
        } else {
            short_edges_removed_from(g, p, e + 1)
        }
    }
}

/// Every very short edge among those visited before edge `e` of point `p` is one that no edge leads into.
pub open spec fn short_edges_unremovable_before(g: Seq<PointModel>, p: int, e: int) -> bool {
    forall|q: int, x: int|
        #![trigger g[q].edges[x]]
        0 <= q < g.len() && 0 <= x < g[q].edges.len() && visited_before(q, x, p, e) && is_very_short(
            g,
            GraphEdgeRef { start_idx: q as usize, edge_idx: x as usize, reverse: false },
        ) ==> !has_predecessor(g, GraphEdgeRef { start_idx: q as usize, edge_idx: x as usize, reverse: false })
}

/// Every very short edge left in the graph is one that no edge leads into, so that it cannot be removed.
pub open spec fn short_edges_unremovable(g: Seq<PointModel>) -> bool {
    forall|q: int, x: int|
        0 <= q < g.len() && 0 <= x < g[q].edges.len() && #[trigger] is_very_short(
            g,
            GraphEdgeRef { start_idx: q as usize, edge_idx: x as usize, reverse: false },
        ) ==> !has_predecessor(g, GraphEdgeRef { start_idx: q as usize, edge_idx: x as usize, reverse: false })
}

/// Removing the very short edge `r` (which some edge leads into) keeps the edges visited before it that are very
/// short unremovable: no edge starts leading into them.
proof fn lemma_removal_keeps_unremovable(g: Seq<PointModel>, r: GraphEdgeRef)
    requires
        removal_wf(g),
        valid_ref(g, r),
        !r.reverse,
        is_very_short(g, r),
        has_predecessor(g, r),
        short_edges_unremovable_before(g, r.start_idx as int, r.edge_idx as int),
    ensures
        short_edges_unremovable_before(removed_edge_model(g, r), r.start_idx as int, r.edge_idx as int),
{
    let m = removed_edge_model(g, r);
    let pi = r.start_idx as int;
    let ei = r.edge_idx as int;
    lemma_removed_edge_shape(g, r);
    let (pp, pe) = predecessor(g, r);
    assert(is_predecessor(g, r, pp, pe));
    assert forall|q: int, x: int|
        #![trigger m[q].edges[x]]
        0 <= q < m.len() && 0 <= x < m[q].edges.len() && visited_before(q, x, pi, ei) && is_very_short(
            m,
            GraphEdgeRef { start_idx: q as usize, edge_idx: x as usize, reverse: false },
        ) implies !has_predecessor(m, GraphEdgeRef { start_idx: q as usize, edge_idx: x as usize, reverse: false }) by {
        let xr = GraphEdgeRef { start_idx: q as usize, edge_idx: x as usize, reverse: false };
        assert(origin_idx(r, q, x) == x);
        assert(x < g[q].edges.len());
        let ge = g[q].edges[x];
        assert(m[q].edges[x] == decremented(redirected_edge(g, r, q, x), r.start_idx, r.edge_idx));
        assert(redirected_edge(g, r, q, x).end_idx == ge.end_idx);
        assert(ge.end_idx < g.len());
        assert(m[q].edges[x].end_idx == ge.end_idx && m[q].edges[x].cp1 == ge.cp1 && m[q].edges[x].cp2 == ge.cp2);
        assert(m[q].position == g[q].position);
        assert(m[ge.end_idx as int].position == g[ge.end_idx as int].position);
        assert(is_very_short(g, xr));
        assert(!has_predecessor(g, xr));
        if has_predecessor(m, xr) {
            let (p2, e2) = choose|p2: int, e2: int| #[trigger] is_predecessor(m, xr, p2, e2);
            assert(is_predecessor(m, xr, p2, e2));
            let o = origin_idx(r, p2, e2);
            assert(0 <= o < g[p2].edges.len());
            let re = redirected_edge(g, r, p2, o);
            assert(m[p2].edges[e2] == decremented(re, r.start_idx, r.edge_idx));
            if p2 == pp && o == pe {
                assert(re.end_idx == pi);
                assert(re.following_edge_idx == edge_at(g, r).following_edge_idx);
                assert(q == pi);
                assert(x < ei);
                assert(is_predecessor(g, xr, pi, ei));
            } else {
                assert(re == g[p2].edges[o]);
                assert(is_predecessor(g, xr, p2, o));
            }
        }
    }
}

/// The graph has no very short edges.
pub open spec fn has_no_very_short_edges(g: Seq<PointModel>) -> bool {
    forall|p: int, e: int|
        0 <= p < g.len() && 0 <= e < g[p].edges.len() ==> !#[trigger] is_very_short(
            g,
            GraphEdgeRef { start_idx: p as usize, edge_idx: e as usize, reverse: false },
        )
}

impl GraphPath {
    /// Removes any edges that appear to be 'very short' from this graph: edges that start and end at the same
    /// point with their control points at that point too. Edges are visited point by point; after a removal the
    /// same index is visited again, so that the edge that moves into the removed edge's place is checked too.
    /// Afterwards every very short edge has been removed, except those that no edge leads into (removing an edge
    /// reconnects the edge leading into it, so without one the edge stays).
    #[verifier::rlimit(60)]
    #[verifier::spinoff_prover]
    pub fn remove_all_very_short_edges(&mut self)
        requires
            removal_wf(old(self)@),
        ensures
            removal_wf(final(self)@),
            final(self).path_count() == old(self).path_count(),
            final(self)@ == short_edges_removed_from(old(self)@, 0, 0),
            short_edges_unremovable(final(self)@),
            has_no_very_short_edges(old(self)@) ==> final(self)@ == old(self)@,
    {
        let ghost g0 = self@;
        let n = self.points.len();
        for point_idx in 0..n
            invariant
                n == g0.len(),
                g0 == old(self)@,
                removal_wf(self@),
                self@.len() == n,
                self.path_count() == old(self).path_count(),
                short_edges_removed_from(self@, point_idx as int, 0) == short_edges_removed_from(g0, 0, 0),
                short_edges_unremovable_before(self@, point_idx as int, 0),
                has_no_very_short_edges(g0) ==> self@ == g0,
        {
            let mut edge_idx: usize = 0;
            while edge_idx < self.num_edges(point_idx)
                invariant
                    n == g0.len(),
                    point_idx < n,
                    g0 == old(self)@,
                    removal_wf(self@),
                    self@.len() == n,
                    self.path_count() == old(self).path_count(),
                    short_edges_removed_from(self@, point_idx as int, edge_idx as int) == short_edges_removed_from(g0, 0, 0),
                    short_edges_unremovable_before(self@, point_idx as int, edge_idx as int),
                    has_no_very_short_edges(g0) ==> self@ == g0,
                decreases self@[point_idx as int].edges.len() + 1 - edge_idx,
            {
                // Remove this edge if it's very short
                let edge_ref = GraphEdgeRef { start_idx: point_idx, edge_idx, reverse: false };
                let ghost before = self@;
                let num_edges = self.num_edges(point_idx);
                proof {
                    assert(before[point_idx as int].edges.len() == num_edges);
                }
                let mut removed = false;
                if self.edge_is_very_short(edge_ref) {
                    proof {
                        if has_no_very_short_edges(g0) {
                            let p = point_idx as int;
                            let e = edge_idx as int;
                            assert(!is_very_short(g0, GraphEdgeRef { start_idx: p as usize, edge_idx: e as usize, reverse: false }));
                            assert(edge_ref == GraphEdgeRef { start_idx: p as usize, edge_idx: e as usize, reverse: false });
                        }
                        lemma_removed_edge_wf(before, edge_ref);
                        lemma_removed_edge_sizes(before, edge_ref);
                        if has_predecessor(before, edge_ref) {
                            lemma_removed_edge_shape(before, edge_ref);
                            lemma_removal_keeps_unremovable(before, edge_ref);
                        }
                    }
                    self.remove_edge(edge_ref);
                    // Nothing is removed when no edge leads into this one
                    removed = self.num_edges(point_idx) < num_edges;
                    proof {
                        assert(removed == has_predecessor(before, edge_ref));
                    }
                }

                if !removed {
                    proof {
                        let p = point_idx as int;
                        let e = edge_idx as int;
                        assert(self@ == before);
                        assert(short_edges_removed_from(before, p, e) == short_edges_removed_from(before, p, e + 1));
                        assert forall|q: int, x: int|
                            #![trigger self@[q].edges[x]]
                            0 <= q < self@.len() && 0 <= x < self@[q].edges.len() && visited_before(q, x, p, e + 1) && is_very_short(
                                self@,
                                GraphEdgeRef { start_idx: q as usize, edge_idx: x as usize, reverse: false },
                            ) implies !has_predecessor(self@, GraphEdgeRef { start_idx: q as usize, edge_idx: x as usize, reverse: false }) by {
                            if !visited_before(q, x, p, e) {
                                assert(q == p && x == e);
                            }
                        }
                    }
                    // Next edge
                    edge_idx = edge_idx + 1;
                } else {
                    proof {
                        assert(short_edges_removed_from(before, point_idx as int, edge_idx as int) == short_edges_removed_from(
                            removed_edge_model(before, edge_ref),
                            point_idx as int,
                            edge_idx as int,
                        ));
                    }
                }
            }
            proof {
                assert(self@[point_idx as int] == point_model(self.points@[point_idx as int]));
                assert(short_edges_removed_from(self@, point_idx as int, edge_idx as int) == short_edges_removed_from(
                    self@,
                    point_idx + 1,
                    0,
                ));
                assert forall|q: int, x: int|
                    #![trigger self@[q].edges[x]]
                    0 <= q < self@.len() && 0 <= x < self@[q].edges.len() && visited_before(q, x, point_idx + 1, 0) && is_very_short(
                        self@,
                        GraphEdgeRef { start_idx: q as usize, edge_idx: x as usize, reverse: false },
                    ) implies !has_predecessor(self@, GraphEdgeRef { start_idx: q as usize, edge_idx: x as usize, reverse: false }) by {
                    assert(visited_before(q, x, point_idx as int, edge_idx as int));
                }
            }
        }
        proof {
            assert forall|q: int, x: int|
                0 <= q < self@.len() && 0 <= x < self@[q].edges.len() && #[trigger] is_very_short(
                    self@,
                    GraphEdgeRef { start_idx: q as usize, edge_idx: x as usize, reverse: false },
                ) implies !has_predecessor(self@, GraphEdgeRef { start_idx: q as usize, edge_idx: x as usize, reverse: false }) by {
                assert(visited_before(q, x, n as int, 0));
                assert(self@[q].edges[x] == self@[q].edges[x]);
            }
        }
    }
}

/// Edge `e` of point `p` comes before edge `e2` of point `p2` in the order points and then edges are visited.
pub open spec fn visited_before(p: int, e: int, p2: int, e2: int) -> bool {
    p < p2 || (p == p2 && e < e2)
}

/// No two of the edges visited before edge `e2` of point `p2` are followed by the same edge.
pub open spec fn following_unique_before(g: Seq<PointModel>, p2: int, e2: int) -> bool {
    forall|pa: int, ea: int, pb: int, eb: int|
        #![trigger g[pa].edges[ea], g[pb].edges[eb]]
        0 <= pa < g.len() && 0 <= ea < g[pa].edges.len() && 0 <= pb < g.len() && 0 <= eb < g[pb].edges.len()
            && visited_before(pa, ea, p2, e2) && visited_before(pb, eb, p2, e2) && g[pa].edges[ea].end_idx
            == g[pb].edges[eb].end_idx && g[pa].edges[ea].following_edge_idx == g[pb].edges[eb].following_edge_idx ==> pa == pb
            && ea == eb
}

impl GraphPath {
    /// Checks that no two edges are followed by the same edge (each edge's following edge is the continuation
    /// of that edge alone)
    #[verifier::spinoff_prover]
    pub fn check_following_edge_consistency(&self) -> (r: bool)
        requires
            edges_well_formed(self@),
        ensures
            r == following_unique(self@),
    {
        let ghost g = self@;
        let n = self.points.len();
        // The (end point, following edge) pair of every edge seen so far, and the edge it came from
        let mut used_edges: Vec<(usize, usize)> = Vec::new();
        let ghost mut owners: Seq<(int, int)> = Seq::empty();
        for point_idx in 0..n
            invariant
                g == self@,
                n == g.len(),
                owners.len() == used_edges@.len(),
                forall|i: int|
                    0 <= i < owners.len() ==> {
                        let (op, oe) = #[trigger] owners[i];
                        &&& 0 <= op < n
                        &&& 0 <= oe < g[op].edges.len()
                        &&& visited_before(op, oe, point_idx as int, 0)
                        &&& used_edges@[i] == (g[op].edges[oe].end_idx, g[op].edges[oe].following_edge_idx)
                    },
                forall|pa: int, ea: int|
                    0 <= pa < point_idx && 0 <= ea < g[pa].edges.len() ==> used_edges@.contains(
                        (#[trigger] g[pa].edges[ea].end_idx, g[pa].edges[ea].following_edge_idx),
                    ),
                following_unique_before(g, point_idx as int, 0),
        {
            proof {
                assert(g[point_idx as int] == point_model(self.points@[point_idx as int]));
            }
            let num_edges = edge_list_len(&self.points[point_idx].forward_edges);
            for edge_idx in 0..num_edges
                invariant
                    g == self@,
                    n == g.len(),
                    point_idx < n,
                    num_edges == g[point_idx as int].edges.len(),
                    owners.len() == used_edges@.len(),
                    forall|i: int|
                        0 <= i < owners.len() ==> {
                            let (op, oe) = #[trigger] owners[i];
                            &&& 0 <= op < n
                            &&& 0 <= oe < g[op].edges.len()
                            &&& visited_before(op, oe, point_idx as int, edge_idx as int)
                            &&& used_edges@[i] == (g[op].edges[oe].end_idx, g[op].edges[oe].following_edge_idx)
                        },
                    forall|pa: int, ea: int|
                        0 <= pa < g.len() && 0 <= ea < g[pa].edges.len() && visited_before(pa, ea, point_idx as int, edge_idx as int)
                            ==> used_edges@.contains((#[trigger] g[pa].edges[ea].end_idx, g[pa].edges[ea].following_edge_idx)),
                    following_unique_before(g, point_idx as int, edge_idx as int),
            {
                proof {
                    assert(g[point_idx as int] == point_model(self.points@[point_idx as int]));
                }
                let edge = edge_list_get(&self.points[point_idx].forward_edges, edge_idx);
                let pair = (edge.end_idx, edge.following_edge_idx);
                let num_used = used_edges.len();
                for j in 0..num_used
                    invariant
                        g == self@,
                        num_used == used_edges@.len(),
                        owners.len() == used_edges@.len(),
                        pair == (g[point_idx as int].edges[edge_idx as int].end_idx, g[point_idx as int].edges[edge_idx as int].following_edge_idx),
                        point_idx < n,
                        n == g.len(),
                        edge_idx < g[point_idx as int].edges.len(),
                        forall|i: int|
                            0 <= i < owners.len() ==> {
                                let (op, oe) = #[trigger] owners[i];
                                &&& 0 <= op < n
                                &&& 0 <= oe < g[op].edges.len()
                                &&& visited_before(op, oe, point_idx as int, edge_idx as int)
                                &&& used_edges@[i] == (g[op].edges[oe].end_idx, g[op].edges[oe].following_edge_idx)
                            },
                        forall|i: int| 0 <= i < j ==> #[trigger] used_edges@[i] != pair,
                {
                    let (used_end, used_following) = used_edges[j];
                    if used_end == pair.0 && used_following == pair.1 {
                        proof {
                            let (op, oe) = owners[j as int];
                            assert(used_edges@[j as int] == (g[op].edges[oe].end_idx, g[op].edges[oe].following_edge_idx));
                            assert(!(op == point_idx && oe == edge_idx));
                            assert(used_edges@[j as int] == (used_end, used_following));
                            assert(g[op].edges[oe].end_idx == g[point_idx as int].edges[edge_idx as int].end_idx);
                            assert(g[op].edges[oe].following_edge_idx == g[point_idx as int].edges[edge_idx as int].following_edge_idx);
                            assert(!following_unique(g));
                        }
                        return false;
                    }
                }
                proof {
                    assert(!used_edges@.contains(pair));
                    let e2 = edge_idx as int + 1;
                    assert forall|pa: int, ea: int, pb: int, eb: int|
                        #![trigger g[pa].edges[ea], g[pb].edges[eb]]
                        0 <= pa < g.len() && 0 <= ea < g[pa].edges.len() && 0 <= pb < g.len() && 0 <= eb < g[pb].edges.len()
                            && visited_before(pa, ea, point_idx as int, e2) && visited_before(pb, eb, point_idx as int, e2)
                            && g[pa].edges[ea].end_idx == g[pb].edges[eb].end_idx && g[pa].edges[ea].following_edge_idx
                            == g[pb].edges[eb].following_edge_idx implies pa == pb && ea == eb by {
                        if pa == point_idx && ea == edge_idx && !(pb == point_idx && eb == edge_idx) {
                            assert(used_edges@.contains((g[pb].edges[eb].end_idx, g[pb].edges[eb].following_edge_idx)));
                        } else if pb == point_idx && eb == edge_idx && !(pa == point_idx && ea == edge_idx) {
                            assert(used_edges@.contains((g[pa].edges[ea].end_idx, g[pa].edges[ea].following_edge_idx)));
                        }
                    }
                }
                let ghost before = used_edges@;
                used_edges.push(pair);
                proof {
                    owners = owners.push((point_idx as int, edge_idx as int));
                    assert forall|pa: int, ea: int|
                        0 <= pa < g.len() && 0 <= ea < g[pa].edges.len() && visited_before(pa, ea, point_idx as int, edge_idx + 1)
                            implies used_edges@.contains((#[trigger] g[pa].edges[ea].end_idx, g[pa].edges[ea].following_edge_idx)) by {
                        if pa == point_idx && ea == edge_idx {
                            assert(used_edges@[before.len() as int] == pair);
                        } else {
                            assert(before.contains((g[pa].edges[ea].end_idx, g[pa].edges[ea].following_edge_idx)));
                            let i = choose|i: int| 0 <= i < before.len() && before[i] == (g[pa].edges[ea].end_idx, g[pa].edges[ea].following_edge_idx);
                            assert(used_edges@[i] == before[i]);
                        }
                    }
                }
            }
            proof {
                assert forall|pa: int, ea: int| 0 <= pa < point_idx + 1 && 0 <= ea < g[pa].edges.len() implies used_edges@.contains(
                    (#[trigger] g[pa].edges[ea].end_idx, g[pa].edges[ea].following_edge_idx),
                ) by {
                    assert(visited_before(pa, ea, point_idx as int, num_edges as int));
                }
                assert forall|pa: int, ea: int, pb: int, eb: int|
                    #![trigger g[pa].edges[ea], g[pb].edges[eb]]
                    0 <= pa < g.len() && 0 <= ea < g[pa].edges.len() && 0 <= pb < g.len() && 0 <= eb < g[pb].edges.len()
                        && visited_before(pa, ea, point_idx + 1, 0) && visited_before(pb, eb, point_idx + 1, 0)
                        && g[pa].edges[ea].end_idx == g[pb].edges[eb].end_idx && g[pa].edges[ea].following_edge_idx
                        == g[pb].edges[eb].following_edge_idx implies pa == pb && ea == eb by {
                    assert(visited_before(pa, ea, point_idx as int, num_edges as int));
                    assert(visited_before(pb, eb, point_idx as int, num_edges as int));
                }
                assert forall|i: int| 0 <= i < owners.len() implies {
                    let (op, oe) = #[trigger] owners[i];
                    visited_before(op, oe, point_idx + 1, 0)
                } by {
                    let (op, oe) = owners[i];
                    assert(visited_before(op, oe, point_idx as int, num_edges as int));
                }
            }
        }
        proof {
            assert forall|p1: int, e1: int, p2: int, e2: int|
                #![trigger g[p1].edges[e1], g[p2].edges[e2]]
                0 <= p1 < g.len() && 0 <= e1 < g[p1].edges.len() && 0 <= p2 < g.len() && 0 <= e2 < g[p2].edges.len()
                    && g[p1].edges[e1].end_idx == g[p2].edges[e2].end_idx && g[p1].edges[e1].following_edge_idx
                    == g[p2].edges[e2].following_edge_idx implies p1 == p2 && e1 == e2 by {
                assert(visited_before(p1, e1, n as int, 0));
                assert(visited_before(p2, e2, n as int, 0));
            }
        }
        true
    }
}

/// The refs of the edges leaving the points from `start` up to (not including) `m`, point by point.
pub open spec fn edge_refs_between(g: Seq<PointModel>, start: nat, m: nat) -> Seq<GraphEdgeRef>
    decreases m,
{
    if m <= start {
        Seq::empty()
    } else {
        edge_refs_between(g, start, (m - 1) as nat) + point_edge_refs(g, m - 1)
    }
}

/// The smallest x coordinate of the fast bounding box of the edge a ref names.
pub open spec fn edge_min_x(g: Seq<PointModel>, r: GraphEdgeRef) -> int {
    fast_bounds_spec(ref_curve(g, GraphEdgeRef { reverse: false, ..r })).min.0 as int
}

/// The references in `s` to edges whose fast bounding box starts at `x`, in the order they have in `s`
pub open spec fn refs_with_min_x(g: Seq<PointModel>, s: Seq<GraphEdgeRef>, x: int) -> Seq<GraphEdgeRef> {
    s.filter(|e: GraphEdgeRef| edge_min_x(g, e) == x)
}

/// Keeping the references with a given smallest x commutes with appending one reference
proof fn lemma_refs_with_min_x_push(g: Seq<PointModel>, s: Seq<GraphEdgeRef>, e: GraphEdgeRef, x: int)
    ensures
        refs_with_min_x(g, s.push(e), x) == (if edge_min_x(g, e) == x {
            refs_with_min_x(g, s, x).push(e)
        } else {
            refs_with_min_x(g, s, x)
        }),
{
    reveal(Seq::filter);
    assert(s.push(e).drop_last() =~= s);
}

/// No reference is kept from a sequence in which none has the given smallest x
proof fn lemma_refs_with_min_x_none(g: Seq<PointModel>, s: Seq<GraphEdgeRef>, x: int)
    requires
        forall|k: int| 0 <= k < s.len() ==> edge_min_x(g, #[trigger] s[k]) != x,
    ensures
        refs_with_min_x(g, s, x) == Seq::<GraphEdgeRef>::empty(),
    decreases s.len(),
{
    reveal(Seq::filter);
    if s.len() > 0 {
        lemma_refs_with_min_x_none(g, s.drop_last(), x);
        assert(edge_min_x(g, s[s.len() - 1]) != x);
    }
}

/// Inserting a reference at `pos`, after every reference with a smallest x no larger than its own and before
/// every one with a larger smallest x, appends it to the references with its smallest x and leaves the others
proof fn lemma_refs_with_min_x_insert(g: Seq<PointModel>, s: Seq<GraphEdgeRef>, pos: int, e: GraphEdgeRef, x: int)
    requires
        0 <= pos <= s.len(),
        forall|k: int| 0 <= k < pos ==> edge_min_x(g, #[trigger] s[k]) <= edge_min_x(g, e),
        forall|k: int| pos <= k < s.len() ==> edge_min_x(g, #[trigger] s[k]) > edge_min_x(g, e),
    ensures
        refs_with_min_x(g, s.insert(pos, e), x) == (if edge_min_x(g, e) == x {
            refs_with_min_x(g, s, x).push(e)
        } else {
            refs_with_min_x(g, s, x)
        }),
{
    let pred = |r: GraphEdgeRef| edge_min_x(g, r) == x;
    let front = s.take(pos);
    let back = s.skip(pos);
    assert(s =~= front + back);
    assert(s.insert(pos, e) =~= front.push(e) + back);
    Seq::filter_distributes_over_add(front, back, pred);
    Seq::filter_distributes_over_add(front.push(e), back, pred);
    lemma_refs_with_min_x_push(g, front, e, x);
    if edge_min_x(g, e) == x {
        assert forall|k: int| 0 <= k < back.len() implies edge_min_x(g, #[trigger] back[k]) != x by {
            assert(back[k] == s[pos + k]);
        }
        lemma_refs_with_min_x_none(g, back, x);
        assert(refs_with_min_x(g, front.push(e), x) + Seq::<GraphEdgeRef>::empty() =~= refs_with_min_x(g, front.push(e), x));
        assert(refs_with_min_x(g, front, x) + Seq::<GraphEdgeRef>::empty() =~= refs_with_min_x(g, front, x));
    }
}

impl GraphPath {
    /// The edges leaving the points from `start` up to (not including) `end`, ordered by the smallest x
    /// coordinate of their fast bounding boxes (edges with the same smallest x keep the order they are found in)
    #[verifier::spinoff_prover]
    pub fn get_ordered_edges(&self, start: usize, end: usize) -> (r: Vec<GraphEdgeRef>)
        requires
            edges_well_formed(self@),
            start <= end <= self@.len(),
        ensures
            r@.to_multiset() == edge_refs_between(self@, start as nat, end as nat).to_multiset(),
            forall|i: int, j: int| 0 <= i < j < r@.len() ==> edge_min_x(self@, #[trigger] r@[i]) <= edge_min_x(self@, #[trigger] r@[j]),
            forall|i: int| 0 <= i < r@.len() ==> valid_ref(self@, #[trigger] r@[i]) && !r@[i].reverse,
            forall|x: int|
                #[trigger] refs_with_min_x(self@, r@, x) == refs_with_min_x(
                    self@,
                    edge_refs_between(self@, start as nat, end as nat),
                    x,
                ),
    {
        let ghost g = self@;
        let mut refs: Vec<GraphEdgeRef> = Vec::new();
        for point_idx in start..end
            invariant
                g == self@,
                edges_well_formed(g),
                start <= end <= g.len(),
                refs@ == edge_refs_between(g, start as nat, point_idx as nat),
                forall|i: int| 0 <= i < refs@.len() ==> valid_ref(g, #[trigger] refs@[i]) && !refs@[i].reverse,
        {
            let mut point_refs = self.edge_refs_for_point(point_idx);
            let ghost before = refs@;
            let ghost added = point_refs@;
            refs.append(&mut point_refs);
            proof {
                assert forall|i: int| 0 <= i < refs@.len() implies valid_ref(g, #[trigger] refs@[i]) && !refs@[i].reverse by {
                    if i >= before.len() {
                        assert(refs@[i] == added[i - before.len()]);
                    } else {
                        assert(refs@[i] == before[i]);
                    }
                }
            }
        }

        // Insert each edge after the edges already placed whose key is no larger
        let mut ordered: Vec<GraphEdgeRef> = Vec::new();
        let n = refs.len();
        proof {
            assert(ordered@ =~= refs@.take(0));
        }
        for i in 0..n
            invariant
                g == self@,
                edges_well_formed(g),
                n == refs@.len(),
                forall|k: int| 0 <= k < refs@.len() ==> valid_ref(g, #[trigger] refs@[k]) && !refs@[k].reverse,
                forall|k: int| 0 <= k < ordered@.len() ==> valid_ref(g, #[trigger] ordered@[k]) && !ordered@[k].reverse,
                ordered@.to_multiset() == refs@.take(i as int).to_multiset(),
                forall|a: int, b: int| 0 <= a < b < ordered@.len() ==> edge_min_x(g, #[trigger] ordered@[a]) <= edge_min_x(g, #[trigger] ordered@[b]),
                forall|x: int| #[trigger] refs_with_min_x(g, ordered@, x) == refs_with_min_x(g, refs@.take(i as int), x),
        {
            let edge = refs[i];
            let key = self.edge_fast_bounding_box(edge).min.0;
            let len = ordered.len();
            let mut pos: usize = 0;
            while pos < len && self.edge_fast_bounding_box(ordered[pos]).min.0 <= key
                invariant
                    g == self@,
                    edges_well_formed(g),
                    len == ordered@.len(),
                    pos <= len,
                    key == edge_min_x(g, edge),
                    forall|k: int| 0 <= k < ordered@.len() ==> valid_ref(g, #[trigger] ordered@[k]) && !ordered@[k].reverse,
                    forall|k: int| 0 <= k < pos ==> edge_min_x(g, #[trigger] ordered@[k]) <= key,
                decreases len - pos,
            {
                pos = pos + 1;
            }
            let ghost before = ordered@;
            ordered.insert(pos, edge);
            proof {
                assert(refs@.take(i + 1) =~= refs@.take(i as int).push(edge));
                vstd::seq_lib::to_multiset_build(refs@.take(i as int), edge);
                vstd::seq_lib::to_multiset_insert(before, pos as int, edge);
                assert(ordered@ == before.insert(pos as int, edge));
                if pos < len {
                    assert(edge_min_x(g, before[pos as int]) > key);
                }
                assert forall|a: int, b: int| 0 <= a < b < ordered@.len() implies edge_min_x(g, #[trigger] ordered@[a]) <= edge_min_x(g, #[trigger] ordered@[b]) by {
                    if a < pos && b < pos {
                        assert(ordered@[a] == before[a] && ordered@[b] == before[b]);
                    } else if a < pos && b == pos {
                        assert(ordered@[a] == before[a]);
                    } else if a < pos && b > pos {
                        assert(ordered@[a] == before[a] && ordered@[b] == before[b - 1]);
                        assert(edge_min_x(g, before[pos as int]) <= edge_min_x(g, before[b - 1]));
                    } else if a == pos {
                        assert(ordered@[b] == before[b - 1]);
                        assert(edge_min_x(g, before[pos as int]) <= edge_min_x(g, before[b - 1]));
                    } else {
                        assert(ordered@[a] == before[a - 1] && ordered@[b] == before[b - 1]);
                    }
                }
                assert forall|k: int| 0 <= k < ordered@.len() implies valid_ref(g, #[trigger] ordered@[k]) && !ordered@[k].reverse by {
                    if k < pos {
                        assert(ordered@[k] == before[k]);
                    } else if k > pos {
                        assert(ordered@[k] == before[k - 1]);
                    }
                }
                assert forall|k: int| pos <= k < before.len() implies edge_min_x(g, #[trigger] before[k]) > key by {
                    assert(edge_min_x(g, before[pos as int]) <= edge_min_x(g, before[k]));
                }
                assert forall|x: int| #[trigger] refs_with_min_x(g, ordered@, x) == refs_with_min_x(g, refs@.take(i + 1), x) by {
                    lemma_refs_with_min_x_insert(g, before, pos as int, edge, x);
                    lemma_refs_with_min_x_push(g, refs@.take(i as int), edge, x);
                }
            }
        }
        proof {
            assert(refs@.take(n as int) =~= refs@);
        }
        ordered
    }
}

/// The graph is a single loop through its points in order: it has at least three points, and each point has
/// exactly one edge, to the next point (the last to the first), followed by that point's edge.
pub open spec fn is_cycle_shape(g: Seq<PointModel>) -> bool {
    &&& g.len() >= 3
    &&& forall|p: int|
        0 <= p < g.len() ==> {
            &&& g[p].edges.len() == 1
            &&& (#[trigger] g[p].edges[0]).end_idx == (p + 1) % (g.len() as int)
            &&& g[p].edges[0].following_edge_idx == 0
        }
}

/// The graph is a single loop of exterior edges through its points in order.
pub open spec fn is_exterior_cycle(g: Seq<PointModel>) -> bool {
    &&& is_cycle_shape(g)
    &&& forall|p: int| 0 <= p < g.len() ==> (#[trigger] g[p].edges[0]).kind == GraphPathEdgeKind::Exterior
}

/// The graph is a single loop through its points in order whose edges are all exterior except the edge leaving
/// point `m`.
pub open spec fn is_cycle_with_gap(g: Seq<PointModel>, m: int) -> bool {
    &&& is_cycle_shape(g)
    &&& 0 <= m < g.len()
    &&& forall|p: int| 0 <= p < g.len() ==> ((#[trigger] g[p].edges[0]).kind == GraphPathEdgeKind::Exterior) == (p != m)
}

/// The point before `p` on a loop of `n` points.
pub open spec fn cycle_pred(p: int, n: int) -> int {
    if p == 0 {
        n - 1
    } else {
        p - 1
    }
}

/// The path that follows a loop of exterior edges from its first point.
pub open spec fn cycle_sections(g: Seq<PointModel>) -> Seq<(Coord2, Coord2, Coord2)> {
    Seq::new(g.len(), |k: int| (g[k].edges[0].cp1, g[k].edges[0].cp2, g[(k + 1) % (g.len() as int)].position))
}

/// The ref of the only edge leaving point `p`, in the direction given.
pub open spec fn only_edge(p: int, reverse: bool) -> GraphEdgeRef {
    GraphEdgeRef { start_idx: p as usize, edge_idx: 0, reverse }
}

/// On a loop, the point before a point is not the point after it, and every edge is exterior.
proof fn lemma_cycle_neighbours(g: Seq<PointModel>, c: int)
    requires
        is_cycle_shape(g),
        0 <= c < g.len(),
    ensures
        0 <= cycle_pred(c, g.len() as int) < g.len(),
        cycle_pred(c, g.len() as int) != (c + 1) % (g.len() as int),
        0 <= (c + 1) % (g.len() as int) < g.len(),
        cycle_pred((c + 1) % (g.len() as int), g.len() as int) == c,
        is_exterior_cycle(g) ==> g[cycle_pred(c, g.len() as int)].edges[0].kind == GraphPathEdgeKind::Exterior,
        is_exterior_cycle(g) ==> g[c].edges[0].kind == GraphPathEdgeKind::Exterior,
{
    let len = g.len() as int;
    let pc = cycle_pred(c, len);
    assert(g[pc].edges.len() == 1);
    assert(g[c].edges.len() == 1);
    if c == 0 {
        assert((c + 1) % len == 1) by (nonlinear_arith)
            requires c == 0, len >= 3;
    } else if c == len - 1 {
        assert((c + 1) % len == 0) by (nonlinear_arith)
            requires c == len - 1, len >= 3;
    } else {
        assert((c + 1) % len == c + 1) by (nonlinear_arith)
            requires 0 < c < len - 1, len >= 3;
    }
}

/// In a well formed loop, each point is connected from the point before it only, and the refs at a point are
/// its own edge and the edge arriving from the point before it.
proof fn lemma_cycle_refs(g: Seq<PointModel>, q: int)
    requires
        graph_wf(g),
        is_cycle_shape(g),
        g.len() <= usize::MAX,
        0 <= q < g.len(),
    ensures
        g[q].connected_from == seq![cycle_pred(q, g.len() as int) as usize],
        reverse_edge_refs(g, q) == seq![only_edge(cycle_pred(q, g.len() as int), true)],
        point_edge_refs(g, q) == seq![only_edge(q, false)],
        point_all_refs(g, q) == seq![only_edge(q, false), only_edge(cycle_pred(q, g.len() as int), true)],
{
    let n = g.len() as int;
    let pq = cycle_pred(q, n);
    assert(g[pq].edges[0].end_idx == q) by {
        assert(g[pq].edges[0].end_idx == (pq + 1) % n);
        if q == 0 {
            assert((n - 1 + 1) % n == 0) by (nonlinear_arith)
                requires n >= 3;
        } else {
            assert((q - 1 + 1) % n == q) by (nonlinear_arith)
                requires 0 < q < n;
        }
    }
    let cf = g[q].connected_from;
    assert(cf == sources(g, q));
    lemma_sources_upto_bounded(g, q, g.len());
    assert forall|p: int| 0 <= p < n implies (has_edge_to(g, p, q) <==> p == pq) by {
        if has_edge_to(g, p, q) {
            let e = choose|e: int| 0 <= e < g[p].edges.len() && #[trigger] g[p].edges[e].end_idx == q;
            assert(e == 0);
            assert((p + 1) % n == q);
            if p == n - 1 {
                assert(q == 0) by (nonlinear_arith)
                    requires p == n - 1, (p + 1) % n == q, n >= 3;
            } else {
                assert(q == p + 1) by (nonlinear_arith)
                    requires 0 <= p < n - 1, (p + 1) % n == q, n >= 3;
            }
        }
        if p == pq {
            assert(has_edge_to(g, p, q) ) by {
                assert(g[p].edges[0].end_idx == q);
            }
        }
    }
    lemma_sources_complete(g, q, pq);
    assert(cf.contains(pq as usize));
    assert forall|i: int| 0 <= i < cf.len() implies #[trigger] cf[i] == pq as usize by {
        lemma_sources_complete(g, q, cf[i] as int);
        assert(cf.contains(cf[i]));
    }
    if cf.len() > 1 {
        assert(cf[0] < cf[1]);
    }
    assert(cf =~= seq![pq as usize]);
    assert(edges_into_upto(g, pq, q, 0) =~= Seq::<GraphEdgeRef>::empty());
    assert(edges_into_upto(g, pq, q, 1) =~= seq![only_edge(pq, true)]);
    assert(reverse_refs_upto(g, q, 0) =~= Seq::<GraphEdgeRef>::empty());
    assert(reverse_refs_upto(g, q, 1) =~= seq![only_edge(pq, true)]);
    assert(g[q].edges[0].end_idx == (q + 1) % n);
    assert(point_edge_refs(g, q) =~= seq![only_edge(q, false)]);
    assert(point_all_refs(g, q) =~= seq![only_edge(q, false), only_edge(pq, true)]);
}

/// In a loop whose edges are all exterior but one, the only edge with a gap is the edge before the one that is not
/// exterior, and the edge after it has a gap when taken backwards.
proof fn lemma_cycle_gaps(g: Seq<PointModel>, m: int)
    requires
        graph_wf(g),
        is_cycle_with_gap(g, m),
        g.len() <= usize::MAX,
    ensures
        forall|p: int| 0 <= p < g.len() ==> (#[trigger] edge_gap(g, only_edge(p, false)) <==> p == cycle_pred(m, g.len() as int)),
        edge_gap(g, only_edge((m + 1) % (g.len() as int), true)),
{
    let n = g.len() as int;
    assert forall|p: int| 0 <= p < n implies (#[trigger] edge_gap(g, only_edge(p, false)) <==> p == cycle_pred(m, n)) by {
        lemma_cycle_neighbours(g, p);
        let q = (p + 1) % n;
        lemma_cycle_neighbours(g, q);
        lemma_cycle_refs(g, q);
        lemma_cycle_neighbours(g, m);
        assert(g[p].edges[0].end_idx == q);
        let refs = point_all_refs(g, q);
        assert(refs[0] == only_edge(q, false));
        assert(refs[1] == only_edge(p, true));
        assert(ref_end_point(g, refs[1]) == p);
        assert(ref_end_point(g, refs[0]) == (q + 1) % n);
        assert((q + 1) % n != p);
        assert(g[q].edges[0].kind == GraphPathEdgeKind::Exterior <==> q != m);
        if p == cycle_pred(m, n) {
            assert(q == m);
            assert(p != m);
        } else {
            if p != m {
                assert(q != m) by {
                    if q == m {
                        assert(cycle_pred(q, n) == p);
                    }
                }
                assert(ref_end_point(g, refs[0]) != p && edge_at(g, refs[0]).kind == GraphPathEdgeKind::Exterior);
            }
        }
    }
    let s = (m + 1) % n;
    lemma_cycle_neighbours(g, m);
    lemma_cycle_neighbours(g, s);
    lemma_cycle_refs(g, s);
    let s2 = (s + 1) % n;
    let t = only_edge(s, true);
    assert(g[s].edges[0].end_idx == s2);
    assert(ref_start_point(g, t) == s2);
    assert(ref_end_point(g, t) == s);
    assert(s != m);
    assert(edge_at(g, t).kind == GraphPathEdgeKind::Exterior);
    let refs = point_all_refs(g, s);
    assert(refs[0] == only_edge(s, false));
    assert(refs[1] == only_edge(m, true));
    assert(m != s2) by {
        if m == s2 {
            assert(cycle_pred(s2, n) == s);
            assert(cycle_pred(s, n) == m);
        }
    }
}

/// A loop of exterior edges has no gaps.
proof fn lemma_exterior_cycle_no_gaps(g: Seq<PointModel>)
    requires
        graph_wf(g),
        is_exterior_cycle(g),
        g.len() <= usize::MAX,
    ensures
        has_no_gaps(g),
{
    let n = g.len() as int;
    assert forall|p: int, e: int| 0 <= p < n && 0 <= e < g[p].edges.len() implies !#[trigger] edge_gap(
        g,
        GraphEdgeRef { start_idx: p as usize, edge_idx: e as usize, reverse: false },
    ) by {
        lemma_cycle_neighbours(g, p);
        assert(e == 0);
        let q = (p + 1) % n;
        lemma_cycle_neighbours(g, q);
        lemma_cycle_refs(g, q);
        assert(g[p].edges[0].end_idx == q);
        let refs = point_all_refs(g, q);
        assert(refs[0] == only_edge(q, false));
        assert(ref_end_point(g, refs[0]) == (q + 1) % n);
        assert((q + 1) % n != p);
        assert(edge_at(g, refs[0]).kind == GraphPathEdgeKind::Exterior);
    }
}

/// Making the one edge of a loop that is not exterior exterior gives a loop of exterior edges, still well formed.
proof fn lemma_cycle_gap_closed(g: Seq<PointModel>, m: int)
    requires
        graph_wf(g),
        is_cycle_with_gap(g, m),
        g.len() <= usize::MAX,
    ensures
        is_exterior_cycle(with_edge_kind(g, only_edge(m, false), GraphPathEdgeKind::Exterior)),
        graph_wf(with_edge_kind(g, only_edge(m, false), GraphPathEdgeKind::Exterior)),
        same_except_kinds(g, with_edge_kind(g, only_edge(m, false), GraphPathEdgeKind::Exterior)),
{
    let h = with_edge_kind(g, only_edge(m, false), GraphPathEdgeKind::Exterior);
    let n = g.len() as int;
    assert(g[m].edges[0].end_idx == (m + 1) % n);
    assert forall|p: int| 0 <= p < n implies {
        &&& h[p].edges.len() == 1
        &&& (#[trigger] h[p].edges[0]).end_idx == (p + 1) % n
        &&& h[p].edges[0].following_edge_idx == 0
        &&& h[p].edges[0].kind == GraphPathEdgeKind::Exterior
    } by {
        assert(g[p].edges[0].end_idx == (p + 1) % n);
    }
    lemma_same_except_kinds_refl(g);
    lemma_with_edge_kind_same(g, g, only_edge(m, false), GraphPathEdgeKind::Exterior);
    lemma_same_except_kinds_wf(g, h);
}

/// Setting an edge to the kind it already has changes nothing.
proof fn lemma_with_same_kind(g: Seq<PointModel>, r: GraphEdgeRef, kind: GraphPathEdgeKind)
    requires
        valid_ref(g, r),
        edge_at(g, r).kind == kind,
    ensures
        with_edge_kind(g, r, kind) == g,
{
    let p = r.start_idx as int;
    assert(g[p].edges.update(r.edge_idx as int, GraphPathEdge { kind, ..edge_at(g, r) }) =~= g[p].edges);
    assert(with_edge_kind(g, r, kind) =~= g);
}

/// Section `i` of a path stays where the previous section ended: its end point and both control points are at
/// that point.
pub open spec fn is_still_section(start: Coord2, points: Seq<(Coord2, Coord2, Coord2)>, i: int) -> bool {
    let last = if i == 0 { start } else { points[i - 1].2 };
    points[i].2 == last && points[i].0 == last && points[i].1 == points[i].0
}

/// A closed path of at least three sections, none of which stays where the previous section ended.
pub open spec fn is_simple_closed_path(start: Coord2, points: Seq<(Coord2, Coord2, Coord2)>) -> bool {
    &&& points.len() >= 3
    &&& points.last().2 == start
    &&& forall|i: int| 0 <= i < points.len() ==> !#[trigger] is_still_section(start, points, i)
}

proof fn lemma_kept_all_sections(start: Coord2, points: Seq<(Coord2, Coord2, Coord2)>, m: nat)
    requires
        m <= points.len(),
        forall|i: int| 0 <= i < points.len() ==> !#[trigger] is_still_section(start, points, i),
    ensures
        kept_sections(start, points, m) == points.take(m as int),
    decreases m,
{
    if m > 0 {
        lemma_kept_all_sections(start, points, (m - 1) as nat);
        assert(!is_still_section(start, points, m - 1));
        assert(points.take(m as int) =~= points.take(m - 1).push(points[m - 1]));
    } else {
        assert(points.take(0) =~= Seq::<(Coord2, Coord2, Coord2)>::empty());
    }
}

/// The graph made from a simple closed path is a loop through its points, starting at the path's start point,
/// whose sections are the path's sections.
proof fn lemma_closed_path_skeleton(start: Coord2, points: Seq<(Coord2, Coord2, Coord2)>, label: PathLabel)
    requires
        is_simple_closed_path(start, points),
        points.len() < usize::MAX,
    ensures
        is_cycle_shape(from_path_skeleton(start, points, label)),
        from_path_skeleton(start, points, label).len() == points.len(),
        from_path_skeleton(start, points, label)[0].position == start,
        cycle_sections(from_path_skeleton(start, points, label)) == points,
{
    let k = points.len() as int;
    lemma_kept_all_sections(start, points, points.len());
    assert(points.take(k) =~= points);
    let kept = kept_sections(start, points, points.len());
    assert(kept == points);
    let sk = from_path_skeleton(start, points, label);
    let chain = open_chain(start, kept, label);
    assert(kept[k - 1].2 == start);
    assert(sk.len() == k);
    assert forall|p: int| 0 <= p < k implies {
        &&& sk[p].edges.len() == 1
        &&& (#[trigger] sk[p].edges[0]).end_idx == (p + 1) % k
        &&& sk[p].edges[0].following_edge_idx == 0
    } by {
        if p == k - 1 {
            assert((p + 1) % k == 0) by (nonlinear_arith)
                requires p == k - 1, k >= 3;
            assert(sk[p].edges == seq![new_edge_spec(kept[k - 1].0, kept[k - 1].1, 0, label)]);
        } else {
            assert((p + 1) % k == p + 1) by (nonlinear_arith)
                requires 0 <= p < k - 1;
            assert(sk[p] == chain[p]);
            assert(chain[p].edges == seq![new_edge_spec(kept[p].0, kept[p].1, p + 1, label)]);
        }
    }
    assert forall|i: int| 0 <= i < k implies #[trigger] cycle_sections(sk)[i] == points[i] by {
        if i == k - 1 {
            assert((i + 1) % k == 0) by (nonlinear_arith)
                requires i == k - 1, k >= 3;
        } else {
            assert((i + 1) % k == i + 1) by (nonlinear_arith)
                requires 0 <= i < k - 1;
            assert(sk[i] == chain[i]);
            assert(sk[i + 1].position == chain[i + 1].position);
        }
    }
    assert(cycle_sections(sk) =~= points);
}

/// The points numbered below `i`.
pub open spec fn points_before(i: int) -> Set<int> {
    Set::new(|x: int| 0 <= x < i)
}

/// Walking forwards round a loop from point `i`, with the points before it already visited, reaches every edge
/// from `i` on.
proof fn lemma_forward_walk_round_cycle(g: Seq<PointModel>, i: int, fuel: nat)
    requires
        is_cycle_shape(g),
        g.len() <= usize::MAX,
        0 <= i < g.len(),
        fuel >= g.len() - 1 - i,
    ensures
        forall|j: int| i <= j < g.len() ==> #[trigger] walk_covers(
            forward_walk(g, only_edge(i, false), points_before(i), fuel),
            j,
            0,
        ),
    decreases g.len() - i,
{
    let n = g.len() as int;
    let visited = points_before(i);
    let visited2 = visited.insert(i);
    assert(visited2 =~= points_before(i + 1));
    let walk = forward_walk(g, only_edge(i, false), visited, fuel);
    assert(g[i].edges[0].end_idx == (i + 1) % n);
    let here = only_edge(i, false);
    assert(walk[0] == here);
    if i == n - 1 {
        assert((i + 1) % n == 0) by (nonlinear_arith)
            requires i == n - 1, n >= 3;
        assert(visited2.contains(0));
        assert forall|j: int| i <= j < n implies #[trigger] walk_covers(walk, j, 0) by {
            assert(walk[0].start_idx == j);
        }
    } else {
        assert((i + 1) % n == i + 1) by (nonlinear_arith)
            requires 0 <= i < n - 1;
        assert(g[i + 1].edges[0].end_idx == (i + 2) % n);
        assert(!visited2.contains(i + 1));
        lemma_forward_walk_round_cycle(g, i + 1, (fuel - 1) as nat);
        let rest = forward_walk(g, only_edge(i + 1, false), points_before(i + 1), (fuel - 1) as nat);
        assert(walk == seq![here] + rest);
        assert forall|j: int| i <= j < n implies #[trigger] walk_covers(walk, j, 0) by {
            if j == i {
                assert(walk[0].start_idx == j);
            } else {
                assert(walk_covers(rest, j, 0));
                let w = choose|w: int| 0 <= w < rest.len() && #[trigger] rest[w].start_idx == j && rest[w].edge_idx == 0;
                assert(walk[w + 1] == rest[w]);
            }
        }
    }
}

/// Paths to graphs and back: a simple closed path becomes (by `from_path`) a loop through its points; marking the
/// kind of its first edge and the edges connected to it exterior (by `set_edge_kind_connected`) makes every edge
/// of the loop exterior; and a loop of exterior edges is traced (by `exterior_paths`) into a single path with
/// the original start point and sections.
pub proof fn lemma_closed_path_round_trip(
    start: Coord2,
    points: Seq<(Coord2, Coord2, Coord2)>,
    label: PathLabel,
    g: Seq<PointModel>,
    h: Seq<PointModel>,
)
    requires
        is_simple_closed_path(start, points),
        points.len() < usize::MAX,
        same_points_and_edges(g, from_path_skeleton(start, points, label)),
        same_except_kinds(g, h),
        kinds_follow(g, h, connected_walk(g, only_edge(0, false)), GraphPathEdgeKind::Exterior),
    ensures
        is_exterior_cycle(h),
        h[0].position == start,
        cycle_sections(h) == points,
{
    let sk = from_path_skeleton(start, points, label);
    lemma_closed_path_skeleton(start, points, label);
    let n = g.len() as int;
    assert forall|p: int| 0 <= p < n implies {
        &&& g[p].edges.len() == 1
        &&& (#[trigger] g[p].edges[0]).end_idx == (p + 1) % n
        &&& g[p].edges[0].following_edge_idx == 0
    } by {
        assert(g[p].edges == sk[p].edges);
        assert(sk[p].edges[0].end_idx == (p + 1) % n);
    }
    assert(is_cycle_shape(g));
    lemma_forward_walk_round_cycle(g, 0, n as nat);
    assert(points_before(0) =~= Set::<int>::empty());
    let fw = forward_walk(g, only_edge(0, false), Set::empty(), n as nat);
    let walk = connected_walk(g, only_edge(0, false));
    assert forall|p: int| 0 <= p < n implies {
        &&& h[p].edges.len() == 1
        &&& (#[trigger] h[p].edges[0]).end_idx == (p + 1) % n
        &&& h[p].edges[0].following_edge_idx == 0
        &&& h[p].edges[0].kind == GraphPathEdgeKind::Exterior
    } by {
        assert(g[p].position == h[p].position);
        assert(g[p].edges[0].end_idx == (p + 1) % n);
        assert((GraphPathEdge { kind: h[p].edges[0].kind, ..g[p].edges[0] }) == h[p].edges[0]);
        assert(walk_covers(fw, p, 0));
        let w = choose|w: int| 0 <= w < fw.len() && #[trigger] fw[w].start_idx == p && fw[w].edge_idx == 0;
        assert(walk[w] == fw[w]);
        assert(walk_covers(walk, p, 0));
    }
    assert forall|i: int| 0 <= i < n implies #[trigger] cycle_sections(h)[i] == cycle_sections(g)[i] by {
        assert(g[i].position == h[i].position);
        assert(g[i].edges[0].end_idx == (i + 1) % n);
        assert((GraphPathEdge { kind: h[i].edges[0].kind, ..g[i].edges[0] }) == h[i].edges[0]);
        assert(0 <= (i + 1) % n < n) by (nonlinear_arith)
            requires 0 <= i < n;
        assert(g[(i + 1) % n].position == h[(i + 1) % n].position);
    }
    assert forall|i: int| 0 <= i < n implies #[trigger] cycle_sections(g)[i] == cycle_sections(sk)[i] by {
        assert(g[i].edges == sk[i].edges);
        assert(0 <= (i + 1) % n < n) by (nonlinear_arith)
            requires 0 <= i < n;
        assert(g[(i + 1) % n].position == sk[(i + 1) % n].position);
    }
    assert(cycle_sections(h) =~= points);
    assert(g[0].position == sk[0].position);
    assert(g[0].position == h[0].position);
}

/// An edge of a graph path, seen in the direction of an edge ref
pub struct GraphEdge<'a> {
    /// The graph that this edge is for
    graph: &'a GraphPath,
    /// A reference to the edge
    edge: GraphEdgeRef,
}

impl<'a> GraphEdge<'a> {
    /// The graph this edge belongs to.
    pub closed spec fn graph_view(&self) -> Seq<PointModel> {
        self.graph@
    }

    /// The ref naming this edge.
    pub closed spec fn edge_ref(&self) -> GraphEdgeRef {
        self.edge
    }

    /// The edge of a graph that an edge ref names
    pub fn new(graph: &'a GraphPath, edge: GraphEdgeRef) -> (r: GraphEdge<'a>)
        requires
            valid_ref(graph@, edge),
        ensures
            r.graph_view() == graph@,
            r.edge_ref() == edge,
    {
        GraphEdge { graph, edge }
    }

    /// Returns true if this edge is going backwards around the path
    pub fn is_reversed(&self) -> (r: bool)
        ensures
            r == self.edge_ref().reverse,
    {
        self.edge.reverse
    }

    /// Whether this is an interior or an exterior edge of the path
    pub fn kind(&self) -> (r: GraphPathEdgeKind)
        requires
            valid_ref(self.graph_view(), self.edge_ref()),
        ensures
            r == edge_at(self.graph_view(), self.edge_ref()).kind,
    {
        self.graph.edge_kind(self.edge)
    }

    /// The label attached to this edge
    pub fn label(&self) -> (r: PathLabel)
        requires
            valid_ref(self.graph_view(), self.edge_ref()),
        ensures
            r == edge_at(self.graph_view(), self.edge_ref()).label,
    {
        self.graph.edge_label(self.edge)
    }

    /// The index of the point this edge starts from
    pub fn start_point_index(&self) -> (r: usize)
        requires
            valid_ref(self.graph_view(), self.edge_ref()),
        ensures
            r == ref_start_point(self.graph_view(), self.edge_ref()),
    {
        self.graph.edge_start_point_idx(self.edge)
    }

    /// The index of the point this edge ends at
    pub fn end_point_index(&self) -> (r: usize)
        requires
            valid_ref(self.graph_view(), self.edge_ref()),
        ensures
            r == ref_end_point(self.graph_view(), self.edge_ref()),
    {
        self.graph.edge_end_point_idx(self.edge)
    }

    /// The position of the point this edge starts from
    pub fn start_point(&self) -> (r: Coord2)
        requires
            valid_ref(self.graph_view(), self.edge_ref()),
            edges_well_formed(self.graph_view()),
        ensures
            r == ref_curve(self.graph_view(), self.edge_ref()).start_point,
    {
        self.graph.edge_start_point(self.edge)
    }

    /// The position of the point this edge ends at
    pub fn end_point(&self) -> (r: Coord2)
        requires
            valid_ref(self.graph_view(), self.edge_ref()),
            edges_well_formed(self.graph_view()),
        ensures
            r == ref_curve(self.graph_view(), self.edge_ref()).end_point,
    {
        self.graph.edge_end_point(self.edge)
    }

    /// The control points of this edge, in the order it passes them
    pub fn control_points(&self) -> (r: (Coord2, Coord2))
        requires
            valid_ref(self.graph_view(), self.edge_ref()),
        ensures
            r == ref_curve(self.graph_view(), self.edge_ref()).control_points,
    {
        self.graph.edge_control_points(self.edge)
    }

    /// The box around the control polygon of this edge
    pub fn fast_bounding_box(&self) -> (r: Bounds)
        requires
            valid_ref(self.graph_view(), self.edge_ref()),
            edges_well_formed(self.graph_view()),
        ensures
            r == fast_bounds_spec(ref_curve(self.graph_view(), GraphEdgeRef { reverse: false, ..self.edge_ref() })),
    {
        self.graph.edge_fast_bounding_box(self.edge)
    }
}

impl<'a> From<&GraphEdge<'a>> for GraphEdgeRef {
    /// The ref naming a graph edge
    fn from(edge: &GraphEdge<'a>) -> (r: GraphEdgeRef) {
        edge.edge
    }
}

impl<'a> vstd::std_specs::convert::FromSpecImpl<&GraphEdge<'a>> for GraphEdgeRef {
    open spec fn obeys_from_spec() -> bool {
        true
    }

    open spec fn from_spec(edge: &GraphEdge<'a>) -> GraphEdgeRef {
        edge.edge_ref()
    }
}

impl GraphPath {
    /// Returns the graph edge for an edge ref
    pub fn get_edge(&self, edge: GraphEdgeRef) -> (r: GraphEdge<'_>)
        requires
            valid_ref(self@, edge),
        ensures
            r.graph_view() == self@,
            r.edge_ref() == edge,
    {
        GraphEdge::new(self, edge)
    }

    /// The edges leaving a particular point
    pub fn edges_for_point(&self, point_num: usize) -> (r: Vec<GraphEdge<'_>>)
        requires
            point_num < self@.len(),
        ensures
            r@.len() == self@[point_num as int].edges.len(),
            forall|i: int|
                0 <= i < r@.len() ==> (#[trigger] r@[i]).graph_view() == self@ && r@[i].edge_ref() == point_edge_refs(self@, point_num as int)[i],
    {
        let refs = self.edge_refs_for_point(point_num);
        let mut edges: Vec<GraphEdge<'_>> = Vec::new();
        let n = refs.len();
        for i in 0..n
            invariant
                n == refs@.len(),
                refs@ == point_edge_refs(self@, point_num as int),
                forall|j: int| 0 <= j < n ==> valid_ref(self@, #[trigger] refs@[j]),
                edges@.len() == i,
                forall|j: int| 0 <= j < i ==> (#[trigger] edges@[j]).graph_view() == self@ && edges@[j].edge_ref() == refs@[j],
        {
            edges.push(GraphEdge::new(self, refs[i]));
        }
        edges
    }

    /// All the edges in this graph, point by point
    pub fn all_edges(&self) -> (r: Vec<GraphEdge<'_>>)
        ensures
            r@.len() == all_edge_refs_upto(self@, self@.len()).len(),
            forall|i: int|
                0 <= i < r@.len() ==> (#[trigger] r@[i]).graph_view() == self@ && r@[i].edge_ref() == all_edge_refs_upto(self@, self@.len())[i],
    {
        let refs = self.all_edge_refs();
        let mut edges: Vec<GraphEdge<'_>> = Vec::new();
        let n = refs.len();
        for i in 0..n
            invariant
                n == refs@.len(),
                refs@ == all_edge_refs_upto(self@, self@.len()),
                forall|j: int| 0 <= j < n ==> valid_ref(self@, #[trigger] refs@[j]),
                edges@.len() == i,
                forall|j: int| 0 <= j < i ==> (#[trigger] edges@[j]).graph_view() == self@ && edges@[j].edge_ref() == refs@[j],
        {
            edges.push(GraphEdge::new(self, refs[i]));
        }
        edges
    }
}


/// For `0 <= x < 2 n`: `x % n` is `x`, or `x - n` once `x` reaches `n`.
proof fn lemma_mod_wrap(x: int, n: int)
    requires
        n > 0,
        0 <= x < 2 * n,
    ensures
        x % n == (if x < n { x } else { x - n }),
{
    vstd::arithmetic::div_mod::lemma_fundamental_div_mod(x, n);
    vstd::arithmetic::div_mod::lemma_mod_bound(x, n);
    let q = x / n;
    assert(q == (if x < n { 0int } else { 1int })) by (nonlinear_arith)
        requires
            n > 0,
            0 <= x < 2 * n,
            x == n * q + x % n,
            0 <= x % n < n,
    ;
}

/// The point where the search of a loop with one non-exterior edge (the one leaving `m`) first finds the loop:
/// the first point, unless the edge into it is the non-exterior one.
pub open spec fn gap_cycle_root(n: int, m: int) -> int {
    if m == n - 1 { 1 } else { 0 }
}

/// The point `t` steps before `root` on a loop of `n` points (`0 <= t <= n`).
pub open spec fn cycle_back(root: int, t: int, n: int) -> int {
    if t <= root { root - t } else { root - t + n }
}

/// On a loop searched from `root`, the points reached after `t` passes: the `t` points before the root (the
/// root itself once `t` is `n`), each from the point after it along its own edge taken backwards.
pub open spec fn gap_cycle_prev(n: int, root: int, t: int) -> Seq<Option<(usize, GraphEdgeRef)>> {
    Seq::new(
        n as nat,
        |p: int|
            if (if p <= root { root - p } else { root - p + n }) <= t && (p != root || t >= n) {
                Some((((p + 1) % n) as usize, only_edge(p, true)))
            } else {
                None
            },
    )
}

/// On a loop searched from `root`, the points to search from after `t` passes.
pub open spec fn gap_cycle_frontier(n: int, root: int, t: int) -> Seq<(usize, usize)> {
    if t == 0 {
        seq![(root as usize, root as usize)]
    } else {
        let c = cycle_back(root, t, n);
        seq![(((c + 1) % n) as usize, c as usize)]
    }
}

/// On a loop with one non-exterior edge, the edges the loop search follows from a point `c` reached from the
/// point after it: the edge into `c` (taken backwards), perhaps after the edge leaving `c`, which leads back.
#[verifier::rlimit(50)]
#[verifier::spinoff_prover]
proof fn lemma_gap_cycle_search_refs(g: Seq<PointModel>, m: int, root: int, c: int)
    requires
        graph_wf(g),
        is_cycle_with_gap(g, m),
        g.len() <= usize::MAX,
        root == gap_cycle_root(g.len() as int, m),
        0 <= c < g.len(),
    ensures
        ({
            let n = g.len() as int;
            let from = if c == root { root } else { (c + 1) % n };
            let refs = loop_search_refs(g, root, from, c);
            let rev = only_edge(cycle_pred(c, n), true);
            &&& refs == seq![rev] || refs == seq![only_edge(c, false), rev]
            &&& c == root ==> refs == seq![rev]
        }),
{
    let n = g.len() as int;
    let pc = cycle_pred(c, n);
    let rev = only_edge(pc, true);
    let fwd = only_edge(c, false);
    lemma_cycle_refs(g, c);
    lemma_cycle_neighbours(g, c);
    lemma_cycle_step(g, pc);
    lemma_cycle_succ_pred(c, n);
    assert(edge_at(g, rev) == g[pc].edges[0]);
    assert(edge_at(g, fwd) == g[c].edges[0]);
    assert(ref_end_point(g, rev) == pc);
    if c == root {
        // At the root the search follows the exterior edges arriving there
        let refs = reverse_edge_refs(g, c);
        assert(loop_candidate_refs(g, root, c) == refs);
        assert(loop_follows_exterior(g, root, c, c));
        assert(pc != m) by {
            if m == n - 1 {
                assert(root == 1 && pc == 0);
            } else {
                assert(root == 0 && pc == n - 1);
            }
        }
        assert(loop_keeps(g, true, rev));
        assert(loop_kept_refs(g, true, refs, 0) =~= Seq::<GraphEdgeRef>::empty());
        assert(loop_kept_refs(g, true, refs, 1) =~= seq![rev]);
    } else {
        let from = (c + 1) % n;
        let refs = point_all_refs(g, c);
        assert(loop_candidate_refs(g, root, c) == refs);
        assert(ref_end_point(g, fwd) == from);
        let follow = loop_follows_exterior(g, root, from, c);
        if pc != m {
            assert(edge_at(g, refs[1]).kind == GraphPathEdgeKind::Exterior && ref_end_point(g, refs[1]) != from);
            assert(exterior_way_on(g, refs, from, 2));
            assert(follow);
            assert(loop_keeps(g, true, rev));
        } else {
            if exterior_way_on(g, refs, from, 2) {
                let j = choose|j: int|
                    0 <= j < 2 && edge_at(g, #[trigger] refs[j]).kind == GraphPathEdgeKind::Exterior && ref_end_point(g, refs[j])
                        != from;
                assert(j == 0 || j == 1);
            }
            assert(!follow);
            // The gap is bridged: the point before has a single exterior edge
            lemma_cycle_refs(g, pc);
            lemma_cycle_neighbours(g, pc);
            let prefs = point_all_refs(g, pc);
            let ppc = cycle_pred(pc, n);
            assert(edge_at(g, prefs[0]) == g[pc].edges[0]);
            assert(edge_at(g, prefs[1]) == g[ppc].edges[0]);
            assert(ppc != m);
            assert(prefs.drop_last() =~= seq![only_edge(pc, false)]);
            let d1 = prefs.drop_last();
            assert(d1.drop_last() =~= Seq::<GraphEdgeRef>::empty());
            assert(exterior_count(g, d1.drop_last()) == 0);
            assert(d1.last() == only_edge(pc, false));
            assert(edge_at(g, d1.last()).kind != GraphPathEdgeKind::Exterior);
            assert(exterior_count(g, d1) == 0);
            assert(prefs.last() == only_edge(ppc, true));
            assert(edge_at(g, prefs.last()).kind == GraphPathEdgeKind::Exterior);
            assert(exterior_count(g, prefs) == 1);
            assert(single_exterior_edge(g, pc));
            assert(loop_keeps(g, false, rev));
        }
        assert(loop_kept_refs(g, follow, refs, 0) =~= Seq::<GraphEdgeRef>::empty());
        if loop_keeps(g, follow, fwd) {
            assert(loop_kept_refs(g, follow, refs, 1) =~= seq![fwd]);
            assert(loop_kept_refs(g, follow, refs, 2) =~= seq![fwd, rev]);
        } else {
            assert(loop_kept_refs(g, follow, refs, 1) =~= Seq::<GraphEdgeRef>::empty());
            assert(loop_kept_refs(g, follow, refs, 2) =~= seq![rev]);
        }
    }
}


/// One pass of the loop search on a loop with one non-exterior edge, searched from `gap_cycle_root`: it reaches
/// the point before the one it searches from.
#[verifier::rlimit(50)]
#[verifier::spinoff_prover]
proof fn lemma_gap_cycle_pass(g: Seq<PointModel>, m: int, root: int, t: int)
    requires
        graph_wf(g),
        is_cycle_with_gap(g, m),
        g.len() <= usize::MAX,
        root == gap_cycle_root(g.len() as int, m),
        0 <= t < g.len(),
    ensures
        loop_scan_frontier(
            g,
            root,
            LoopSearchState { previous: gap_cycle_prev(g.len() as int, root, t), found: Seq::empty() },
            gap_cycle_frontier(g.len() as int, root, t),
            0,
        ) == (LoopSearchState {
            previous: gap_cycle_prev(g.len() as int, root, t + 1),
            found: gap_cycle_frontier(g.len() as int, root, t + 1),
        }),
{
    let n = g.len() as int;
    let c = cycle_back(root, t, n);
    let pc = cycle_pred(c, n);
    assert(0 <= root < n);
    assert(0 <= c < n);
    assert(pc == cycle_back(root, t + 1, n));
    assert(t == 0 <==> c == root);
    lemma_cycle_succ_pred(c, n);
    lemma_cycle_step(g, pc);
    let from = if c == root { root } else { (c + 1) % n };
    assert(gap_cycle_frontier(n, root, t) == seq![(from as usize, c as usize)]);
    lemma_gap_cycle_search_refs(g, m, root, c);
    let refs = loop_search_refs(g, root, from, c);
    let rev = only_edge(pc, true);
    let fwd = only_edge(c, false);
    let prev_t = gap_cycle_prev(n, root, t);
    let st0 = LoopSearchState { previous: prev_t, found: Seq::empty() };
    assert(ref_end_point(g, rev) == pc);
    assert(pc != from) by {
        lemma_cycle_neighbours(g, c);
    }
    assert(prev_t[pc] is None);
    let st1 = LoopSearchState { previous: prev_t.update(pc, Some((c as usize, rev))), found: seq![(c as usize, pc as usize)] };
    assert(loop_edge_step(g, st0, from, c, rev) =~= st1);
    if refs == seq![fwd, rev] {
        assert(c != root);
        lemma_cycle_neighbours(g, c);
        assert(ref_end_point(g, fwd) == from);
        assert(loop_edge_step(g, st0, from, c, fwd) == st0);
        assert(loop_scan_edges(g, st0, from, c, refs, 0) == loop_scan_edges(g, st0, from, c, refs, 1));
        assert(loop_scan_edges(g, st0, from, c, refs, 1) == loop_scan_edges(g, st1, from, c, refs, 2));
    } else {
        assert(loop_scan_edges(g, st0, from, c, refs, 0) == loop_scan_edges(g, st1, from, c, refs, 1));
    }
    let f = gap_cycle_frontier(n, root, t);
    assert(loop_scan_frontier(g, root, st0, f, 0) == loop_scan_frontier(g, root, st1, f, 1));
    assert(st1.previous =~= gap_cycle_prev(n, root, t + 1));
    assert(st1.found =~= gap_cycle_frontier(n, root, t + 1));
}

/// The passes of the loop search on a loop with one non-exterior edge, from pass `t` on, end with every point
/// reached from the point after it.
proof fn lemma_gap_cycle_layers(g: Seq<PointModel>, m: int, root: int, t: int, fuel: nat, found: Seq<(usize, usize)>)
    requires
        graph_wf(g),
        is_cycle_with_gap(g, m),
        g.len() <= usize::MAX,
        root == gap_cycle_root(g.len() as int, m),
        0 <= t <= g.len(),
        fuel >= g.len() - t + 1,
    ensures
        loop_layers(
            g,
            root,
            LoopSearchState { previous: gap_cycle_prev(g.len() as int, root, t), found },
            gap_cycle_frontier(g.len() as int, root, t),
            fuel,
        ) == gap_cycle_prev(g.len() as int, root, g.len() as int),
    decreases g.len() - t,
{
    let n = g.len() as int;
    assert(0 <= root < n);
    let st = LoopSearchState { previous: gap_cycle_prev(n, root, t), found };
    if t == n {
        assert(st.previous[root] is Some);
    } else {
        assert(st.previous[root] is None);
        lemma_gap_cycle_pass(g, m, root, t);
        assert(LoopSearchState { found: Seq::empty(), ..st } =~= LoopSearchState {
            previous: gap_cycle_prev(n, root, t),
            found: Seq::empty(),
        });
        lemma_gap_cycle_layers(g, m, root, t + 1, (fuel - 1) as nat, gap_cycle_frontier(n, root, t + 1));
    }
}

/// The loop search on a loop with one non-exterior edge, from `gap_cycle_root`, bridges the gap and reaches every
/// point from the point after it along its own edge taken backwards.
proof fn lemma_gap_cycle_search(g: Seq<PointModel>, m: int)
    requires
        graph_wf(g),
        is_cycle_with_gap(g, m),
        g.len() <= usize::MAX,
    ensures
        loop_search(g, gap_cycle_root(g.len() as int, m)) == gap_cycle_prev(g.len() as int, gap_cycle_root(g.len() as int, m), g.len() as int),
{
    let n = g.len() as int;
    let root = gap_cycle_root(n, m);
    assert(gap_cycle_prev(n, root, 0) =~= Seq::new(g.len(), |i: int| None));
    lemma_gap_cycle_layers(g, m, root, 0, (n + 1) as nat, Seq::empty());
}

/// Following the recorded predecessors of a loop with one non-exterior edge from its root goes round the loop in
/// order: after `k` steps it is at `root + k` (wrapping round).
proof fn lemma_gap_cycle_chain(g: Seq<PointModel>, m: int, k: nat)
    requires
        graph_wf(g),
        is_cycle_with_gap(g, m),
        g.len() <= usize::MAX,
        k <= g.len(),
    ensures
        ({
            let n = g.len() as int;
            let root = gap_cycle_root(n, m);
            chain_point(gap_cycle_prev(n, root, n), root, k) == (if root + k < n { root + k } else { root + k - n })
        }),
    decreases k,
{
    let n = g.len() as int;
    let root = gap_cycle_root(n, m);
    let prev = gap_cycle_prev(n, root, n);
    if k > 0 {
        lemma_gap_cycle_chain(g, m, (k - 1) as nat);
        let c = if root + k - 1 < n { root + k - 1 } else { root + k - 1 - n };
        assert(0 <= c < n);
        assert(prev[c] == Some((((c + 1) % n) as usize, only_edge(c, true))));
        lemma_mod_wrap(c + 1, n);
    }
}

/// The graph's points are all on the loop traced from the root of a loop with one non-exterior edge, which takes
/// one step per point.
#[verifier::rlimit(50)]
#[verifier::spinoff_prover]
proof fn lemma_gap_cycle_traced(g: Seq<PointModel>, m: int)
    requires
        graph_wf(g),
        is_cycle_with_gap(g, m),
        g.len() <= usize::MAX,
    ensures
        ({
            let n = g.len() as int;
            let root = gap_cycle_root(n, m);
            let prev = gap_cycle_prev(n, root, n);
            &&& forall|q: int| 0 <= q < n ==> #[trigger] on_traced_loop(prev, root, q)
            &&& traced_loop_length(prev, root) == n
        }),
{
    let n = g.len() as int;
    let root = gap_cycle_root(n, m);
    let prev = gap_cycle_prev(n, root, n);
    assert forall|k2: nat| 1 <= k2 < n implies #[trigger] chain_point(prev, root, k2) != root by {
        lemma_gap_cycle_chain(g, m, k2);
    }
    assert forall|q: int| 0 <= q < n implies #[trigger] on_traced_loop(prev, root, q) by {
        let k: nat = (if q > root { q - root } else { q - root + n }) as nat;
        lemma_gap_cycle_chain(g, m, k);
        assert(chain_point(prev, root, k) == q);
        assert(forall|k2: nat| 1 <= k2 < k ==> #[trigger] chain_point(prev, root, k2) != root);
    }
    lemma_gap_cycle_chain(g, m, n as nat);
    let len = traced_loop_length(prev, root);
    assert(1 <= n && chain_point(prev, root, n as nat) == root && forall|k2: nat|
        1 <= k2 < n ==> #[trigger] chain_point(prev, root, k2) != root);
    assert(1 <= len && chain_point(prev, root, len) == root && forall|k2: nat|
        1 <= k2 < len ==> #[trigger] chain_point(prev, root, k2) != root);
    if len < n {
        lemma_gap_cycle_chain(g, m, len);
    }
    if len > n {
        assert(chain_point(prev, root, n as nat) != root);
    }
}

proof fn lemma_roots_all_visited(g: Seq<PointModel>, p: int, v: Seq<bool>)
    requires
        v.len() == g.len(),
        forall|q: int| 0 <= q < g.len() ==> #[trigger] v[q],
    ensures
        exterior_loop_roots(g, p, v) == Seq::<int>::empty(),
    decreases g.len() - p,
{
    if 0 <= p < g.len() {
        lemma_roots_all_visited(g, p + 1, v);
    }
}

/// When the non-exterior edge of a loop arrives at point 0, the loop search from point 0 finds nothing: it follows
/// only exterior edges arriving at its root.
proof fn lemma_gap_at_first_point(g: Seq<PointModel>, m: int)
    requires
        graph_wf(g),
        is_cycle_with_gap(g, m),
        g.len() <= usize::MAX,
        m == g.len() - 1,
    ensures
        loop_search(g, 0)[0] is None,
{
    let n = g.len() as int;
    lemma_cycle_refs(g, 0);
    let refs = reverse_edge_refs(g, 0);
    let rev = only_edge(n - 1, true);
    assert(edge_at(g, rev) == g[n - 1].edges[0]);
    assert(!loop_keeps(g, true, rev));
    assert(loop_kept_refs(g, true, refs, 0) =~= Seq::<GraphEdgeRef>::empty());
    assert(loop_kept_refs(g, true, refs, 1) =~= Seq::<GraphEdgeRef>::empty());
    assert(loop_search_refs(g, 0, 0, 0) == Seq::<GraphEdgeRef>::empty());
    let none = Seq::new(g.len(), |i: int| None::<(usize, GraphEdgeRef)>);
    let st = LoopSearchState { previous: none, found: Seq::empty() };
    let f = seq![(0usize, 0usize)];
    assert(loop_scan_edges(g, st, 0, 0, Seq::<GraphEdgeRef>::empty(), 0) == st);
    assert(loop_scan_frontier(g, 0, st, f, 0) == loop_scan_frontier(g, 0, st, f, 1));
    assert(LoopSearchState { found: Seq::empty(), ..st } =~= st);
    assert(loop_layers(g, 0, st, f, (n + 1) as nat) == loop_layers(g, 0, st, Seq::empty(), n as nat));
}

/// The sections of the path that goes once round a loop, starting from point `root`.
pub open spec fn cycle_sections_from(g: Seq<PointModel>, root: int) -> Seq<(Coord2, Coord2, Coord2)> {
    Seq::new(g.len(), |k: int| cycle_sections(g)[(root + k) % (g.len() as int)])
}

/// Gaps of one edge are bridged: when the exterior edges of a loop leave out one edge, between two points that each
/// have a single exterior edge, the exterior paths are exactly one path, which goes round the whole loop,
/// including the edge that is not exterior, from the first point whose arriving edge is exterior.
#[verifier::rlimit(50)]
#[verifier::spinoff_prover]
pub proof fn lemma_gap_cycle_exterior_path(g: Seq<PointModel>, m: int)
    requires
        graph_wf(g),
        is_cycle_with_gap(g, m),
        g.len() <= usize::MAX,
    ensures
        exterior_loop_roots(g, 0, Seq::new(g.len(), |i: int| false)) == seq![gap_cycle_root(g.len() as int, m)],
        traced_loop_sections(g, loop_search(g, gap_cycle_root(g.len() as int, m)), gap_cycle_root(g.len() as int, m))
            == cycle_sections_from(g, gap_cycle_root(g.len() as int, m)),
{
    let n = g.len() as int;
    let root = gap_cycle_root(n, m);
    let prev = gap_cycle_prev(n, root, n);
    lemma_gap_cycle_search(g, m);
    lemma_gap_cycle_traced(g, m);
    let none = Seq::new(g.len(), |i: int| false);
    // Every point is on the loop traced from the root
    let after = visited_after_loop(prev, root, none);
    assert forall|q: int| 0 <= q < n implies #[trigger] after[q] by {
        assert(on_traced_loop(prev, root, q));
    }
    lemma_roots_all_visited(g, root + 1, after);
    assert(prev[root] is Some);
    if root == 0 {
        assert(exterior_loop_roots(g, 0, none) == seq![0] + exterior_loop_roots(g, 1, after));
        assert(seq![0int] + Seq::<int>::empty() =~= seq![0int]);
    } else {
        lemma_gap_at_first_point(g, m);
        assert(exterior_loop_roots(g, 0, none) == exterior_loop_roots(g, 1, none));
        assert(exterior_loop_roots(g, 1, none) == seq![1] + exterior_loop_roots(g, 2, after));
        assert(seq![1int] + Seq::<int>::empty() =~= seq![1int]);
    }
    // The sections follow the loop's edges in order
    let secs = traced_loop_sections(g, prev, root);
    assert forall|k: int| 0 <= k < n implies #[trigger] secs[k] == cycle_sections_from(g, root)[k] by {
        lemma_gap_cycle_chain(g, m, k as nat);
        let c = if root + k < n { root + k } else { root + k - n };
        lemma_mod_wrap(root + k, n);
        assert(prev[c] == Some((((c + 1) % n) as usize, only_edge(c, true))));
        lemma_cycle_step(g, c);
        assert(only_edge(c, true).reversed_spec() == only_edge(c, false));
        assert(edge_at(g, only_edge(c, false)) == g[c].edges[0]);
        assert(ref_end_point(g, only_edge(c, false)) == cycle_succ(c, n));
    }
    assert(secs =~= cycle_sections_from(g, root));
}
} // verus!
