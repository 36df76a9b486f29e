//! Paths: the one-hop neighbourhoods that node queries walk.
//!
//! `PathFromVertex` is the neighbour set of one node; `PathFromGraph` is
//! the family of those sets over every visible node.

use vstd::prelude::*;
use crate::graph::{Graph, GraphV, spec_graph_wf};
use crate::node::{Direction, NodeView, spec_connected};
use crate::view::{
    GraphView, LayerIds, spec_count_visible, spec_ids_has, spec_ids_sorted, spec_lids_has,
    spec_lids_sorted, spec_lids_wf,
};

verus! {

/// The walk a path takes from each node.
#[derive(Clone, Copy, PartialEq, Eq, Structural, Debug)]
pub enum PathOp {
    Neighbours,
    InNeighbours,
    OutNeighbours,
}

pub open spec fn spec_op_dir(op: PathOp) -> Direction {
    match op {
        PathOp::Neighbours => Direction::BOTH,
        PathOp::InNeighbours => Direction::IN,
        PathOp::OutNeighbours => Direction::OUT,
    }
}

pub(crate) fn op_dir(op: PathOp) -> (r: Direction)
    ensures
        r == spec_op_dir(op),
{
    match op {
        PathOp::Neighbours => Direction::BOTH,
        PathOp::InNeighbours => Direction::IN,
        PathOp::OutNeighbours => Direction::OUT,
    }
}

/// The neighbours of one node, as internal ids in ascending order.
pub struct PathFromVertex<'a> {
    pub graph: &'a Graph,
    pub w: Option<(i64, i64)>,
    pub layers: LayerIds,
    pub vertex: usize,
    pub vids: Vec<usize>,
}

impl<'a> PathFromVertex<'a> {
    pub open spec fn g(&self) -> GraphV {
        self.graph@
    }

    pub open spec fn wf(&self) -> bool {
        &&& spec_graph_wf(self.graph@)
        &&& spec_lids_wf(self.layers, self.graph@.layers.len() as int)
        &&& spec_lids_sorted(self.layers)
        &&& (self.vertex as int) < self.graph@.nodes.len()
        &&& (forall|p: int|
            0 <= p < self.vids@.len() ==> ((#[trigger] self.vids@[p]) as int)
                < self.graph@.nodes.len())
    }

    /// The internal ids this path reaches.
    pub fn iter_refs(&self) -> (r: Vec<usize>)
        ensures
            r@ == self.vids@,
    {
        crate::view::copy_ids(&self.vids)
    }

    /// The reached nodes, as views under the same filters.
    pub fn iter(&self) -> (r: Vec<NodeView<'a>>)
        requires
            self.wf(),
        ensures
            r@.len() == self.vids@.len(),
            forall|p: int|
                0 <= p < r@.len() ==> ((#[trigger] r@[p]).wf() && r@[p].graph == self.graph
                    && r@[p].w == self.w && r@[p].vid == self.vids@[p] && (forall|l: int|
                    spec_lids_has(r@[p].layers, l) == spec_lids_has(self.layers, l))),
    {
        let mut out: Vec<NodeView<'a>> = Vec::new();
        let mut p: usize = 0;
        let n = self.vids.len();
        while p < n
            invariant
                0 <= p <= n,
                n == self.vids@.len(),
                out@.len() == p,
                forall|q: int|
                    0 <= q < p ==> ((#[trigger] out@[q]).wf() && out@[q].graph == self.graph
                        && out@[q].w == self.w && out@[q].vid == self.vids@[q] && (forall|l: int|
                        spec_lids_has(out@[q].layers, l) == spec_lids_has(self.layers, l))),
            decreases n - p,
        {
            out.push(
                NodeView {
                    graph: self.graph,
                    w: self.w,
                    layers: self.layers.duplicate(),
                    vid: self.vids[p],
                },
            );
            p = p + 1;
        }
        out
    }

    /// The numeric external ids of the reached nodes (zero for nodes
    /// known only by a string name).
    pub fn ids(&self) -> (r: Vec<u64>)
        requires
            self.wf(),
        ensures
            r@.len() == self.vids@.len(),
            forall|p: int|
                0 <= p < r@.len() ==> (#[trigger] r@[p]) == (match self.g().nodes[self.vids@[p]
                    as int].gid {
                    crate::graph::GidV::U64(x) => x,
                    crate::graph::GidV::Name(_) => 0u64,
                }),
    {
        let views = self.iter();
        let mut out: Vec<u64> = Vec::new();
        let mut p: usize = 0;
        let n = views.len();
        while p < n
            invariant
                0 <= p <= n,
                n == views@.len(),
                n == self.vids@.len(),
                out@.len() == p,
                forall|q: int|
                    0 <= q < n ==> ((#[trigger] views@[q]).wf() && views@[q].graph == self.graph
                        && views@[q].vid == self.vids@[q]),
                forall|q: int|
                    0 <= q < p ==> (#[trigger] out@[q]) == (match self.g().nodes[self.vids@[q]
                        as int].gid {
                        crate::graph::GidV::U64(x) => x,
                        crate::graph::GidV::Name(_) => 0u64,
                    }),
            decreases n - p,
        {
            out.push(views[p].id());
            p = p + 1;
        }
        out
    }
}

/// Whether the path family holds a path anchored at node `v`.
pub open spec fn spec_paths_has(s: Seq<PathFromVertex<'_>>, v: int) -> bool {
    exists|p: int| 0 <= p < s.len() && (#[trigger] s[p]).vertex as int == v
}

/// The neighbour sets of every visible node.
pub struct PathFromGraph<'a> {
    pub graph: &'a Graph,
    pub w: Option<(i64, i64)>,
    pub layers: LayerIds,
    pub op: PathOp,
}

impl<'a> PathFromGraph<'a> {
    pub open spec fn g(&self) -> GraphV {
        self.graph@
    }

    pub open spec fn wf(&self) -> bool {
        &&& spec_graph_wf(self.graph@)
        &&& spec_lids_wf(self.layers, self.graph@.layers.len() as int)
        &&& spec_lids_sorted(self.layers)
    }

    /// The path family of a view: each visible node walked by `op`.
    pub fn new(view: GraphView<'a>, op: PathOp) -> (r: PathFromGraph<'a>)
        requires
            view.wf(),
        ensures
            r.wf(),
            r.graph == view.graph,
            r.w == view.w,
            r.op == op,
            forall|l: int| spec_lids_has(r.layers, l) == spec_lids_has(view.layers, l),
    {
        PathFromGraph { graph: view.graph, w: view.w, layers: view.layers.duplicate(), op }
    }

    /// One path per visible node, ascending by internal id; each path
    /// holds exactly the node's neighbours under the walk's direction.
    pub fn iter(&self) -> (r: Vec<PathFromVertex<'a>>)
        requires
            self.wf(),
        ensures
            r@.len() == spec_count_visible(
                self.g(),
                self.g().nodes.len() as int,
                self.w,
                self.layers,
            ),
            forall|p: int, q: int|
                #![trigger r@[p], r@[q]]
                0 <= p < q < r@.len() ==> r@[p].vertex < r@[q].vertex,
            forall|p: int|
                0 <= p < r@.len() ==> crate::view::spec_node_visible(
                    self.g(),
                    self.w,
                    self.layers,
                    (#[trigger] r@[p]).vertex as int,
                ),
            forall|v: int|
                0 <= v < self.g().nodes.len() && #[trigger] crate::view::spec_node_visible(
                    self.g(),
                    self.w,
                    self.layers,
                    v,
                ) ==> spec_paths_has(r@, v),
            forall|p: int|
                0 <= p < r@.len() ==> ((#[trigger] r@[p]).wf() && r@[p].graph == self.graph
                    && r@[p].w == self.w && (r@[p].vertex as int) < self.g().nodes.len() && (forall|
                    l: int,
                |
                    spec_lids_has(r@[p].layers, l) == spec_lids_has(self.layers, l))
                    && spec_ids_sorted(r@[p].vids@) && (forall|q: int|
                    0 <= q < r@[p].vids@.len() ==> spec_connected(
                        self.g(),
                        self.w,
                        self.layers,
                        r@[p].vertex as int,
                        (#[trigger] r@[p].vids@[q]) as int,
                        spec_op_dir(self.op),
                    )) && (forall|u: int|
                    0 <= u < self.g().nodes.len() && #[trigger] spec_connected(
                        self.g(),
                        self.w,
                        self.layers,
                        r@[p].vertex as int,
                        u,
                        spec_op_dir(self.op),
                    ) ==> spec_ids_has(r@[p].vids@, u))),
    {
        let base = GraphView { graph: self.graph, w: self.w, layers: self.layers.duplicate(), bounds: None };
        let nodes = base.vertices();
        proof {
            crate::view::lemma_count_visible_lids(
                self.g(),
                self.w,
                self.layers,
                base.layers,
                self.g().nodes.len() as int,
            );
        }
        let d = op_dir(self.op);
        let mut out: Vec<PathFromVertex<'a>> = Vec::new();
        let mut p: usize = 0;
        let n = nodes.len();
        while p < n
            invariant
                0 <= p <= n,
                n == nodes@.len(),
                self.wf(),
                base.wf(),
                base.graph == self.graph,
                base.w == self.w,
                forall|l: int| spec_lids_has(base.layers, l) == spec_lids_has(self.layers, l),
                d == spec_op_dir(self.op),
                forall|q: int|
                    0 <= q < n ==> ((#[trigger] nodes@[q]).wf() && nodes@[q].graph == self.graph
                        && nodes@[q].w == self.w && (nodes@[q].vid as int)
                        < self.g().nodes.len() && (forall|l: int|
                        spec_lids_has(nodes@[q].layers, l) == spec_lids_has(base.layers, l))),
                out@.len() == p,
                forall|q: int| 0 <= q < p ==> (#[trigger] out@[q]).vertex == nodes@[q].vid,
                forall|q: int|
                    0 <= q < p ==> ((#[trigger] out@[q]).wf() && out@[q].graph == self.graph
                        && out@[q].w == self.w && (out@[q].vertex as int)
                        < self.g().nodes.len() && (forall|l: int|
                        spec_lids_has(out@[q].layers, l) == spec_lids_has(self.layers, l))
                        && spec_ids_sorted(out@[q].vids@) && (forall|b: int|
                        0 <= b < out@[q].vids@.len() ==> spec_connected(
                            self.g(),
                            self.w,
                            self.layers,
                            out@[q].vertex as int,
                            (#[trigger] out@[q].vids@[b]) as int,
                            spec_op_dir(self.op),
                        )) && (forall|u: int|
                        0 <= u < self.g().nodes.len() && #[trigger] spec_connected(
                            self.g(),
                            self.w,
                            self.layers,
                            out@[q].vertex as int,
                            u,
                            spec_op_dir(self.op),
                        ) ==> spec_ids_has(out@[q].vids@, u))),
            decreases n - p,
        {
            let nv = &nodes[p];
            let vids = nv.neighbour_vids(d);
            proof {
                assert(*nv == nodes@[p as int]);
                assert forall|l: int|
                    spec_lids_has(nv.layers, l) == spec_lids_has(self.layers, l) by {
                    assert(spec_lids_has(nodes@[p as int].layers, l) == spec_lids_has(
                        base.layers,
                        l,
                    ));
                    assert(spec_lids_has(base.layers, l) == spec_lids_has(self.layers, l));
                }
                assert forall|u: int|
                    0 <= u < self.g().nodes.len() && #[trigger] spec_connected(
                        self.g(),
                        self.w,
                        self.layers,
                        nv.vid as int,
                        u,
                        spec_op_dir(self.op),
                    ) implies spec_ids_has(vids@, u) by {
                    lemma_connected_lids(self.g(), self.w, nv.layers, self.layers, nv.vid as int, u, d);
                    assert(nv.graph == self.graph);
                    assert(nv.w == self.w);
                    assert(spec_connected(nv.g(), nv.w, nv.layers, nv.vid as int, u, d));
                }
                assert forall|b: int|
                    0 <= b < vids@.len() implies spec_connected(
                    self.g(),
                    self.w,
                    self.layers,
                    nv.vid as int,
                    (#[trigger] vids@[b]) as int,
                    spec_op_dir(self.op),
                ) by {
                    lemma_connected_lids(
                        self.g(),
                        self.w,
                        self.layers,
                        nv.layers,
                        nv.vid as int,
                        vids@[b] as int,
                        d,
                    );
                }
            }
            out.push(
                PathFromVertex {
                    graph: self.graph,
                    w: self.w,
                    layers: self.layers.duplicate(),
                    vertex: nv.vid,
                    vids,
                },
            );
            p = p + 1;
        }
        proof {
            assert forall|p0: int|
                0 <= p0 < out@.len() implies crate::view::spec_node_visible(
                self.g(),
                self.w,
                self.layers,
                (#[trigger] out@[p0]).vertex as int,
            ) by {
                assert(out@[p0].vertex == nodes@[p0].vid);
                assert(crate::view::spec_node_visible(
                    self.g(),
                    self.w,
                    base.layers,
                    nodes@[p0].vid as int,
                ));
                crate::view::lemma_node_visible_lids(
                    self.g(),
                    self.w,
                    self.layers,
                    base.layers,
                    nodes@[p0].vid as int,
                );
            }
            assert forall|v: int|
                0 <= v < self.g().nodes.len() && #[trigger] crate::view::spec_node_visible(
                    self.g(),
                    self.w,
                    self.layers,
                    v,
                ) implies spec_paths_has(out@, v) by {
                crate::view::lemma_node_visible_lids(self.g(), self.w, base.layers, self.layers, v);
                assert(crate::view::spec_nvs_has(nodes@, v));
                let q = choose|q: int|
                    0 <= q < nodes@.len() && (#[trigger] nodes@[q]).vid as int == v;
                assert(out@[q].vertex as int == v);
            }
        }
        out
    }

    /// The reached internal ids, one list per visible node.
    pub fn iter_refs(&self) -> (r: Vec<Vec<usize>>)
        requires
            self.wf(),
        ensures
            r@.len() == spec_count_visible(
                self.g(),
                self.g().nodes.len() as int,
                self.w,
                self.layers,
            ),
    {
        let paths = self.iter();
        let mut out: Vec<Vec<usize>> = Vec::new();
        let mut p: usize = 0;
        let n = paths.len();
        while p < n
            invariant
                0 <= p <= n,
                n == paths@.len(),
                out@.len() == p,
            decreases n - p,
        {
            out.push(paths[p].iter_refs());
            p = p + 1;
        }
        out
    }
}

/// Connectivity only reads layer membership, so selections with the same
/// membership agree on it.
proof fn lemma_connected_lids(
    g: GraphV,
    w: Option<(i64, i64)>,
    ls1: LayerIds,
    ls2: LayerIds,
    v: int,
    u: int,
    d: Direction,
)
    requires
        forall|l: int| spec_lids_has(ls1, l) == spec_lids_has(ls2, l),
        spec_connected(g, w, ls2, v, u, d),
    ensures
        spec_connected(g, w, ls1, v, u, d),
{
    let k = choose|k: int|
        0 <= k < g.edges.len() && crate::view::spec_edge_in_scope(#[trigger] g.edges[k], w, ls2)
            && (match d {
            Direction::OUT => g.edges[k].src == v && g.edges[k].dst == u,
            Direction::IN => g.edges[k].src == u && g.edges[k].dst == v,
            Direction::BOTH => (g.edges[k].src == v && g.edges[k].dst == u) || (g.edges[k].src == u
                && g.edges[k].dst == v),
        });
    assert(spec_lids_has(ls1, g.edges[k].layer));
    assert(crate::view::spec_edge_in_scope(g.edges[k], w, ls1));
}

} // verus!
