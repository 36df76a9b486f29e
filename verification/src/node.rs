//! Node views: one node seen through a window and a layer selection.

use vstd::prelude::*;
use crate::graph::{Graph, GraphV, NodeId, spec_graph_wf, spec_sorted};
use crate::props::u64_to_string;
use crate::view::{
    LayerIds, spec_lids_has, spec_lids_sorted, spec_lids_wf, spec_win_has, win_has,
    spec_edge_in_scope,
};

verus! {

/// Which incident edges a query walks.
#[derive(Clone, Copy, PartialEq, Eq, Structural, Debug)]
pub enum Direction {
    IN,
    OUT,
    BOTH,
}

/// A view of one node.
pub struct NodeView<'a> {
    pub graph: &'a Graph,
    pub w: Option<(i64, i64)>,
    pub layers: LayerIds,
    pub vid: usize,
}

/// Whether a visible edge record runs between `v` and `u` the right way
/// round for the direction.
pub open spec fn spec_connected(
    g: GraphV,
    w: Option<(i64, i64)>,
    ls: LayerIds,
    v: int,
    u: int,
    d: Direction,
) -> bool {
    exists|k: int|
        0 <= k < g.edges.len() && spec_edge_in_scope(#[trigger] g.edges[k], w, ls) && (match d {
            Direction::OUT => g.edges[k].src == v && g.edges[k].dst == u,
            Direction::IN => g.edges[k].src == u && g.edges[k].dst == v,
            Direction::BOTH => (g.edges[k].src == v && g.edges[k].dst == u) || (g.edges[k].src == u
                && g.edges[k].dst == v),
        })
}

/// How many of the first `upto` node ids are neighbours of `v`.
pub open spec fn spec_count_conn(
    g: GraphV,
    w: Option<(i64, i64)>,
    ls: LayerIds,
    v: int,
    upto: int,
    d: Direction,
) -> int
    decreases upto,
{
    if upto <= 0 {
        0
    } else {
        spec_count_conn(g, w, ls, v, upto - 1, d) + if spec_connected(g, w, ls, v, upto - 1, d) {
            1int
        } else {
            0int
        }
    }
}

/// The ascending list of neighbour ids below `upto`.
pub open spec fn spec_conn_list(
    g: GraphV,
    w: Option<(i64, i64)>,
    ls: LayerIds,
    v: int,
    upto: int,
    d: Direction,
) -> Seq<int>
    decreases upto,
{
    if upto <= 0 {
        Seq::empty()
    } else if spec_connected(g, w, ls, v, upto - 1, d) {
        spec_conn_list(g, w, ls, v, upto - 1, d).push(upto - 1)
    } else {
        spec_conn_list(g, w, ls, v, upto - 1, d)
    }
}

impl<'a> NodeView<'a> {
    pub open spec fn g(&self) -> GraphV {
        self.graph@
    }

    pub open spec fn wf(&self) -> bool {
        &&& spec_graph_wf(self.graph@)
        &&& spec_lids_wf(self.layers, self.graph@.layers.len() as int)
        &&& spec_lids_sorted(self.layers)
        &&& (self.vid as int) < self.graph@.nodes.len()
    }

    /// The node's own event times.
    pub open spec fn times(&self) -> Seq<i64> {
        self.g().nodes[self.vid as int].times
    }

    /// The numeric external id; nodes known only by a string name have
    /// none and report zero.
    pub fn id(&self) -> (r: u64)
        requires
            self.wf(),
        ensures
            r == (match self.g().nodes[self.vid as int].gid {
                crate::graph::GidV::U64(x) => x,
                crate::graph::GidV::Name(_) => 0u64,
            }),
    {
        match &self.graph.nodes[self.vid].gid {
            NodeId::U64(x) => *x,
            NodeId::Name(_) => 0,
        }
    }

    /// The display name: the string name, or the decimal digits of the
    /// numeric id.
    pub fn name(&self) -> (r: String)
        requires
            self.wf(),
        ensures
            r@ == crate::graph::spec_gid_name(self.g().nodes[self.vid as int].gid),
    {
        match &self.graph.nodes[self.vid].gid {
            NodeId::U64(x) => u64_to_string(*x),
            NodeId::Name(s) => s.clone(),
        }
    }

    /// Restricts the view to `[start, end)`, intersecting with any window
    /// already set.
    pub fn window(&self, start: i64, end: i64) -> (r: NodeView<'a>)
        requires
            self.wf(),
        ensures
            r.wf(),
            r.graph == self.graph,
            r.vid == self.vid,
            forall|l: int| spec_lids_has(r.layers, l) == spec_lids_has(self.layers, l),
            r.w == crate::view::spec_win_compose(self.w, start, end),
    {
        let w2: (i64, i64) = match self.w {
            None => (start, end),
            Some((s0, e0)) => (
                if s0 >= start {
                    s0
                } else {
                    start
                },
                if e0 <= end {
                    e0
                } else {
                    end
                },
            ),
        };
        NodeView { graph: self.graph, w: Some(w2), layers: self.layers.duplicate(), vid: self.vid }
    }

    /// The view of the single time point `t`.
    pub fn at(&self, t: i64) -> (r: NodeView<'a>)
        requires
            self.wf(),
        ensures
            r.wf(),
            r.graph == self.graph,
            r.vid == self.vid,
            r.w == crate::view::spec_win_compose(
                self.w,
                t,
                if t == i64::MAX {
                    t
                } else {
                    (t + 1) as i64
                },
            ),
    {
        let up: i64 = if t == i64::MAX {
            t
        } else {
            t + 1
        };
        self.window(t, up)
    }

    /// The node's event times inside the window: strictly ascending, and
    /// exactly the in-window members of the node's history.
    pub fn history(&self) -> (r: Vec<i64>)
        requires
            self.wf(),
        ensures
            spec_sorted(r@),
            forall|t: i64|
                #[trigger] r@.contains(t) == (self.times().contains(t) && spec_win_has(self.w, t)),
    {
        proof {
            assert(crate::graph::spec_node_wf(self.g().nodes[self.vid as int]));
        }
        let times = &self.graph.nodes[self.vid].times;
        let mut out: Vec<i64> = Vec::new();
        let mut j: usize = 0;
        let m = times.len();
        while j < m
            invariant
                0 <= j <= m,
                m == times@.len(),
                times@ == self.times(),
                spec_sorted(times@),
                spec_sorted(out@),
                forall|p: int|
                    0 <= p < out@.len() ==> exists|b: int|
                        0 <= b < j && (#[trigger] out@[p]) == times@[b],
                forall|b: int|
                    0 <= b < j && spec_win_has(self.w, #[trigger] times@[b]) ==> out@.contains(
                        times@[b],
                    ),
                forall|p: int| 0 <= p < out@.len() ==> spec_win_has(self.w, #[trigger] out@[p]),
            decreases m - j,
        {
            let ghost pre = out@;
            let t = times[j];
            if win_has(&self.w, t) {
                proof {
                    assert forall|p: int| 0 <= p < pre.len() implies pre[p] < t by {
                        let b = choose|b: int| 0 <= b < j && (#[trigger] pre[p]) == times@[b];
                        assert(times@[b] < times@[j as int]);
                    }
                }
                out.push(t);
                proof {
                    assert(out@[out@.len() - 1] == times@[j as int]);
                    assert forall|p: int|
                        0 <= p < out@.len() implies exists|b: int|
                        0 <= b < j + 1 && (#[trigger] out@[p]) == times@[b] by {
                        if p < pre.len() {
                            let b = choose|b: int|
                                0 <= b < j && (#[trigger] pre[p]) == times@[b];
                            assert(out@[p] == times@[b]);
                        } else {
                            assert(out@[p] == times@[j as int]);
                        }
                    }
                    assert forall|b: int|
                        0 <= b < j + 1 && spec_win_has(self.w, #[trigger] times@[b])
                            implies out@.contains(times@[b]) by {
                        if b < j {
                            assert(pre.contains(times@[b]));
                            let p = choose|p: int| 0 <= p < pre.len() && pre[p] == times@[b];
                            assert(out@[p] == times@[b]);
                        } else {
                            assert(out@[out@.len() - 1] == times@[b]);
                        }
                    }
                }
            } else {
                proof {
                    assert forall|b: int|
                        0 <= b < j + 1 && spec_win_has(self.w, #[trigger] times@[b])
                            implies out@.contains(times@[b]) by {}
                }
            }
            j = j + 1;
        }
        proof {
            assert forall|t: i64|
                #[trigger] out@.contains(t) == (times@.contains(t) && spec_win_has(
                self.w,
                t,
            )) by {
                if out@.contains(t) {
                    let p = choose|p: int| 0 <= p < out@.len() && out@[p] == t;
                    let b = choose|b: int| 0 <= b < m && (#[trigger] out@[p]) == times@[b];
                    assert(times@[b] == t);
                    assert(times@.contains(t));
                    assert(spec_win_has(self.w, out@[p]));
                }
                if times@.contains(t) && spec_win_has(self.w, t) {
                    let b = choose|b: int| 0 <= b < times@.len() && times@[b] == t;
                    assert(out@.contains(times@[b]));
                }
            }
        }
        out
    }

    /// The least in-window event time of the node.
    pub fn earliest_time(&self) -> (r: Option<i64>)
        requires
            self.wf(),
        ensures
            r is None ==> forall|t: i64|
                !(self.times().contains(t) && spec_win_has(self.w, t)),
            r is Some ==> self.times().contains(r.unwrap()) && spec_win_has(self.w, r.unwrap()),
            r is Some ==> forall|t: i64|
                self.times().contains(t) && spec_win_has(self.w, t) ==> r.unwrap() <= t,
    {
        let h = self.history();
        if h.len() == 0 {
            proof {
                assert forall|t: i64|
                    !(self.times().contains(t) && spec_win_has(self.w, t)) by {
                    if self.times().contains(t) && spec_win_has(self.w, t) {
                        assert(h@.contains(t));
                    }
                }
            }
            None
        } else {
            let m = h[0];
            proof {
                assert(h@.contains(m));
                assert forall|t: i64|
                    self.times().contains(t) && spec_win_has(self.w, t) implies m <= t by {
                    assert(h@.contains(t));
                    let b = choose|b: int| 0 <= b < h@.len() && h@[b] == t;
                    if b > 0 {
                        assert(h@[0] < h@[b]);
                    }
                }
            }
            Some(m)
        }
    }

    /// The greatest in-window event time of the node.
    pub fn latest_time(&self) -> (r: Option<i64>)
        requires
            self.wf(),
        ensures
            r is None ==> forall|t: i64|
                !(self.times().contains(t) && spec_win_has(self.w, t)),
            r is Some ==> self.times().contains(r.unwrap()) && spec_win_has(self.w, r.unwrap()),
            r is Some ==> forall|t: i64|
                self.times().contains(t) && spec_win_has(self.w, t) ==> t <= r.unwrap(),
    {
        let h = self.history();
        if h.len() == 0 {
            proof {
                assert forall|t: i64|
                    !(self.times().contains(t) && spec_win_has(self.w, t)) by {
                    if self.times().contains(t) && spec_win_has(self.w, t) {
                        assert(h@.contains(t));
                    }
                }
            }
            None
        } else {
            let m = h[h.len() - 1];
            proof {
                assert(h@.contains(m));
                assert forall|t: i64|
                    self.times().contains(t) && spec_win_has(self.w, t) implies t <= m by {
                    assert(h@.contains(t));
                    let b = choose|b: int| 0 <= b < h@.len() && h@[b] == t;
                    if b < h@.len() - 1 {
                        assert(h@[b] < h@[h@.len() - 1]);
                    }
                }
            }
            Some(m)
        }
    }

    /// Whether `u` is a neighbour of this node in the direction,
    /// executably.
    pub(crate) fn connected(&self, u: usize, d: Direction) -> (r: bool)
        requires
            self.wf(),
        ensures
            r == spec_connected(self.g(), self.w, self.layers, self.vid as int, u as int, d),
    {
        let mut k: usize = 0;
        let n = self.graph.edges.len();
        while k < n
            invariant
                0 <= k <= n,
                n == self.g().edges.len(),
                forall|b: int|
                    0 <= b < k ==> !(spec_edge_in_scope(
                        #[trigger] self.g().edges[b],
                        self.w,
                        self.layers,
                    ) && (match d {
                        Direction::OUT => self.g().edges[b].src == self.vid as int
                            && self.g().edges[b].dst == u as int,
                        Direction::IN => self.g().edges[b].src == u as int
                            && self.g().edges[b].dst == self.vid as int,
                        Direction::BOTH => (self.g().edges[b].src == self.vid as int
                            && self.g().edges[b].dst == u as int) || (self.g().edges[b].src
                            == u as int && self.g().edges[b].dst == self.vid as int),
                    })),
            decreases n - k,
        {
            let e = &self.graph.edges[k];
            let dir_ok = match d {
                Direction::OUT => e.src == self.vid && e.dst == u,
                Direction::IN => e.src == u && e.dst == self.vid,
                Direction::BOTH => (e.src == self.vid && e.dst == u) || (e.src == u && e.dst
                    == self.vid),
            };
            if dir_ok && crate::view::edge_in_scope(e, &self.w, &self.layers) {
                proof {
                    assert(spec_edge_in_scope(self.g().edges[k as int], self.w, self.layers));
                }
                return true;
            }
            k = k + 1;
        }
        proof {
            if spec_connected(self.g(), self.w, self.layers, self.vid as int, u as int, d) {
                let b = choose|b: int|
                    0 <= b < self.g().edges.len() && spec_edge_in_scope(
                        #[trigger] self.g().edges[b],
                        self.w,
                        self.layers,
                    ) && (match d {
                        Direction::OUT => self.g().edges[b].src == self.vid as int
                            && self.g().edges[b].dst == u as int,
                        Direction::IN => self.g().edges[b].src == u as int
                            && self.g().edges[b].dst == self.vid as int,
                        Direction::BOTH => (self.g().edges[b].src == self.vid as int
                            && self.g().edges[b].dst == u as int) || (self.g().edges[b].src
                            == u as int && self.g().edges[b].dst == self.vid as int),
                    });
                assert(false);
            }
        }
        false
    }

    /// The number of distinct neighbours in the direction; an edge
    /// present in several layers counts its neighbour once.
    pub fn degree_dir(&self, d: Direction) -> (r: usize)
        requires
            self.wf(),
        ensures
            r as int == spec_count_conn(
                self.g(),
                self.w,
                self.layers,
                self.vid as int,
                self.g().nodes.len() as int,
                d,
            ),
    {
        let mut count: usize = 0;
        let mut u: usize = 0;
        let n = self.graph.nodes.len();
        while u < n
            invariant
                0 <= u <= n,
                n == self.g().nodes.len(),
                count <= u,
                count as int == spec_count_conn(
                    self.g(),
                    self.w,
                    self.layers,
                    self.vid as int,
                    u as int,
                    d,
                ),
            decreases n - u,
        {
            if self.connected(u, d) {
                count = count + 1;
            }
            u = u + 1;
        }
        count
    }

    /// Distinct neighbours, both directions.
    pub fn degree(&self) -> (r: usize)
        requires
            self.wf(),
        ensures
            r as int == spec_count_conn(
                self.g(),
                self.w,
                self.layers,
                self.vid as int,
                self.g().nodes.len() as int,
                Direction::BOTH,
            ),
    {
        self.degree_dir(Direction::BOTH)
    }

    /// Distinct sources of visible incoming edges.
    pub fn in_degree(&self) -> (r: usize)
        requires
            self.wf(),
        ensures
            r as int == spec_count_conn(
                self.g(),
                self.w,
                self.layers,
                self.vid as int,
                self.g().nodes.len() as int,
                Direction::IN,
            ),
    {
        self.degree_dir(Direction::IN)
    }

    /// Distinct targets of visible outgoing edges.
    pub fn out_degree(&self) -> (r: usize)
        requires
            self.wf(),
        ensures
            r as int == spec_count_conn(
                self.g(),
                self.w,
                self.layers,
                self.vid as int,
                self.g().nodes.len() as int,
                Direction::OUT,
            ),
    {
        self.degree_dir(Direction::OUT)
    }

    /// The neighbour ids in the direction, ascending by internal id.
    pub(crate) fn neighbour_vids(&self, d: Direction) -> (r: Vec<usize>)
        requires
            self.wf(),
        ensures
            crate::view::spec_ids_sorted(r@),
            forall|p: int| 0 <= p < r@.len() ==> (#[trigger] r@[p]) < self.g().nodes.len(),
            forall|p: int|
                0 <= p < r@.len() ==> spec_connected(
                    self.g(),
                    self.w,
                    self.layers,
                    self.vid as int,
                    (#[trigger] r@[p]) as int,
                    d,
                ),
            forall|u: int|
                0 <= u < self.g().nodes.len() && #[trigger] spec_connected(
                    self.g(),
                    self.w,
                    self.layers,
                    self.vid as int,
                    u,
                    d,
                ) ==> crate::view::spec_ids_has(r@, u),
            r@.map_values(|x: usize| x as int) == spec_conn_list(
                self.g(),
                self.w,
                self.layers,
                self.vid as int,
                self.g().nodes.len() as int,
                d,
            ),
    {
        let mut out: Vec<usize> = Vec::new();
        let mut u: usize = 0;
        let n = self.graph.nodes.len();
        proof {
            assert(out@.map_values(|x: usize| x as int) =~= Seq::<int>::empty());
        }
        while u < n
            invariant
                0 <= u <= n,
                n == self.g().nodes.len(),
                out@.map_values(|x: usize| x as int) == spec_conn_list(
                    self.g(),
                    self.w,
                    self.layers,
                    self.vid as int,
                    u as int,
                    d,
                ),
                crate::view::spec_ids_sorted(out@),
                forall|p: int| 0 <= p < out@.len() ==> (#[trigger] out@[p]) < u,
                forall|p: int|
                    0 <= p < out@.len() ==> spec_connected(
                        self.g(),
                        self.w,
                        self.layers,
                        self.vid as int,
                        (#[trigger] out@[p]) as int,
                        d,
                    ),
                forall|u0: int|
                    0 <= u0 < u && #[trigger] spec_connected(
                        self.g(),
                        self.w,
                        self.layers,
                        self.vid as int,
                        u0,
                        d,
                    ) ==> crate::view::spec_ids_has(out@, u0),
            decreases n - u,
        {
            let ghost pre = out@;
            if self.connected(u, d) {
                out.push(u);
                proof {
                    assert(out@[out@.len() - 1] == u);
                    assert(crate::view::spec_ids_has(out@, u as int));
                    assert(out@.map_values(|x: usize| x as int) =~= pre.map_values(
                        |x: usize| x as int,
                    ).push(u as int));
                }
            } else {
                proof {
                    assert(out@.map_values(|x: usize| x as int) == pre.map_values(
                        |x: usize| x as int,
                    ));
                }
            }
            proof {
                assert forall|u0: int|
                    0 <= u0 < u + 1 && #[trigger] spec_connected(
                        self.g(),
                        self.w,
                        self.layers,
                        self.vid as int,
                        u0,
                        d,
                    ) implies crate::view::spec_ids_has(out@, u0) by {
                    if u0 < u {
                        let p = choose|p: int|
                            0 <= p < pre.len() && (#[trigger] pre[p]) as int == u0;
                        assert(out@[p] as int == u0);
                    }
                }
            }
            u = u + 1;
        }
        out
    }
}

impl<'a> NodeView<'a> {
    /// The node's neighbours in the direction, as a path.
    pub fn neighbours_dir(&self, d: Direction) -> (r: crate::path::PathFromVertex<'a>)
        requires
            self.wf(),
        ensures
            r.wf(),
            r.graph == self.graph,
            r.w == self.w,
            r.vertex == self.vid,
            forall|l: int| spec_lids_has(r.layers, l) == spec_lids_has(self.layers, l),
            crate::view::spec_ids_sorted(r.vids@),
            forall|p: int|
                0 <= p < r.vids@.len() ==> spec_connected(
                    self.g(),
                    self.w,
                    self.layers,
                    self.vid as int,
                    (#[trigger] r.vids@[p]) as int,
                    d,
                ),
            forall|u: int|
                0 <= u < self.g().nodes.len() && #[trigger] spec_connected(
                    self.g(),
                    self.w,
                    self.layers,
                    self.vid as int,
                    u,
                    d,
                ) ==> crate::view::spec_ids_has(r.vids@, u),
    {
        let vids = self.neighbour_vids(d);
        crate::path::PathFromVertex {
            graph: self.graph,
            w: self.w,
            layers: self.layers.duplicate(),
            vertex: self.vid,
            vids,
        }
    }

    /// Neighbours through edges of either direction.
    pub fn neighbours(&self) -> (r: crate::path::PathFromVertex<'a>)
        requires
            self.wf(),
        ensures
            r.wf(),
            r.graph == self.graph,
            r.w == self.w,
            r.vertex == self.vid,
            forall|l: int| spec_lids_has(r.layers, l) == spec_lids_has(self.layers, l),
            forall|u: int|
                0 <= u < self.g().nodes.len() && #[trigger] spec_connected(
                    self.g(),
                    self.w,
                    self.layers,
                    self.vid as int,
                    u,
                    Direction::BOTH,
                ) ==> crate::view::spec_ids_has(r.vids@, u),
            forall|p: int|
                0 <= p < r.vids@.len() ==> spec_connected(
                    self.g(),
                    self.w,
                    self.layers,
                    self.vid as int,
                    (#[trigger] r.vids@[p]) as int,
                    Direction::BOTH,
                ),
            crate::view::spec_ids_sorted(r.vids@),
    {
        self.neighbours_dir(Direction::BOTH)
    }

    /// Neighbours through incoming edges.
    pub fn in_neighbours(&self) -> (r: crate::path::PathFromVertex<'a>)
        requires
            self.wf(),
        ensures
            r.wf(),
            r.graph == self.graph,
            r.w == self.w,
            r.vertex == self.vid,
            forall|l: int| spec_lids_has(r.layers, l) == spec_lids_has(self.layers, l),
            forall|u: int|
                0 <= u < self.g().nodes.len() && #[trigger] spec_connected(
                    self.g(),
                    self.w,
                    self.layers,
                    self.vid as int,
                    u,
                    Direction::IN,
                ) ==> crate::view::spec_ids_has(r.vids@, u),
            forall|p: int|
                0 <= p < r.vids@.len() ==> spec_connected(
                    self.g(),
                    self.w,
                    self.layers,
                    self.vid as int,
                    (#[trigger] r.vids@[p]) as int,
                    Direction::IN,
                ),
            crate::view::spec_ids_sorted(r.vids@),
    {
        self.neighbours_dir(Direction::IN)
    }

    /// Neighbours through outgoing edges.
    pub fn out_neighbours(&self) -> (r: crate::path::PathFromVertex<'a>)
        requires
            self.wf(),
        ensures
            r.wf(),
            r.graph == self.graph,
            r.w == self.w,
            r.vertex == self.vid,
            forall|l: int| spec_lids_has(r.layers, l) == spec_lids_has(self.layers, l),
            forall|u: int|
                0 <= u < self.g().nodes.len() && #[trigger] spec_connected(
                    self.g(),
                    self.w,
                    self.layers,
                    self.vid as int,
                    u,
                    Direction::OUT,
                ) ==> crate::view::spec_ids_has(r.vids@, u),
            forall|p: int|
                0 <= p < r.vids@.len() ==> spec_connected(
                    self.g(),
                    self.w,
                    self.layers,
                    self.vid as int,
                    (#[trigger] r.vids@[p]) as int,
                    Direction::OUT,
                ),
            crate::view::spec_ids_sorted(r.vids@),
    {
        self.neighbours_dir(Direction::OUT)
    }

    /// The visible edges in the direction, one per neighbour ascending by
    /// internal id; a self-loop shows up in both directions.
    pub fn edges_dir(&self, d: Direction) -> (r: Vec<crate::edge::EdgeView<'a>>)
        requires
            self.wf(),
            d != Direction::BOTH,
        ensures
            r@.len() == spec_count_conn(
                self.g(),
                self.w,
                self.layers,
                self.vid as int,
                self.g().nodes.len() as int,
                d,
            ),
            forall|p: int|
                0 <= p < r@.len() ==> ((#[trigger] r@[p]).wf() && r@[p].graph == self.graph
                    && r@[p].w == self.w && r@[p].time_pin is None && r@[p].layer_pin is None && (
                match d {
                    Direction::OUT => r@[p].src == self.vid && spec_connected(
                        self.g(),
                        self.w,
                        self.layers,
                        self.vid as int,
                        r@[p].dst as int,
                        Direction::OUT,
                    ),
                    _ => r@[p].dst == self.vid && spec_connected(
                        self.g(),
                        self.w,
                        self.layers,
                        self.vid as int,
                        r@[p].src as int,
                        Direction::IN,
                    ),
                }) && (forall|l: int|
                    spec_lids_has(r@[p].layers, l) == spec_lids_has(self.layers, l))),
    {
        let vids = self.neighbour_vids(d);
        let mut out: Vec<crate::edge::EdgeView<'a>> = Vec::new();
        let mut p: usize = 0;
        let n = vids.len();
        proof {
            lemma_count_conn_eq_len(
                self.g(),
                self.w,
                self.layers,
                self.vid as int,
                self.g().nodes.len() as int,
                d,
                vids@,
            );
        }
        while p < n
            invariant
                0 <= p <= n,
                n == vids@.len(),
                n as int == spec_count_conn(
                    self.g(),
                    self.w,
                    self.layers,
                    self.vid as int,
                    self.g().nodes.len() as int,
                    d,
                ),
                forall|q: int| 0 <= q < n ==> ((#[trigger] vids@[q]) as int) < self.g().nodes.len(),
                forall|q: int|
                    0 <= q < n ==> spec_connected(
                        self.g(),
                        self.w,
                        self.layers,
                        self.vid as int,
                        (#[trigger] vids@[q]) as int,
                        d,
                    ),
                out@.len() == p,
                forall|q: int|
                    0 <= q < p ==> ((#[trigger] out@[q]).wf() && out@[q].graph == self.graph
                        && out@[q].w == self.w && out@[q].time_pin is None
                        && out@[q].layer_pin is None && (match d {
                        Direction::OUT => out@[q].src == self.vid && out@[q].dst == vids@[q],
                        _ => out@[q].dst == self.vid && out@[q].src == vids@[q],
                    }) && (forall|l: int|
                        spec_lids_has(out@[q].layers, l) == spec_lids_has(self.layers, l))),
            decreases n - p,
        {
            let u = vids[p];
            let (s, t) = match d {
                Direction::OUT => (self.vid, u),
                _ => (u, self.vid),
            };
            out.push(
                crate::edge::EdgeView {
                    graph: self.graph,
                    w: self.w,
                    layers: self.layers.duplicate(),
                    src: s,
                    dst: t,
                    time_pin: None,
                    layer_pin: None,
                },
            );
            p = p + 1;
        }
        out
    }

    /// The visible outgoing edges, ascending by target id.
    pub fn out_edges(&self) -> (r: Vec<crate::edge::EdgeView<'a>>)
        requires
            self.wf(),
        ensures
            r@.len() == spec_count_conn(
                self.g(),
                self.w,
                self.layers,
                self.vid as int,
                self.g().nodes.len() as int,
                Direction::OUT,
            ),
            forall|p: int|
                0 <= p < r@.len() ==> ((#[trigger] r@[p]).wf() && r@[p].graph == self.graph
                    && r@[p].w == self.w && r@[p].src == self.vid),
    {
        self.edges_dir(Direction::OUT)
    }

    /// The visible incoming edges, ascending by source id.
    pub fn in_edges(&self) -> (r: Vec<crate::edge::EdgeView<'a>>)
        requires
            self.wf(),
        ensures
            r@.len() == spec_count_conn(
                self.g(),
                self.w,
                self.layers,
                self.vid as int,
                self.g().nodes.len() as int,
                Direction::IN,
            ),
            forall|p: int|
                0 <= p < r@.len() ==> ((#[trigger] r@[p]).wf() && r@[p].graph == self.graph
                    && r@[p].w == self.w && r@[p].dst == self.vid),
    {
        self.edges_dir(Direction::IN)
    }

    /// All visible incident edges: outgoing first, then incoming.
    pub fn edges(&self) -> (r: Vec<crate::edge::EdgeView<'a>>)
        requires
            self.wf(),
        ensures
            r@.len() == spec_count_conn(
                self.g(),
                self.w,
                self.layers,
                self.vid as int,
                self.g().nodes.len() as int,
                Direction::OUT,
            ) + spec_count_conn(
                self.g(),
                self.w,
                self.layers,
                self.vid as int,
                self.g().nodes.len() as int,
                Direction::IN,
            ),
            forall|p: int|
                0 <= p < r@.len() ==> ((#[trigger] r@[p]).wf() && r@[p].graph == self.graph
                    && r@[p].w == self.w && (r@[p].src == self.vid || r@[p].dst == self.vid)),
    {
        let mut out = self.edges_dir(Direction::OUT);
        let mut inn = self.edges_dir(Direction::IN);
        let ghost pre = out@;
        let ghost innv = inn@;
        out.append(&mut inn);
        proof {
            assert(out@.len() == pre.len() + innv.len());
        }
        out
    }
}

/// A sound-and-complete ascending neighbour list has exactly as many
/// entries as the connectivity count.
proof fn lemma_count_conn_eq_len(
    g: GraphV,
    w: Option<(i64, i64)>,
    ls: LayerIds,
    v: int,
    upto: int,
    d: Direction,
    vids: Seq<usize>,
)
    requires
        0 <= upto,
        crate::view::spec_ids_sorted(vids),
        forall|p: int| 0 <= p < vids.len() ==> ((#[trigger] vids[p]) as int) < upto,
        forall|p: int|
            0 <= p < vids.len() ==> spec_connected(g, w, ls, v, (#[trigger] vids[p]) as int, d),
        forall|u: int|
            0 <= u < upto && #[trigger] spec_connected(g, w, ls, v, u, d)
                ==> crate::view::spec_ids_has(vids, u),
    ensures
        vids.len() == spec_count_conn(g, w, ls, v, upto, d),
    decreases upto,
{
    if upto > 0 {
        let u0 = upto - 1;
        if spec_connected(g, w, ls, v, u0, d) {
            assert(crate::view::spec_ids_has(vids, u0));
            let p0 = choose|p0: int| 0 <= p0 < vids.len() && (#[trigger] vids[p0]) as int == u0;
            assert(p0 == vids.len() - 1) by {
                if p0 < vids.len() - 1 {
                    assert(vids[p0] < vids[vids.len() - 1]);
                    assert((vids[vids.len() - 1] as int) < upto);
                }
            }
            let rest = vids.drop_last();
            assert forall|u: int|
                0 <= u < u0 && #[trigger] spec_connected(g, w, ls, v, u, d)
                    implies crate::view::spec_ids_has(rest, u) by {
                let q = choose|q: int| 0 <= q < vids.len() && (#[trigger] vids[q]) as int == u;
                assert(q < vids.len() - 1) by {
                    if q == vids.len() - 1 {
                        assert(vids[q] as int == u0);
                    }
                }
                assert(rest[q] as int == u);
            }
            assert forall|p: int|
                0 <= p < rest.len() implies ((#[trigger] rest[p]) as int) < u0 by {
                assert(rest[p] == vids[p]);
                assert(vids[p] < vids[vids.len() - 1]);
            }
            assert forall|p: int|
                0 <= p < rest.len() implies spec_connected(
                g,
                w,
                ls,
                v,
                (#[trigger] rest[p]) as int,
                d,
            ) by {
                assert(rest[p] == vids[p]);
            }
            lemma_count_conn_eq_len(g, w, ls, v, u0, d, rest);
        } else {
            assert forall|p: int|
                0 <= p < vids.len() implies ((#[trigger] vids[p]) as int) < u0 by {
                if vids[p] as int == u0 {
                    assert(spec_connected(g, w, ls, v, u0, d));
                }
            }
            lemma_count_conn_eq_len(g, w, ls, v, u0, d, vids);
        }
    } else {
        if vids.len() > 0 {
            assert((vids[0] as int) < 0);
        }
    }
}

} // verus!
