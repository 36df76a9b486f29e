//! The view algebra: lazy, composable filters over the store.
//!
//! A view is a reference to the base store plus an optional half-open time
//! window `[start, end)` and a layer-id set. Views never materialize
//! anything: every query reads the store through the filters. Composing
//! two windows intersects them; composing two layer selections intersects
//! the id sets.

use vstd::prelude::*;
use crate::graph::{
    EdgeV, GidV, Graph, GraphV, NodeId, NodeV, spec_canon_gid, spec_edge_wf, spec_graph_wf,
    spec_layer_index, spec_node_index,
};
use crate::props::PropV;

verus! {

// ---------------------------------------------------------------------------
// Layer selections.
// ---------------------------------------------------------------------------

/// A resolved set of layer ids: everything, or a sorted list of ids.
pub enum LayerIds {
    All,
    List(Vec<usize>),
}

/// Whether the id list holds `l`.
pub open spec fn spec_ids_has(v: Seq<usize>, l: int) -> bool {
    exists|i: int| 0 <= i < v.len() && (#[trigger] v[i]) as int == l
}

/// Whether layer `l` is selected.
pub open spec fn spec_lids_has(ls: LayerIds, l: int) -> bool {
    match ls {
        LayerIds::All => true,
        LayerIds::List(v) => spec_ids_has(v@, l),
    }
}

/// A strictly ascending id list.
pub open spec fn spec_ids_sorted(v: Seq<usize>) -> bool {
    forall|i: int, j: int| 0 <= i < j < v.len() ==> v[i] < v[j]
}

/// Ids all below the layer count.
pub open spec fn spec_ids_in_range(v: Seq<usize>, nlayers: int) -> bool {
    forall|i: int| 0 <= i < v.len() ==> (#[trigger] v[i]) < nlayers
}

/// A sorted, in-range id list (or the full set).
pub open spec fn spec_lids_wf(ls: LayerIds, nlayers: int) -> bool {
    match ls {
        LayerIds::All => true,
        LayerIds::List(v) => spec_ids_sorted(v@) && spec_ids_in_range(v@, nlayers),
    }
}

/// Copies an id list element by element.
pub(crate) fn copy_ids(v: &Vec<usize>) -> (r: Vec<usize>)
    ensures
        r@ == v@,
{
    let mut r: Vec<usize> = Vec::new();
    let mut i: usize = 0;
    let n = v.len();
    while i < n
        invariant
            0 <= i <= n,
            n == v@.len(),
            r@ == v@.subrange(0, i as int),
        decreases n - i,
    {
        r.push(v[i]);
        proof {
            assert(r@ =~= v@.subrange(0, i as int + 1));
        }
        i = i + 1;
    }
    proof {
        assert(v@.subrange(0, n as int) =~= v@);
    }
    r
}

impl LayerIds {
    /// An identical selection.
    pub fn duplicate(&self) -> (r: LayerIds)
        ensures
            (forall|l: int| spec_lids_has(r, l) == spec_lids_has(*self, l)),
            forall|n: int| spec_lids_wf(*self, n) ==> spec_lids_wf(r, n),
            spec_lids_sorted(*self) ==> spec_lids_sorted(r),
    {
        match self {
            LayerIds::All => LayerIds::All,
            LayerIds::List(v) => {
                let c = copy_ids(v);
                proof {
                    assert(*self == LayerIds::List(*v));
                    assert(c@ == v@);
                }
                LayerIds::List(c)
            },
        }
    }

    /// Whether layer `l` is selected.
    pub fn has(&self, l: usize) -> (r: bool)
        ensures
            r == spec_lids_has(*self, l as int),
    {
        match self {
            LayerIds::All => true,
            LayerIds::List(v) => {
                let mut i: usize = 0;
                let n = v.len();
                while i < n
                    invariant
                        *self == LayerIds::List(*v),
                        0 <= i <= n,
                        n == v@.len(),
                        forall|j: int| 0 <= j < i ==> ((#[trigger] v@[j]) as int != l as int),
                    decreases n - i,
                {
                    if v[i] == l {
                        proof {
                            assert(*self == LayerIds::List(*v));
                            assert((v@[i as int]) as int == l as int);
                            assert(spec_ids_has(v@, l as int));
                        }
                        return true;
                    }
                    i = i + 1;
                }
                false
            },
        }
    }
}

/// A layer selection by name: everything, the default layer, one name, or
/// a list of names.
pub enum Layer {
    All,
    Default,
    One(String),
    Many(Vec<String>),
}

/// Whether the selector names layer `l` of the registry. An unknown name
/// in a `Many` list selects nothing; `One` of an unknown name makes the
/// whole selection fail instead (see `spec_sel_known`).
pub open spec fn spec_sel_has(layers: Seq<Seq<char>>, sel: Layer, l: int) -> bool {
    match sel {
        Layer::All => 0 <= l < layers.len(),
        Layer::Default => l == 0,
        Layer::One(s) => spec_layer_index(layers, s@) == Some(l),
        Layer::Many(v) => spec_many_has(layers, v@, l),
    }
}

/// Whether any of the names resolves to layer `l`.
pub open spec fn spec_many_has(layers: Seq<Seq<char>>, v: Seq<String>, l: int) -> bool {
    exists|i: int| 0 <= i < v.len() && spec_layer_index(layers, (#[trigger] v[i])@) == Some(l)
}

/// Whether the selection succeeds at all: only a single unknown name
/// fails.
pub open spec fn spec_sel_known(layers: Seq<Seq<char>>, sel: Layer) -> bool {
    match sel {
        Layer::One(s) => spec_layer_index(layers, s@) is Some,
        _ => true,
    }
}

// ---------------------------------------------------------------------------
// Scope: which events, edges and nodes a view sees.
// ---------------------------------------------------------------------------

/// Whether `t` falls in the (optional) half-open window.
pub open spec fn spec_win_has(w: Option<(i64, i64)>, t: i64) -> bool {
    match w {
        None => true,
        Some((s, e)) => s <= t && t < e,
    }
}

/// Whether any of the times falls in the window.
pub open spec fn spec_has_time_in(times: Seq<i64>, w: Option<(i64, i64)>) -> bool {
    exists|i: int| 0 <= i < times.len() && spec_win_has(w, #[trigger] times[i])
}

/// Whether an edge record is visible: its layer is selected and it has an
/// event in the window.
pub open spec fn spec_edge_in_scope(e: EdgeV, w: Option<(i64, i64)>, ls: LayerIds) -> bool {
    spec_lids_has(ls, e.layer) && spec_has_time_in(e.times, w)
}

/// Whether a node is visible: it has an event in the window.
pub open spec fn spec_node_in_scope(n: NodeV, w: Option<(i64, i64)>) -> bool {
    spec_has_time_in(n.times, w)
}

/// Whether some selected edge record at the node has an event in the
/// window.
pub open spec fn spec_edge_touches(g: GraphV, w: Option<(i64, i64)>, ls: LayerIds, v: int) -> bool {
    exists|k: int|
        0 <= k < g.edges.len() && ((#[trigger] g.edges[k]).src == v || g.edges[k].dst == v)
            && spec_edge_in_scope(g.edges[k], w, ls)
}

/// Whether the view can see node `v`: one of its own events, or an event
/// of a selected incident edge, falls in the window.
pub open spec fn spec_node_visible(g: GraphV, w: Option<(i64, i64)>, ls: LayerIds, v: int) -> bool {
    spec_node_in_scope(g.nodes[v], w) || spec_edge_touches(g, w, ls, v)
}

/// Node visibility reads the layer selection through membership alone.
pub proof fn lemma_node_visible_lids(
    g: GraphV,
    w: Option<(i64, i64)>,
    ls1: LayerIds,
    ls2: LayerIds,
    v: int,
)
    requires
        forall|l: int| spec_lids_has(ls1, l) == spec_lids_has(ls2, l),
        spec_node_visible(g, w, ls2, v),
    ensures
        spec_node_visible(g, w, ls1, v),
{
    if spec_edge_touches(g, w, ls2, v) {
        let k = choose|k: int|
            0 <= k < g.edges.len() && ((#[trigger] g.edges[k]).src == v || g.edges[k].dst == v)
                && spec_edge_in_scope(g.edges[k], w, ls2);
        assert(spec_lids_has(ls1, g.edges[k].layer));
        assert(spec_edge_in_scope(g.edges[k], w, ls1));
    }
}

/// So does the visible-node count.
pub proof fn lemma_count_visible_lids(
    g: GraphV,
    w: Option<(i64, i64)>,
    ls1: LayerIds,
    ls2: LayerIds,
    upto: int,
)
    requires
        forall|l: int| spec_lids_has(ls1, l) == spec_lids_has(ls2, l),
    ensures
        spec_count_visible(g, upto, w, ls1) == spec_count_visible(g, upto, w, ls2),
    decreases upto,
{
    if upto > 0 {
        lemma_count_visible_lids(g, w, ls1, ls2, upto - 1);
        if spec_node_visible(g, w, ls1, upto - 1) {
            lemma_node_visible_lids(g, w, ls2, ls1, upto - 1);
        }
        if spec_node_visible(g, w, ls2, upto - 1) {
            lemma_node_visible_lids(g, w, ls1, ls2, upto - 1);
        }
    }
}

/// How many of the first `upto` nodes are visible.
pub open spec fn spec_count_visible(
    g: GraphV,
    upto: int,
    w: Option<(i64, i64)>,
    ls: LayerIds,
) -> int
    decreases upto,
{
    if upto <= 0 {
        0
    } else {
        spec_count_visible(g, upto - 1, w, ls) + if spec_node_visible(g, w, ls, upto - 1) {
            1int
        } else {
            0int
        }
    }
}

/// Whether record `k` is the first visible record of its `(src, dst)`
/// pair.
pub open spec fn spec_pair_first(
    edges: Seq<EdgeV>,
    k: int,
    w: Option<(i64, i64)>,
    ls: LayerIds,
) -> bool {
    &&& spec_edge_in_scope(edges[k], w, ls)
    &&& forall|j: int|
        0 <= j < k ==> !((#[trigger] edges[j]).src == edges[k].src && edges[j].dst == edges[k].dst
            && spec_edge_in_scope(edges[j], w, ls))
}

/// How many distinct visible `(src, dst)` pairs the first `upto` records
/// carry.
pub open spec fn spec_count_pairs(
    edges: Seq<EdgeV>,
    upto: int,
    w: Option<(i64, i64)>,
    ls: LayerIds,
) -> int
    decreases upto,
{
    if upto <= 0 {
        0
    } else {
        spec_count_pairs(edges, upto - 1, w, ls) + if spec_pair_first(edges, upto - 1, w, ls) {
            1int
        } else {
            0int
        }
    }
}

/// How many of the times fall in the window.
pub open spec fn spec_count_times(s: Seq<i64>, w: Option<(i64, i64)>) -> int
    decreases s.len(),
{
    if s.len() == 0 {
        0
    } else {
        spec_count_times(s.drop_last(), w) + if spec_win_has(w, s.last()) {
            1int
        } else {
            0int
        }
    }
}

/// Total visible events over the first `upto` edge records.
pub open spec fn spec_count_edge_events(
    edges: Seq<EdgeV>,
    upto: int,
    w: Option<(i64, i64)>,
    ls: LayerIds,
) -> int
    decreases upto,
{
    if upto <= 0 {
        0
    } else {
        spec_count_edge_events(edges, upto - 1, w, ls) + if spec_lids_has(ls, edges[upto - 1].layer) {
            spec_count_times(edges[upto - 1].times, w)
        } else {
            0int
        }
    }
}

/// Whether some node carries an own event at `t`.
pub open spec fn spec_node_event_at(g: GraphV, t: i64) -> bool {
    exists|i: int| 0 <= i < g.nodes.len() && (#[trigger] g.nodes[i]).times.contains(t)
}

/// Whether some selected edge record carries an event at `t`.
pub open spec fn spec_edge_event_at(g: GraphV, ls: LayerIds, t: i64) -> bool {
    exists|k: int|
        0 <= k < g.edges.len() && spec_lids_has(ls, (#[trigger] g.edges[k]).layer)
            && g.edges[k].times.contains(t)
}

/// Whether the view sees any event — a node's own or a selected edge's —
/// at `t` inside the window.
pub open spec fn spec_scope_time(g: GraphV, w: Option<(i64, i64)>, ls: LayerIds, t: i64) -> bool {
    spec_win_has(w, t) && (spec_node_event_at(g, t) || spec_edge_event_at(g, ls, t))
}

/// Whether the view can see an edge from `src` to `dst`.
pub open spec fn spec_has_edge(
    g: GraphV,
    w: Option<(i64, i64)>,
    ls: LayerIds,
    src: GidV,
    dst: GidV,
) -> bool {
    let sio = spec_node_index(g.nodes, spec_canon_gid(src));
    let dio = spec_node_index(g.nodes, spec_canon_gid(dst));
    sio is Some && dio is Some && exists|k: int|
        0 <= k < g.edges.len() && (#[trigger] g.edges[k]).src == sio.unwrap() && g.edges[k].dst
            == dio.unwrap() && spec_edge_in_scope(g.edges[k], w, ls)
}

// ---------------------------------------------------------------------------
// The view itself.
// ---------------------------------------------------------------------------

/// A lazy view of the store: an optional window and a layer selection
/// over a borrowed base graph.
///
/// `w` is what the view can see. `bounds`, when set, is what `start` and
/// `end` report instead: a window-set child reports the raw bounds of
/// its slot while seeing only their intersection with its parent's
/// window.
pub struct GraphView<'a> {
    pub graph: &'a Graph,
    pub w: Option<(i64, i64)>,
    pub layers: LayerIds,
    pub bounds: Option<(i64, i64)>,
}

impl<'a> GraphView<'a> {
    /// The base store's mathematical value.
    pub open spec fn g(&self) -> GraphV {
        self.graph@
    }

    /// The window the view can see, if any.
    pub open spec fn win(&self) -> Option<(i64, i64)> {
        self.w
    }

    /// The reported bounds, when they differ from the visible window.
    pub open spec fn bnd(&self) -> Option<(i64, i64)> {
        self.bounds
    }

    /// The layer selection.
    pub open spec fn lids(&self) -> LayerIds {
        self.layers
    }

    /// A well-formed view over a well-formed store.
    pub open spec fn wf(&self) -> bool {
        spec_graph_wf(self.graph@) && spec_lids_wf(self.layers, self.graph@.layers.len() as int)
    }

    /// Two views are equivalent when they see the same store through the
    /// same window and the same layer set.
    pub open spec fn equiv(&self, other: &GraphView<'a>) -> bool {
        &&& self.g() == other.g()
        &&& self.win() == other.win()
        &&& (forall|l: int| spec_lids_has(self.lids(), l) == spec_lids_has(other.lids(), l))
    }
}

impl Graph {
    /// The unfiltered view of the whole store.
    pub fn as_view<'a>(&'a self) -> (r: GraphView<'a>)
        requires
            self.wf(),
        ensures
            r.wf(),
            r.graph == self,
            r.g() == self@,
            r.win() is None,
            r.bnd() is None,
            r.lids() == LayerIds::All,
    {
        GraphView { graph: self, w: None, layers: LayerIds::All, bounds: None }
    }
}

impl<'a> GraphView<'a> {
    /// Restricts the view to events in `[start, end)`; a second window
    /// intersects with the first.
    pub fn window(&self, start: i64, end: i64) -> (r: GraphView<'a>)
        requires
            self.wf(),
        ensures
            r.wf(),
            r.g() == self.g(),
            (forall|l: int| spec_lids_has(r.lids(), l) == spec_lids_has(self.lids(), l)),
            r.win() == (match self.win() {
                None => Some((start, end)),
                Some((s0, e0)) => Some(
                    (
                        if s0 >= start {
                            s0
                        } else {
                            start
                        },
                        if e0 <= end {
                            e0
                        } else {
                            end
                        },
                    ),
                ),
            }),
            r.bnd() is None,
    {
        let w2: (i64, i64) = match self.w {
            None => (start, end),
            Some((s0, e0)) => (
                if s0 >= start {
                    s0
                } else {
                    start
                },
                if e0 <= end {
                    e0
                } else {
                    end
                },
            ),
        };
        GraphView { graph: self.graph, w: Some(w2), layers: self.layers.duplicate(), bounds: None }
    }

    /// The reported window start — the raw slot start for a window-set
    /// child, else the window start, else the earliest event time of an
    /// unwindowed view.
    pub fn start(&self) -> (r: Option<i64>)
        requires
            self.wf(),
        ensures
            match self.bnd() {
                Some((s, _)) => r == Some(s),
                None => match self.win() {
                    Some((s, _)) => r == Some(s),
                    None => match r {
                        None => spec_no_time(self.g(), None, self.lids()),
                        Some(m) => spec_is_earliest(self.g(), None, self.lids(), m),
                    },
                },
            },
    {
        match self.bounds {
            Some((s, _)) => Some(s),
            None => match self.w {
                Some((s, _)) => Some(s),
                None => self.earliest_time(),
            },
        }
    }

    /// The reported window end — the raw slot end for a window-set
    /// child, else the window end, else one past the latest event time of
    /// an unwindowed view (saturating at the integer bound).
    pub fn end(&self) -> (r: Option<i64>)
        requires
            self.wf(),
        ensures
            match self.bnd() {
                Some((_, e)) => r == Some(e),
                None => match self.win() {
                    Some((_, e)) => r == Some(e),
                    None => match r {
                        None => spec_no_time(self.g(), None, self.lids()),
                        Some(en) => exists|m: i64|
                            spec_is_latest(self.g(), None, self.lids(), m) && en == spec_sat_succ(
                                m,
                            ),
                    },
                },
            },
    {
        if let Some((_, e)) = self.bounds {
            return Some(e);
        }
        match self.w {
            Some((_, e)) => Some(e),
            None => match self.latest_time() {
                None => None,
                Some(m) => {
                    let en: i64 = if m == i64::MAX {
                        m
                    } else {
                        m + 1
                    };
                    proof {
                        assert(spec_is_latest(self.g(), None, self.lids(), m) && en
                            == spec_sat_succ(m));
                    }
                    Some(en)
                },
            },
        }
    }

    /// The width of the view's window, `end - start` (wrapping into 64
    /// unsigned bits as the callers of the original surface expect);
    /// `None` when the view has no bounds.
    pub fn window_size(&self) -> (r: Option<u64>)
        requires
            self.wf(),
        ensures
            match self.bnd() {
                Some((s0, e0)) => r == Some(((e0 - s0) as u64)),
                None => match self.win() {
                    Some((s0, e0)) => r == Some(((e0 - s0) as u64)),
                    None => {
                        &&& (spec_no_time(self.g(), None, self.lids()) ==> r is None)
                        &&& (forall|s0: i64, m: i64|
                            spec_is_earliest(self.g(), None, self.lids(), s0) && spec_is_latest(
                                self.g(),
                                None,
                                self.lids(),
                                m,
                            ) ==> r == Some(((spec_sat_succ(m) - s0) as u64)))
                    },
                },
            },
    {
        let s = self.start();
        let e = self.end();
        match (s, e) {
            (Some(s0), Some(e0)) => {
                let diff: i128 = (e0 as i128) - (s0 as i128);
                let r = Some(#[verifier::truncate] (diff as u64));
                proof {
                    if self.bounds is None && self.w is None {
                        let m0 = choose|m0: i64|
                            spec_is_latest(self.g(), None, self.lids(), m0) && e0 == spec_sat_succ(
                                m0,
                            );
                        assert forall|s1: i64, m1: i64|
                            spec_is_earliest(self.g(), None, self.lids(), s1) && spec_is_latest(
                                self.g(),
                                None,
                                self.lids(),
                                m1,
                            ) implies r == Some(((spec_sat_succ(m1) - s1) as u64)) by {
                            assert(s1 <= s0 && s0 <= s1);
                            assert(m1 <= m0 && m0 <= m1);
                        }
                    }
                }
                r
            },
            _ => {
                proof {
                    if self.bounds is None && self.w is None {
                        assert forall|s1: i64, m1: i64|
                            !(spec_is_earliest(self.g(), None, self.lids(), s1) && spec_is_latest(
                                self.g(),
                                None,
                                self.lids(),
                                m1,
                            )) by {
                            if spec_is_earliest(self.g(), None, self.lids(), s1) {
                                assert(spec_scope_time(self.g(), None, self.lids(), s1));
                            }
                        }
                    }
                }
                None
            },
        }
    }

    /// The view of the single time point `t` (a window of width one,
    /// saturating at the upper bound).
    pub fn at(&self, t: i64) -> (r: GraphView<'a>)
        requires
            self.wf(),
        ensures
            r.wf(),
            r.g() == self.g(),
            (forall|l: int| spec_lids_has(r.lids(), l) == spec_lids_has(self.lids(), l)),
            r.win() == spec_win_compose(
                self.win(),
                t,
                if t == i64::MAX {
                    t
                } else {
                    (t + 1) as i64
                },
            ),
            r.bnd() is None,
    {
        let up: i64 = if t == i64::MAX {
            t
        } else {
            t + 1
        };
        self.window(t, up)
    }

    /// Everything strictly after `t`, up to the view's end: the window
    /// `[t+1, end)` composed onto the current one, so a start before the
    /// current window cannot widen it (the end one past the latest event
    /// on an unwindowed view, or `t+2` when there is none).
    pub fn after(&self, t: i64) -> (r: GraphView<'a>)
        requires
            self.wf(),
        ensures
            r.wf(),
            r.g() == self.g(),
            (forall|l: int| spec_lids_has(r.lids(), l) == spec_lids_has(self.lids(), l)),
            r.bnd() is None,
            ({
                let s = spec_sat_succ(t);
                match self.win() {
                    Some((s0, e0)) => r.win() == Some(
                        (
                            if s0 >= s {
                                s0
                            } else {
                                s
                            },
                            e0,
                        ),
                    ),
                    None => {
                        &&& (spec_no_time(self.g(), None, self.lids()) ==> r.win() == Some(
                            (s, spec_sat_succ(s)),
                        ))
                        &&& (forall|m: i64|
                            spec_is_latest(self.g(), None, self.lids(), m) ==> r.win() == Some(
                                (s, spec_sat_succ(m)),
                            ))
                    },
                }
            }),
    {
        let s: i64 = if t == i64::MAX {
            t
        } else {
            t + 1
        };
        let e: i64 = match self.end_visible() {
            Some(e0) => {
                proof {
                    if self.w is None {
                        let m0 = choose|m0: i64|
                            spec_is_latest(self.g(), None, self.lids(), m0) && e0 == spec_sat_succ(
                                m0,
                            );
                        assert forall|m: i64|
                            spec_is_latest(self.g(), None, self.lids(), m) implies spec_sat_succ(m)
                            == e0 by {
                            assert(m <= m0 && m0 <= m);
                        }
                    }
                }
                e0
            },
            None => {
                if s == i64::MAX {
                    s
                } else {
                    s + 1
                }
            },
        };
        self.window(s, e)
    }

    /// Everything strictly before `t`, from the view's start: the window
    /// `[start, t)` composed onto the current one, so an end past the
    /// current window cannot widen it (the start the earliest event on an
    /// unwindowed view, or `t` when there is none).
    pub fn before(&self, t: i64) -> (r: GraphView<'a>)
        requires
            self.wf(),
        ensures
            r.wf(),
            r.g() == self.g(),
            (forall|l: int| spec_lids_has(r.lids(), l) == spec_lids_has(self.lids(), l)),
            r.bnd() is None,
            match self.win() {
                Some((s0, e0)) => r.win() == Some(
                    (
                        s0,
                        if e0 <= t {
                            e0
                        } else {
                            t
                        },
                    ),
                ),
                None => {
                    &&& (spec_no_time(self.g(), None, self.lids()) ==> r.win() == Some((t, t)))
                    &&& (forall|m: i64|
                        spec_is_earliest(self.g(), None, self.lids(), m) ==> r.win() == Some(
                            (m, t),
                        ))
                },
            },
    {
        let s: i64 = match self.start_visible() {
            Some(s0) => {
                proof {
                    if self.w is None {
                        assert forall|m: i64|
                            spec_is_earliest(self.g(), None, self.lids(), m) implies m == s0 by {
                            assert(m <= s0 && s0 <= m);
                        }
                    }
                }
                s0
            },
            None => t,
        };
        self.window(s, t)
    }

    /// The start of the visible range: the window start, or the earliest
    /// event time of an unwindowed view.
    pub fn start_visible(&self) -> (r: Option<i64>)
        requires
            self.wf(),
        ensures
            match self.win() {
                Some((s, _)) => r == Some(s),
                None => match r {
                    None => spec_no_time(self.g(), None, self.lids()),
                    Some(m) => spec_is_earliest(self.g(), None, self.lids(), m),
                },
            },
    {
        match self.w {
            Some((s, _)) => Some(s),
            None => self.earliest_time(),
        }
    }

    /// The end of the visible range: the window end, or one past the
    /// latest event time of an unwindowed view (saturating at the
    /// integer bound).
    pub fn end_visible(&self) -> (r: Option<i64>)
        requires
            self.wf(),
        ensures
            match self.win() {
                Some((_, e)) => r == Some(e),
                None => match r {
                    None => spec_no_time(self.g(), None, self.lids()),
                    Some(en) => exists|m: i64|
                        spec_is_latest(self.g(), None, self.lids(), m) && en == spec_sat_succ(m),
                },
            },
    {
        match self.w {
            Some((_, e)) => Some(e),
            None => match self.latest_time() {
                None => None,
                Some(m) => {
                    let en: i64 = if m == i64::MAX {
                        m
                    } else {
                        m + 1
                    };
                    proof {
                        assert(spec_is_latest(self.g(), None, self.lids(), m) && en
                            == spec_sat_succ(m));
                    }
                    Some(en)
                },
            },
        }
    }
}

/// The window that composing a window `[s, e)` onto `cur` produces.
pub open spec fn spec_win_compose(cur: Option<(i64, i64)>, s: i64, e: i64) -> Option<(i64, i64)> {
    match cur {
        None => Some((s, e)),
        Some((s0, e0)) => Some(
            (
                if s0 >= s {
                    s0
                } else {
                    s
                },
                if e0 <= e {
                    e0
                } else {
                    e
                },
            ),
        ),
    }
}

/// Window composition: windowing any view twice is windowing it once by
/// the intersection, `[max(a, c), min(b, d))` — whatever window the view
/// already carried.
pub proof fn lemma_window_compose(cur: Option<(i64, i64)>, a: i64, b: i64, c: i64, d: i64)
    ensures
        spec_win_compose(spec_win_compose(cur, a, b), c, d) == spec_win_compose(
            cur,
            if a >= c {
                a
            } else {
                c
            },
            if b <= d {
                b
            } else {
                d
            },
        ),
{
}

/// What a composed window shows is decided by membership: a time is
/// visible through two stacked windows exactly when it lies in both.
pub proof fn lemma_window_semantics(cur: Option<(i64, i64)>, s: i64, e: i64, t: i64)
    ensures
        spec_win_has(spec_win_compose(cur, s, e), t) == (spec_win_has(cur, t) && s <= t < e),
{
}

// ---------------------------------------------------------------------------
// Exec scope checks.
// ---------------------------------------------------------------------------

/// Whether the node has an event in the window, executably.
pub(crate) fn node_in_scope(n: &crate::graph::NodeRec, w: &Option<(i64, i64)>) -> (r: bool)
    ensures
        r == spec_node_in_scope(n@, *w),
{
    let mut j: usize = 0;
    let m = n.times.len();
    while j < m
        invariant
            0 <= j <= m,
            m == n@.times.len(),
            forall|b: int| 0 <= b < j ==> !spec_win_has(*w, #[trigger] n@.times[b]),
        decreases m - j,
    {
        if win_has(w, n.times[j]) {
            proof {
                assert(spec_win_has(*w, n@.times[j as int]));
            }
            return true;
        }
        j = j + 1;
    }
    proof {
        if spec_node_in_scope(n@, *w) {
            let b = choose|b: int|
                0 <= b < n@.times.len() && spec_win_has(*w, #[trigger] n@.times[b]);
            assert(false);
        }
    }
    false
}

/// Whether the edge record is visible, executably.
pub(crate) fn edge_in_scope(
    e: &crate::graph::EdgeRec,
    w: &Option<(i64, i64)>,
    ls: &LayerIds,
) -> (r: bool)
    ensures
        r == spec_edge_in_scope(e@, *w, *ls),
{
    if !ls.has(e.layer) {
        return false;
    }
    let mut j: usize = 0;
    let m = e.times.len();
    while j < m
        invariant
            0 <= j <= m,
            m == e@.times.len(),
            forall|b: int| 0 <= b < j ==> !spec_win_has(*w, #[trigger] e@.times[b]),
        decreases m - j,
    {
        if win_has(w, e.times[j]) {
            proof {
                assert(spec_win_has(*w, e@.times[j as int]));
            }
            return true;
        }
        j = j + 1;
    }
    proof {
        if spec_edge_in_scope(e@, *w, *ls) {
            let b = choose|b: int|
                0 <= b < e@.times.len() && spec_win_has(*w, #[trigger] e@.times[b]);
            assert(false);
        }
    }
    false
}

/// Whether node `vid` is visible, executably.
pub(crate) fn node_visible_exec(
    g: &Graph,
    w: &Option<(i64, i64)>,
    ls: &LayerIds,
    vid: usize,
) -> (r: bool)
    requires
        spec_graph_wf(g@),
        (vid as int) < g@.nodes.len(),
    ensures
        r == spec_node_visible(g@, *w, *ls, vid as int),
{
    if node_in_scope(&g.nodes[vid], w) {
        return true;
    }
    let mut k: usize = 0;
    let n = g.edges.len();
    while k < n
        invariant
            0 <= k <= n,
            n == g@.edges.len(),
            forall|b: int|
                0 <= b < k ==> !(((#[trigger] g@.edges[b]).src == vid as int || g@.edges[b].dst
                    == vid as int) && spec_edge_in_scope(g@.edges[b], *w, *ls)),
        decreases n - k,
    {
        let e = &g.edges[k];
        if (e.src == vid || e.dst == vid) && edge_in_scope(e, w, ls) {
            proof {
                assert((g@.edges[k as int]).src == vid as int || g@.edges[k as int].dst
                    == vid as int);
            }
            return true;
        }
        k = k + 1;
    }
    proof {
        if spec_edge_touches(g@, *w, *ls, vid as int) {
            let b = choose|b: int|
                0 <= b < g@.edges.len() && ((#[trigger] g@.edges[b]).src == vid as int
                    || g@.edges[b].dst == vid as int) && spec_edge_in_scope(g@.edges[b], *w, *ls);
            assert(false);
        }
    }
    false
}

/// Whether the view can see node `id`.
pub open spec fn spec_has_node(g: GraphV, w: Option<(i64, i64)>, ls: LayerIds, id: GidV) -> bool {
    match spec_node_index(g.nodes, spec_canon_gid(id)) {
        None => false,
        Some(i) => spec_node_visible(g, w, ls, i),
    }
}

/// Whether some visible edge record joins `si` to `di` and also satisfies
/// the extra name selection.
pub open spec fn spec_ex_edge(
    g: GraphV,
    w: Option<(i64, i64)>,
    ls: LayerIds,
    sel: Layer,
    si: int,
    di: int,
) -> bool {
    exists|k: int|
        0 <= k < g.edges.len() && (#[trigger] g.edges[k]).src == si && g.edges[k].dst == di
            && spec_edge_in_scope(g.edges[k], w, ls) && spec_sel_has(
            g.layers,
            sel,
            g.edges[k].layer,
        )
}

/// Whether the view, narrowed further by the name selection, can see an
/// edge from `src` to `dst`.
pub open spec fn spec_has_edge_sel(
    g: GraphV,
    w: Option<(i64, i64)>,
    ls: LayerIds,
    src: GidV,
    dst: GidV,
    sel: Layer,
) -> bool {
    let sio = spec_node_index(g.nodes, spec_canon_gid(src));
    let dio = spec_node_index(g.nodes, spec_canon_gid(dst));
    sio is Some && dio is Some && spec_ex_edge(g, w, ls, sel, sio.unwrap(), dio.unwrap())
}

/// Whether the name selector picks layer `l`, executably.
pub(crate) fn sel_matches(g: &Graph, sel: &Layer, l: usize) -> (r: bool)
    requires
        spec_graph_wf(g@),
        (l as int) < g@.layers.len(),
    ensures
        r == spec_sel_has(g@.layers, *sel, l as int),
{
    match sel {
        Layer::All => true,
        Layer::Default => l == 0,
        Layer::One(s) => {
            let hit = g.layers[l].eq(s);
            proof {
                crate::graph::lemma_layer_index(g@.layers, s@);
                if hit {
                    let ki = spec_layer_index(g@.layers, s@);
                    if ki is None {
                        assert(g@.layers[l as int] != s@);
                        assert(false);
                    }
                    let k = ki.unwrap();
                    if k != l as int {
                        assert(g@.layers[k] == g@.layers[l as int]);
                        assert(false);
                    }
                } else {
                    if spec_layer_index(g@.layers, s@) == Some(l as int) {
                        assert(g@.layers[l as int] == s@);
                        assert(false);
                    }
                }
            }
            hit
        },
        Layer::Many(v) => {
            let mut i: usize = 0;
            let n = v.len();
            while i < n
                invariant
                    0 <= i <= n,
                    n == v@.len(),
                    spec_graph_wf(g@),
                    (l as int) < g@.layers.len(),
                    forall|j: int|
                        0 <= j < i ==> spec_layer_index(g@.layers, (#[trigger] v@[j])@) != Some(
                            l as int,
                        ),
                decreases n - i,
            {
                if g.layers[l].eq(&v[i]) {
                    proof {
                        crate::graph::lemma_layer_index(g@.layers, v@[i as int]@);
                        let ki = spec_layer_index(g@.layers, v@[i as int]@);
                        if ki is None {
                            assert(g@.layers[l as int] != v@[i as int]@);
                            assert(false);
                        }
                        let k = ki.unwrap();
                        if k != l as int {
                            assert(g@.layers[k] == g@.layers[l as int]);
                            assert(false);
                        }
                        assert(spec_sel_has(g@.layers, *sel, l as int));
                    }
                    return true;
                }
                proof {
                    crate::graph::lemma_layer_index(g@.layers, v@[i as int]@);
                    if spec_layer_index(g@.layers, v@[i as int]@) == Some(l as int) {
                        assert(g@.layers[l as int] == v@[i as int]@);
                        assert(false);
                    }
                }
                i = i + 1;
            }
            proof {
                if spec_sel_has(g@.layers, *sel, l as int) {
                    let j = choose|j: int|
                        0 <= j < v@.len() && spec_layer_index(g@.layers, (#[trigger] v@[j])@)
                            == Some(l as int);
                    assert(false);
                }
            }
            false
        },
    }
}

impl<'a> GraphView<'a> {
    /// How many nodes the view can see: exactly those with one of their
    /// own events, or an event of a selected incident edge, inside the
    /// window.
    pub fn num_vertices(&self) -> (r: usize)
        requires
            self.wf(),
        ensures
            r as int == spec_count_visible(
                self.g(),
                self.g().nodes.len() as int,
                self.win(),
                self.lids(),
            ),
    {
        let mut count: usize = 0;
        let mut i: usize = 0;
        let n = self.graph.nodes.len();
        while i < n
            invariant
                0 <= i <= n,
                n == self.g().nodes.len(),
                self.wf(),
                count <= i,
                count as int == spec_count_visible(self.g(), i as int, self.win(), self.lids()),
            decreases n - i,
        {
            if node_visible_exec(self.graph, &self.w, &self.layers, i) {
                count = count + 1;
            }
            i = i + 1;
        }
        count
    }

    /// How many distinct `(src, dst)` pairs the view can see: an edge in
    /// several layers counts once.
    pub fn num_edges(&self) -> (r: usize)
        requires
            self.wf(),
        ensures
            r as int == spec_count_pairs(
                self.g().edges,
                self.g().edges.len() as int,
                self.win(),
                self.lids(),
            ),
    {
        let ghost edges = self.g().edges;
        let mut count: usize = 0;
        let mut k: usize = 0;
        let n = self.graph.edges.len();
        while k < n
            invariant
                0 <= k <= n,
                n == edges.len(),
                edges == self.g().edges,
                count <= k,
                count as int == spec_count_pairs(edges, k as int, self.win(), self.lids()),
            decreases n - k,
        {
            if edge_in_scope(&self.graph.edges[k], &self.w, &self.layers) {
                let mut seen = false;
                let mut j: usize = 0;
                while j < k
                    invariant
                        0 <= j <= k < n,
                        n == edges.len(),
                        edges == self.g().edges,
                        seen == exists|b: int|
                            0 <= b < j && (#[trigger] edges[b]).src == edges[k as int].src
                                && edges[b].dst == edges[k as int].dst && spec_edge_in_scope(
                                edges[b],
                                self.win(),
                                self.lids(),
                            ),
                    decreases k - j,
                {
                    if !seen {
                        let ej = &self.graph.edges[j];
                        let ek = &self.graph.edges[k];
                        if ej.src == ek.src && ej.dst == ek.dst && edge_in_scope(
                            ej,
                            &self.w,
                            &self.layers,
                        ) {
                            proof {
                                assert((edges[j as int]).src == edges[k as int].src);
                            }
                            seen = true;
                        }
                    }
                    j = j + 1;
                }
                if !seen {
                    proof {
                        assert(spec_pair_first(edges, k as int, self.win(), self.lids()));
                    }
                    count = count + 1;
                } else {
                    proof {
                        assert(!spec_pair_first(edges, k as int, self.win(), self.lids()));
                    }
                }
            }
            k = k + 1;
        }
        count
    }

    /// How many edge events the view can see, summed over the selected
    /// records (saturating only beyond any physically reachable count).
    pub fn temporal_edges_len(&self) -> (r: u64)
        requires
            self.wf(),
        ensures
            ({
                let c = spec_count_edge_events(
                    self.g().edges,
                    self.g().edges.len() as int,
                    self.win(),
                    self.lids(),
                );
                if c <= u64::MAX {
                    r as int == c
                } else {
                    r == u64::MAX
                }
            }),
    {
        let ghost edges = self.g().edges;
        let mut acc: u128 = 0;
        let mut k: usize = 0;
        let n = self.graph.edges.len();
        while k < n
            invariant
                0 <= k <= n,
                n == edges.len(),
                edges == self.g().edges,
                self.wf(),
                acc as int == spec_count_edge_events(edges, k as int, self.win(), self.lids()),
                acc <= (k as u128) * 0xffff_ffff_ffff_ffffu128,
            decreases n - k,
        {
            if self.layers.has(self.graph.edges[k].layer) {
                let e = &self.graph.edges[k];
                let mut cnt: u64 = 0;
                let mut j: usize = 0;
                let m = e.times.len();
                while j < m
                    invariant
                        0 <= j <= m,
                        m == e@.times.len(),
                        e@ == edges[k as int],
                        cnt <= j,
                        j <= u64::MAX,
                        cnt as int == spec_count_times(e@.times.subrange(0, j as int), self.win()),
                    decreases m - j,
                {
                    let ghost pre = e@.times.subrange(0, j as int);
                    if win_has(&self.w, e.times[j]) {
                        cnt = cnt + 1;
                    }
                    proof {
                        let cur = e@.times.subrange(0, j as int + 1);
                        assert(cur.drop_last() =~= pre);
                        assert(cur.last() == e@.times[j as int]);
                    }
                    j = j + 1;
                }
                proof {
                    assert(e@.times.subrange(0, m as int) =~= e@.times);
                    assert(cnt as int == spec_count_times(edges[k as int].times, self.win()));
                }
                acc = acc + (cnt as u128);
            }
            k = k + 1;
        }
        if acc > 0xffff_ffff_ffff_ffffu128 {
            u64::MAX
        } else {
            acc as u64
        }
    }

    /// Whether the view can see the node with this external id.
    pub fn has_node(&self, id: &NodeId) -> (r: bool)
        requires
            self.wf(),
        ensures
            r == spec_has_node(self.g(), self.win(), self.lids(), id@),
    {
        let cid = id.canonical();
        match self.graph.find_node(&cid) {
            None => false,
            Some(i) => node_visible_exec(self.graph, &self.w, &self.layers, i),
        }
    }

    /// The older name of `has_node`.
    pub fn has_vertex(&self, id: &NodeId) -> (r: bool)
        requires
            self.wf(),
        ensures
            r == spec_has_node(self.g(), self.win(), self.lids(), id@),
    {
        self.has_node(id)
    }

    /// Whether the view, narrowed by the name selection, can see an edge
    /// from `src` to `dst`: at least one matching record with an event in
    /// window.
    pub fn has_edge(&self, src: &NodeId, dst: &NodeId, sel: &Layer) -> (r: bool)
        requires
            self.wf(),
        ensures
            r == spec_has_edge_sel(self.g(), self.win(), self.lids(), src@, dst@, *sel),
    {
        let csrc = src.canonical();
        let cdst = dst.canonical();
        let si = match self.graph.find_node(&csrc) {
            Some(i) => i,
            None => {
                return false;
            },
        };
        let di = match self.graph.find_node(&cdst) {
            Some(i) => i,
            None => {
                return false;
            },
        };
        let ghost edges = self.g().edges;
        let mut k: usize = 0;
        let n = self.graph.edges.len();
        while k < n
            invariant
                0 <= k <= n,
                n == edges.len(),
                edges == self.g().edges,
                self.wf(),
                (si as int) < self.g().nodes.len(),
                (di as int) < self.g().nodes.len(),
                forall|b: int|
                    0 <= b < k ==> !((#[trigger] edges[b]).src == si as int && edges[b].dst
                        == di as int && spec_edge_in_scope(edges[b], self.win(), self.lids())
                        && spec_sel_has(self.g().layers, *sel, edges[b].layer)),
            decreases n - k,
        {
            let e = &self.graph.edges[k];
            if e.src == si && e.dst == di && edge_in_scope(e, &self.w, &self.layers) {
                proof {
                    assert(spec_edge_wf(
                        self.g().edges[k as int],
                        self.g().nodes.len() as int,
                        self.g().layers.len() as int,
                    ));
                }
                if sel_matches(self.graph, sel, e.layer) {
                    proof {
                        assert((edges[k as int]).src == si as int);
                    }
                    return true;
                }
            }
            k = k + 1;
        }
        proof {
            if spec_ex_edge(self.g(), self.win(), self.lids(), *sel, si as int, di as int) {
                let b = choose|b: int|
                    0 <= b < edges.len() && (#[trigger] edges[b]).src == si as int && edges[b].dst
                        == di as int && spec_edge_in_scope(edges[b], self.win(), self.lids())
                        && spec_sel_has(self.g().layers, *sel, edges[b].layer);
                assert(false);
            }
        }
        false
    }
}

// ---------------------------------------------------------------------------
// Earliest and latest event times.
// ---------------------------------------------------------------------------

/// No event at all falls inside the window.
pub open spec fn spec_no_time(g: GraphV, w: Option<(i64, i64)>, ls: LayerIds) -> bool {
    forall|t: i64| !spec_scope_time(g, w, ls, t)
}

/// `m` is the least visible event time.
pub open spec fn spec_is_earliest(g: GraphV, w: Option<(i64, i64)>, ls: LayerIds, m: i64) -> bool {
    spec_scope_time(g, w, ls, m) && forall|t: i64| spec_scope_time(g, w, ls, t) ==> m <= t
}

/// `m` is the greatest visible event time.
pub open spec fn spec_is_latest(g: GraphV, w: Option<(i64, i64)>, ls: LayerIds, m: i64) -> bool {
    spec_scope_time(g, w, ls, m) && forall|t: i64| spec_scope_time(g, w, ls, t) ==> t <= m
}

// The running best of the two-phase scan, decomposed: the node side is
// total, the edge side covers the records walked so far.

pub open spec fn spec_nodes_none(nodes: Seq<NodeV>, w: Option<(i64, i64)>) -> bool {
    forall|a: int, b: int|
        0 <= a < nodes.len() && 0 <= b < nodes[a].times.len() ==> !spec_win_has(
            w,
            #[trigger] nodes[a].times[b],
        )
}

pub open spec fn spec_node_wit(nodes: Seq<NodeV>, m: i64) -> bool {
    exists|a: int, b: int|
        0 <= a < nodes.len() && 0 <= b < nodes[a].times.len() && #[trigger] nodes[a].times[b] == m
}

pub open spec fn spec_nodes_ge(nodes: Seq<NodeV>, w: Option<(i64, i64)>, m: i64) -> bool {
    forall|a: int, b: int|
        0 <= a < nodes.len() && 0 <= b < nodes[a].times.len() && spec_win_has(
            w,
            #[trigger] nodes[a].times[b],
        ) ==> m <= nodes[a].times[b]
}

pub open spec fn spec_nodes_le(nodes: Seq<NodeV>, w: Option<(i64, i64)>, m: i64) -> bool {
    forall|a: int, b: int|
        0 <= a < nodes.len() && 0 <= b < nodes[a].times.len() && spec_win_has(
            w,
            #[trigger] nodes[a].times[b],
        ) ==> nodes[a].times[b] <= m
}

pub open spec fn spec_edges_none_upto(
    edges: Seq<EdgeV>,
    w: Option<(i64, i64)>,
    ls: LayerIds,
    ke: int,
    je: int,
) -> bool {
    forall|k: int, b: int|
        0 <= k < edges.len() && 0 <= b < edges[k].times.len() && spec_seen(ke, je, k, b)
            && spec_lids_has(ls, edges[k].layer) ==> !spec_win_has(
            w,
            #[trigger] edges[k].times[b],
        )
}

pub open spec fn spec_edge_wit_upto(
    edges: Seq<EdgeV>,
    ls: LayerIds,
    ke: int,
    je: int,
    m: i64,
) -> bool {
    exists|k: int, b: int|
        0 <= k < edges.len() && 0 <= b < edges[k].times.len() && spec_seen(ke, je, k, b)
            && spec_lids_has(ls, edges[k].layer) && #[trigger] edges[k].times[b] == m
}

pub open spec fn spec_edges_ge_upto(
    edges: Seq<EdgeV>,
    w: Option<(i64, i64)>,
    ls: LayerIds,
    ke: int,
    je: int,
    m: i64,
) -> bool {
    forall|k: int, b: int|
        0 <= k < edges.len() && 0 <= b < edges[k].times.len() && spec_seen(ke, je, k, b)
            && spec_lids_has(ls, edges[k].layer) && spec_win_has(w, #[trigger] edges[k].times[b])
            ==> m <= edges[k].times[b]
}

pub open spec fn spec_edges_le_upto(
    edges: Seq<EdgeV>,
    w: Option<(i64, i64)>,
    ls: LayerIds,
    ke: int,
    je: int,
    m: i64,
) -> bool {
    forall|k: int, b: int|
        0 <= k < edges.len() && 0 <= b < edges[k].times.len() && spec_seen(ke, je, k, b)
            && spec_lids_has(ls, edges[k].layer) && spec_win_has(w, #[trigger] edges[k].times[b])
            ==> edges[k].times[b] <= m
}

/// The running best after the node phase and `(ke, je)` of the edge walk,
/// tracking the least time.
pub open spec fn spec_cbest_min(
    g: GraphV,
    w: Option<(i64, i64)>,
    ls: LayerIds,
    ke: int,
    je: int,
    best: Option<i64>,
) -> bool {
    match best {
        None => spec_nodes_none(g.nodes, w) && spec_edges_none_upto(g.edges, w, ls, ke, je),
        Some(m) => spec_win_has(w, m) && (spec_node_wit(g.nodes, m) || spec_edge_wit_upto(
            g.edges,
            ls,
            ke,
            je,
            m,
        )) && spec_nodes_ge(g.nodes, w, m) && spec_edges_ge_upto(g.edges, w, ls, ke, je, m),
    }
}

/// The same, tracking the greatest time.
pub open spec fn spec_cbest_max(
    g: GraphV,
    w: Option<(i64, i64)>,
    ls: LayerIds,
    ke: int,
    je: int,
    best: Option<i64>,
) -> bool {
    match best {
        None => spec_nodes_none(g.nodes, w) && spec_edges_none_upto(g.edges, w, ls, ke, je),
        Some(m) => spec_win_has(w, m) && (spec_node_wit(g.nodes, m) || spec_edge_wit_upto(
            g.edges,
            ls,
            ke,
            je,
            m,
        )) && spec_nodes_le(g.nodes, w, m) && spec_edges_le_upto(g.edges, w, ls, ke, je, m),
    }
}

/// The next time, saturating at the upper integer bound.
pub open spec fn spec_sat_succ(m: i64) -> i64 {
    if m == i64::MAX {
        m
    } else {
        (m + 1) as i64
    }
}

/// The pairs `(a, b)` the scan has already visited.
pub open spec fn spec_seen(i: int, j: int, a: int, b: int) -> bool {
    a < i || (a == i && b < j)
}

/// What the running best of the scan means at position `(i, j)`.
pub open spec fn spec_best_min(
    nodes: Seq<NodeV>,
    i: int,
    j: int,
    w: Option<(i64, i64)>,
    best: Option<i64>,
) -> bool {
    match best {
        None => forall|a: int, b: int|
            0 <= a < nodes.len() && 0 <= b < nodes[a].times.len() && spec_seen(i, j, a, b)
                ==> !spec_win_has(w, #[trigger] nodes[a].times[b]),
        Some(m) => {
            &&& spec_win_has(w, m)
            &&& (exists|a: int, b: int|
                0 <= a < nodes.len() && 0 <= b < nodes[a].times.len() && spec_seen(i, j, a, b)
                    && #[trigger] nodes[a].times[b] == m)
            &&& (forall|a: int, b: int|
                0 <= a < nodes.len() && 0 <= b < nodes[a].times.len() && spec_seen(i, j, a, b)
                    && spec_win_has(w, #[trigger] nodes[a].times[b]) ==> m <= nodes[a].times[b])
        },
    }
}

/// The same, tracking the greatest time instead.
pub open spec fn spec_best_max(
    nodes: Seq<NodeV>,
    i: int,
    j: int,
    w: Option<(i64, i64)>,
    best: Option<i64>,
) -> bool {
    match best {
        None => forall|a: int, b: int|
            0 <= a < nodes.len() && 0 <= b < nodes[a].times.len() && spec_seen(i, j, a, b)
                ==> !spec_win_has(w, #[trigger] nodes[a].times[b]),
        Some(m) => {
            &&& spec_win_has(w, m)
            &&& (exists|a: int, b: int|
                0 <= a < nodes.len() && 0 <= b < nodes[a].times.len() && spec_seen(i, j, a, b)
                    && #[trigger] nodes[a].times[b] == m)
            &&& (forall|a: int, b: int|
                0 <= a < nodes.len() && 0 <= b < nodes[a].times.len() && spec_seen(i, j, a, b)
                    && spec_win_has(w, #[trigger] nodes[a].times[b]) ==> nodes[a].times[b] <= m)
        },
    }
}

/// Whether `t` lies in the window, executably.
pub(crate) fn win_has(w: &Option<(i64, i64)>, t: i64) -> (r: bool)
    ensures
        r == spec_win_has(*w, t),
{
    match w {
        None => true,
        Some((s, e)) => *s <= t && t < *e,
    }
}

impl<'a> GraphView<'a> {
    /// The least event time the view can see, over the node histories.
    /// The least event time the view can see: over the nodes' own
    /// histories and the selected edges' event lists.
    #[verifier::rlimit(100)]
    pub fn earliest_time(&self) -> (r: Option<i64>)
        requires
            self.wf(),
        ensures
            match r {
                None => spec_no_time(self.g(), self.win(), self.lids()),
                Some(m) => spec_is_earliest(self.g(), self.win(), self.lids(), m),
            },
    {
        let ghost nodes = self.g().nodes;
        let ghost edges = self.g().edges;
        let mut best: Option<i64> = None;
        let mut i: usize = 0;
        let n = self.graph.nodes.len();
        while i < n
            invariant
                0 <= i <= n,
                n == nodes.len(),
                nodes == self.g().nodes,
                spec_best_min(nodes, i as int, 0, self.win(), best),
            decreases n - i,
        {
            let times = &self.graph.nodes[i].times;
            proof {
                assert(times@ == nodes[i as int].times);
            }
            let mut j: usize = 0;
            let m = times.len();
            while j < m
                invariant
                    0 <= j <= m,
                    0 <= i < n,
                    n == nodes.len(),
                    nodes == self.g().nodes,
                    m == nodes[i as int].times.len(),
                    times@ == nodes[i as int].times,
                    spec_best_min(nodes, i as int, j as int, self.win(), best),
                decreases m - j,
            {
                let t = times[j];
                if win_has(&self.w, t) {
                    match best {
                        None => {
                            best = Some(t);
                        },
                        Some(b) => {
                            if t < b {
                                best = Some(t);
                            }
                        },
                    }
                }
                proof {
                    assert(spec_best_min(nodes, i as int, j as int + 1, self.win(), best));
                }
                j = j + 1;
            }
            proof {
                assert(spec_best_min(nodes, i as int + 1, 0, self.win(), best));
            }
            i = i + 1;
        }
        proof {
            lemma_best_min_to_cbest(self.g(), self.win(), self.lids(), best);
        }
        let ne = self.graph.edges.len();
        let mut k: usize = 0;
        while k < ne
            invariant
                0 <= k <= ne,
                ne == edges.len(),
                edges == self.g().edges,
                self.wf(),
                spec_cbest_min(self.g(), self.win(), self.lids(), k as int, 0, best),
            decreases ne - k,
        {
            if self.layers.has(self.graph.edges[k].layer) {
                let times = &self.graph.edges[k].times;
                proof {
                    assert(times@ == edges[k as int].times);
                }
                let mut j: usize = 0;
                let m = times.len();
                while j < m
                    invariant
                        0 <= j <= m,
                        0 <= k < ne,
                        ne == edges.len(),
                        edges == self.g().edges,
                        self.wf(),
                        m == edges[k as int].times.len(),
                        times@ == edges[k as int].times,
                        spec_cbest_min(self.g(), self.win(), self.lids(), k as int, j as int, best),
                    decreases m - j,
                {
                    let t = times[j];
                    if win_has(&self.w, t) {
                        match best {
                            None => {
                                best = Some(t);
                            },
                            Some(b) => {
                                if t < b {
                                    best = Some(t);
                                }
                            },
                        }
                        proof {
                            assert(edges[k as int].times[j as int] == t);
                        }
                    }
                    proof {
                        assert(spec_cbest_min(
                            self.g(),
                            self.win(),
                            self.lids(),
                            k as int,
                            j as int + 1,
                            best,
                        ));
                    }
                    j = j + 1;
                }
                proof {
                    assert(spec_cbest_min(
                        self.g(),
                        self.win(),
                        self.lids(),
                        k as int + 1,
                        0,
                        best,
                    ));
                }
            } else {
                proof {
                    assert(spec_cbest_min(
                        self.g(),
                        self.win(),
                        self.lids(),
                        k as int + 1,
                        0,
                        best,
                    ));
                }
            }
            k = k + 1;
        }
        proof {
            lemma_cbest_min_final(self.g(), self.win(), self.lids(), best);
        }
        best
    }

    /// The greatest event time the view can see: over the nodes' own
    /// histories and the selected edges' event lists.
    #[verifier::rlimit(100)]
    pub fn latest_time(&self) -> (r: Option<i64>)
        requires
            self.wf(),
        ensures
            match r {
                None => spec_no_time(self.g(), self.win(), self.lids()),
                Some(m) => spec_is_latest(self.g(), self.win(), self.lids(), m),
            },
    {
        let ghost nodes = self.g().nodes;
        let ghost edges = self.g().edges;
        let mut best: Option<i64> = None;
        let mut i: usize = 0;
        let n = self.graph.nodes.len();
        while i < n
            invariant
                0 <= i <= n,
                n == nodes.len(),
                nodes == self.g().nodes,
                spec_best_max(nodes, i as int, 0, self.win(), best),
            decreases n - i,
        {
            let times = &self.graph.nodes[i].times;
            proof {
                assert(times@ == nodes[i as int].times);
            }
            let mut j: usize = 0;
            let m = times.len();
            while j < m
                invariant
                    0 <= j <= m,
                    0 <= i < n,
                    n == nodes.len(),
                    nodes == self.g().nodes,
                    m == nodes[i as int].times.len(),
                    times@ == nodes[i as int].times,
                    spec_best_max(nodes, i as int, j as int, self.win(), best),
                decreases m - j,
            {
                let t = times[j];
                if win_has(&self.w, t) {
                    match best {
                        None => {
                            best = Some(t);
                        },
                        Some(b) => {
                            if t > b {
                                best = Some(t);
                            }
                        },
                    }
                }
                proof {
                    assert(spec_best_max(nodes, i as int, j as int + 1, self.win(), best));
                }
                j = j + 1;
            }
            proof {
                assert(spec_best_max(nodes, i as int + 1, 0, self.win(), best));
            }
            i = i + 1;
        }
        proof {
            lemma_best_max_to_cbest(self.g(), self.win(), self.lids(), best);
        }
        let ne = self.graph.edges.len();
        let mut k: usize = 0;
        while k < ne
            invariant
                0 <= k <= ne,
                ne == edges.len(),
                edges == self.g().edges,
                self.wf(),
                spec_cbest_max(self.g(), self.win(), self.lids(), k as int, 0, best),
            decreases ne - k,
        {
            if self.layers.has(self.graph.edges[k].layer) {
                let times = &self.graph.edges[k].times;
                proof {
                    assert(times@ == edges[k as int].times);
                }
                let mut j: usize = 0;
                let m = times.len();
                while j < m
                    invariant
                        0 <= j <= m,
                        0 <= k < ne,
                        ne == edges.len(),
                        edges == self.g().edges,
                        self.wf(),
                        m == edges[k as int].times.len(),
                        times@ == edges[k as int].times,
                        spec_cbest_max(self.g(), self.win(), self.lids(), k as int, j as int, best),
                    decreases m - j,
                {
                    let t = times[j];
                    if win_has(&self.w, t) {
                        match best {
                            None => {
                                best = Some(t);
                            },
                            Some(b) => {
                                if t > b {
                                    best = Some(t);
                                }
                            },
                        }
                        proof {
                            assert(edges[k as int].times[j as int] == t);
                        }
                    }
                    proof {
                        assert(spec_cbest_max(
                            self.g(),
                            self.win(),
                            self.lids(),
                            k as int,
                            j as int + 1,
                            best,
                        ));
                    }
                    j = j + 1;
                }
                proof {
                    assert(spec_cbest_max(
                        self.g(),
                        self.win(),
                        self.lids(),
                        k as int + 1,
                        0,
                        best,
                    ));
                }
            } else {
                proof {
                    assert(spec_cbest_max(
                        self.g(),
                        self.win(),
                        self.lids(),
                        k as int + 1,
                        0,
                        best,
                    ));
                }
            }
            k = k + 1;
        }
        proof {
            lemma_cbest_max_final(self.g(), self.win(), self.lids(), best);
        }
        best
    }
}

/// The node phase's running best carries over into the two-phase one.
proof fn lemma_best_min_to_cbest(g: GraphV, w: Option<(i64, i64)>, ls: LayerIds, best: Option<i64>)
    requires
        spec_best_min(g.nodes, g.nodes.len() as int, 0, w, best),
    ensures
        spec_cbest_min(g, w, ls, 0, 0, best),
{
    match best {
        None => {
            assert forall|a: int, b: int|
                0 <= a < g.nodes.len() && 0 <= b < g.nodes[a].times.len() implies !spec_win_has(
                w,
                #[trigger] g.nodes[a].times[b],
            ) by {
                assert(spec_seen(g.nodes.len() as int, 0, a, b));
            }
        },
        Some(m) => {
            let (a, b) = choose|a: int, b: int|
                0 <= a < g.nodes.len() && 0 <= b < g.nodes[a].times.len() && spec_seen(
                    g.nodes.len() as int,
                    0,
                    a,
                    b,
                ) && #[trigger] g.nodes[a].times[b] == m;
            assert(spec_node_wit(g.nodes, m));
            assert forall|a2: int, b2: int|
                0 <= a2 < g.nodes.len() && 0 <= b2 < g.nodes[a2].times.len() && spec_win_has(
                    w,
                    #[trigger] g.nodes[a2].times[b2],
                ) implies m <= g.nodes[a2].times[b2] by {
                assert(spec_seen(g.nodes.len() as int, 0, a2, b2));
            }
        },
    }
}

/// And the same for the greatest time.
proof fn lemma_best_max_to_cbest(g: GraphV, w: Option<(i64, i64)>, ls: LayerIds, best: Option<i64>)
    requires
        spec_best_max(g.nodes, g.nodes.len() as int, 0, w, best),
    ensures
        spec_cbest_max(g, w, ls, 0, 0, best),
{
    match best {
        None => {
            assert forall|a: int, b: int|
                0 <= a < g.nodes.len() && 0 <= b < g.nodes[a].times.len() implies !spec_win_has(
                w,
                #[trigger] g.nodes[a].times[b],
            ) by {
                assert(spec_seen(g.nodes.len() as int, 0, a, b));
            }
        },
        Some(m) => {
            let (a, b) = choose|a: int, b: int|
                0 <= a < g.nodes.len() && 0 <= b < g.nodes[a].times.len() && spec_seen(
                    g.nodes.len() as int,
                    0,
                    a,
                    b,
                ) && #[trigger] g.nodes[a].times[b] == m;
            assert(spec_node_wit(g.nodes, m));
            assert forall|a2: int, b2: int|
                0 <= a2 < g.nodes.len() && 0 <= b2 < g.nodes[a2].times.len() && spec_win_has(
                    w,
                    #[trigger] g.nodes[a2].times[b2],
                ) implies g.nodes[a2].times[b2] <= m by {
                assert(spec_seen(g.nodes.len() as int, 0, a2, b2));
            }
        },
    }
}

/// A finished two-phase scan yields the least visible time.
proof fn lemma_cbest_min_final(g: GraphV, w: Option<(i64, i64)>, ls: LayerIds, best: Option<i64>)
    requires
        spec_cbest_min(g, w, ls, g.edges.len() as int, 0, best),
    ensures
        match best {
            None => spec_no_time(g, w, ls),
            Some(m) => spec_is_earliest(g, w, ls, m),
        },
{
    match best {
        None => {
            assert forall|t: i64| !spec_scope_time(g, w, ls, t) by {
                if spec_scope_time(g, w, ls, t) {
                    if spec_node_event_at(g, t) {
                        let a = choose|a: int|
                            0 <= a < g.nodes.len() && (#[trigger] g.nodes[a]).times.contains(t);
                        let b = choose|b: int|
                            0 <= b < g.nodes[a].times.len() && g.nodes[a].times[b] == t;
                        assert(!spec_win_has(w, g.nodes[a].times[b]));
                    } else {
                        let k = choose|k: int|
                            0 <= k < g.edges.len() && spec_lids_has(
                                ls,
                                (#[trigger] g.edges[k]).layer,
                            ) && g.edges[k].times.contains(t);
                        let b = choose|b: int|
                            0 <= b < g.edges[k].times.len() && g.edges[k].times[b] == t;
                        assert(spec_seen(g.edges.len() as int, 0, k, b));
                        assert(!spec_win_has(w, g.edges[k].times[b]));
                    }
                }
            }
        },
        Some(m) => {
            if spec_node_wit(g.nodes, m) {
                let (a, b) = choose|a: int, b: int|
                    0 <= a < g.nodes.len() && 0 <= b < g.nodes[a].times.len()
                        && #[trigger] g.nodes[a].times[b] == m;
                assert(g.nodes[a].times.contains(m));
                assert(spec_node_event_at(g, m));
            } else {
                let (k, b) = choose|k: int, b: int|
                    0 <= k < g.edges.len() && 0 <= b < g.edges[k].times.len() && spec_seen(
                        g.edges.len() as int,
                        0,
                        k,
                        b,
                    ) && spec_lids_has(ls, g.edges[k].layer) && #[trigger] g.edges[k].times[b]
                        == m;
                assert(g.edges[k].times.contains(m));
                assert(spec_edge_event_at(g, ls, m));
            }
            assert(spec_scope_time(g, w, ls, m));
            assert forall|t: i64| spec_scope_time(g, w, ls, t) implies m <= t by {
                if spec_node_event_at(g, t) {
                    let a = choose|a: int|
                        0 <= a < g.nodes.len() && (#[trigger] g.nodes[a]).times.contains(t);
                    let b = choose|b: int|
                        0 <= b < g.nodes[a].times.len() && g.nodes[a].times[b] == t;
                    assert(spec_win_has(w, g.nodes[a].times[b]) ==> m <= g.nodes[a].times[b]);
                } else {
                    let k = choose|k: int|
                        0 <= k < g.edges.len() && spec_lids_has(ls, (#[trigger] g.edges[k]).layer)
                            && g.edges[k].times.contains(t);
                    let b = choose|b: int|
                        0 <= b < g.edges[k].times.len() && g.edges[k].times[b] == t;
                    assert(spec_seen(g.edges.len() as int, 0, k, b));
                    assert(spec_win_has(w, g.edges[k].times[b]) ==> m <= g.edges[k].times[b]);
                }
            }
        },
    }
}

/// A finished two-phase scan yields the greatest visible time.
proof fn lemma_cbest_max_final(g: GraphV, w: Option<(i64, i64)>, ls: LayerIds, best: Option<i64>)
    requires
        spec_cbest_max(g, w, ls, g.edges.len() as int, 0, best),
    ensures
        match best {
            None => spec_no_time(g, w, ls),
            Some(m) => spec_is_latest(g, w, ls, m),
        },
{
    match best {
        None => {
            assert forall|t: i64| !spec_scope_time(g, w, ls, t) by {
                if spec_scope_time(g, w, ls, t) {
                    if spec_node_event_at(g, t) {
                        let a = choose|a: int|
                            0 <= a < g.nodes.len() && (#[trigger] g.nodes[a]).times.contains(t);
                        let b = choose|b: int|
                            0 <= b < g.nodes[a].times.len() && g.nodes[a].times[b] == t;
                        assert(!spec_win_has(w, g.nodes[a].times[b]));
                    } else {
                        let k = choose|k: int|
                            0 <= k < g.edges.len() && spec_lids_has(
                                ls,
                                (#[trigger] g.edges[k]).layer,
                            ) && g.edges[k].times.contains(t);
                        let b = choose|b: int|
                            0 <= b < g.edges[k].times.len() && g.edges[k].times[b] == t;
                        assert(spec_seen(g.edges.len() as int, 0, k, b));
                        assert(!spec_win_has(w, g.edges[k].times[b]));
                    }
                }
            }
        },
        Some(m) => {
            if spec_node_wit(g.nodes, m) {
                let (a, b) = choose|a: int, b: int|
                    0 <= a < g.nodes.len() && 0 <= b < g.nodes[a].times.len()
                        && #[trigger] g.nodes[a].times[b] == m;
                assert(g.nodes[a].times.contains(m));
                assert(spec_node_event_at(g, m));
            } else {
                let (k, b) = choose|k: int, b: int|
                    0 <= k < g.edges.len() && 0 <= b < g.edges[k].times.len() && spec_seen(
                        g.edges.len() as int,
                        0,
                        k,
                        b,
                    ) && spec_lids_has(ls, g.edges[k].layer) && #[trigger] g.edges[k].times[b]
                        == m;
                assert(g.edges[k].times.contains(m));
                assert(spec_edge_event_at(g, ls, m));
            }
            assert(spec_scope_time(g, w, ls, m));
            assert forall|t: i64| spec_scope_time(g, w, ls, t) implies t <= m by {
                if spec_node_event_at(g, t) {
                    let a = choose|a: int|
                        0 <= a < g.nodes.len() && (#[trigger] g.nodes[a]).times.contains(t);
                    let b = choose|b: int|
                        0 <= b < g.nodes[a].times.len() && g.nodes[a].times[b] == t;
                    assert(spec_win_has(w, g.nodes[a].times[b]) ==> g.nodes[a].times[b] <= m);
                } else {
                    let k = choose|k: int|
                        0 <= k < g.edges.len() && spec_lids_has(ls, (#[trigger] g.edges[k]).layer)
                            && g.edges[k].times.contains(t);
                    let b = choose|b: int|
                        0 <= b < g.edges[k].times.len() && g.edges[k].times[b] == t;
                    assert(spec_seen(g.edges.len() as int, 0, k, b));
                    assert(spec_win_has(w, g.edges[k].times[b]) ==> g.edges[k].times[b] <= m);
                }
            }
        },
    }
}

// ---------------------------------------------------------------------------
// Layer selection and composition.
// ---------------------------------------------------------------------------

impl Graph {
    /// The resolved id set of a name selection; `None` exactly when a
    /// single unknown name was demanded.
    pub(crate) fn resolve_sel(&self, sel: &Layer) -> (r: Option<LayerIds>)
        requires
            self.wf(),
        ensures
            r is Some <==> spec_sel_known(self@.layers, *sel),
            r is Some ==> spec_lids_wf(r.unwrap(), self@.layers.len() as int),
            r is Some ==> (forall|l: int|
                0 <= l < self@.layers.len() ==> spec_lids_has(r.unwrap(), l) == spec_sel_has(
                    self@.layers,
                    *sel,
                    l,
                )),
    {
        match sel {
            Layer::All => {
                let r = LayerIds::All;
                proof {
                    assert forall|l: int| 0 <= l < self@.layers.len() implies spec_lids_has(
                        r,
                        l,
                    ) == spec_sel_has(self@.layers, *sel, l) by {}
                }
                Some(r)
            },
            Layer::Default => {
                let mut v: Vec<usize> = Vec::new();
                v.push(0);
                let r = LayerIds::List(v);
                proof {
                    assert forall|l: int| 0 <= l < self@.layers.len() implies spec_lids_has(
                        r,
                        l,
                    ) == spec_sel_has(self@.layers, *sel, l) by {
                        if l == 0 {
                            assert(v@[0] as int == 0);
                            assert(spec_ids_has(v@, 0));
                        }
                        if spec_ids_has(v@, l) {
                            let i = choose|i: int| 0 <= i < v@.len() && (#[trigger] v@[i]) as int
                                == l;
                            assert(l == 0);
                        }
                    }
                }
                Some(r)
            },
            Layer::One(s) => match self.find_layer(s) {
                None => None,
                Some(i) => {
                    let mut v: Vec<usize> = Vec::new();
                    v.push(i);
                    let r = LayerIds::List(v);
                    proof {
                        assert forall|l: int| 0 <= l < self@.layers.len() implies spec_lids_has(
                            r,
                            l,
                        ) == spec_sel_has(self@.layers, *sel, l) by {
                            if l == i as int {
                                assert(v@[0] as int == l);
                                assert(spec_ids_has(v@, l));
                            }
                            if spec_ids_has(v@, l) {
                                let b = choose|b: int|
                                    0 <= b < v@.len() && (#[trigger] v@[b]) as int == l;
                                assert(l == i as int);
                            }
                        }
                    }
                    Some(r)
                },
            },
            Layer::Many(_) => {
                let mut ids: Vec<usize> = Vec::new();
                let mut l: usize = 0;
                let n = self.layers.len();
                while l < n
                    invariant
                        0 <= l <= n,
                        n == self@.layers.len(),
                        self.wf(),
                        spec_ids_sorted(ids@),
                        forall|b: int| 0 <= b < ids@.len() ==> (#[trigger] ids@[b]) < l,
                        forall|l0: int|
                            0 <= l0 < l ==> spec_ids_has(ids@, l0) == spec_sel_has(
                                self@.layers,
                                *sel,
                                l0,
                            ),
                    decreases n - l,
                {
                    let ghost pre = ids@;
                    if sel_matches(self, sel, l) {
                        ids.push(l);
                        proof {
                            assert(ids@[ids@.len() - 1] as int == l as int);
                            assert(spec_ids_has(ids@, l as int));
                        }
                    }
                    proof {
                        assert forall|l0: int|
                            0 <= l0 < l + 1 implies spec_ids_has(ids@, l0) == spec_sel_has(
                            self@.layers,
                            *sel,
                            l0,
                        ) by {
                            if l0 < l {
                                if spec_ids_has(pre, l0) {
                                    let b = choose|b: int|
                                        0 <= b < pre.len() && (#[trigger] pre[b]) as int == l0;
                                    assert(ids@[b] as int == l0);
                                    assert(spec_ids_has(ids@, l0));
                                }
                                if spec_ids_has(ids@, l0) {
                                    let b = choose|b: int|
                                        0 <= b < ids@.len() && (#[trigger] ids@[b]) as int == l0;
                                    assert(b < pre.len());
                                    assert(pre[b] as int == l0);
                                    assert(spec_ids_has(pre, l0));
                                }
                            } else {
                                if spec_ids_has(ids@, l0) && !spec_sel_has(
                                    self@.layers,
                                    *sel,
                                    l0,
                                ) {
                                    let b = choose|b: int|
                                        0 <= b < ids@.len() && (#[trigger] ids@[b]) as int == l0;
                                    assert(b < pre.len());
                                    assert(pre[b] < l);
                                    assert(false);
                                }
                            }
                        }
                    }
                    l = l + 1;
                }
                Some(LayerIds::List(ids))
            },
        }
    }
}

/// The intersection of two selections, pointwise on membership.
pub(crate) fn lids_intersect(a: &LayerIds, b: &LayerIds) -> (r: LayerIds)
    requires
        spec_lids_sorted(*a),
        spec_lids_sorted(*b),
    ensures
        forall|l: int| spec_lids_has(r, l) == (spec_lids_has(*a, l) && spec_lids_has(*b, l)),
        forall|n: int| spec_lids_wf(*a, n) && spec_lids_wf(*b, n) ==> spec_lids_wf(r, n),
        spec_lids_sorted(r),
{
    match (a, b) {
        (LayerIds::All, _) => b.duplicate(),
        (_, LayerIds::All) => a.duplicate(),
        (LayerIds::List(u), LayerIds::List(_)) => {
            let mut ids: Vec<usize> = Vec::new();
            let mut i: usize = 0;
            let n = u.len();
            while i < n
                invariant
                    0 <= i <= n,
                    n == u@.len(),
                    a == LayerIds::List(*u),
                    spec_ids_sorted(u@),
                    spec_ids_sorted(ids@),
                    forall|p: int|
                        0 <= p < ids@.len() ==> exists|q: int|
                            0 <= q < i && (#[trigger] ids@[p]) == u@[q],
                    forall|l0: int|
                        spec_ids_has(ids@, l0) == (spec_prefix_has(u@, i as int, l0)
                            && spec_lids_has(*b, l0)),
                decreases n - i,
            {
                let ghost pre = ids@;
                let x = u[i];
                if b.has(x) {
                    proof {
                        assert forall|p: int| 0 <= p < pre.len() implies pre[p] < x by {
                            let q = choose|q: int|
                                0 <= q < i && (#[trigger] pre[p]) == u@[q];
                            assert(u@[q] < u@[i as int]);
                        }
                    }
                    ids.push(x);
                }
                proof {
                    assert forall|p: int|
                        0 <= p < ids@.len() implies exists|q: int|
                        0 <= q < i + 1 && (#[trigger] ids@[p]) == u@[q] by {
                        if p < pre.len() {
                            let q = choose|q: int| 0 <= q < i && (#[trigger] pre[p]) == u@[q];
                            assert(ids@[p] == u@[q]);
                        } else {
                            assert(ids@[p] == u@[i as int]);
                        }
                    }
                    assert forall|l0: int|
                        spec_ids_has(ids@, l0) == (spec_prefix_has(u@, i as int + 1, l0)
                            && spec_lids_has(*b, l0)) by {
                        if spec_ids_has(ids@, l0) {
                            let p = choose|p: int|
                                0 <= p < ids@.len() && (#[trigger] ids@[p]) as int == l0;
                            if p < pre.len() {
                                assert(pre[p] as int == l0);
                                assert(spec_ids_has(pre, l0));
                                let q = choose|q: int|
                                    0 <= q < i && (#[trigger] u@[q]) as int == l0;
                                assert(spec_prefix_has(u@, i as int + 1, l0));
                            } else {
                                assert(ids@[p] == u@[i as int]);
                                assert(spec_prefix_has(u@, i as int + 1, l0));
                            }
                        }
                        if spec_prefix_has(u@, i as int + 1, l0) && spec_lids_has(*b, l0) {
                            let q = choose|q: int|
                                0 <= q < i + 1 && (#[trigger] u@[q]) as int == l0;
                            if q < i {
                                assert(spec_prefix_has(u@, i as int, l0));
                                assert(spec_ids_has(pre, l0));
                                let p = choose|p: int|
                                    0 <= p < pre.len() && (#[trigger] pre[p]) as int == l0;
                                assert(ids@[p] as int == l0);
                                assert(spec_ids_has(ids@, l0));
                            } else {
                                assert(u@[i as int] as int == l0);
                                assert(ids@.len() > pre.len());
                                assert(ids@[ids@.len() - 1] as int == l0);
                                assert(spec_ids_has(ids@, l0));
                            }
                        }
                    }
                }
                i = i + 1;
            }
            proof {
                assert forall|l0: int|
                    spec_lids_has(LayerIds::List(ids), l0) == (spec_lids_has(*a, l0)
                        && spec_lids_has(*b, l0)) by {
                    if spec_ids_has(u@, l0) {
                        let q = choose|q: int|
                            0 <= q < u@.len() && (#[trigger] u@[q]) as int == l0;
                        assert(spec_prefix_has(u@, n as int, l0));
                    }
                    if spec_prefix_has(u@, n as int, l0) {
                        let q = choose|q: int| 0 <= q < n && (#[trigger] u@[q]) as int == l0;
                        assert(spec_ids_has(u@, l0));
                    }
                }
                assert forall|nn: int|
                    spec_lids_wf(*a, nn) && spec_lids_wf(*b, nn) implies spec_lids_wf(
                    LayerIds::List(ids),
                    nn,
                ) by {
                    assert forall|p: int| 0 <= p < ids@.len() implies (#[trigger] ids@[p]) < nn by {
                        let q = choose|q: int|
                            0 <= q < n && (#[trigger] ids@[p]) == u@[q];
                        assert(u@[q] < nn);
                    }
                }
            }
            LayerIds::List(ids)
        },
    }
}

/// An id list in ascending order (or the full set).
pub open spec fn spec_lids_sorted(ls: LayerIds) -> bool {
    match ls {
        LayerIds::All => true,
        LayerIds::List(v) => spec_ids_sorted(v@),
    }
}

/// Whether the first `upto` entries of the id list hold `l`.
pub open spec fn spec_prefix_has(v: Seq<usize>, upto: int, l: int) -> bool {
    exists|q: int| 0 <= q < upto && (#[trigger] v[q]) as int == l
}

impl<'a> GraphView<'a> {
    /// Narrows the view by a layer selection; the resulting set is the
    /// intersection with the current one. `None` exactly when a single
    /// unknown name was demanded.
    pub fn layer(&self, sel: &Layer) -> (r: Option<GraphView<'a>>)
        requires
            self.wf(),
        ensures
            r is Some <==> spec_sel_known(self.g().layers, *sel),
            r is Some ==> ({
                let v = r.unwrap();
                &&& v.wf()
                &&& v.g() == self.g()
                &&& v.win() == self.win()
                &&& (forall|l: int|
                    0 <= l < self.g().layers.len() ==> spec_lids_has(v.lids(), l) == (
                    spec_lids_has(self.lids(), l) && spec_sel_has(self.g().layers, *sel, l)))
            }),
    {
        match self.graph.resolve_sel(sel) {
            None => None,
            Some(resolved) => {
                let merged = lids_intersect(&self.layers, &resolved);
                Some(GraphView { graph: self.graph, w: self.w, layers: merged, bounds: self.bounds })
            },
        }
    }

    /// The view narrowed to the default layer alone.
    pub fn default_layer(&self) -> (r: GraphView<'a>)
        requires
            self.wf(),
        ensures
            r.wf(),
            r.g() == self.g(),
            r.win() == self.win(),
            forall|l: int| spec_lids_has(r.lids(), l) == (l == 0),
    {
        let mut v: Vec<usize> = Vec::new();
        v.push(0);
        let r = GraphView { graph: self.graph, w: self.w, layers: LayerIds::List(v), bounds: self.bounds };
        proof {
            assert forall|l: int| spec_lids_has(r.lids(), l) == (l == 0) by {
                if l == 0 {
                    assert(v@[0] as int == 0);
                    assert(spec_ids_has(v@, 0));
                }
                if spec_ids_has(v@, l) {
                    let i = choose|i: int| 0 <= i < v@.len() && (#[trigger] v@[i]) as int == l;
                    assert(l == 0);
                }
            }
        }
        r
    }
}

/// Layer composition: narrowing by `a` and then by `b` shows the same
/// store, window and layer membership as narrowing once by the
/// conjunction of the two selections.
pub proof fn lemma_layer_compose(
    v: GraphView<'_>,
    va: GraphView<'_>,
    vab: GraphView<'_>,
    a: Layer,
    b: Layer,
    vboth: GraphView<'_>,
)
    requires
        v.wf(),
        va.g() == v.g(),
        va.win() == v.win(),
        forall|l: int|
            0 <= l < v.g().layers.len() ==> spec_lids_has(va.lids(), l) == (spec_lids_has(
                v.lids(),
                l,
            ) && spec_sel_has(v.g().layers, a, l)),
        vab.g() == va.g(),
        vab.win() == va.win(),
        forall|l: int|
            0 <= l < v.g().layers.len() ==> spec_lids_has(vab.lids(), l) == (spec_lids_has(
                va.lids(),
                l,
            ) && spec_sel_has(v.g().layers, b, l)),
        vboth.g() == v.g(),
        vboth.win() == v.win(),
        forall|l: int|
            0 <= l < v.g().layers.len() ==> spec_lids_has(vboth.lids(), l) == (spec_lids_has(
                v.lids(),
                l,
            ) && spec_sel_has(v.g().layers, a, l) && spec_sel_has(v.g().layers, b, l)),
    ensures
        vab.g() == vboth.g(),
        vab.win() == vboth.win(),
        forall|l: int|
            0 <= l < v.g().layers.len() ==> spec_lids_has(vab.lids(), l) == spec_lids_has(
                vboth.lids(),
                l,
            ),
{
}

// ---------------------------------------------------------------------------
// Entity lookups.
// ---------------------------------------------------------------------------

/// Whether some visible record joins exactly this pair of internal ids.
pub open spec fn spec_pair_visible(
    g: GraphV,
    w: Option<(i64, i64)>,
    ls: LayerIds,
    si: int,
    di: int,
) -> bool {
    exists|k: int|
        0 <= k < g.edges.len() && (#[trigger] g.edges[k]).src == si && g.edges[k].dst == di
            && spec_edge_in_scope(g.edges[k], w, ls)
}

/// Whether the node list holds the internal id.
pub open spec fn spec_nvs_has(s: Seq<crate::node::NodeView<'_>>, vid: int) -> bool {
    exists|p: int| 0 <= p < s.len() && (#[trigger] s[p]).vid as int == vid
}

/// Whether the edge list holds the pair.
pub open spec fn spec_evs_has(s: Seq<crate::edge::EdgeView<'_>>, si: int, di: int) -> bool {
    exists|p: int|
        0 <= p < s.len() && (#[trigger] s[p]).src as int == si && s[p].dst as int == di
}

impl<'a> GraphView<'a> {
    /// The visible node with this external id.
    pub fn node(&self, id: &NodeId) -> (r: Option<crate::node::NodeView<'a>>)
        requires
            self.wf(),
        ensures
            r is Some <==> spec_has_node(self.g(), self.win(), self.lids(), id@),
            r is Some ==> ({
                let v = r.unwrap();
                &&& v.wf()
                &&& v.graph == self.graph
                &&& v.w == self.w
                &&& (forall|l: int| spec_lids_has(v.layers, l) == spec_lids_has(self.layers, l))
                &&& spec_node_index(self.g().nodes, spec_canon_gid(id@)) == Some(v.vid as int)
            }),
    {
        let cid = id.canonical();
        match self.graph.find_node(&cid) {
            None => None,
            Some(i) => {
                if node_visible_exec(self.graph, &self.w, &self.layers, i) {
                    Some(
                        crate::node::NodeView {
                            graph: self.graph,
                            w: self.w,
                            layers: self.layers.duplicate(),
                            vid: i,
                        },
                    )
                } else {
                    None
                }
            },
        }
    }

    /// The older name of `node`.
    pub fn vertex(&self, id: &NodeId) -> (r: Option<crate::node::NodeView<'a>>)
        requires
            self.wf(),
        ensures
            r is Some <==> spec_has_node(self.g(), self.win(), self.lids(), id@),
            r is Some ==> ({
                let v = r.unwrap();
                &&& v.wf()
                &&& v.graph == self.graph
                &&& v.w == self.w
                &&& (forall|l: int| spec_lids_has(v.layers, l) == spec_lids_has(self.layers, l))
                &&& spec_node_index(self.g().nodes, spec_canon_gid(id@)) == Some(v.vid as int)
            }),
    {
        self.node(id)
    }

    /// The visible nodes, ascending by internal id.
    pub fn vertices(&self) -> (r: Vec<crate::node::NodeView<'a>>)
        requires
            self.wf(),
        ensures
            r@.len() == spec_count_visible(
                self.g(),
                self.g().nodes.len() as int,
                self.win(),
                self.lids(),
            ),
            forall|p: int|
                0 <= p < r@.len() ==> ((#[trigger] r@[p]).wf() && r@[p].graph == self.graph
                    && r@[p].w == self.w && (r@[p].vid as int) < self.g().nodes.len()
                    && spec_node_visible(self.g(), self.win(), self.lids(), r@[p].vid as int) && (
                forall|l: int|
                    spec_lids_has(r@[p].layers, l) == spec_lids_has(self.layers, l))),
            forall|p: int, q: int|
                #![trigger r@[p], r@[q]]
                0 <= p < q < r@.len() ==> r@[p].vid < r@[q].vid,
            forall|v: int|
                0 <= v < self.g().nodes.len() && #[trigger] spec_node_visible(
                    self.g(),
                    self.win(),
                    self.lids(),
                    v,
                ) ==> spec_nvs_has(r@, v),
    {
        let mut out: Vec<crate::node::NodeView<'a>> = Vec::new();
        let mut i: usize = 0;
        let n = self.graph.nodes.len();
        while i < n
            invariant
                0 <= i <= n,
                n == self.g().nodes.len(),
                self.wf(),
                out@.len() == spec_count_visible(self.g(), i as int, self.win(), self.lids()),
                forall|p: int|
                    0 <= p < out@.len() ==> ((#[trigger] out@[p]).wf() && out@[p].graph
                        == self.graph && out@[p].w == self.w && (out@[p].vid as int)
                        < self.g().nodes.len() && spec_node_visible(
                        self.g(),
                        self.win(),
                        self.lids(),
                        out@[p].vid as int,
                    ) && (forall|l: int|
                        spec_lids_has(out@[p].layers, l) == spec_lids_has(self.layers, l))),
                forall|p: int| 0 <= p < out@.len() ==> (#[trigger] out@[p]).vid < i,
                forall|p: int, q: int|
                    #![trigger out@[p], out@[q]]
                    0 <= p < q < out@.len() ==> out@[p].vid < out@[q].vid,
                forall|v: int|
                    0 <= v < i && #[trigger] spec_node_visible(
                        self.g(),
                        self.win(),
                        self.lids(),
                        v,
                    ) ==> spec_nvs_has(out@, v),
            decreases n - i,
        {
            let ghost pre = out@;
            if node_visible_exec(self.graph, &self.w, &self.layers, i) {
                out.push(
                    crate::node::NodeView {
                        graph: self.graph,
                        w: self.w,
                        layers: self.layers.duplicate(),
                        vid: i,
                    },
                );
                proof {
                    assert(out@[out@.len() - 1].vid == i);
                }
            }
            proof {
                assert forall|v: int|
                    0 <= v < i + 1 && #[trigger] spec_node_visible(
                        self.g(),
                        self.win(),
                        self.lids(),
                        v,
                    ) implies spec_nvs_has(out@, v) by {
                    if v < i {
                        let p = choose|p: int|
                            0 <= p < pre.len() && (#[trigger] pre[p]).vid as int == v;
                        assert(out@[p].vid as int == v);
                    } else {
                        assert(out@[out@.len() - 1].vid as int == v);
                    }
                }
            }
            i = i + 1;
        }
        out
    }

    /// The visible edge from `src` to `dst`, over all the view's layers.
    pub fn edge(&self, src: &NodeId, dst: &NodeId) -> (r: Option<crate::edge::EdgeView<'a>>)
        requires
            self.wf(),
        ensures
            r is Some <==> spec_has_edge(self.g(), self.win(), self.lids(), src@, dst@),
            r is Some ==> ({
                let e = r.unwrap();
                &&& e.wf()
                &&& e.graph == self.graph
                &&& e.w == self.w
                &&& e.time_pin is None
                &&& e.layer_pin is None
                &&& (forall|l: int| spec_lids_has(e.layers, l) == spec_lids_has(self.layers, l))
                &&& spec_node_index(self.g().nodes, spec_canon_gid(src@)) == Some(e.src as int)
                &&& spec_node_index(self.g().nodes, spec_canon_gid(dst@)) == Some(e.dst as int)
            }),
    {
        let csrc = src.canonical();
        let cdst = dst.canonical();
        let si = match self.graph.find_node(&csrc) {
            Some(i) => i,
            None => {
                return None;
            },
        };
        let di = match self.graph.find_node(&cdst) {
            Some(i) => i,
            None => {
                return None;
            },
        };
        let mut k: usize = 0;
        let n = self.graph.edges.len();
        while k < n
            invariant
                0 <= k <= n,
                n == self.g().edges.len(),
                forall|b: int|
                    0 <= b < k ==> !((#[trigger] self.g().edges[b]).src == si as int
                        && self.g().edges[b].dst == di as int && spec_edge_in_scope(
                        self.g().edges[b],
                        self.win(),
                        self.lids(),
                    )),
            decreases n - k,
        {
            let e = &self.graph.edges[k];
            if e.src == si && e.dst == di && edge_in_scope(e, &self.w, &self.layers) {
                proof {
                    assert((self.g().edges[k as int]).src == si as int);
                }
                return Some(
                    crate::edge::EdgeView {
                        graph: self.graph,
                        w: self.w,
                        layers: self.layers.duplicate(),
                        src: si,
                        dst: di,
                        time_pin: None,
                        layer_pin: None,
                    },
                );
            }
            k = k + 1;
        }
        proof {
            if spec_has_edge(self.g(), self.win(), self.lids(), src@, dst@) {
                let b = choose|b: int|
                    0 <= b < self.g().edges.len() && (#[trigger] self.g().edges[b]).src
                        == si as int && self.g().edges[b].dst == di as int && spec_edge_in_scope(
                        self.g().edges[b],
                        self.win(),
                        self.lids(),
                    );
                assert(false);
            }
        }
        None
    }

    /// One edge view per visible `(src, dst)` pair, in the order the
    /// pairs' first visible records were created.
    pub fn edges(&self) -> (r: Vec<crate::edge::EdgeView<'a>>)
        requires
            self.wf(),
        ensures
            r@.len() == spec_count_pairs(
                self.g().edges,
                self.g().edges.len() as int,
                self.win(),
                self.lids(),
            ),
            forall|p: int|
                0 <= p < r@.len() ==> ((#[trigger] r@[p]).wf() && r@[p].graph == self.graph
                    && r@[p].w == self.w && r@[p].time_pin is None && r@[p].layer_pin is None
                    && spec_pair_visible(
                    self.g(),
                    self.win(),
                    self.lids(),
                    r@[p].src as int,
                    r@[p].dst as int,
                ) && (forall|l: int|
                    spec_lids_has(r@[p].layers, l) == spec_lids_has(self.layers, l))),
            forall|k: int|
                0 <= k < self.g().edges.len() && #[trigger] spec_pair_first(
                    self.g().edges,
                    k,
                    self.win(),
                    self.lids(),
                ) ==> spec_evs_has(r@, self.g().edges[k].src, self.g().edges[k].dst),
    {
        let mut out: Vec<crate::edge::EdgeView<'a>> = Vec::new();
        let mut k: usize = 0;
        let n = self.graph.edges.len();
        while k < n
            invariant
                0 <= k <= n,
                n == self.g().edges.len(),
                out@.len() == spec_count_pairs(self.g().edges, k as int, self.win(), self.lids()),
                forall|p: int|
                    0 <= p < out@.len() ==> ((#[trigger] out@[p]).wf() && out@[p].graph
                        == self.graph && out@[p].w == self.w && out@[p].time_pin is None
                        && out@[p].layer_pin is None && spec_pair_visible(
                        self.g(),
                        self.win(),
                        self.lids(),
                        out@[p].src as int,
                        out@[p].dst as int,
                    ) && (forall|l: int|
                        spec_lids_has(out@[p].layers, l) == spec_lids_has(self.layers, l))),
                forall|k0: int|
                    0 <= k0 < k && #[trigger] spec_pair_first(
                        self.g().edges,
                        k0,
                        self.win(),
                        self.lids(),
                    ) ==> spec_evs_has(out@, self.g().edges[k0].src, self.g().edges[k0].dst),
            decreases n - k,
        {
            let ghost pre = out@;
            let first = if edge_in_scope(&self.graph.edges[k], &self.w, &self.layers) {
                let mut seen = false;
                let mut j: usize = 0;
                while j < k
                    invariant
                        0 <= j <= k < n,
                        seen == exists|b: int|
                            0 <= b < j && (#[trigger] self.g().edges[b]).src
                                == self.g().edges[k as int].src && self.g().edges[b].dst
                                == self.g().edges[k as int].dst && spec_edge_in_scope(
                                self.g().edges[b],
                                self.win(),
                                self.lids(),
                            ),
                    decreases k - j,
                {
                    if !seen {
                        let ej = &self.graph.edges[j];
                        let ek = &self.graph.edges[k];
                        if ej.src == ek.src && ej.dst == ek.dst && edge_in_scope(
                            ej,
                            &self.w,
                            &self.layers,
                        ) {
                            proof {
                                assert((self.g().edges[j as int]).src
                                    == self.g().edges[k as int].src);
                            }
                            seen = true;
                        }
                    }
                    j = j + 1;
                }
                !seen
            } else {
                false
            };
            if first {
                proof {
                    assert(spec_pair_first(self.g().edges, k as int, self.win(), self.lids()));
                }
                let ek = &self.graph.edges[k];
                proof {
                    assert(spec_edge_wf(
                        self.g().edges[k as int],
                        self.g().nodes.len() as int,
                        self.g().layers.len() as int,
                    ));
                }
                out.push(
                    crate::edge::EdgeView {
                        graph: self.graph,
                        w: self.w,
                        layers: self.layers.duplicate(),
                        src: ek.src,
                        dst: ek.dst,
                        time_pin: None,
                        layer_pin: None,
                    },
                );
                proof {
                    assert(out@[out@.len() - 1].src as int == self.g().edges[k as int].src);
                }
            } else {
                proof {
                    assert(!spec_pair_first(self.g().edges, k as int, self.win(), self.lids()));
                }
            }
            proof {
                assert forall|k0: int|
                    0 <= k0 < k + 1 && #[trigger] spec_pair_first(
                        self.g().edges,
                        k0,
                        self.win(),
                        self.lids(),
                    ) implies spec_evs_has(out@, self.g().edges[k0].src, self.g().edges[k0].dst) by {
                    if k0 < k {
                        let p = choose|p: int|
                            0 <= p < pre.len() && (#[trigger] pre[p]).src as int
                                == self.g().edges[k0].src && pre[p].dst as int
                                == self.g().edges[k0].dst;
                        assert(out@[p].src as int == self.g().edges[k0].src);
                    } else {
                        assert(out@[out@.len() - 1].src as int == self.g().edges[k0].src);
                    }
                }
            }
            k = k + 1;
        }
        out
    }
}

// ---------------------------------------------------------------------------
// The same query surface on the bare graph: the unfiltered view.
// ---------------------------------------------------------------------------

/// The ids below `upto` that the selection keeps, ascending.
pub open spec fn spec_sel_layer_list(ls: LayerIds, upto: int) -> Seq<int>
    decreases upto,
{
    if upto <= 0 {
        Seq::empty()
    } else if spec_lids_has(ls, upto - 1) {
        spec_sel_layer_list(ls, upto - 1).push(upto - 1)
    } else {
        spec_sel_layer_list(ls, upto - 1)
    }
}

proof fn lemma_sel_layer_list_range(ls: LayerIds, upto: int, q: int)
    requires
        0 <= q < spec_sel_layer_list(ls, upto).len(),
    ensures
        0 <= spec_sel_layer_list(ls, upto)[q] < upto,
    decreases upto,
{
    if upto > 0 {
        let pre = spec_sel_layer_list(ls, upto - 1);
        if q < pre.len() {
            lemma_sel_layer_list_range(ls, upto - 1, q);
        }
    }
}

impl<'a> GraphView<'a> {
    /// The names of the layers the view selects, ascending by layer id.
    pub fn get_unique_layers(&self) -> (r: Vec<String>)
        requires
            self.wf(),
        ensures
            r@.len() == spec_sel_layer_list(self.lids(), self.g().layers.len() as int).len(),
            forall|p: int|
                0 <= p < r@.len() ==> (#[trigger] r@[p])@ == self.g().layers[spec_sel_layer_list(
                    self.lids(),
                    self.g().layers.len() as int,
                )[p]],
    {
        let mut out: Vec<String> = Vec::new();
        let n = self.graph.layers.len();
        let mut l: usize = 0;
        while l < n
            invariant
                0 <= l <= n,
                n == self.g().layers.len(),
                out@.len() == spec_sel_layer_list(self.lids(), l as int).len(),
                forall|p: int|
                    0 <= p < out@.len() ==> (#[trigger] out@[p])@ == self.g().layers[
                    spec_sel_layer_list(self.lids(), l as int)[p]],
            decreases n - l,
        {
            let ghost pre = spec_sel_layer_list(self.lids(), l as int);
            if self.layers.has(l) {
                out.push(self.graph.layers[l].clone());
                proof {
                    assert(spec_sel_layer_list(self.lids(), l as int + 1) =~= pre.push(l as int));
                }
            } else {
                proof {
                    assert(spec_sel_layer_list(self.lids(), l as int + 1) =~= pre);
                }
            }
            l = l + 1;
        }
        proof {
            assert forall|p: int|
                0 <= p < out@.len() implies (#[trigger] out@[p])@ == self.g().layers[
                spec_sel_layer_list(self.lids(), n as int)[p]] by {
                lemma_sel_layer_list_range(self.lids(), n as int, p);
            }
        }
        out
    }
}

impl Graph {
    /// The view of events in `[start, end)`.
    pub fn window<'a>(&'a self, start: i64, end: i64) -> (r: GraphView<'a>)
        requires
            self.wf(),
        ensures
            r.wf(),
            r.g() == self@,
            r.win() == Some((start, end)),
            forall|l: int| spec_lids_has(r.lids(), l),
    {
        self.as_view().window(start, end)
    }

    /// The view of the single time point `t`.
    pub fn at<'a>(&'a self, t: i64) -> (r: GraphView<'a>)
        requires
            self.wf(),
        ensures
            r.wf(),
            r.g() == self@,
            r.win() == Some(
                (
                    t,
                    if t == i64::MAX {
                        t
                    } else {
                        (t + 1) as i64
                    },
                ),
            ),
            forall|l: int| spec_lids_has(r.lids(), l),
    {
        self.as_view().at(t)
    }

    /// The node with this external id, if the store knows it.
    pub fn node<'a>(&'a self, id: &NodeId) -> (r: Option<crate::node::NodeView<'a>>)
        requires
            self.wf(),
        ensures
            r is Some <==> spec_has_node(self@, None, LayerIds::All, id@),
            r is Some ==> ({
                let v = r.unwrap();
                &&& v.wf()
                &&& v.graph == self
                &&& v.w is None
                &&& (forall|l: int| spec_lids_has(v.layers, l))
                &&& spec_node_index(self@.nodes, spec_canon_gid(id@)) == Some(v.vid as int)
            }),
    {
        self.as_view().node(id)
    }

    /// The older name of `node`.
    pub fn vertex<'a>(&'a self, id: &NodeId) -> (r: Option<crate::node::NodeView<'a>>)
        requires
            self.wf(),
        ensures
            r is Some <==> spec_has_node(self@, None, LayerIds::All, id@),
            r is Some ==> ({
                let v = r.unwrap();
                &&& v.wf()
                &&& v.graph == self
                &&& v.w is None
                &&& (forall|l: int| spec_lids_has(v.layers, l))
                &&& spec_node_index(self@.nodes, spec_canon_gid(id@)) == Some(v.vid as int)
            }),
    {
        self.as_view().node(id)
    }

    /// Whether the store knows this external id.
    pub fn has_node(&self, id: &NodeId) -> (r: bool)
        requires
            self.wf(),
        ensures
            r == spec_has_node(self@, None, LayerIds::All, id@),
    {
        self.as_view().has_node(id)
    }

    /// The older name of `has_node`.
    pub fn has_vertex(&self, id: &NodeId) -> (r: bool)
        requires
            self.wf(),
        ensures
            r == spec_has_node(self@, None, LayerIds::All, id@),
    {
        self.as_view().has_node(id)
    }

    /// Whether an edge from `src` to `dst` exists under the name
    /// selection.
    pub fn has_edge(&self, src: &NodeId, dst: &NodeId, sel: &Layer) -> (r: bool)
        requires
            self.wf(),
        ensures
            r == spec_has_edge_sel(self@, None, LayerIds::All, src@, dst@, *sel),
    {
        self.as_view().has_edge(src, dst, sel)
    }

    /// The edge from `src` to `dst`, over all layers.
    pub fn edge<'a>(&'a self, src: &NodeId, dst: &NodeId) -> (r: Option<
        crate::edge::EdgeView<'a>,
    >)
        requires
            self.wf(),
        ensures
            r is Some <==> spec_has_edge(self@, None, LayerIds::All, src@, dst@),
            r is Some ==> ({
                let e = r.unwrap();
                &&& e.wf()
                &&& e.graph == self
                &&& e.w is None
                &&& e.time_pin is None
                &&& e.layer_pin is None
                &&& (forall|l: int| spec_lids_has(e.layers, l))
                &&& spec_node_index(self@.nodes, spec_canon_gid(src@)) == Some(e.src as int)
                &&& spec_node_index(self@.nodes, spec_canon_gid(dst@)) == Some(e.dst as int)
            }),
    {
        let r = self.as_view().edge(src, dst);
        proof {
            if r is Some {
                assert forall|l: int| spec_lids_has(r.unwrap().layers, l) by {
                    assert(spec_lids_has(r.unwrap().layers, l) == spec_lids_has(LayerIds::All, l));
                }
            }
        }
        r
    }

    /// How many nodes the store holds.
    pub fn num_vertices(&self) -> (r: usize)
        requires
            self.wf(),
        ensures
            r as int == spec_count_visible(self@, self@.nodes.len() as int, None, LayerIds::All),
    {
        self.as_view().num_vertices()
    }

    /// How many distinct `(src, dst)` pairs the store holds.
    pub fn num_edges(&self) -> (r: usize)
        requires
            self.wf(),
        ensures
            r as int == spec_count_pairs(self@.edges, self@.edges.len() as int, None, LayerIds::All),
    {
        self.as_view().num_edges()
    }

    /// The nodes of the store, ascending by internal id.
    pub fn vertices<'a>(&'a self) -> (r: Vec<crate::node::NodeView<'a>>)
        requires
            self.wf(),
        ensures
            r@.len() == spec_count_visible(self@, self@.nodes.len() as int, None, LayerIds::All),
            forall|p: int|
                0 <= p < r@.len() ==> ((#[trigger] r@[p]).wf() && r@[p].graph == self && r@[p].w
                    is None && (r@[p].vid as int) < self@.nodes.len() && (forall|l: int|
                    spec_lids_has(r@[p].layers, l))),
            forall|p: int, q: int|
                #![trigger r@[p], r@[q]]
                0 <= p < q < r@.len() ==> r@[p].vid < r@[q].vid,
    {
        let r = self.as_view().vertices();
        proof {
            assert forall|p: int| 0 <= p < r@.len() implies (forall|l: int|
                spec_lids_has((#[trigger] r@[p]).layers, l)) by {
                assert forall|l: int| spec_lids_has(r@[p].layers, l) by {
                    assert(spec_lids_has(r@[p].layers, l) == spec_lids_has(LayerIds::All, l));
                }
            }
        }
        r
    }

    /// One edge view per distinct `(src, dst)` pair.
    pub fn edges<'a>(&'a self) -> (r: Vec<crate::edge::EdgeView<'a>>)
        requires
            self.wf(),
        ensures
            r@.len() == spec_count_pairs(self@.edges, self@.edges.len() as int, None, LayerIds::All),
            forall|p: int|
                0 <= p < r@.len() ==> ((#[trigger] r@[p]).wf() && r@[p].graph == self && r@[p].w
                    is None && r@[p].time_pin is None && r@[p].layer_pin is None),
    {
        self.as_view().edges()
    }

    /// The least event time of the store.
    pub fn earliest_time(&self) -> (r: Option<i64>)
        requires
            self.wf(),
        ensures
            match r {
                None => spec_no_time(self@, None, LayerIds::All),
                Some(m) => spec_is_earliest(self@, None, LayerIds::All, m),
            },
    {
        self.as_view().earliest_time()
    }

    /// The greatest event time of the store.
    pub fn latest_time(&self) -> (r: Option<i64>)
        requires
            self.wf(),
        ensures
            match r {
                None => spec_no_time(self@, None, LayerIds::All),
                Some(m) => spec_is_latest(self@, None, LayerIds::All, m),
            },
    {
        self.as_view().latest_time()
    }

    /// The least event time, as the start of the store's timeline.
    pub fn start(&self) -> (r: Option<i64>)
        requires
            self.wf(),
        ensures
            match r {
                None => spec_no_time(self@, None, LayerIds::All),
                Some(m) => spec_is_earliest(self@, None, LayerIds::All, m),
            },
    {
        self.as_view().earliest_time()
    }

    /// One past the greatest event time, as the end of the store's
    /// timeline.
    pub fn end(&self) -> (r: Option<i64>)
        requires
            self.wf(),
        ensures
            r is None ==> spec_no_time(self@, None, LayerIds::All),
            r is Some ==> exists|m: i64|
                spec_is_latest(self@, None, LayerIds::All, m) && r.unwrap() == spec_sat_succ(m),
    {
        self.as_view().end()
    }

    /// The store narrowed by a layer selection.
    pub fn layer<'a>(&'a self, sel: &Layer) -> (r: Option<GraphView<'a>>)
        requires
            self.wf(),
        ensures
            r is Some <==> spec_sel_known(self@.layers, *sel),
            r is Some ==> ({
                let v = r.unwrap();
                &&& v.wf()
                &&& v.g() == self@
                &&& v.win() is None
                &&& (forall|l: int|
                    0 <= l < self@.layers.len() ==> spec_lids_has(v.lids(), l) == spec_sel_has(
                        self@.layers,
                        *sel,
                        l,
                    ))
            }),
    {
        self.as_view().layer(sel)
    }

    /// The store narrowed to the default layer.
    pub fn default_layer<'a>(&'a self) -> (r: GraphView<'a>)
        requires
            self.wf(),
        ensures
            r.wf(),
            r.g() == self@,
            r.win() is None,
            forall|l: int| spec_lids_has(r.lids(), l) == (l == 0),
    {
        self.as_view().default_layer()
    }

    /// The rolling window family over the store's own timeline: windows
    /// `[cursor - window, cursor)` stepping by `step` (the width when
    /// omitted), from the earliest event to one past the latest; empty
    /// when the store has no events.
    pub fn rolling<'a>(&'a self, window: crate::time::Interval, step: Option<
        crate::time::Interval,
    >) -> (r: crate::windowset::WindowSet<'a>)
        requires
            self.wf(),
        ensures
            r.wf(),
            r.view.graph == self,
            r.view.w is None,
            forall|l: int| spec_lids_has(r.view.layers, l),
            spec_no_time(self@, None, LayerIds::All) ==> crate::windowset::spec_ws_empty(r),
            forall|s0: i64, m: i64|
                spec_is_earliest(self@, None, LayerIds::All, s0) && spec_is_latest(
                    self@,
                    None,
                    LayerIds::All,
                    m,
                ) ==> crate::windowset::spec_ws_fresh(
                    r,
                    s0,
                    spec_sat_succ(m),
                    (match step {
                        Some(st) => st,
                        None => window,
                    }),
                    Some(window),
                ),
    {
        let v = self.as_view();
        let r = v.rolling(window, step);
        proof {
            assert forall|l: int| spec_lids_has(r.view.layers, l) by {
                assert(spec_lids_has(r.view.layers, l) == spec_lids_has(LayerIds::All, l));
            }
        }
        r
    }

    /// The expanding window family over the store's own timeline:
    /// windows `[start, start + k * step)` from the earliest event to one
    /// past the latest; empty when the store has no events.
    pub fn expanding<'a>(&'a self, step: crate::time::Interval) -> (r:
        crate::windowset::WindowSet<'a>)
        requires
            self.wf(),
        ensures
            r.wf(),
            r.view.graph == self,
            r.view.w is None,
            forall|l: int| spec_lids_has(r.view.layers, l),
            spec_no_time(self@, None, LayerIds::All) ==> crate::windowset::spec_ws_empty(r),
            forall|s0: i64, m: i64|
                spec_is_earliest(self@, None, LayerIds::All, s0) && spec_is_latest(
                    self@,
                    None,
                    LayerIds::All,
                    m,
                ) ==> crate::windowset::spec_ws_fresh(
                    r,
                    s0,
                    spec_sat_succ(m),
                    step,
                    None::<crate::time::Interval>,
                ),
    {
        let v = self.as_view();
        let r = v.expanding(step);
        proof {
            assert forall|l: int| spec_lids_has(r.view.layers, l) by {
                assert(spec_lids_has(r.view.layers, l) == spec_lids_has(LayerIds::All, l));
            }
        }
        r
    }
}

/// Window composition on views: windowing twice shows the same store,
/// the same layers and the same window as windowing once by the
/// intersection `[max(a, c), min(b, d))`.
pub proof fn lemma_view_window_compose(
    v: GraphView<'_>,
    vab: GraphView<'_>,
    vabcd: GraphView<'_>,
    vboth: GraphView<'_>,
    a: i64,
    b: i64,
    c: i64,
    d: i64,
)
    requires
        vab.g() == v.g(),
        vab.win() == spec_win_compose(v.win(), a, b),
        forall|l: int| spec_lids_has(vab.lids(), l) == spec_lids_has(v.lids(), l),
        vabcd.g() == vab.g(),
        vabcd.win() == spec_win_compose(vab.win(), c, d),
        forall|l: int| spec_lids_has(vabcd.lids(), l) == spec_lids_has(vab.lids(), l),
        vboth.g() == v.g(),
        vboth.win() == spec_win_compose(
            v.win(),
            if a >= c {
                a
            } else {
                c
            },
            if b <= d {
                b
            } else {
                d
            },
        ),
        forall|l: int| spec_lids_has(vboth.lids(), l) == spec_lids_has(v.lids(), l),
    ensures
        vabcd.g() == vboth.g(),
        vabcd.win() == vboth.win(),
        forall|l: int| spec_lids_has(vabcd.lids(), l) == spec_lids_has(vboth.lids(), l),
{
    lemma_window_compose(v.win(), a, b, c, d);
}

} // verus!
