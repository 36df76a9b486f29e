//! Edge views: a `(src, dst)` pair seen through a window and a layer
//! selection, optionally pinned to one event time or one layer.
//!
//! The pinning states are reached through `explode` (one view per event)
//! and `explode_layers` (one view per layer); there is no way back.

use vstd::prelude::*;
use crate::graph::{
    Graph, GraphV, lemma_edge_index, spec_edge_index, spec_edge_wf, spec_sorted, spec_time_insert,
    lemma_time_insert, times_insert,
};
use crate::view::{
    GraphView, LayerIds, spec_lids_has, spec_lids_wf, spec_win_has, win_has, spec_lids_sorted,
};

verus! {

/// A view of one `(src, dst)` pair. `time` pins the view to a single
/// event; `layer_pin` pins it to a single layer.
pub struct EdgeView<'a> {
    pub graph: &'a Graph,
    pub w: Option<(i64, i64)>,
    pub layers: LayerIds,
    pub src: usize,
    pub dst: usize,
    pub time_pin: Option<i64>,
    pub layer_pin: Option<usize>,
}

/// Whether the event `(l, t)` is one this edge view can see: the record
/// exists, the layer passes the selection and any pin, and the time lies
/// in the window and matches any pin.
pub open spec fn spec_ev_visible(
    g: GraphV,
    w: Option<(i64, i64)>,
    ls: LayerIds,
    si: int,
    di: int,
    tpin: Option<i64>,
    lpin: Option<usize>,
    l: int,
    t: i64,
) -> bool {
    &&& spec_lids_has(ls, l)
    &&& (match lpin {
        None => true,
        Some(l0) => l == l0 as int,
    })
    &&& (match tpin {
        None => true,
        Some(t0) => t == t0,
    })
    &&& spec_win_has(w, t)
    &&& (match spec_edge_index(g.edges, si, di, l) {
        None => false,
        Some(k) => g.edges[k].times.contains(t),
    })
}

/// Whether any selected layer shows an event of the edge at `t`.
pub open spec fn spec_sees_some(e: EdgeView<'_>, t: i64) -> bool {
    exists|l: int| e.sees(l, t)
}

impl<'a> EdgeView<'a> {
    pub open spec fn g(&self) -> GraphV {
        self.graph@
    }

    pub open spec fn wf(&self) -> bool {
        &&& crate::graph::spec_graph_wf(self.graph@)
        &&& spec_lids_wf(self.layers, self.graph@.layers.len() as int)
        &&& spec_lids_sorted(self.layers)
        &&& (self.src as int) < self.graph@.nodes.len()
        &&& (self.dst as int) < self.graph@.nodes.len()
        &&& (match self.layer_pin {
            None => true,
            Some(l) => (l as int) < self.graph@.layers.len(),
        })
    }

    /// Whether this view can see the event `(l, t)`.
    pub open spec fn sees(&self, l: int, t: i64) -> bool {
        spec_ev_visible(
            self.g(),
            self.w,
            self.layers,
            self.src as int,
            self.dst as int,
            self.time_pin,
            self.layer_pin,
            l,
            t,
        )
    }

    /// An identical edge view.
    pub fn duplicate(&self) -> (r: EdgeView<'a>)
        ensures
            r.graph == self.graph,
            r.w == self.w,
            r.src == self.src,
            r.dst == self.dst,
            r.time_pin == self.time_pin,
            r.layer_pin == self.layer_pin,
            forall|l: int| spec_lids_has(r.layers, l) == spec_lids_has(self.layers, l),
            self.wf() ==> r.wf(),
            forall|l: int, t: i64| r.sees(l, t) == self.sees(l, t),
    {
        let r = EdgeView {
            graph: self.graph,
            w: self.w,
            layers: self.layers.duplicate(),
            src: self.src,
            dst: self.dst,
            time_pin: self.time_pin,
            layer_pin: self.layer_pin,
        };
        proof {
            assert forall|l: int, t: i64| r.sees(l, t) == self.sees(l, t) by {
                assert(spec_lids_has(r.layers, l) == spec_lids_has(self.layers, l));
            }
        }
        r
    }

    /// The window start of the view, when one is set.
    pub fn start(&self) -> (r: Option<i64>)
        ensures
            r == (match self.w {
                Some((s, _)) => Some(s),
                None => None::<i64>,
            }),
    {
        match self.w {
            Some((s, _)) => Some(s),
            None => None,
        }
    }

    /// The window end of the view, when one is set.
    pub fn end(&self) -> (r: Option<i64>)
        ensures
            r == (match self.w {
                Some((_, e)) => Some(e),
                None => None::<i64>,
            }),
    {
        match self.w {
            Some((_, e)) => Some(e),
            None => None,
        }
    }

    /// The pinned event time of an exploded edge.
    pub fn time(&self) -> (r: Option<i64>)
        ensures
            r == self.time_pin,
    {
        self.time_pin
    }

    /// The pinned layer of a layer-exploded edge.
    pub fn layer_id(&self) -> (r: Option<usize>)
        ensures
            r == self.layer_pin,
    {
        self.layer_pin
    }

    /// Restricts the edge view to `[start, end)`, intersecting with any
    /// window already set.
    pub fn window(&self, start: i64, end: i64) -> (r: EdgeView<'a>)
        requires
            self.wf(),
        ensures
            r.wf(),
            r.graph == self.graph,
            r.src == self.src,
            r.dst == self.dst,
            r.time_pin == self.time_pin,
            r.layer_pin == self.layer_pin,
            forall|l: int| spec_lids_has(r.layers, l) == spec_lids_has(self.layers, l),
            r.w == crate::view::spec_win_compose(self.w, start, end),
    {
        let w2: (i64, i64) = match self.w {
            None => (start, end),
            Some((s0, e0)) => (
                if s0 >= start {
                    s0
                } else {
                    start
                },
                if e0 <= end {
                    e0
                } else {
                    end
                },
            ),
        };
        EdgeView {
            graph: self.graph,
            w: Some(w2),
            layers: self.layers.duplicate(),
            src: self.src,
            dst: self.dst,
            time_pin: self.time_pin,
            layer_pin: self.layer_pin,
        }
    }

    /// The view of the single time point `t`.
    pub fn at(&self, t: i64) -> (r: EdgeView<'a>)
        requires
            self.wf(),
        ensures
            r.wf(),
            r.graph == self.graph,
            r.src == self.src,
            r.dst == self.dst,
            r.time_pin == self.time_pin,
            r.layer_pin == self.layer_pin,
            forall|l: int| spec_lids_has(r.layers, l) == spec_lids_has(self.layers, l),
            r.w == crate::view::spec_win_compose(
                self.w,
                t,
                if t == i64::MAX {
                    t
                } else {
                    (t + 1) as i64
                },
            ),
    {
        let up: i64 = if t == i64::MAX {
            t
        } else {
            t + 1
        };
        self.window(t, up)
    }

    /// Whether the edge has an event visible at exactly time `t`.
    pub fn active(&self, t: i64) -> (r: bool)
        requires
            self.wf(),
        ensures
            r == spec_sees_some(*self, t),
    {
        let n = self.graph.layers.len();
        let mut l: usize = 0;
        while l < n
            invariant
                0 <= l <= n,
                forall|l0: int| 0 <= l0 < l ==> !self.sees(l0, t),
            decreases n - l,
        {
            if self.sees_exec(l, t) {
                proof {
                    assert(self.sees(l as int, t));
                }
                return true;
            }
            l = l + 1;
        }
        proof {
            if exists|l0: int| self.sees(l0, t) {
                let l0 = choose|l0: int| self.sees(l0, t);
                lemma_edge_index(self.g().edges, self.src as int, self.dst as int, l0);
                match spec_edge_index(self.g().edges, self.src as int, self.dst as int, l0) {
                    None => {
                        assert(!self.sees(l0, t));
                    },
                    Some(k) => {
                        assert(spec_edge_wf(
                            self.g().edges[k],
                            self.g().nodes.len() as int,
                            self.g().layers.len() as int,
                        ));
                        assert(0 <= l0 < n as int);
                        assert(!self.sees(l0, t));
                    },
                }
                assert(false);
            }
        }
        false
    }

    /// Whether the event `(l, t)` is visible, executably.
    pub(crate) fn sees_exec(&self, l: usize, t: i64) -> (r: bool)
        requires
            self.wf(),
        ensures
            r == self.sees(l as int, t),
    {
        if !self.layers.has(l) {
            return false;
        }
        match self.layer_pin {
            Some(l0) => {
                if l != l0 {
                    return false;
                }
            },
            None => {},
        }
        match self.time_pin {
            Some(t0) => {
                if t != t0 {
                    return false;
                }
            },
            None => {},
        }
        if !win_has(&self.w, t) {
            return false;
        }
        match self.graph.find_edge_rec(self.src, self.dst, l) {
            None => false,
            Some(k) => {
                let times = &self.graph.edges[k].times;
                let mut j: usize = 0;
                let m = times.len();
                while j < m
                    invariant
                        0 <= j <= m,
                        forall|b: int| 0 <= b < j ==> times@[b] != t,
                    decreases m - j,
                {
                    if times[j] == t {
                        proof {
                            assert(self.g().edges[k as int].times.contains(t));
                        }
                        return true;
                    }
                    j = j + 1;
                }
                proof {
                    if self.g().edges[k as int].times.contains(t) {
                        let b = choose|b: int|
                            0 <= b < self.g().edges[k as int].times.len()
                                && self.g().edges[k as int].times[b] == t;
                        assert(false);
                    }
                }
                false
            },
        }
    }

    /// The visible event times of the edge, over all selected layers:
    /// strictly ascending, duplicates across layers collapsed.
    pub fn history(&self) -> (r: Vec<i64>)
        requires
            self.wf(),
        ensures
            spec_sorted(r@),
            forall|l: int, t: i64| #[trigger] self.sees(l, t) ==> r@.contains(t),
            forall|t: i64| #[trigger] r@.contains(t) ==> spec_sees_some(*self, t),
    {
        let mut out: Vec<i64> = Vec::new();
        let n = self.graph.layers.len();
        let mut l: usize = 0;
        while l < n
            invariant
                0 <= l <= n,
                spec_sorted(out@),
                forall|l0: int, t: i64| 0 <= l0 < l && self.sees(l0, t) ==> out@.contains(t),
                forall|t: i64| out@.contains(t) ==> spec_sees_some(*self, t),
            decreases n - l,
        {
            if self.layers.has(l) && self.layer_ok(l) {
                match self.graph.find_edge_rec(self.src, self.dst, l) {
                    None => {
                        proof {
                            assert forall|t: i64| !self.sees(l as int, t) by {
                                lemma_sees_unfold(*self, l as int);
                            }
                        }
                    },
                    Some(k) => {
                        let times = &self.graph.edges[k].times;
                        let mut j: usize = 0;
                        let m = times.len();
                        while j < m
                            invariant
                                0 <= j <= m,
                                m == times@.len(),
                                times@ == self.g().edges[k as int].times,
                                spec_sorted(out@),
                                forall|l0: int, t: i64|
                                    0 <= l0 < l && self.sees(l0, t) ==> out@.contains(t),
                                forall|b: int|
                                    0 <= b < j && self.sees(l as int, #[trigger] times@[b])
                                        ==> out@.contains(times@[b]),
                                forall|t: i64| out@.contains(t) ==> spec_sees_some(*self, t),
                            decreases m - j,
                        {
                            let ghost mid = out@;
                            let t = times[j];
                            let vis = self.sees_exec(l, t);
                            if vis {
                                proof {
                                    lemma_time_insert(out@, t);
                                }
                                times_insert(&mut out, t);
                                proof {
                                    assert forall|t0: i64|
                                        out@.contains(t0) implies spec_sees_some(*self, t0) by {
                                        let bb = choose|bb: int|
                                            0 <= bb < out@.len() && out@[bb] == t0;
                                        assert(mid.contains(out@[bb]) || out@[bb] == t);
                                        if out@[bb] == t {
                                            assert(self.sees(l as int, t0));
                                        }
                                    }
                                    assert forall|l0: int, t0: i64|
                                        0 <= l0 < l && self.sees(l0, t0) implies out@.contains(
                                        t0,
                                    ) by {
                                        assert(mid.contains(t0));
                                    }
                                }
                            }
                            j = j + 1;
                        }
                        proof {
                            assert forall|t: i64|
                                self.sees(l as int, t) implies out@.contains(t) by {
                                lemma_sees_unfold(*self, l as int);
                                let b = choose|b: int|
                                    0 <= b < times@.len() && times@[b] == t;
                                assert(self.sees(l as int, times@[b]));
                            }
                        }
                    },
                }
            } else {
                proof {
                    assert forall|t: i64| !self.sees(l as int, t) by {}
                }
            }
            proof {
                assert forall|l0: int, t: i64|
                    0 <= l0 < l + 1 && self.sees(l0, t) implies out@.contains(t) by {
                    if l0 == l as int {
                        assert(self.sees(l as int, t) ==> out@.contains(t));
                    }
                }
            }
            l = l + 1;
        }
        proof {
            assert forall|l0: int, t: i64| self.sees(l0, t) implies out@.contains(t) by {
                lemma_sees_bounds(*self, l0, t);
            }
        }
        out
    }

    /// Whether the layer pin allows layer `l`.
    fn layer_ok(&self, l: usize) -> (r: bool)
        ensures
            r == (match self.layer_pin {
                None => true,
                Some(l0) => l as int == l0 as int,
            }),
    {
        match self.layer_pin {
            None => true,
            Some(l0) => l == l0,
        }
    }

    /// The least visible event time.
    pub fn earliest_time(&self) -> (r: Option<i64>)
        requires
            self.wf(),
        ensures
            r is None ==> forall|l: int, t: i64| !(#[trigger] self.sees(l, t)),
            r is Some ==> spec_sees_some(*self, r.unwrap()),
            r is Some ==> forall|l: int, t: i64| #[trigger] self.sees(l, t) ==> r.unwrap() <= t,
    {
        let h = self.history();
        if h.len() == 0 {
            proof {
                assert forall|l: int, t: i64| !(#[trigger] self.sees(l, t)) by {
                    if self.sees(l, t) {
                        assert(h@.contains(t));
                    }
                }
            }
            None
        } else {
            let m = h[0];
            proof {
                assert(h@.contains(m));
                assert(spec_sees_some(*self, m));
                assert forall|l: int, t: i64| #[trigger] self.sees(l, t) implies m <= t by {
                    assert(h@.contains(t));
                    let b = choose|b: int| 0 <= b < h@.len() && h@[b] == t;
                    if b > 0 {
                        assert(h@[0] < h@[b]);
                    }
                }
            }
            Some(m)
        }
    }

    /// The greatest visible event time.
    pub fn latest_time(&self) -> (r: Option<i64>)
        requires
            self.wf(),
        ensures
            r is None ==> forall|l: int, t: i64| !(#[trigger] self.sees(l, t)),
            r is Some ==> spec_sees_some(*self, r.unwrap()),
            r is Some ==> forall|l: int, t: i64| #[trigger] self.sees(l, t) ==> t <= r.unwrap(),
    {
        let h = self.history();
        if h.len() == 0 {
            proof {
                assert forall|l: int, t: i64| !(#[trigger] self.sees(l, t)) by {
                    if self.sees(l, t) {
                        assert(h@.contains(t));
                    }
                }
            }
            None
        } else {
            let m = h[h.len() - 1];
            proof {
                assert(h@.contains(m));
                assert(spec_sees_some(*self, m));
                assert forall|l: int, t: i64| #[trigger] self.sees(l, t) implies t <= m by {
                    assert(h@.contains(t));
                    let b = choose|b: int| 0 <= b < h@.len() && h@[b] == t;
                    if b < h@.len() - 1 {
                        assert(h@[b] < h@[h@.len() - 1]);
                    }
                }
            }
            Some(m)
        }
    }
}

/// A visible event of a layer needs the record and a contained time.
proof fn lemma_sees_unfold(e: EdgeView<'_>, l: int)
    ensures
        forall|t: i64|
            #[trigger] e.sees(l, t) ==> (match spec_edge_index(
                e.g().edges,
                e.src as int,
                e.dst as int,
                l,
            ) {
                None => false,
                Some(k) => e.g().edges[k].times.contains(t),
            }),
{
}

/// A visible event's layer lies inside the registry.
proof fn lemma_sees_bounds(e: EdgeView<'_>, l: int, t: i64)
    requires
        e.wf(),
        e.sees(l, t),
    ensures
        0 <= l < e.g().layers.len(),
{
    lemma_edge_index(e.g().edges, e.src as int, e.dst as int, l);
    match spec_edge_index(e.g().edges, e.src as int, e.dst as int, l) {
        None => {
            assert(false);
        },
        Some(k) => {
            assert(spec_edge_wf(
                e.g().edges[k],
                e.g().nodes.len() as int,
                e.g().layers.len() as int,
            ));
        },
    }
}

// ---------------------------------------------------------------------------
// Explosion: one view per event, one view per layer.
// ---------------------------------------------------------------------------

/// What each exploded entry is: the same view pinned to one visible
/// event.
pub open spec fn spec_expl_entry_ok(ev: EdgeView<'_>, base: EdgeView<'_>) -> bool {
    &&& ev.graph == base.graph
    &&& ev.w == base.w
    &&& ev.src == base.src
    &&& ev.dst == base.dst
    &&& (forall|ll: int| spec_lids_has(ev.layers, ll) == spec_lids_has(base.layers, ll))
    &&& ev.time_pin is Some
    &&& ev.layer_pin is Some
    &&& ev.wf()
    &&& base.sees(ev.layer_pin.unwrap() as int, ev.time_pin.unwrap())
}

/// Whether the exploded list holds the event `(l, t)`.
pub open spec fn spec_expl_has(s: Seq<EdgeView<'_>>, l: int, t: i64) -> bool {
    exists|p: int|
        0 <= p < s.len() && (#[trigger] s[p]).layer_pin is Some && s[p].layer_pin.unwrap() as int
            == l && s[p].time_pin == Some(t)
}

/// The lexicographic event order `(layer, time)` of the exploded list.
pub open spec fn spec_expl_sorted(s: Seq<EdgeView<'_>>) -> bool {
    forall|p: int, q: int|
        #![trigger s[p], s[q]]
        0 <= p < q < s.len() ==> ((s[p].layer_pin.unwrap() as int) < (s[q].layer_pin.unwrap()
            as int) || (s[p].layer_pin.unwrap() as int == s[q].layer_pin.unwrap() as int
            && s[p].time_pin.unwrap() < s[q].time_pin.unwrap()))
}

/// How many times of a record the view lets through at layer `l`.
pub open spec fn spec_count_vis_times(times: Seq<i64>, e: EdgeView<'_>, l: int) -> int
    decreases times.len(),
{
    if times.len() == 0 {
        0
    } else {
        spec_count_vis_times(times.drop_last(), e, l) + if e.sees(l, times.last()) {
            1int
        } else {
            0int
        }
    }
}

/// How many events the view lets through over the first `lupto` layers.
pub open spec fn spec_count_vis(e: EdgeView<'_>, lupto: int) -> int
    decreases lupto,
{
    if lupto <= 0 {
        0
    } else {
        spec_count_vis(e, lupto - 1) + (match spec_edge_index(
            e.g().edges,
            e.src as int,
            e.dst as int,
            lupto - 1,
        ) {
            None => 0int,
            Some(k) => spec_count_vis_times(e.g().edges[k].times, e, lupto - 1),
        })
    }
}

proof fn lemma_count_vis_times_zero(times: Seq<i64>, e: EdgeView<'_>, l: int)
    requires
        forall|t: i64| !e.sees(l, t),
    ensures
        spec_count_vis_times(times, e, l) == 0,
    decreases times.len(),
{
    if times.len() > 0 {
        lemma_count_vis_times_zero(times.drop_last(), e, l);
    }
}

/// Whether some event of layer `l` is visible.
pub open spec fn spec_layer_vis(e: EdgeView<'_>, l: int) -> bool {
    exists|t: i64| e.sees(l, t)
}

impl<'a> EdgeView<'a> {
    /// One view per visible event, pinned to its layer and time, ordered
    /// by layer id and then time. The number of views equals the number
    /// of events the view lets through.
    #[verifier::rlimit(100)]
    pub fn explode(&self) -> (r: Vec<EdgeView<'a>>)
        requires
            self.wf(),
        ensures
            r@.len() == spec_count_vis(*self, self.g().layers.len() as int),
            forall|p: int| 0 <= p < r@.len() ==> spec_expl_entry_ok(#[trigger] r@[p], *self),
            forall|l: int, t: i64| #[trigger] self.sees(l, t) ==> spec_expl_has(r@, l, t),
            spec_expl_sorted(r@),
    {
        let mut out: Vec<EdgeView<'a>> = Vec::new();
        let n = self.graph.layers.len();
        let mut l: usize = 0;
        while l < n
            invariant
                0 <= l <= n,
                n == self.g().layers.len(),
                out@.len() == spec_count_vis(*self, l as int),
                forall|p: int| 0 <= p < out@.len() ==> spec_expl_entry_ok(#[trigger] out@[p], *self),
                forall|p: int|
                    0 <= p < out@.len() ==> ((#[trigger] out@[p]).layer_pin.unwrap() as int) < l,
                forall|l0: int, t: i64|
                    0 <= l0 < l && #[trigger] self.sees(l0, t) ==> spec_expl_has(out@, l0, t),
                spec_expl_sorted(out@),
            decreases n - l,
        {
            if self.layers.has(l) && self.layer_ok(l) {
                match self.graph.find_edge_rec(self.src, self.dst, l) {
                    None => {
                        proof {
                            assert forall|t: i64| !self.sees(l as int, t) by {}
                        }
                    },
                    Some(k) => {
                        let times = &self.graph.edges[k].times;
                        let mut j: usize = 0;
                        let m = times.len();
                        while j < m
                            invariant
                                0 <= j <= m,
                                0 <= l < n,
                                m == times@.len(),
                                times@ == self.g().edges[k as int].times,
                                spec_edge_index(
                                    self.g().edges,
                                    self.src as int,
                                    self.dst as int,
                                    l as int,
                                ) == Some(k as int),
                                out@.len() == spec_count_vis(*self, l as int)
                                    + spec_count_vis_times(
                                    times@.subrange(0, j as int),
                                    *self,
                                    l as int,
                                ),
                                forall|p: int|
                                    0 <= p < out@.len() ==> spec_expl_entry_ok(
                                        #[trigger] out@[p],
                                        *self,
                                    ),
                                forall|p: int|
                                    0 <= p < out@.len() ==> (
                                    #[trigger] out@[p]).layer_pin.unwrap() as int <= l as int,
                                forall|p: int|
                                    0 <= p < out@.len() && (
                                    #[trigger] out@[p]).layer_pin.unwrap() as int == l as int
                                        ==> exists|b: int|
                                        0 <= b < j && out@[p].time_pin == Some(
                                            #[trigger] times@[b],
                                        ),
                                forall|l0: int, t: i64|
                                    0 <= l0 < l && #[trigger] self.sees(l0, t)
                                        ==> spec_expl_has(out@, l0, t),
                                forall|b: int|
                                    0 <= b < j && #[trigger] self.sees(l as int, times@[b])
                                        ==> spec_expl_has(out@, l as int, times@[b]),
                                spec_expl_sorted(out@),
                            decreases m - j,
                        {
                            let ghost pre = out@;
                            let t = times[j];
                            if self.sees_exec(l, t) {
                                let ev = EdgeView {
                                    graph: self.graph,
                                    w: self.w,
                                    layers: self.layers.duplicate(),
                                    src: self.src,
                                    dst: self.dst,
                                    time_pin: Some(t),
                                    layer_pin: Some(l),
                                };
                                proof {
                                    assert(spec_expl_entry_ok(ev, *self));
                                    assert forall|p: int|
                                        0 <= p < pre.len() implies (((#[trigger] pre[p]).layer_pin.unwrap() as int)
                                        < (l as int) || (pre[p].layer_pin.unwrap() as int
                                        == l as int && pre[p].time_pin.unwrap() < t)) by {
                                        if pre[p].layer_pin.unwrap() as int == l as int {
                                            let b = choose|b: int|
                                                0 <= b < j && pre[p].time_pin == Some(
                                                    #[trigger] times@[b],
                                                );
                                            assert(times@[b] < times@[j as int]);
                                        }
                                    }
                                }
                                out.push(ev);
                                proof {
                                    assert(out@[out@.len() - 1] == ev);
                                    assert forall|l0: int, t0: i64|
                                        0 <= l0 < l && #[trigger] self.sees(l0, t0)
                                            implies spec_expl_has(out@, l0, t0) by {
                                        let p = choose|p: int|
                                            0 <= p < pre.len() && (
                                            #[trigger] pre[p]).layer_pin is Some
                                                && pre[p].layer_pin.unwrap() as int == l0
                                                && pre[p].time_pin == Some(t0);
                                        assert(out@[p].layer_pin.unwrap() as int == l0);
                                    }
                                    assert forall|b: int|
                                        0 <= b < j + 1 && #[trigger] self.sees(
                                            l as int,
                                            times@[b],
                                        ) implies spec_expl_has(out@, l as int, times@[b]) by {
                                        if b < j {
                                            let p = choose|p: int|
                                                0 <= p < pre.len() && (
                                                #[trigger] pre[p]).layer_pin is Some
                                                    && pre[p].layer_pin.unwrap() as int
                                                    == l as int && pre[p].time_pin == Some(
                                                    times@[b],
                                                );
                                            assert(out@[p].layer_pin.unwrap() as int
                                                == l as int);
                                        } else {
                                            assert(out@[out@.len() - 1].layer_pin.unwrap() as int
                                                == l as int);
                                        }
                                    }
                                    assert forall|p: int|
                                        0 <= p < out@.len() && (
                                        #[trigger] out@[p]).layer_pin.unwrap() as int == l as int
                                            implies exists|b: int|
                                            0 <= b < j + 1 && out@[p].time_pin == Some(
                                                #[trigger] times@[b],
                                            ) by {
                                        if p < pre.len() {
                                            let b = choose|b: int|
                                                0 <= b < j && pre[p].time_pin == Some(
                                                    #[trigger] times@[b],
                                                );
                                            assert(out@[p].time_pin == Some(times@[b]));
                                        } else {
                                            assert(out@[p].time_pin == Some(times@[j as int]));
                                        }
                                    }
                                }
                            } else {
                                proof {
                                    assert forall|p: int|
                                        0 <= p < out@.len() && (
                                        #[trigger] out@[p]).layer_pin.unwrap() as int == l as int
                                            implies exists|b: int|
                                            0 <= b < j + 1 && out@[p].time_pin == Some(
                                                #[trigger] times@[b],
                                            ) by {
                                        let b = choose|b: int|
                                            0 <= b < j && out@[p].time_pin == Some(
                                                #[trigger] times@[b],
                                            );
                                        assert(out@[p].time_pin == Some(times@[b]));
                                    }
                                }
                            }
                            proof {
                                let cur = times@.subrange(0, j as int + 1);
                                assert(cur.drop_last() =~= times@.subrange(0, j as int));
                                assert(cur.last() == times@[j as int]);
                            }
                            j = j + 1;
                        }
                        proof {
                            assert(times@.subrange(0, m as int) =~= times@);
                            assert forall|t: i64|
                                #[trigger] self.sees(l as int, t) implies spec_expl_has(
                                out@,
                                l as int,
                                t,
                            ) by {
                                lemma_sees_unfold(*self, l as int);
                                let b = choose|b: int|
                                    0 <= b < times@.len() && times@[b] == t;
                                assert(self.sees(l as int, times@[b]));
                            }
                        }
                    },
                }
            } else {
                proof {
                    assert forall|t: i64| !self.sees(l as int, t) by {}
                    lemma_count_vis_times_zero(
                        match spec_edge_index(
                            self.g().edges,
                            self.src as int,
                            self.dst as int,
                            l as int,
                        ) {
                            None => Seq::empty(),
                            Some(k) => self.g().edges[k].times,
                        },
                        *self,
                        l as int,
                    );
                }
            }
            proof {
                assert forall|l0: int, t: i64|
                    0 <= l0 < l + 1 && #[trigger] self.sees(l0, t) implies spec_expl_has(
                    out@,
                    l0,
                    t,
                ) by {}
                assert forall|p: int|
                    0 <= p < out@.len() implies ((#[trigger] out@[p]).layer_pin.unwrap() as int) < l
                    + 1 by {}
            }
            l = l + 1;
        }
        proof {
            assert forall|l0: int, t: i64| #[trigger] self.sees(l0, t) implies spec_expl_has(
                out@,
                l0,
                t,
            ) by {
                lemma_sees_bounds(*self, l0, t);
            }
        }
        out
    }

    /// One view per layer holding at least one visible event, ascending
    /// by layer id; the time pin, if any, is kept.
    pub fn explode_layers(&self) -> (r: Vec<EdgeView<'a>>)
        requires
            self.wf(),
        ensures
            forall|p: int|
                0 <= p < r@.len() ==> ((#[trigger] r@[p]).graph == self.graph && r@[p].w == self.w
                    && r@[p].src == self.src && r@[p].dst == self.dst && r@[p].time_pin
                    == self.time_pin && r@[p].layer_pin is Some && r@[p].wf() && spec_layer_vis(
                    *self,
                    r@[p].layer_pin.unwrap() as int,
                ) && (forall|ll: int|
                    spec_lids_has(r@[p].layers, ll) == spec_lids_has(self.layers, ll))),
            forall|l: int|
                0 <= l < self.g().layers.len() && #[trigger] spec_layer_vis(*self, l) ==> exists|
                    p: int,
                |
                    0 <= p < r@.len() && (#[trigger] r@[p]).layer_pin.unwrap() as int == l,
            forall|p: int, q: int|
                #![trigger r@[p], r@[q]]
                0 <= p < q < r@.len() ==> r@[p].layer_pin.unwrap() < r@[q].layer_pin.unwrap(),
    {
        let mut out: Vec<EdgeView<'a>> = Vec::new();
        let n = self.graph.layers.len();
        let mut l: usize = 0;
        while l < n
            invariant
                0 <= l <= n,
                n == self.g().layers.len(),
                forall|p: int|
                    0 <= p < out@.len() ==> ((#[trigger] out@[p]).graph == self.graph && out@[p].w
                        == self.w && out@[p].src == self.src && out@[p].dst == self.dst
                        && out@[p].time_pin == self.time_pin && out@[p].layer_pin is Some
                        && out@[p].wf() && spec_layer_vis(*self, out@[p].layer_pin.unwrap() as int)
                        && (forall|ll: int|
                        spec_lids_has(out@[p].layers, ll) == spec_lids_has(self.layers, ll))),
                forall|p: int|
                    0 <= p < out@.len() ==> ((#[trigger] out@[p]).layer_pin.unwrap()) < l,
                forall|l0: int|
                    0 <= l0 < l && #[trigger] spec_layer_vis(*self, l0) ==> exists|p: int|
                        0 <= p < out@.len() && (#[trigger] out@[p]).layer_pin.unwrap() as int
                            == l0,
                forall|p: int, q: int|
                    #![trigger out@[p], out@[q]]
                    0 <= p < q < out@.len() ==> out@[p].layer_pin.unwrap()
                        < out@[q].layer_pin.unwrap(),
            decreases n - l,
        {
            let ghost pre = out@;
            let mut any = false;
            match self.graph.find_edge_rec(self.src, self.dst, l) {
                None => {
                    proof {
                        if spec_layer_vis(*self, l as int) {
                            let t = choose|t: i64| self.sees(l as int, t);
                            assert(false);
                        }
                    }
                },
                Some(k) => {
                    let times = &self.graph.edges[k].times;
                    let mut j: usize = 0;
                    let m = times.len();
                    while j < m && !any
                        invariant
                            0 <= j <= m,
                            m == times@.len(),
                            times@ == self.g().edges[k as int].times,
                            spec_edge_index(
                                self.g().edges,
                                self.src as int,
                                self.dst as int,
                                l as int,
                            ) == Some(k as int),
                            any ==> spec_layer_vis(*self, l as int),
                            !any ==> forall|b: int|
                                0 <= b < j ==> !self.sees(l as int, #[trigger] times@[b]),
                        decreases m - j,
                    {
                        if self.sees_exec(l, times[j]) {
                            proof {
                                assert(self.sees(l as int, times@[j as int]));
                            }
                            any = true;
                        }
                        j = j + 1;
                    }
                    proof {
                        if !any && spec_layer_vis(*self, l as int) {
                            let t = choose|t: i64| self.sees(l as int, t);
                            lemma_sees_unfold(*self, l as int);
                            let b = choose|b: int| 0 <= b < times@.len() && times@[b] == t;
                            assert(false);
                        }
                    }
                },
            }
            if any {
                let ev = EdgeView {
                    graph: self.graph,
                    w: self.w,
                    layers: self.layers.duplicate(),
                    src: self.src,
                    dst: self.dst,
                    time_pin: self.time_pin,
                    layer_pin: Some(l),
                };
                out.push(ev);
            }
            proof {
                assert forall|l0: int|
                    0 <= l0 < l + 1 && #[trigger] spec_layer_vis(*self, l0) implies exists|p: int|
                    0 <= p < out@.len() && (#[trigger] out@[p]).layer_pin.unwrap() as int
                        == l0 by {
                    if l0 < l {
                        let p = choose|p: int|
                            0 <= p < pre.len() && (#[trigger] pre[p]).layer_pin.unwrap() as int
                                == l0;
                        assert(out@[p].layer_pin.unwrap() as int == l0);
                    } else {
                        assert(out@[out@.len() - 1].layer_pin.unwrap() as int == l0);
                    }
                }
            }
            l = l + 1;
        }
        proof {
            assert forall|l0: int| #[trigger] spec_layer_vis(*self, l0) implies 0 <= l0
                < self.g().layers.len() by {
                let t = choose|t: i64| self.sees(l0, t);
                lemma_sees_bounds(*self, l0, t);
            }
        }
        out
    }
}

impl<'a> EdgeView<'a> {
    /// The source node of the edge, under the same filters.
    pub fn src(&self) -> (r: crate::node::NodeView<'a>)
        requires
            self.wf(),
        ensures
            r.wf(),
            r.graph == self.graph,
            r.w == self.w,
            r.vid == self.src,
            forall|l: int| spec_lids_has(r.layers, l) == spec_lids_has(self.layers, l),
    {
        crate::node::NodeView {
            graph: self.graph,
            w: self.w,
            layers: self.layers.duplicate(),
            vid: self.src,
        }
    }

    /// The destination node of the edge, under the same filters.
    pub fn dst(&self) -> (r: crate::node::NodeView<'a>)
        requires
            self.wf(),
        ensures
            r.wf(),
            r.graph == self.graph,
            r.w == self.w,
            r.vid == self.dst,
            forall|l: int| spec_lids_has(r.layers, l) == spec_lids_has(self.layers, l),
    {
        crate::node::NodeView {
            graph: self.graph,
            w: self.w,
            layers: self.layers.duplicate(),
            vid: self.dst,
        }
    }

    /// The ids of the layers in which the edge has a visible event,
    /// ascending.
    pub fn layer_ids_active(&self) -> (r: Vec<usize>)
        requires
            self.wf(),
        ensures
            r@.len() == spec_vis_layers(*self, self.g().layers.len() as int).len(),
            forall|p: int|
                0 <= p < r@.len() ==> (#[trigger] r@[p]) as int == spec_vis_layers(
                    *self,
                    self.g().layers.len() as int,
                )[p],
    {
        let mut out: Vec<usize> = Vec::new();
        let n = self.graph.layers.len();
        let mut l: usize = 0;
        while l < n
            invariant
                0 <= l <= n,
                n == self.g().layers.len(),
                out@.len() == spec_vis_layers(*self, l as int).len(),
                forall|p: int|
                    0 <= p < out@.len() ==> (#[trigger] out@[p]) as int == spec_vis_layers(
                        *self,
                        l as int,
                    )[p],
            decreases n - l,
        {
            let ghost pre = spec_vis_layers(*self, l as int);
            let mut any = false;
            match self.graph.find_edge_rec(self.src, self.dst, l) {
                None => {
                    proof {
                        if spec_layer_vis(*self, l as int) {
                            let t = choose|t: i64| self.sees(l as int, t);
                            assert(false);
                        }
                    }
                },
                Some(k) => {
                    let times = &self.graph.edges[k].times;
                    let mut j: usize = 0;
                    let m = times.len();
                    while j < m && !any
                        invariant
                            0 <= j <= m,
                            m == times@.len(),
                            times@ == self.g().edges[k as int].times,
                            spec_edge_index(
                                self.g().edges,
                                self.src as int,
                                self.dst as int,
                                l as int,
                            ) == Some(k as int),
                            any ==> spec_layer_vis(*self, l as int),
                            !any ==> forall|b: int|
                                0 <= b < j ==> !self.sees(l as int, #[trigger] times@[b]),
                        decreases m - j,
                    {
                        if self.sees_exec(l, times[j]) {
                            proof {
                                assert(self.sees(l as int, times@[j as int]));
                            }
                            any = true;
                        }
                        j = j + 1;
                    }
                    proof {
                        if !any && spec_layer_vis(*self, l as int) {
                            let t = choose|t: i64| self.sees(l as int, t);
                            lemma_sees_unfold(*self, l as int);
                            let b = choose|b: int| 0 <= b < times@.len() && times@[b] == t;
                            assert(false);
                        }
                    }
                },
            }
            if any {
                out.push(l);
                proof {
                    assert(spec_vis_layers(*self, l as int + 1) =~= pre.push(l as int));
                }
            } else {
                proof {
                    assert(spec_vis_layers(*self, l as int + 1) =~= pre);
                }
            }
            l = l + 1;
        }
        out
    }

    /// The names of the layers in which the edge has a visible event,
    /// ascending by layer id.
    pub fn layer_names(&self) -> (r: Vec<String>)
        requires
            self.wf(),
        ensures
            r@.len() == spec_vis_layers(*self, self.g().layers.len() as int).len(),
            forall|p: int|
                0 <= p < r@.len() ==> (#[trigger] r@[p])@ == self.g().layers[spec_vis_layers(
                    *self,
                    self.g().layers.len() as int,
                )[p]],
    {
        let ids = self.layer_ids_active();
        let mut out: Vec<String> = Vec::new();
        let mut p: usize = 0;
        let n = ids.len();
        proof {
            assert forall|q: int|
                0 <= q < ids@.len() implies ((#[trigger] ids@[q]) as int)
                    < self.g().layers.len() by {
                lemma_vis_layers_range(*self, self.g().layers.len() as int, q);
            }
        }
        while p < n
            invariant
                0 <= p <= n,
                n == ids@.len(),
                out@.len() == p,
                forall|q: int|
                    0 <= q < p ==> (#[trigger] out@[q])@ == self.g().layers[ids@[q] as int],
            decreases n - p,
        {
            out.push(self.graph.layers[ids[p]].clone());
            p = p + 1;
        }
        out
    }

    /// The name of the pinned layer of a layer-exploded edge.
    pub fn layer_name(&self) -> (r: Option<String>)
        requires
            self.wf(),
        ensures
            r is Some <==> self.layer_pin is Some,
            r is Some ==> r.unwrap()@ == self.g().layers[self.layer_pin.unwrap() as int],
    {
        match self.layer_pin {
            None => None,
            Some(l) => Some(self.graph.layers[l].clone()),
        }
    }

    /// Narrows the edge view by a layer selection, intersecting the id
    /// sets; `None` exactly when a single unknown name was demanded.
    pub fn layer(&self, sel: &crate::view::Layer) -> (r: Option<EdgeView<'a>>)
        requires
            self.wf(),
        ensures
            r is Some <==> crate::view::spec_sel_known(self.g().layers, *sel),
            r is Some ==> ({
                let e = r.unwrap();
                &&& e.wf()
                &&& e.graph == self.graph
                &&& e.w == self.w
                &&& e.src == self.src
                &&& e.dst == self.dst
                &&& e.time_pin == self.time_pin
                &&& e.layer_pin == self.layer_pin
                &&& (forall|l: int|
                    0 <= l < self.g().layers.len() ==> spec_lids_has(e.layers, l) == (
                    spec_lids_has(self.layers, l) && crate::view::spec_sel_has(
                        self.g().layers,
                        *sel,
                        l,
                    )))
            }),
    {
        match self.graph.resolve_sel(sel) {
            None => None,
            Some(resolved) => {
                let merged = crate::view::lids_intersect(&self.layers, &resolved);
                Some(
                    EdgeView {
                        graph: self.graph,
                        w: self.w,
                        layers: merged,
                        src: self.src,
                        dst: self.dst,
                        time_pin: self.time_pin,
                        layer_pin: self.layer_pin,
                    },
                )
            },
        }
    }
}

/// The ids of the layers below `upto` that show a visible event,
/// ascending.
pub open spec fn spec_vis_layers(e: EdgeView<'_>, upto: int) -> Seq<int>
    decreases upto,
{
    if upto <= 0 {
        Seq::empty()
    } else if spec_layer_vis(e, upto - 1) {
        spec_vis_layers(e, upto - 1).push(upto - 1)
    } else {
        spec_vis_layers(e, upto - 1)
    }
}

proof fn lemma_vis_layers_range(e: EdgeView<'_>, upto: int, q: int)
    requires
        0 <= q < spec_vis_layers(e, upto).len(),
    ensures
        0 <= spec_vis_layers(e, upto)[q] < upto,
    decreases upto,
{
    if upto > 0 {
        let pre = spec_vis_layers(e, upto - 1);
        if q < pre.len() {
            lemma_vis_layers_range(e, upto - 1, q);
        }
    }
}

} // verus!
