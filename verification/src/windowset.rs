//! Window sets: rolling and expanding families of sibling windows over a
//! view, stepped by an interval — calendar-aware when the interval is
//! epoch-aligned.

use vstd::prelude::*;
use crate::graph::Graph;
use crate::time::{Interval, spec_interval_add, spec_interval_sub};
use crate::view::{
    GraphView, LayerIds, spec_is_earliest, spec_is_latest, spec_lids_has, spec_no_time,
    spec_sat_succ, spec_win_compose,
};

verus! {

/// A family of windows walked by a cursor: each call of `next` yields the
/// view `[cursor - window, cursor)` (or `[start, cursor)` for an
/// expanding set) and advances the cursor by the step.
pub struct WindowSet<'a> {
    pub view: GraphView<'a>,
    pub cursor: i64,
    pub end: i64,
    pub step: Interval,
    pub window: Option<Interval>,
    pub start_hint: Option<i64>,
}

/// A window set freshly built over `[s0, e0)` with this step and width.
pub open spec fn spec_ws_fresh(
    r: WindowSet<'_>,
    s0: i64,
    e0: i64,
    step: Interval,
    window: Option<Interval>,
) -> bool {
    &&& r.cursor as int == spec_interval_add(s0 as int, step)
    &&& r.end == e0
    &&& r.step == step
    &&& r.window == window
    &&& r.start_hint == Some(s0)
}

/// A window set that yields nothing: its cursor already stands past the
/// last admissible window end.
pub open spec fn spec_ws_empty(r: WindowSet<'_>) -> bool {
    (r.cursor as int) > spec_interval_add(r.end as int, r.step)
}

impl<'a> WindowSet<'a> {
    pub open spec fn wf(&self) -> bool {
        self.view.wf()
    }

    /// A fresh window set over `view` from `start` to `end`: the cursor
    /// begins one step in.
    pub fn new(view: GraphView<'a>, start: i64, end: i64, step: Interval, window: Option<
        Interval,
    >) -> (r: WindowSet<'a>)
        requires
            view.wf(),
        ensures
            r.wf(),
            r.view == view,
            r.cursor as int == spec_interval_add(start as int, step),
            r.end == end,
            r.step == step,
            r.window == window,
            r.start_hint == Some(start),
    {
        let cursor = step.add(start);
        WindowSet { view, cursor, end, step, window, start_hint: Some(start) }
    }

    /// The empty window set: its cursor already stands past its end.
    pub fn empty(view: GraphView<'a>) -> (r: WindowSet<'a>)
        requires
            view.wf(),
        ensures
            r.wf(),
            r.view == view,
            r.cursor as int > spec_interval_add(r.end as int, r.step),
    {
        WindowSet {
            view,
            cursor: 1,
            end: 0,
            step: Interval::discrete(0),
            window: None,
            start_hint: None,
        }
    }

    /// Whether stepping must walk the calendar: the step or the window
    /// width carries month or year terms.
    pub fn temporal(&self) -> (r: bool)
        ensures
            r == (self.step.aligned || (match self.window {
                Some(w) => w.aligned,
                None => false,
            })),
    {
        self.step.is_aligned() || (match &self.window {
            Some(w) => w.is_aligned(),
            None => false,
        })
    }

    /// The next window: `[cursor - window, cursor)` for a rolling set,
    /// `[start, cursor)` for an expanding one; `None` once the cursor has
    /// passed one step beyond the end. The child reports those raw
    /// bounds while seeing only their intersection with what the base
    /// view already saw.
    pub fn next(&mut self) -> (r: Option<GraphView<'a>>)
        requires
            old(self).wf(),
        ensures
            final(self).wf(),
            final(self).view == old(self).view,
            final(self).end == old(self).end,
            final(self).step == old(self).step,
            final(self).window == old(self).window,
            final(self).start_hint == old(self).start_hint,
            r is Some <==> (old(self).cursor as int) < spec_interval_add(
                old(self).end as int,
                old(self).step,
            ),
            r is Some ==> final(self).cursor as int == spec_interval_add(
                old(self).cursor as int,
                old(self).step,
            ),
            r is None ==> final(self).cursor == old(self).cursor,
            r is Some ==> ({
                let v = r.unwrap();
                let raw_start = (match old(self).window {
                    Some(wiv) => spec_interval_sub(old(self).cursor as int, wiv),
                    None => (match old(self).start_hint {
                        Some(s) => s as int,
                        None => old(self).cursor as int,
                    }),
                }) as i64;
                &&& v.wf()
                &&& v.graph == old(self).view.graph
                &&& (forall|l: int|
                    spec_lids_has(v.layers, l) == spec_lids_has(old(self).view.layers, l))
                &&& v.w == spec_win_compose(old(self).view.w, raw_start, old(self).cursor)
                &&& v.bounds == Some((raw_start, old(self).cursor))
            }),
    {
        let bound = self.step.add(self.end);
        if self.cursor < bound {
            let window_end = self.cursor;
            let window_start: i64 = match &self.window {
                Some(wiv) => wiv.sub(window_end),
                None => match self.start_hint {
                    Some(s) => s,
                    None => window_end,
                },
            };
            let wv: (i64, i64) = match self.view.w {
                None => (window_start, window_end),
                Some((s0, e0)) => (
                    if s0 >= window_start {
                        s0
                    } else {
                        window_start
                    },
                    if e0 <= window_end {
                        e0
                    } else {
                        window_end
                    },
                ),
            };
            let v = GraphView {
                graph: self.view.graph,
                w: Some(wv),
                layers: self.view.layers.duplicate(),
                bounds: Some((window_start, window_end)),
            };
            self.cursor = self.step.add(self.cursor);
            Some(v)
        } else {
            None
        }
    }

    /// The representative times of the windows: midpoints when `center`,
    /// else the last contained time point.
    pub fn time_index(self, center: bool) -> (r: TimeIndex<'a>)
        requires
            self.wf(),
        ensures
            r.windowset == self,
            r.center == center,
    {
        TimeIndex { windowset: self, center }
    }
}

/// The representative time of each window of a set.
pub struct TimeIndex<'a> {
    pub windowset: WindowSet<'a>,
    pub center: bool,
}

/// The midpoint of `[s, e)`, rounding toward `s`.
pub open spec fn spec_mid(s: int, e: int) -> int {
    if e >= s {
        s + (e - s) / 2
    } else {
        s - (s - e) / 2
    }
}

/// The start of the window a set at this state yields next (as the i64
/// the yielded view carries).
pub open spec fn spec_ws_next_start(ws: WindowSet<'_>) -> int {
    match ws.window {
        Some(wiv) => (spec_interval_sub(ws.cursor as int, wiv) as i64) as int,
        None => match ws.start_hint {
            Some(s) => s as int,
            None => ws.cursor as int,
        },
    }
}

impl<'a> TimeIndex<'a> {
    pub open spec fn wf(&self) -> bool {
        self.windowset.wf()
    }

    /// The representative of the next window: its midpoint
    /// `start + (end - start) / 2` when centred, else `end - 1`; the
    /// underlying set advances by its step.
    pub fn next(&mut self) -> (r: Option<i64>)
        requires
            old(self).wf(),
        ensures
            final(self).wf(),
            final(self).center == old(self).center,
            final(self).windowset.view == old(self).windowset.view,
            final(self).windowset.end == old(self).windowset.end,
            final(self).windowset.step == old(self).windowset.step,
            final(self).windowset.window == old(self).windowset.window,
            final(self).windowset.start_hint == old(self).windowset.start_hint,
            r is Some <==> (old(self).windowset.cursor as int) < spec_interval_add(
                old(self).windowset.end as int,
                old(self).windowset.step,
            ),
            r is Some ==> final(self).windowset.cursor as int == spec_interval_add(
                old(self).windowset.cursor as int,
                old(self).windowset.step,
            ),
            r is None ==> final(self).windowset.cursor == old(self).windowset.cursor,
            r is Some ==> ({
                let we = old(self).windowset.cursor;
                let ws = spec_ws_next_start(old(self).windowset);
                r.unwrap() as int == (if old(self).center {
                    spec_mid(ws, we as int)
                } else if we == i64::MIN {
                    we as int
                } else {
                    we - 1
                })
            }),
    {
        let win = self.windowset.next();
        match win {
            None => None,
            Some(v) => {
                let (s, e): (i64, i64) = match v.bounds {
                    Some(p) => p,
                    None => (0, 0),
                };
                if self.center {
                    let mid: i64 = if e >= s {
                        let diff: i128 = (e as i128) - (s as i128);
                        let half: i128 = diff / 2;
                        proof {
                            assert(0 <= half <= diff);
                        }
                        ((s as i128) + half) as i64
                    } else {
                        let diff: i128 = (s as i128) - (e as i128);
                        let half: i128 = diff / 2;
                        proof {
                            assert(0 <= half <= diff);
                        }
                        ((s as i128) - half) as i64
                    };
                    Some(mid)
                } else {
                    if e == i64::MIN {
                        Some(e)
                    } else {
                        Some(e - 1)
                    }
                }
            },
        }
    }
}

impl<'a> GraphView<'a> {
    /// The expanding window family `[start, start + k * step)` while the
    /// previous end lay before the view's end; empty when the view has no
    /// bounds. The family walks the view's reported range.
    pub fn expanding(&self, step: Interval) -> (r: WindowSet<'a>)
        requires
            self.wf(),
        ensures
            r.wf(),
            r.view.graph == self.graph,
            r.view.w == self.w,
            forall|l: int| spec_lids_has(r.view.layers, l) == spec_lids_has(self.layers, l),
            match self.bnd() {
                Some((b0, b1)) => spec_ws_fresh(r, b0, b1, step, None::<Interval>),
                None => match self.win() {
                Some((s0, e0)) => spec_ws_fresh(r, s0, e0, step, None::<Interval>),
                None => {
                    &&& (spec_no_time(self.g(), None, self.lids()) ==> spec_ws_empty(r))
                    &&& (forall|s0: i64, m: i64|
                        spec_is_earliest(self.g(), None, self.lids(), s0) && spec_is_latest(
                            self.g(),
                            None,
                            self.lids(),
                            m,
                        ) ==> spec_ws_fresh(
                            r,
                            s0,
                            spec_sat_succ(m),
                            step,
                            None::<Interval>,
                        ))
                },
                },
            },
    {
        let s = self.start();
        let e = self.end();
        match (s, e) {
            (Some(s0), Some(e0)) => {
                let r = WindowSet::new(self.duplicate(), s0, e0, step, None);
                proof {
                    lemma_bounds_unique(*self, s0, e0);
                }
                r
            },
            _ => {
                let r = WindowSet::empty(self.duplicate());
                proof {
                    lemma_no_bounds(*self, s, e);
                }
                r
            },
        }
    }

    /// The rolling window family `[cursor - window, cursor)` stepping by
    /// `step` (the window width when omitted); empty when the view has no
    /// bounds. The family walks the view's reported range.
    pub fn rolling(&self, window: Interval, step: Option<Interval>) -> (r: WindowSet<'a>)
        requires
            self.wf(),
        ensures
            r.wf(),
            r.view.graph == self.graph,
            r.view.w == self.w,
            forall|l: int| spec_lids_has(r.view.layers, l) == spec_lids_has(self.layers, l),
            match self.bnd() {
                Some((b0, b1)) => spec_ws_fresh(
                    r,
                    b0,
                    b1,
                    (match step {
                        Some(st) => st,
                        None => window,
                    }),
                    Some(window),
                ),
                None => match self.win() {
                Some((s0, e0)) => spec_ws_fresh(
                    r,
                    s0,
                    e0,
                    (match step {
                        Some(st) => st,
                        None => window,
                    }),
                    Some(window),
                ),
                None => {
                    &&& (spec_no_time(self.g(), None, self.lids()) ==> spec_ws_empty(r))
                    &&& (forall|s0: i64, m: i64|
                        spec_is_earliest(self.g(), None, self.lids(), s0) && spec_is_latest(
                            self.g(),
                            None,
                            self.lids(),
                            m,
                        ) ==> spec_ws_fresh(
                            r,
                            s0,
                            spec_sat_succ(m),
                            (match step {
                                Some(st) => st,
                                None => window,
                            }),
                            Some(window),
                        ))
                },
                },
            },
    {
        let st = match step {
            Some(st) => st,
            None => window,
        };
        let s = self.start();
        let e = self.end();
        match (s, e) {
            (Some(s0), Some(e0)) => {
                let r = WindowSet::new(self.duplicate(), s0, e0, st, Some(window));
                proof {
                    lemma_bounds_unique(*self, s0, e0);
                }
                r
            },
            _ => {
                let r = WindowSet::empty(self.duplicate());
                proof {
                    lemma_no_bounds(*self, s, e);
                }
                r
            },
        }
    }

    /// An identical view.
    pub fn duplicate(&self) -> (r: GraphView<'a>)
        ensures
            r.graph == self.graph,
            r.w == self.w,
            r.bounds == self.bounds,
            forall|l: int| spec_lids_has(r.layers, l) == spec_lids_has(self.layers, l),
            self.wf() ==> r.wf(),
    {
        GraphView { graph: self.graph, w: self.w, layers: self.layers.duplicate(), bounds: self.bounds }
    }
}

/// A view's computed bounds pin every earliest/latest witness: the least
/// and greatest visible times are unique.
proof fn lemma_bounds_unique(v: GraphView<'_>, s0: i64, e0: i64)
    requires
        v.wf(),
        v.bounds is None && v.w is None ==> spec_is_earliest(v.g(), None, v.lids(), s0),
        v.bounds is None && v.w is None ==> exists|m: i64|
            spec_is_latest(v.g(), None, v.lids(), m) && e0 == spec_sat_succ(m),
    ensures
        v.bounds is None && v.w is None ==> forall|s1: i64, m1: i64|
            spec_is_earliest(v.g(), None, v.lids(), s1) && spec_is_latest(
                v.g(),
                None,
                v.lids(),
                m1,
            ) ==> s1 == s0 && spec_sat_succ(m1) == e0,
{
    if v.bounds is None && v.w is None {
        let m = choose|m: i64|
            spec_is_latest(v.g(), None, v.lids(), m) && e0 == spec_sat_succ(m);
        assert forall|s1: i64, m1: i64|
            spec_is_earliest(v.g(), None, v.lids(), s1) && spec_is_latest(
                v.g(),
                None,
                v.lids(),
                m1,
            ) implies s1 == s0 && spec_sat_succ(m1) == e0 by {
            assert(s1 <= s0 && s0 <= s1);
            assert(m1 <= m && m <= m1);
        }
    }
}

/// Missing bounds mean no visible event at all.
proof fn lemma_no_bounds(v: GraphView<'_>, s: Option<i64>, e: Option<i64>)
    requires
        v.wf(),
        !(s is Some && e is Some),
        v.bounds is Some ==> s == Some(v.bounds.unwrap().0) && e == Some(v.bounds.unwrap().1),
        v.bounds is None && v.w is Some ==> s == Some(v.w.unwrap().0) && e == Some(
            v.w.unwrap().1,
        ),
        v.bounds is None && v.w is None && s is None ==> spec_no_time(v.g(), None, v.lids()),
        v.bounds is None && v.w is None && e is None ==> spec_no_time(v.g(), None, v.lids()),
    ensures
        v.bounds is None,
        v.w is None,
        spec_no_time(v.g(), None, v.lids()),
        forall|s0: i64, m: i64|
            !(spec_is_earliest(v.g(), None, v.lids(), s0) && spec_is_latest(
                v.g(),
                None,
                v.lids(),
                m,
            )),
{
    assert forall|s0: i64, m: i64|
        !(spec_is_earliest(v.g(), None, v.lids(), s0) && spec_is_latest(
            v.g(),
            None,
            v.lids(),
            m,
        )) by {
        if spec_is_earliest(v.g(), None, v.lids(), s0) {
            assert(crate::view::spec_scope_time(v.g(), None, v.lids(), s0));
        }
    }
}

} // verus!
