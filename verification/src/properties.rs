//! Property views: what a node, an edge or the graph shows of its
//! constant map and its temporal histories under the current filters.
//!
//! A property view is materialized at the moment it is asked for: the
//! constant pairs as stored, and each temporal history restricted to the
//! view's window (and to the pinned time of an exploded edge). An edge
//! merges its selected layer records in ascending layer order.

use vstd::prelude::*;
use crate::graph::{
    spec_cprops_view, spec_hist_view, spec_key_index, spec_tprops_view, lemma_key_index,
};
use crate::props::{Prop, PropV};
use crate::view::{spec_win_has, win_has};

verus! {

// ---------------------------------------------------------------------------
// Spec: filtering and merging.
// ---------------------------------------------------------------------------

/// The pairs of a history inside the window (and at the pinned time, when
/// one is set), in their stored order.
pub open spec fn spec_hist_filter(
    h: Seq<(i64, PropV)>,
    w: Option<(i64, i64)>,
    tpin: Option<i64>,
) -> Seq<(i64, PropV)>
    decreases h.len(),
{
    if h.len() == 0 {
        Seq::empty()
    } else {
        let r = spec_hist_filter(h.drop_last(), w, tpin);
        if spec_win_has(w, h.last().0) && (match tpin {
            None => true,
            Some(t0) => h.last().0 == t0,
        }) {
            r.push(h.last())
        } else {
            r
        }
    }
}

/// A temporal store filtered to the window: keys keep their order, keys
/// left with no observation drop out.
pub open spec fn spec_tstore_filter(
    tp: Seq<(Seq<char>, Seq<(i64, PropV)>)>,
    w: Option<(i64, i64)>,
    tpin: Option<i64>,
) -> Seq<(Seq<char>, Seq<(i64, PropV)>)>
    decreases tp.len(),
{
    if tp.len() == 0 {
        Seq::empty()
    } else {
        let r = spec_tstore_filter(tp.drop_last(), w, tpin);
        let f = spec_hist_filter(tp.last().1, w, tpin);
        if f.len() > 0 {
            r.push((tp.last().0, f))
        } else {
            r
        }
    }
}

/// Appending a history to the named key of a store (creating the key at
/// the back).
pub open spec fn spec_store_append(
    tp: Seq<(Seq<char>, Seq<(i64, PropV)>)>,
    name: Seq<char>,
    h: Seq<(i64, PropV)>,
) -> Seq<(Seq<char>, Seq<(i64, PropV)>)> {
    match spec_key_index(tp, name) {
        None => tp.push((name, h)),
        Some(i) => tp.update(i, (name, tp[i].1 + h)),
    }
}

/// Folding a whole store into another, entry by entry.
pub open spec fn spec_store_merge(
    tp: Seq<(Seq<char>, Seq<(i64, PropV)>)>,
    other: Seq<(Seq<char>, Seq<(i64, PropV)>)>,
) -> Seq<(Seq<char>, Seq<(i64, PropV)>)>
    decreases other.len(),
{
    if other.len() == 0 {
        tp
    } else {
        spec_store_merge(
            spec_store_append(tp, other[0].0, other[0].1),
            other.subrange(1, other.len() as int),
        )
    }
}

/// Merging constant pairs: a known key keeps its first value.
pub open spec fn spec_cstore_merge(
    cp: Seq<(Seq<char>, PropV)>,
    other: Seq<(Seq<char>, PropV)>,
) -> Seq<(Seq<char>, PropV)>
    decreases other.len(),
{
    if other.len() == 0 {
        cp
    } else {
        let c0 = if spec_key_index(cp, other[0].0) is None {
            cp.push(other[0])
        } else {
            cp
        };
        spec_cstore_merge(c0, other.subrange(1, other.len() as int))
    }
}

/// The constant pairs an edge view shows: its selected layer records
/// below `lupto`, merged in ascending layer order, first value per key.
pub open spec fn spec_edge_cmerged(e: crate::edge::EdgeView<'_>, lupto: int) -> Seq<
    (Seq<char>, PropV),
>
    decreases lupto,
{
    if lupto <= 0 {
        Seq::empty()
    } else {
        let base = spec_edge_cmerged(e, lupto - 1);
        if crate::view::spec_lids_has(e.layers, lupto - 1) && (match e.layer_pin {
            None => true,
            Some(l0) => lupto - 1 == l0 as int,
        }) {
            match crate::graph::spec_edge_index(e.g().edges, e.src as int, e.dst as int, lupto - 1) {
                None => base,
                Some(k) => spec_cstore_merge(base, e.g().edges[k].cprops),
            }
        } else {
            base
        }
    }
}

/// The temporal store an edge view shows: the filtered histories of its
/// selected layer records below `lupto`, appended in ascending layer
/// order.
pub open spec fn spec_edge_tmerged(e: crate::edge::EdgeView<'_>, lupto: int) -> Seq<
    (Seq<char>, Seq<(i64, PropV)>),
>
    decreases lupto,
{
    if lupto <= 0 {
        Seq::empty()
    } else {
        let base = spec_edge_tmerged(e, lupto - 1);
        if crate::view::spec_lids_has(e.layers, lupto - 1) && (match e.layer_pin {
            None => true,
            Some(l0) => lupto - 1 == l0 as int,
        }) {
            match crate::graph::spec_edge_index(e.g().edges, e.src as int, e.dst as int, lupto - 1) {
                None => base,
                Some(k) => spec_store_merge(
                    base,
                    spec_tstore_filter(e.g().edges[k].tprops, e.w, e.time_pin),
                ),
            }
        } else {
            base
        }
    }
}

// ---------------------------------------------------------------------------
// Exec helpers.
// ---------------------------------------------------------------------------

/// Copies the constant pairs.
pub(crate) fn cpairs_copy(cp: &Vec<(String, Prop)>) -> (r: Vec<(String, Prop)>)
    ensures
        spec_cprops_view(r@) == spec_cprops_view(cp@),
{
    let mut out: Vec<(String, Prop)> = Vec::new();
    let mut i: usize = 0;
    let n = cp.len();
    while i < n
        invariant
            0 <= i <= n,
            n == cp@.len(),
            spec_cprops_view(out@) =~= spec_cprops_view(cp@).subrange(0, i as int),
        decreases n - i,
    {
        out.push((cp[i].0.clone(), cp[i].1.clone()));
        proof {
            assert(spec_cprops_view(out@) =~= spec_cprops_view(cp@).subrange(0, i as int + 1));
        }
        i = i + 1;
    }
    proof {
        assert(spec_cprops_view(cp@).subrange(0, n as int) =~= spec_cprops_view(cp@));
    }
    out
}

/// The in-window (and pin-matching) pairs of a history.
pub(crate) fn hist_filter(h: &Vec<(i64, Prop)>, w: &Option<(i64, i64)>, tpin: &Option<i64>) -> (r:
    Vec<(i64, Prop)>)
    ensures
        spec_hist_view(r@) == spec_hist_filter(spec_hist_view(h@), *w, *tpin),
{
    let mut out: Vec<(i64, Prop)> = Vec::new();
    let mut i: usize = 0;
    let n = h.len();
    while i < n
        invariant
            0 <= i <= n,
            n == h@.len(),
            spec_hist_view(out@) == spec_hist_filter(
                spec_hist_view(h@).subrange(0, i as int),
                *w,
                *tpin,
            ),
        decreases n - i,
    {
        let ghost pre = spec_hist_view(h@).subrange(0, i as int);
        let t = h[i].0;
        let keep = win_has(w, t) && (match tpin {
            None => true,
            Some(t0) => t == *t0,
        });
        if keep {
            out.push((t, h[i].1.clone()));
        }
        proof {
            let cur = spec_hist_view(h@).subrange(0, i as int + 1);
            assert(cur.drop_last() =~= pre);
            assert(cur.last() == spec_hist_view(h@)[i as int]);
            if keep {
                assert(spec_hist_view(out@) =~= spec_hist_filter(pre, *w, *tpin).push(
                    (t, h@[i as int].1@),
                ));
            }
        }
        i = i + 1;
    }
    proof {
        assert(spec_hist_view(h@).subrange(0, n as int) =~= spec_hist_view(h@));
    }
    out
}

/// The windowed temporal store of one record.
pub(crate) fn tstore_filter(
    tp: &Vec<(String, Vec<(i64, Prop)>)>,
    w: &Option<(i64, i64)>,
    tpin: &Option<i64>,
) -> (r: Vec<(String, Vec<(i64, Prop)>)>)
    ensures
        spec_tprops_view(r@) == spec_tstore_filter(spec_tprops_view(tp@), *w, *tpin),
{
    let mut out: Vec<(String, Vec<(i64, Prop)>)> = Vec::new();
    let mut i: usize = 0;
    let n = tp.len();
    while i < n
        invariant
            0 <= i <= n,
            n == tp@.len(),
            spec_tprops_view(out@) == spec_tstore_filter(
                spec_tprops_view(tp@).subrange(0, i as int),
                *w,
                *tpin,
            ),
        decreases n - i,
    {
        let ghost pre = spec_tprops_view(tp@).subrange(0, i as int);
        let f = hist_filter(&tp[i].1, w, tpin);
        if f.len() > 0 {
            let ghost fv = spec_hist_view(f@);
            out.push((tp[i].0.clone(), f));
            proof {
                assert(spec_tprops_view(out@) =~= spec_tstore_filter(pre, *w, *tpin).push(
                    (tp@[i as int].0@, fv),
                ));
            }
        }
        proof {
            let cur = spec_tprops_view(tp@).subrange(0, i as int + 1);
            assert(cur.drop_last() =~= pre);
            assert(cur.last() == spec_tprops_view(tp@)[i as int]);
        }
        i = i + 1;
    }
    proof {
        assert(spec_tprops_view(tp@).subrange(0, n as int) =~= spec_tprops_view(tp@));
    }
    out
}

/// Appends a history to the named key of the accumulating store.
fn store_append(acc: &mut Vec<(String, Vec<(i64, Prop)>)>, name: &String, h: Vec<(i64, Prop)>)
    ensures
        spec_tprops_view(final(acc)@) == spec_store_append(
            spec_tprops_view(old(acc)@),
            name@,
            spec_hist_view(h@),
        ),
{
    let ghost tv = spec_tprops_view(old(acc)@);
    let ghost hv = spec_hist_view(h@);
    match crate::graph::tstore_find(acc, name) {
        None => {
            acc.push((name.clone(), h));
            proof {
                assert(spec_tprops_view(acc@) =~= tv.push((name@, hv)));
            }
        },
        Some(i) => {
            proof {
                lemma_key_index(tv, name@);
                let ki = spec_key_index(tv, name@);
                if ki is Some {
                    assert(0 <= ki.unwrap() < tv.len());
                }
                assert(spec_key_index(tv, name@) == Some(i as int));
            }
            let entry = &mut acc[i];
            let ghost before = spec_hist_view(entry.1@);
            let mut hh = h;
            entry.1.append(&mut hh);
            proof {
                assert(spec_hist_view(acc@[i as int].1@) =~= before + hv);
                assert(spec_tprops_view(acc@) =~= tv.update(i as int, (name@, tv[i as int].1 + hv)));
            }
        },
    }
}

/// Folds a filtered store into the accumulating one.
fn store_merge(acc: &mut Vec<(String, Vec<(i64, Prop)>)>, other: Vec<(String, Vec<(i64, Prop)>)>)
    ensures
        spec_tprops_view(final(acc)@) == spec_store_merge(
            spec_tprops_view(old(acc)@),
            spec_tprops_view(other@),
        ),
{
    let ghost ov = spec_tprops_view(other@);
    proof {
        assert(ov.subrange(0, ov.len() as int) =~= ov);
    }
    let mut rest = other;
    let mut i: usize = 0;
    let n = rest.len();
    while i < n
        invariant
            0 <= i <= n,
            n == rest@.len(),
            ov == spec_tprops_view(rest@),
            spec_store_merge(spec_tprops_view(acc@), ov.subrange(i as int, n as int))
                == spec_store_merge(spec_tprops_view(old(acc)@), ov),
        decreases n - i,
    {
        let ghost before = spec_tprops_view(acc@);
        let ghost sub = ov.subrange(i as int, n as int);
        let name = rest[i].0.clone();
        let h = hist_copy(&rest[i].1);
        store_append(acc, &name, h);
        proof {
            assert(sub[0] == ov[i as int]);
            assert(sub.subrange(1, sub.len() as int) =~= ov.subrange(i as int + 1, n as int));
            assert(spec_tprops_view(acc@) == spec_store_append(before, ov[i as int].0, ov[i as int].1));
        }
        i = i + 1;
    }
    proof {
        assert(ov.subrange(n as int, n as int) =~= Seq::<(Seq<char>, Seq<(i64, PropV)>)>::empty());
    }
}

/// Copies a history.
pub(crate) fn hist_copy(h: &Vec<(i64, Prop)>) -> (r: Vec<(i64, Prop)>)
    ensures
        spec_hist_view(r@) == spec_hist_view(h@),
{
    let mut out: Vec<(i64, Prop)> = Vec::new();
    let mut i: usize = 0;
    let n = h.len();
    while i < n
        invariant
            0 <= i <= n,
            n == h@.len(),
            spec_hist_view(out@) =~= spec_hist_view(h@).subrange(0, i as int),
        decreases n - i,
    {
        out.push((h[i].0, h[i].1.clone()));
        proof {
            assert(spec_hist_view(out@) =~= spec_hist_view(h@).subrange(0, i as int + 1));
        }
        i = i + 1;
    }
    proof {
        assert(spec_hist_view(h@).subrange(0, n as int) =~= spec_hist_view(h@));
    }
    out
}

/// Merges constant pairs, first value per key.
fn cstore_merge(acc: &mut Vec<(String, Prop)>, other: &Vec<(String, Prop)>)
    ensures
        spec_cprops_view(final(acc)@) == spec_cstore_merge(
            spec_cprops_view(old(acc)@),
            spec_cprops_view(other@),
        ),
{
    let ghost ov = spec_cprops_view(other@);
    proof {
        assert(ov.subrange(0, ov.len() as int) =~= ov);
    }
    let mut i: usize = 0;
    let n = other.len();
    while i < n
        invariant
            0 <= i <= n,
            n == other@.len(),
            ov == spec_cprops_view(other@),
            spec_cstore_merge(spec_cprops_view(acc@), ov.subrange(i as int, n as int))
                == spec_cstore_merge(spec_cprops_view(old(acc)@), ov),
        decreases n - i,
    {
        let ghost before = spec_cprops_view(acc@);
        let ghost sub = ov.subrange(i as int, n as int);
        proof {
            assert(sub[0] == ov[i as int]);
            assert(sub.subrange(1, sub.len() as int) =~= ov.subrange(i as int + 1, n as int));
        }
        match crate::graph::cstore_find(acc, &other[i].0) {
            None => {
                acc.push((other[i].0.clone(), other[i].1.clone()));
                proof {
                    assert(spec_cprops_view(acc@) =~= before.push(ov[i as int]));
                }
            },
            Some(_) => {},
        }
        i = i + 1;
    }
    proof {
        assert(ov.subrange(n as int, n as int) =~= Seq::<(Seq<char>, PropV)>::empty());
    }
}

// ---------------------------------------------------------------------------
// The materialized property views.
// ---------------------------------------------------------------------------

/// The constant properties of an entity: name/value pairs in insertion
/// order.
pub struct ConstProperties {
    pub pairs: Vec<(String, Prop)>,
}

impl ConstProperties {
    /// The names, in stored order.
    pub fn keys(&self) -> (r: Vec<String>)
        ensures
            r@.len() == self.pairs@.len(),
            forall|i: int|
                0 <= i < r@.len() ==> (#[trigger] r@[i])@ == spec_cprops_view(self.pairs@)[i].0,
    {
        let mut out: Vec<String> = Vec::new();
        let mut i: usize = 0;
        let n = self.pairs.len();
        while i < n
            invariant
                0 <= i <= n,
                n == self.pairs@.len(),
                out@.len() == i,
                forall|q: int|
                    0 <= q < i ==> (#[trigger] out@[q])@ == spec_cprops_view(self.pairs@)[q].0,
            decreases n - i,
        {
            out.push(self.pairs[i].0.clone());
            i = i + 1;
        }
        out
    }

    /// The stored value of a name, if any.
    pub fn get(&self, name: &String) -> (r: Option<Prop>)
        ensures
            r is Some <==> spec_key_index(spec_cprops_view(self.pairs@), name@) is Some,
            r is Some ==> r.unwrap()@ == spec_cprops_view(self.pairs@)[spec_key_index(
                spec_cprops_view(self.pairs@),
                name@,
            ).unwrap()].1,
    {
        match crate::graph::cstore_find(&self.pairs, name) {
            None => None,
            Some(i) => {
                proof {
                    lemma_key_index(spec_cprops_view(self.pairs@), name@);
                    let ki = spec_key_index(spec_cprops_view(self.pairs@), name@);
                    if ki is Some {
                        assert(0 <= ki.unwrap() < self.pairs@.len());
                    }
                    assert(ki == Some(i as int));
                }
                Some(self.pairs[i].1.clone())
            },
        }
    }

    /// Whether nothing is stored.
    pub fn is_empty(&self) -> (r: bool)
        ensures
            r == (self.pairs@.len() == 0),
    {
        self.pairs.len() == 0
    }
}

/// One temporal history under the view's filters.
pub struct TemporalProperty {
    pub hist: Vec<(i64, Prop)>,
}

/// The latest value of a history at or before `t`.
pub open spec fn spec_at_or_before(h: Seq<(i64, PropV)>, t: i64) -> Option<PropV>
    decreases h.len(),
{
    if h.len() == 0 {
        None
    } else if h.last().0 <= t {
        Some(h.last().1)
    } else {
        spec_at_or_before(h.drop_last(), t)
    }
}

impl TemporalProperty {
    /// The observations, in stored order.
    pub fn iter(&self) -> (r: Vec<(i64, Prop)>)
        ensures
            spec_hist_view(r@) == spec_hist_view(self.hist@),
    {
        hist_copy(&self.hist)
    }

    /// The observed values alone, in stored order.
    pub fn values(&self) -> (r: Vec<Prop>)
        ensures
            r@.len() == self.hist@.len(),
            forall|i: int|
                0 <= i < r@.len() ==> (#[trigger] r@[i])@ == spec_hist_view(self.hist@)[i].1,
    {
        let mut out: Vec<Prop> = Vec::new();
        let mut i: usize = 0;
        let n = self.hist.len();
        while i < n
            invariant
                0 <= i <= n,
                n == self.hist@.len(),
                out@.len() == i,
                forall|q: int|
                    0 <= q < i ==> (#[trigger] out@[q])@ == spec_hist_view(self.hist@)[q].1,
            decreases n - i,
        {
            out.push(self.hist[i].1.clone());
            i = i + 1;
        }
        out
    }

    /// The value recorded at `t`, or the latest one before it.
    pub fn at(&self, t: i64) -> (r: Option<Prop>)
        ensures
            r is Some <==> spec_at_or_before(spec_hist_view(self.hist@), t) is Some,
            r is Some ==> Some(r.unwrap()@) == spec_at_or_before(spec_hist_view(self.hist@), t),
    {
        let mut i = self.hist.len();
        proof {
            assert(spec_hist_view(self.hist@).subrange(0, self.hist@.len() as int) =~= spec_hist_view(
                self.hist@,
            ));
        }
        while i > 0
            invariant
                0 <= i <= self.hist@.len(),
                spec_at_or_before(spec_hist_view(self.hist@), t) == spec_at_or_before(
                    spec_hist_view(self.hist@).subrange(0, i as int),
                    t,
                ),
            decreases i,
        {
            proof {
                let cur = spec_hist_view(self.hist@).subrange(0, i as int);
                assert(cur.drop_last() =~= spec_hist_view(self.hist@).subrange(0, i as int - 1));
                assert(cur.last() == spec_hist_view(self.hist@)[i as int - 1]);
            }
            if self.hist[i - 1].0 <= t {
                return Some(self.hist[i - 1].1.clone());
            }
            i = i - 1;
        }
        proof {
            assert(spec_hist_view(self.hist@).subrange(0, 0) =~= Seq::<(i64, PropV)>::empty());
        }
        None
    }

    /// The last observed value.
    pub fn latest(&self) -> (r: Option<Prop>)
        ensures
            r is Some <==> self.hist@.len() > 0,
            r is Some ==> r.unwrap()@ == spec_hist_view(self.hist@).last().1,
    {
        let n = self.hist.len();
        if n == 0 {
            None
        } else {
            Some(self.hist[n - 1].1.clone())
        }
    }
}

/// The temporal properties of an entity under the view's filters.
pub struct TemporalProperties {
    pub pairs: Vec<(String, Vec<(i64, Prop)>)>,
}

impl TemporalProperties {
    pub open spec fn model(&self) -> Seq<(Seq<char>, Seq<(i64, PropV)>)> {
        spec_tprops_view(self.pairs@)
    }

    /// The history stored under a name.
    pub fn get(&self, name: &String) -> (r: Option<TemporalProperty>)
        ensures
            r is Some <==> spec_key_index(self.model(), name@) is Some,
            r is Some ==> spec_hist_view(r.unwrap().hist@) == self.model()[spec_key_index(
                self.model(),
                name@,
            ).unwrap()].1,
    {
        match crate::graph::tstore_find(&self.pairs, name) {
            None => None,
            Some(i) => {
                proof {
                    lemma_key_index(self.model(), name@);
                    let ki = spec_key_index(self.model(), name@);
                    if ki is Some {
                        assert(0 <= ki.unwrap() < self.model().len());
                    }
                    assert(spec_key_index(self.model(), name@) == Some(i as int));
                }
                Some(TemporalProperty { hist: hist_copy(&self.pairs[i].1) })
            },
        }
    }

    /// The names, in stored order.
    pub fn keys(&self) -> (r: Vec<String>)
        ensures
            r@.len() == self.pairs@.len(),
            forall|i: int| 0 <= i < r@.len() ==> (#[trigger] r@[i])@ == self.model()[i].0,
    {
        let mut out: Vec<String> = Vec::new();
        let mut i: usize = 0;
        let n = self.pairs.len();
        while i < n
            invariant
                0 <= i <= n,
                n == self.pairs@.len(),
                out@.len() == i,
                forall|q: int| 0 <= q < i ==> (#[trigger] out@[q])@ == self.model()[q].0,
            decreases n - i,
        {
            out.push(self.pairs[i].0.clone());
            i = i + 1;
        }
        out
    }

    /// The histories, named, in stored order.
    pub fn iter(&self) -> (r: Vec<(String, TemporalProperty)>)
        ensures
            r@.len() == self.pairs@.len(),
            forall|i: int|
                0 <= i < r@.len() ==> ((#[trigger] r@[i]).0@ == self.model()[i].0
                    && spec_hist_view(r@[i].1.hist@) == self.model()[i].1),
    {
        let mut out: Vec<(String, TemporalProperty)> = Vec::new();
        let mut i: usize = 0;
        let n = self.pairs.len();
        while i < n
            invariant
                0 <= i <= n,
                n == self.pairs@.len(),
                out@.len() == i,
                forall|q: int|
                    0 <= q < i ==> ((#[trigger] out@[q]).0@ == self.model()[q].0
                        && spec_hist_view(out@[q].1.hist@) == self.model()[q].1),
            decreases n - i,
        {
            out.push(
                (self.pairs[i].0.clone(), TemporalProperty { hist: hist_copy(&self.pairs[i].1) }),
            );
            i = i + 1;
        }
        out
    }

    /// Every history holds at least one observation.
    pub open spec fn nonempty(&self) -> bool {
        forall|i: int| 0 <= i < self.model().len() ==> (#[trigger] self.model()[i]).1.len() > 0
    }

    /// The latest value per name, in stored order.
    pub fn iter_latest(&self) -> (r: Vec<(String, Prop)>)
        requires
            self.nonempty(),
        ensures
            r@.len() == self.pairs@.len(),
            forall|i: int|
                0 <= i < r@.len() ==> ((#[trigger] r@[i]).0@ == self.model()[i].0 && r@[i].1@
                    == self.model()[i].1.last().1),
    {
        let mut out: Vec<(String, Prop)> = Vec::new();
        let mut i: usize = 0;
        let n = self.pairs.len();
        while i < n
            invariant
                0 <= i <= n,
                n == self.pairs@.len(),
                out@.len() == i,
                forall|q: int|
                    0 <= q < i ==> ((#[trigger] out@[q]).0@ == self.model()[q].0 && out@[q].1@
                        == self.model()[q].1.last().1),
            decreases n - i,
        {
            proof {
                assert(self.model()[i as int].1.len() > 0);
            }
            let h = &self.pairs[i].1;
            out.push((self.pairs[i].0.clone(), h[h.len() - 1].1.clone()));
            i = i + 1;
        }
        out
    }
}

/// All properties of an entity under the view's filters.
pub struct Properties {
    pub cprops: ConstProperties,
    pub tprops: TemporalProperties,
}

impl Properties {
    /// The constant store.
    pub fn constant(&self) -> (r: &ConstProperties)
        ensures
            r == &self.cprops,
    {
        &self.cprops
    }

    /// The temporal store.
    pub fn temporal(&self) -> (r: &TemporalProperties)
        ensures
            r == &self.tprops,
    {
        &self.tprops
    }

    /// The latest visible temporal value of a name.
    pub fn get(&self, name: &String) -> (r: Option<Prop>)
        requires
            self.tprops.nonempty(),
        ensures
            r is Some <==> spec_key_index(self.tprops.model(), name@) is Some,
            r is Some ==> r.unwrap()@ == self.tprops.model()[spec_key_index(
                self.tprops.model(),
                name@,
            ).unwrap()].1.last().1,
    {
        match self.tprops.get(name) {
            None => None,
            Some(p) => {
                proof {
                    lemma_key_index(self.tprops.model(), name@);
                    let ki = spec_key_index(self.tprops.model(), name@);
                    assert(0 <= ki.unwrap() < self.tprops.model().len());
                    assert(self.tprops.model()[ki.unwrap()].1.len() > 0);
                    assert(spec_hist_view(p.hist@).len() > 0);
                }
                p.latest()
            },
        }
    }

    /// Every visible property as a pair: each temporal name with its
    /// latest value, then the constant names not shadowed by a temporal
    /// one.
    pub fn as_vec(&self) -> (r: Vec<(String, Prop)>)
        requires
            self.tprops.nonempty(),
        ensures
            r@.len() >= self.tprops.pairs@.len(),
            forall|i: int|
                0 <= i < self.tprops.pairs@.len() ==> ((#[trigger] r@[i]).0@
                    == self.tprops.model()[i].0 && r@[i].1@ == self.tprops.model()[i].1.last().1),
    {
        let mut out = self.tprops.iter_latest();
        let ghost base = out@;
        let mut i: usize = 0;
        let n = self.cprops.pairs.len();
        while i < n
            invariant
                0 <= i <= n,
                n == self.cprops.pairs@.len(),
                out@.len() >= base.len(),
                forall|q: int| 0 <= q < base.len() ==> out@[q] == base[q],
            decreases n - i,
        {
            let nm = &self.cprops.pairs[i].0;
            match crate::graph::tstore_find(&self.tprops.pairs, nm) {
                None => {
                    let ghost pre = out@;
                    out.push((nm.clone(), self.cprops.pairs[i].1.clone()));
                    proof {
                        assert forall|q: int| 0 <= q < base.len() implies out@[q] == base[q] by {
                            assert(out@[q] == pre[q]);
                        }
                    }
                },
                Some(_) => {},
            }
            i = i + 1;
        }
        proof {
            assert forall|q: int|
                0 <= q < self.tprops.pairs@.len() implies ((#[trigger] out@[q]).0@
                == self.tprops.model()[q].0 && out@[q].1@ == self.tprops.model()[q].1.last().1) by {
                assert(out@[q] == base[q]);
            }
        }
        out
    }
}

// ---------------------------------------------------------------------------
// Construction from the views.
// ---------------------------------------------------------------------------

impl<'a> crate::node::NodeView<'a> {
    /// The node's properties: constants as stored, temporal histories
    /// restricted to the window.
    pub fn properties(&self) -> (r: Properties)
        requires
            self.wf(),
        ensures
            spec_cprops_view(r.cprops.pairs@) == self.g().nodes[self.vid as int].cprops,
            r.tprops.model() == spec_tstore_filter(
                self.g().nodes[self.vid as int].tprops,
                self.w,
                None,
            ),
    {
        let node = &self.graph.nodes[self.vid];
        let cp = cpairs_copy(&node.cprops);
        let tp = tstore_filter(&node.tprops, &self.w, &None);
        Properties { cprops: ConstProperties { pairs: cp }, tprops: TemporalProperties { pairs: tp } }
    }
}

impl<'a> crate::edge::EdgeView<'a> {
    /// The edge's properties: its selected layer records merged in
    /// ascending layer order — constants keep the first value per name,
    /// temporal histories are appended — with every history restricted to
    /// the window and to any pinned time.
    pub fn properties(&self) -> (r: Properties)
        requires
            self.wf(),
        ensures
            spec_cprops_view(r.cprops.pairs@) == spec_edge_cmerged(
                *self,
                self.g().layers.len() as int,
            ),
            r.tprops.model() == spec_edge_tmerged(*self, self.g().layers.len() as int),
    {
        let mut cp: Vec<(String, Prop)> = Vec::new();
        let mut tp: Vec<(String, Vec<(i64, Prop)>)> = Vec::new();
        let n = self.graph.layers.len();
        let mut l: usize = 0;
        proof {
            assert(spec_cprops_view(cp@) =~= Seq::<(Seq<char>, PropV)>::empty());
            assert(spec_tprops_view(tp@) =~= Seq::<(Seq<char>, Seq<(i64, PropV)>)>::empty());
        }
        while l < n
            invariant
                0 <= l <= n,
                n == self.g().layers.len(),
                self.wf(),
                spec_cprops_view(cp@) == spec_edge_cmerged(*self, l as int),
                spec_tprops_view(tp@) == spec_edge_tmerged(*self, l as int),
            decreases n - l,
        {
            if self.layers.has(l) && (match self.layer_pin {
                None => true,
                Some(l0) => l == l0,
            }) {
                match self.graph.find_edge_rec(self.src, self.dst, l) {
                    None => {},
                    Some(k) => {
                        let rec = &self.graph.edges[k];
                        cstore_merge(&mut cp, &rec.cprops);
                        let filtered = tstore_filter(&rec.tprops, &self.w, &self.time_pin);
                        store_merge(&mut tp, filtered);
                    },
                }
            }
            l = l + 1;
        }
        Properties { cprops: ConstProperties { pairs: cp }, tprops: TemporalProperties { pairs: tp } }
    }
}

} // verus!
