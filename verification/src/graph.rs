//! The temporal multigraph store: nodes, directed edges, layers, event
//! times and properties.
//!
//! The store is append-only. Every mutation referencing an unknown
//! external id creates the entity at the event's time; nothing is ever
//! removed. Each edge record is identified by `(src, dst, layer)` and
//! carries a strictly time-ordered event list; a logical `(src, dst)` pair
//! may have one record per layer.

use vstd::prelude::*;
use crate::GraphError;
use crate::props::{Prop, PropV};
use crate::time::{spec_is_dig, spec_num};

verus! {

// ---------------------------------------------------------------------------
// External node ids.
// ---------------------------------------------------------------------------

/// An external node reference: a 64-bit integer or a stable string name.
/// A name spelled as a decimal number (up to nineteen digits) denotes the
/// same node as the integer it spells.
#[derive(PartialEq, Eq, Debug)]
pub enum NodeId {
    U64(u64),
    Name(String),
}

/// The mathematical value of an external id.
pub ghost enum GidV {
    U64(u64),
    Name(Seq<char>),
}

impl View for NodeId {
    type V = GidV;

    open spec fn view(&self) -> GidV {
        match self {
            NodeId::U64(x) => GidV::U64(*x),
            NodeId::Name(s) => GidV::Name(s@),
        }
    }
}

impl Clone for NodeId {
    fn clone(&self) -> (r: Self)
        ensures
            r == *self,
    {
        match self {
            NodeId::U64(x) => NodeId::U64(*x),
            NodeId::Name(s) => NodeId::Name(s.clone()),
        }
    }
}

pub open spec fn spec_all_dig_seq(s: Seq<char>) -> bool {
    forall|i: int| 0 <= i < s.len() ==> spec_is_dig(#[trigger] s[i])
}

/// The canonical form of an external id: digit-only names of at most
/// nineteen digits collapse to the number they spell.
pub open spec fn spec_canon_gid(g: GidV) -> GidV {
    match g {
        GidV::U64(x) => GidV::U64(x),
        GidV::Name(s) => {
            if 1 <= s.len() <= 19 && spec_all_dig_seq(s) {
                GidV::U64(spec_num(s, 0, s.len() as int) as u64)
            } else {
                GidV::Name(s)
            }
        },
    }
}

/// The display name of a node: its string name, or the decimal digits of
/// its integer id.
pub open spec fn spec_gid_name(g: GidV) -> Seq<char> {
    match g {
        GidV::U64(x) => crate::props::spec_dec_str(x as nat),
        GidV::Name(s) => s,
    }
}

/// Reads a whole string as a decimal number of at most nineteen digits.
pub(crate) fn digits_value(s: &str) -> (r: Option<u64>)
    ensures
        r.is_some() <==> (1 <= s@.len() <= 19 && spec_all_dig_seq(s@)),
        r.is_some() ==> r.unwrap() as int == spec_num(s@, 0, s@.len() as int),
        r.is_some() ==> spec_num(s@, 0, s@.len() as int) < 10000000000000000000,
{
    let n = s.unicode_len();
    if n < 1 || n > 19 {
        return None;
    }
    let mut acc: u64 = 0;
    let mut i: usize = 0;
    while i < n
        invariant
            0 <= i <= n,
            n as int == s@.len(),
            1 <= n <= 19,
            acc as int == spec_num(s@, 0, i as int),
            forall|j: int| 0 <= j < i ==> spec_is_dig(#[trigger] s@[j]),
        decreases n - i,
    {
        let c = s.get_char(i);
        let u = c as u32;
        if u < 48 || u > 57 {
            proof {
                assert(!spec_is_dig(s@[i as int]));
            }
            return None;
        }
        proof {
            crate::time::lemma_num_pow_bound(s@, 0, i as int);
            crate::time::lemma_pow10_mono(i as nat, 18);
            assert(crate::time::spec_pow10(18) == 1000000000000000000) by {
                reveal_with_fuel(crate::time::spec_pow10, 19);
            }
        }
        acc = acc * 10 + ((u - 48) as u64);
        i = i + 1;
    }
    proof {
        crate::time::lemma_num_pow_bound(s@, 0, n as int);
        crate::time::lemma_pow10_mono(n as nat, 19);
        assert(crate::time::spec_pow10(19) == 10000000000000000000) by {
            reveal_with_fuel(crate::time::spec_pow10, 20);
        }
    }
    Some(acc)
}

impl NodeId {
    /// The canonical form: numeric names collapse to the number.
    pub fn canonical(&self) -> (r: NodeId)
        ensures
            r@ == spec_canon_gid(self@),
    {
        match self {
            NodeId::U64(x) => NodeId::U64(*x),
            NodeId::Name(s) => {
                match digits_value(s.as_str()) {
                    Some(v) => NodeId::U64(v),
                    None => NodeId::Name(s.clone()),
                }
            },
        }
    }

    /// Id equality, by value.
    pub fn id_eq(&self, other: &NodeId) -> (r: bool)
        ensures
            r == (self@ == other@),
    {
        match (self, other) {
            (NodeId::U64(a), NodeId::U64(b)) => *a == *b,
            (NodeId::Name(a), NodeId::Name(b)) => a.eq(b),
            _ => false,
        }
    }
}

// ---------------------------------------------------------------------------
// Property stores: spec views and write operations.
// ---------------------------------------------------------------------------

/// Constant store model: name/value pairs in insertion order.
pub open spec fn spec_cprops_view(ps: Seq<(String, Prop)>) -> Seq<(Seq<char>, PropV)> {
    ps.map_values(|p: (String, Prop)| (p.0@, p.1@))
}

/// One temporal history: time/value pairs, strictly time-ordered.
pub open spec fn spec_hist_view(h: Seq<(i64, Prop)>) -> Seq<(i64, PropV)> {
    h.map_values(|p: (i64, Prop)| (p.0, p.1@))
}

/// Temporal store model: per-name histories in insertion order of names.
pub open spec fn spec_tprops_view(ps: Seq<(String, Vec<(i64, Prop)>)>) -> Seq<
    (Seq<char>, Seq<(i64, PropV)>),
> {
    ps.map_values(|p: (String, Vec<(i64, Prop)>)| (p.0@, spec_hist_view(p.1@)))
}

pub open spec fn spec_sorted(s: Seq<i64>) -> bool {
    forall|i: int, j: int| 0 <= i < j < s.len() ==> s[i] < s[j]
}

pub open spec fn spec_hist_sorted(h: Seq<(i64, PropV)>) -> bool {
    forall|i: int, j: int| 0 <= i < j < h.len() ==> h[i].0 < h[j].0
}

pub open spec fn spec_keys_unique<T>(s: Seq<(Seq<char>, T)>) -> bool {
    forall|i: int, j: int| 0 <= i < j < s.len() ==> s[i].0 != s[j].0
}

/// Insertion of a time into a strictly sorted history, keeping it a set.
pub open spec fn spec_time_insert(s: Seq<i64>, t: i64) -> Seq<i64>
    decreases s.len(),
{
    if s.len() == 0 {
        seq![t]
    } else if s.last() < t {
        s.push(t)
    } else if s.last() == t {
        s
    } else {
        spec_time_insert(s.drop_last(), t).push(s.last())
    }
}

pub proof fn lemma_time_insert(s: Seq<i64>, t: i64)
    requires
        spec_sorted(s),
    ensures
        spec_sorted(spec_time_insert(s, t)),
        spec_time_insert(s, t).contains(t),
        forall|x: i64| s.contains(x) ==> spec_time_insert(s, t).contains(x),
        forall|i: int|
            0 <= i < spec_time_insert(s, t).len() ==> (s.contains(
                #[trigger] spec_time_insert(s, t)[i],
            ) || spec_time_insert(s, t)[i] == t),
        spec_time_insert(s, t).len() >= 1,
        s.len() <= spec_time_insert(s, t).len() <= s.len() + 1,
    decreases s.len(),
{
    let r = spec_time_insert(s, t);
    if s.len() == 0 {
        assert(r[0] == t);
    } else if s.last() < t {
        assert(r[s.len() as int] == t);
        assert forall|x: i64| s.contains(x) implies r.contains(x) by {
            let i = choose|i: int| 0 <= i < s.len() && s[i] == x;
            assert(r[i] == x);
        }
        assert forall|i: int| 0 <= i < r.len() implies (s.contains(r[i]) || r[i] == t) by {
            if i < s.len() {
                assert(r[i] == s[i]);
                assert(s.contains(r[i]));
            }
        }
    } else if s.last() == t {
        assert(r[s.len() - 1] == t);
        assert forall|i: int| 0 <= i < r.len() implies (s.contains(r[i]) || r[i] == t) by {
            assert(s.contains(s[i]));
        }
    } else {
        let s0 = s.drop_last();
        assert(spec_sorted(s0));
        lemma_time_insert(s0, t);
        let r0 = spec_time_insert(s0, t);
        assert(r == r0.push(s.last()));
        assert(r0.contains(t));
        assert forall|x: i64| r0.contains(x) implies r.contains(x) by {
            let i = choose|i: int| 0 <= i < r0.len() && r0[i] == x;
            assert(r[i] == x);
        }
        assert(r.contains(t));
        assert forall|x: i64| s.contains(x) implies r.contains(x) by {
            let i = choose|i: int| 0 <= i < s.len() && s[i] == x;
            if i < s0.len() {
                assert(s0[i] == x);
                assert(s0.contains(x));
                assert(r0.contains(x));
            } else {
                assert(r[r.len() - 1] == x);
            }
        }
        assert forall|i: int| 0 <= i < r.len() implies (s.contains(r[i]) || r[i] == t) by {
            if i < r0.len() {
                assert(r0[i] == r[i]);
                if s0.contains(r0[i]) {
                    let j = choose|j: int| 0 <= j < s0.len() && s0[j] == r0[i];
                    assert(s[j] == r0[i]);
                    assert(s.contains(r[i]));
                }
            } else {
                assert(r[i] == s.last());
                assert(s.contains(r[i]));
            }
        }
        assert forall|i: int, j: int| 0 <= i < j < r.len() implies r[i] < r[j] by {
            if j == r.len() - 1 {
                assert(s0.contains(r0[i]) || r0[i] == t);
                if s0.contains(r0[i]) {
                    let k = choose|k: int| 0 <= k < s0.len() && s0[k] == r0[i];
                    assert(s[k] < s.last());
                } else {
                    assert(r[i] == t);
                }
            }
        }
    }
}

/// Writing `(t, v)` into a history: overwrite at an equal time, insert in
/// time order otherwise.
pub open spec fn spec_hist_write(h: Seq<(i64, PropV)>, t: i64, v: PropV) -> Seq<(i64, PropV)>
    decreases h.len(),
{
    if h.len() == 0 {
        seq![(t, v)]
    } else if h.last().0 < t {
        h.push((t, v))
    } else if h.last().0 == t {
        h.drop_last().push((t, v))
    } else {
        spec_hist_write(h.drop_last(), t, v).push(h.last())
    }
}

/// The value recorded in a history at exactly time `t`.
pub open spec fn spec_hist_at(h: Seq<(i64, PropV)>, t: i64) -> Option<PropV>
    decreases h.len(),
{
    if h.len() == 0 {
        None
    } else if h.last().0 == t {
        Some(h.last().1)
    } else {
        spec_hist_at(h.drop_last(), t)
    }
}

pub proof fn lemma_hist_write(h: Seq<(i64, PropV)>, t: i64, v: PropV)
    requires
        spec_hist_sorted(h),
    ensures
        spec_hist_sorted(spec_hist_write(h, t, v)),
        spec_hist_at(spec_hist_write(h, t, v), t) == Some(v),
        forall|u: i64| u != t ==> spec_hist_at(spec_hist_write(h, t, v), u) == spec_hist_at(h, u),
        spec_hist_write(h, t, v).len() >= 1,
        h.len() <= spec_hist_write(h, t, v).len() <= h.len() + 1,
    decreases h.len(),
{
    let r = spec_hist_write(h, t, v);
    if h.len() == 0 {
        assert(r.last() == (t, v));
        assert forall|u: i64| u != t implies spec_hist_at(r, u) == spec_hist_at(h, u) by {
            assert(r.drop_last() =~= Seq::<(i64, PropV)>::empty());
            assert(spec_hist_at(r, u) == spec_hist_at(r.drop_last(), u));
            assert(spec_hist_at(r.drop_last(), u) is None);
        }
    } else if h.last().0 < t {
        assert(r.last() == (t, v));
        assert(r.drop_last() =~= h);
        assert forall|i: int, j: int| 0 <= i < j < r.len() implies r[i].0 < r[j].0 by {
            if j == r.len() - 1 {
                if i < h.len() - 1 {
                    assert(h[i].0 < h[h.len() - 1].0);
                }
            }
        }
    } else if h.last().0 == t {
        let h0 = h.drop_last();
        assert(r == h0.push((t, v)));
        assert(r.drop_last() =~= h0);
        assert forall|i: int, j: int| 0 <= i < j < r.len() implies r[i].0 < r[j].0 by {
            if j == r.len() - 1 {
                assert(h[i].0 < h[h.len() - 1].0);
            }
        }
        assert forall|u: i64| u != t implies spec_hist_at(r, u) == spec_hist_at(h, u) by {
            assert(spec_hist_at(r, u) == spec_hist_at(r.drop_last(), u));
            assert(spec_hist_at(h, u) == spec_hist_at(h0, u));
        }
    } else {
        let h0 = h.drop_last();
        assert(spec_hist_sorted(h0));
        lemma_hist_write(h0, t, v);
        let r0 = spec_hist_write(h0, t, v);
        assert(r == r0.push(h.last()));
        assert(r.drop_last() =~= r0);
        // every time in r0 is an old time below last, or t
        assert forall|i: int| 0 <= i < r0.len() implies r0[i].0 < h.last().0 by {
            lemma_hist_write_times(h0, t, v, i);
            if r0[i].0 == t {
                assert(t < h.last().0);
            } else {
                assert(h0.contains(r0[i]));
                let j = choose|j: int| 0 <= j < h0.len() && h0[j] == r0[i];
                assert(h[j] == r0[i]);
                assert(h[j].0 < h[h.len() - 1].0);
            }
        }
        assert forall|i: int, j: int| 0 <= i < j < r.len() implies r[i].0 < r[j].0 by {
            if j == r.len() - 1 {
                assert(r0[i].0 < h.last().0);
            }
        }
        assert(spec_hist_at(r, t) == spec_hist_at(r0, t));
        assert forall|u: i64| u != t implies spec_hist_at(r, u) == spec_hist_at(h, u) by {
            if u == h.last().0 {
            } else {
                assert(spec_hist_at(r, u) == spec_hist_at(r0, u));
                assert(spec_hist_at(h, u) == spec_hist_at(h0, u));
            }
        }
    }
}

/// Every entry of a written history carries an old time not above the
/// written one, or the written time itself.
proof fn lemma_hist_write_times(h: Seq<(i64, PropV)>, t: i64, v: PropV, i: int)
    requires
        spec_hist_sorted(h),
        0 <= i < spec_hist_write(h, t, v).len(),
    ensures
        ({
            let e = spec_hist_write(h, t, v)[i];
            e.0 == t || h.contains(e)
        }),
    decreases h.len(),
{
    let r = spec_hist_write(h, t, v);
    if h.len() == 0 {
    } else if h.last().0 < t {
        if i < h.len() {
            assert(h.contains(h[i]));
        }
    } else if h.last().0 == t {
        if i < h.len() - 1 {
            assert(h.contains(h[i]));
        }
    } else {
        let h0 = h.drop_last();
        let r0 = spec_hist_write(h0, t, v);
        if i < r0.len() {
            lemma_hist_write_times(h0, t, v, i);
            if r0[i].0 != t {
                assert(h0.contains(r0[i]));
                let j = choose|j: int| 0 <= j < h0.len() && h0[j] == r0[i];
                assert(h[j] == r0[i]);
                assert(h.contains(r0[i]));
            }
        } else {
            assert(r[i] == h.last());
            assert(h.contains(h.last()));
        }
    }
}

/// Times of a written history, for sortedness reasoning: bounded above by
/// the old last time when the write goes below it.
pub open spec fn spec_hist_times(h: Seq<(i64, PropV)>) -> Seq<i64> {
    h.map_values(|p: (i64, PropV)| p.0)
}

/// First index carrying `name`, scanning from the front.
pub open spec fn spec_key_index<T>(s: Seq<(Seq<char>, T)>, name: Seq<char>) -> Option<int>
    decreases s.len(),
{
    if s.len() == 0 {
        None
    } else if s[0].0 == name {
        Some(0)
    } else {
        match spec_key_index(s.subrange(1, s.len() as int), name) {
            None => None,
            Some(i) => Some(i + 1),
        }
    }
}

pub proof fn lemma_key_index<T>(s: Seq<(Seq<char>, T)>, name: Seq<char>)
    ensures
        match spec_key_index(s, name) {
            None => forall|i: int| 0 <= i < s.len() ==> s[i].0 != name,
            Some(i) => 0 <= i < s.len() && s[i].0 == name && (forall|j: int|
                0 <= j < i ==> s[j].0 != name),
        },
    decreases s.len(),
{
    if s.len() > 0 && s[0].0 != name {
        let s1 = s.subrange(1, s.len() as int);
        lemma_key_index(s1, name);
        match spec_key_index(s1, name) {
            None => {
                assert forall|i: int| 0 <= i < s.len() implies s[i].0 != name by {
                    if i > 0 {
                        assert(s1[i - 1].0 != name);
                    }
                }
            },
            Some(i) => {
                assert(s[i + 1].0 == name);
                assert forall|j: int| 0 <= j < i + 1 implies s[j].0 != name by {
                    if j > 0 {
                        assert(s1[j - 1].0 != name);
                    }
                }
            },
        }
    }
}

/// A single temporal write into a store: into the named history, or a new
/// name appended at the back.
pub open spec fn spec_tstore_write(
    tp: Seq<(Seq<char>, Seq<(i64, PropV)>)>,
    name: Seq<char>,
    t: i64,
    v: PropV,
) -> Seq<(Seq<char>, Seq<(i64, PropV)>)> {
    match spec_key_index(tp, name) {
        None => tp.push((name, seq![(t, v)])),
        Some(i) => tp.update(i, (name, spec_hist_write(tp[i].1, t, v))),
    }
}

/// All writes of a property list at one time, in list order.
pub open spec fn spec_tstore_write_all(
    tp: Seq<(Seq<char>, Seq<(i64, PropV)>)>,
    t: i64,
    props: Seq<(Seq<char>, PropV)>,
) -> Seq<(Seq<char>, Seq<(i64, PropV)>)>
    decreases props.len(),
{
    if props.len() == 0 {
        tp
    } else {
        spec_tstore_write_all(
            spec_tstore_write(tp, props[0].0, t, props[0].1),
            t,
            props.subrange(1, props.len() as int),
        )
    }
}

/// Well-formedness of a temporal store.
pub open spec fn spec_tstore_wf(tp: Seq<(Seq<char>, Seq<(i64, PropV)>)>) -> bool {
    &&& spec_keys_unique(tp)
    &&& forall|i: int| 0 <= i < tp.len() ==> spec_hist_sorted(#[trigger] tp[i].1)
}

pub proof fn lemma_tstore_write_wf(
    tp: Seq<(Seq<char>, Seq<(i64, PropV)>)>,
    name: Seq<char>,
    t: i64,
    v: PropV,
)
    requires
        spec_tstore_wf(tp),
    ensures
        spec_tstore_wf(spec_tstore_write(tp, name, t, v)),
{
    lemma_key_index(tp, name);
    match spec_key_index(tp, name) {
        None => {
            let r = tp.push((name, seq![(t, v)]));
            assert forall|i: int| 0 <= i < r.len() implies spec_hist_sorted(#[trigger] r[i].1) by {
                if i < tp.len() {
                    assert(spec_hist_sorted(tp[i].1));
                }
            }
        },
        Some(i) => {
            lemma_hist_write(tp[i].1, t, v);
            let r = spec_tstore_write(tp, name, t, v);
            assert forall|k: int| 0 <= k < r.len() implies spec_hist_sorted(#[trigger] r[k].1) by {
                if k != i {
                    assert(r[k] == tp[k]);
                }
            }
        },
    }
}

pub proof fn lemma_tstore_write_all_wf(
    tp: Seq<(Seq<char>, Seq<(i64, PropV)>)>,
    t: i64,
    props: Seq<(Seq<char>, PropV)>,
)
    requires
        spec_tstore_wf(tp),
    ensures
        spec_tstore_wf(spec_tstore_write_all(tp, t, props)),
    decreases props.len(),
{
    if props.len() > 0 {
        lemma_tstore_write_wf(tp, props[0].0, t, props[0].1);
        lemma_tstore_write_all_wf(
            spec_tstore_write(tp, props[0].0, t, props[0].1),
            t,
            props.subrange(1, props.len() as int),
        );
    }
}

// ---------------------------------------------------------------------------
// Exec helpers over the stores.
// ---------------------------------------------------------------------------

/// Inserts a time into a sorted event history.
pub(crate) fn times_insert(v: &mut Vec<i64>, t: i64)
    ensures
        final(v)@ == spec_time_insert(old(v)@, t),
    decreases old(v)@.len(),
{
    let n = v.len();
    if n == 0 {
        v.push(t);
        proof {
            assert(v@ =~= spec_time_insert(old(v)@, t));
        }
    } else {
        let last = v[n - 1];
        if last < t {
            v.push(t);
        } else if last == t {
        } else {
            let tail = v.pop().unwrap();
            proof {
                assert(v@ =~= old(v)@.drop_last());
            }
            times_insert(v, t);
            v.push(tail);
        }
    }
}

/// Writes `(t, value)` into a history, overwriting at an equal time.
fn hist_write(h: &mut Vec<(i64, Prop)>, t: i64, value: Prop)
    ensures
        spec_hist_view(final(h)@) == spec_hist_write(spec_hist_view(old(h)@), t, value@),
    decreases old(h)@.len(),
{
    let ghost hv = spec_hist_view(old(h)@);
    let n = h.len();
    if n == 0 {
        h.push((t, value));
        proof {
            assert(spec_hist_view(h@) =~= spec_hist_write(hv, t, value@));
        }
    } else {
        let last_t = h[n - 1].0;
        if last_t < t {
            h.push((t, value));
            proof {
                assert(hv.last().0 == last_t);
                assert(spec_hist_view(h@) =~= hv.push((t, value@)));
            }
        } else if last_t == t {
            let _ = h.pop();
            h.push((t, value));
            proof {
                assert(spec_hist_view(h@) =~= hv.drop_last().push((t, value@)));
            }
        } else {
            let tail = h.pop().unwrap();
            proof {
                assert(spec_hist_view(h@) =~= hv.drop_last());
            }
            hist_write(h, t, value);
            let ghost mid = spec_hist_view(h@);
            h.push(tail);
            proof {
                assert(spec_hist_view(h@) =~= mid.push((tail.0, tail.1@)));
                assert((tail.0, tail.1@) == hv.last());
            }
        }
    }
}

/// First position of `name` among the keys of a temporal store.
pub(crate) fn tstore_find(tp: &Vec<(String, Vec<(i64, Prop)>)>, name: &String) -> (r: Option<usize>)
    ensures
        match r {
            Some(i) => i < tp@.len() && spec_tprops_view(tp@)[i as int].0 == name@,
            None => spec_key_index(spec_tprops_view(tp@), name@) is None,
        },
        r == match spec_key_index(spec_tprops_view(tp@), name@) {
            Some(i) => Some(i as usize),
            None => None::<usize>,
        },
{
    proof {
        lemma_key_index(spec_tprops_view(tp@), name@);
    }
    let mut i: usize = 0;
    let n = tp.len();
    while i < n
        invariant
            0 <= i <= n,
            n == tp@.len(),
            forall|j: int| 0 <= j < i ==> spec_tprops_view(tp@)[j].0 != name@,
        decreases n - i,
    {
        if tp[i].0.eq(name) {
            proof {
                lemma_key_index(spec_tprops_view(tp@), name@);
                assert(spec_tprops_view(tp@)[i as int].0 == name@);
                let ki = spec_key_index(spec_tprops_view(tp@), name@);
                if ki is None {
                    assert(false);
                }
            }
            return Some(i);
        }
        proof {
            assert(spec_tprops_view(tp@)[i as int].0 == tp@[i as int].0@);
        }
        i = i + 1;
    }
    proof {
        lemma_key_index(spec_tprops_view(tp@), name@);
    }
    None
}

/// One temporal write into a store.
fn tstore_write(tp: &mut Vec<(String, Vec<(i64, Prop)>)>, name: &String, t: i64, value: Prop)
    ensures
        spec_tprops_view(final(tp)@) == spec_tstore_write(
            spec_tprops_view(old(tp)@),
            name@,
            t,
            value@,
        ),
{
    let ghost tv = spec_tprops_view(old(tp)@);
    let ghost vv = value@;
    match tstore_find(tp, name) {
        None => {
            let mut h: Vec<(i64, Prop)> = Vec::new();
            h.push((t, value));
            proof {
                assert(spec_hist_view(h@) =~= seq![(t, vv)]);
            }
            tp.push((name.clone(), h));
            proof {
                assert(spec_key_index(tv, name@) is None);
                assert(spec_tprops_view(tp@) =~= tv.push((name@, seq![(t, vv)])));
                assert(spec_tprops_view(tp@) == spec_tstore_write(tv, name@, t, vv));
            }
        },
        Some(i) => {
            proof {
                lemma_key_index(tv, name@);
                let ki = spec_key_index(tv, name@);
                if ki is Some {
                    assert(0 <= ki.unwrap() < tv.len());
                }
                assert(spec_key_index(tv, name@) == Some(i as int));
            }
            let entry = &mut tp[i];
            hist_write(&mut entry.1, t, value);
            proof {
                let fv = spec_tprops_view(tp@);
                let want = tv.update(i as int, (name@, spec_hist_write(tv[i as int].1, t, value@)));
                assert(tv[i as int].1 == spec_hist_view(old(tp)@[i as int].1@));
                assert(spec_hist_view(tp@[i as int].1@) == spec_hist_write(
                    tv[i as int].1,
                    t,
                    value@,
                ));
                assert(tp@[i as int].0@ == name@);
                assert forall|k: int| 0 <= k < fv.len() && k != i implies fv[k] == want[k] by {
                    assert(tp@[k] == old(tp)@[k]);
                }
                assert(fv =~= want);
                assert(spec_key_index(tv, name@) == Some(i as int));
                assert(spec_tprops_view(tp@) == spec_tstore_write(tv, name@, t, vv));
            }
        },
    }
}

/// All temporal writes of a property list at one time, in order.
fn tstore_write_all(tp: &mut Vec<(String, Vec<(i64, Prop)>)>, t: i64, props: &Vec<(String, Prop)>)
    ensures
        spec_tprops_view(final(tp)@) == spec_tstore_write_all(
            spec_tprops_view(old(tp)@),
            t,
            spec_cprops_view(props@),
        ),
{
    let ghost pv = spec_cprops_view(props@);
    proof {
        assert(pv.subrange(0, pv.len() as int) =~= pv);
    }
    let mut i: usize = 0;
    let n = props.len();
    while i < n
        invariant
            0 <= i <= n,
            n == props@.len(),
            pv == spec_cprops_view(props@),
            spec_tstore_write_all(spec_tprops_view(tp@), t, pv.subrange(i as int, n as int))
                == spec_tstore_write_all(spec_tprops_view(old(tp)@), t, pv),
        decreases n - i,
    {
        let ghost before = spec_tprops_view(tp@);
        let ghost rest = pv.subrange(i as int, n as int);
        tstore_write(tp, &props[i].0, t, props[i].1.clone());
        proof {
            assert(rest[0] == pv[i as int]);
            assert(rest.subrange(1, rest.len() as int) =~= pv.subrange(i as int + 1, n as int));
            assert(spec_tprops_view(tp@) == spec_tstore_write(before, pv[i as int].0, t, pv[i as int].1));
        }
        i = i + 1;
    }
    proof {
        assert(pv.subrange(n as int, n as int) =~= Seq::<(Seq<char>, PropV)>::empty());
    }
}

// ---------------------------------------------------------------------------
// Constant stores: overwrite in place, but never with another type.
// ---------------------------------------------------------------------------

/// One constant write: a new name is appended; a known name is overwritten
/// only by a value of the same type, else the store is left alone.
pub open spec fn spec_cstore_write(
    cp: Seq<(Seq<char>, PropV)>,
    name: Seq<char>,
    v: PropV,
) -> Option<Seq<(Seq<char>, PropV)>> {
    match spec_key_index(cp, name) {
        None => Some(cp.push((name, v))),
        Some(i) => if crate::props::kind_of(cp[i].1) == crate::props::kind_of(v) {
            Some(cp.update(i, (name, v)))
        } else {
            None
        },
    }
}

/// All constant writes of a list, in order, stopping at the first value
/// whose type clashes with the stored one.
pub open spec fn spec_cstore_write_all(
    cp: Seq<(Seq<char>, PropV)>,
    props: Seq<(Seq<char>, PropV)>,
) -> (Seq<(Seq<char>, PropV)>, bool)
    decreases props.len(),
{
    if props.len() == 0 {
        (cp, true)
    } else {
        match spec_cstore_write(cp, props[0].0, props[0].1) {
            None => (cp, false),
            Some(cp2) => spec_cstore_write_all(cp2, props.subrange(1, props.len() as int)),
        }
    }
}

pub proof fn lemma_cstore_write_all_wf(cp: Seq<(Seq<char>, PropV)>, props: Seq<(Seq<char>, PropV)>)
    requires
        spec_keys_unique(cp),
    ensures
        spec_keys_unique(spec_cstore_write_all(cp, props).0),
    decreases props.len(),
{
    if props.len() > 0 {
        lemma_key_index(cp, props[0].0);
        match spec_cstore_write(cp, props[0].0, props[0].1) {
            None => {},
            Some(cp2) => {
                assert forall|i: int, j: int| 0 <= i < j < cp2.len() implies cp2[i].0 != cp2[j].0 by {
                    if j < cp.len() {
                    } else {
                        assert(cp2[j].0 == props[0].0);
                        assert(cp[i].0 != props[0].0);
                    }
                }
                lemma_cstore_write_all_wf(cp2, props.subrange(1, props.len() as int));
            },
        }
    }
}

/// First position of `name` among the keys of a constant store.
pub(crate) fn cstore_find(cp: &Vec<(String, Prop)>, name: &String) -> (r: Option<usize>)
    ensures
        r == match spec_key_index(spec_cprops_view(cp@), name@) {
            Some(i) => Some(i as usize),
            None => None::<usize>,
        },
        r is Some ==> r.unwrap() < cp@.len() && spec_cprops_view(cp@)[r.unwrap() as int].0
            == name@,
{
    proof {
        lemma_key_index(spec_cprops_view(cp@), name@);
    }
    let mut i: usize = 0;
    let n = cp.len();
    while i < n
        invariant
            0 <= i <= n,
            n == cp@.len(),
            forall|j: int| 0 <= j < i ==> spec_cprops_view(cp@)[j].0 != name@,
        decreases n - i,
    {
        if cp[i].0.eq(name) {
            proof {
                lemma_key_index(spec_cprops_view(cp@), name@);
                assert(spec_cprops_view(cp@)[i as int].0 == name@);
                let ki = spec_key_index(spec_cprops_view(cp@), name@);
                if ki is None {
                    assert(false);
                }
                if ki is Some {
                    assert(0 <= ki.unwrap() < cp@.len());
                }
            }
            return Some(i);
        }
        proof {
            assert(spec_cprops_view(cp@)[i as int].0 == cp@[i as int].0@);
        }
        i = i + 1;
    }
    proof {
        lemma_key_index(spec_cprops_view(cp@), name@);
    }
    None
}

/// Applies a list of constant writes; `false` reports a type clash, with
/// every write before the clash kept.
fn cstore_write_all(cp: &mut Vec<(String, Prop)>, props: &Vec<(String, Prop)>) -> (ok: bool)
    ensures
        ({
            let r = spec_cstore_write_all(spec_cprops_view(old(cp)@), spec_cprops_view(props@));
            spec_cprops_view(final(cp)@) == r.0 && ok == r.1
        }),
{
    let ghost pv = spec_cprops_view(props@);
    proof {
        assert(pv.subrange(0, pv.len() as int) =~= pv);
    }
    let mut i: usize = 0;
    let n = props.len();
    while i < n
        invariant
            0 <= i <= n,
            n == props@.len(),
            pv == spec_cprops_view(props@),
            spec_cstore_write_all(spec_cprops_view(cp@), pv.subrange(i as int, n as int))
                == spec_cstore_write_all(spec_cprops_view(old(cp)@), pv),
        decreases n - i,
    {
        let ghost before = spec_cprops_view(cp@);
        let ghost rest = pv.subrange(i as int, n as int);
        proof {
            assert(rest[0] == pv[i as int]);
            assert(rest.subrange(1, rest.len() as int) =~= pv.subrange(i as int + 1, n as int));
        }
        let name = &props[i].0;
        let value = props[i].1.clone();
        let ghost vv = value@;
        proof {
            assert(name@ == pv[i as int].0);
            assert(vv == pv[i as int].1);
        }
        match cstore_find(cp, name) {
            None => {
                cp.push((name.clone(), value));
                proof {
                    assert(spec_cstore_write(before, pv[i as int].0, pv[i as int].1) == Some(
                        before.push((name@, vv)),
                    ));
                    assert(spec_cprops_view(cp@) =~= before.push((name@, vv)));
                }
            },
            Some(k) => {
                proof {
                    lemma_key_index(before, name@);
                    let ki = spec_key_index(before, name@);
                    if ki is Some {
                        assert(0 <= ki.unwrap() < before.len());
                    }
                    assert(spec_key_index(before, name@) == Some(k as int));
                    assert(before[k as int].1 == cp@[k as int].1@);
                }
                if cp[k].1.same_kind(&value) {
                    cp[k] = (name.clone(), value);
                    proof {
                        assert(spec_cstore_write(before, pv[i as int].0, pv[i as int].1) == Some(
                            before.update(k as int, (name@, vv)),
                        ));
                        assert(spec_cprops_view(cp@) =~= before.update(k as int, (name@, vv)));
                    }
                } else {
                    proof {
                        assert(spec_cstore_write(before, pv[i as int].0, pv[i as int].1) is None);
                    }
                    return false;
                }
            },
        }
        i = i + 1;
    }
    proof {
        assert(pv.subrange(n as int, n as int) =~= Seq::<(Seq<char>, PropV)>::empty());
    }
    true
}

// ---------------------------------------------------------------------------
// The records and the store.
// ---------------------------------------------------------------------------

pub struct NodeRec {
    pub gid: NodeId,
    pub times: Vec<i64>,
    pub cprops: Vec<(String, Prop)>,
    pub tprops: Vec<(String, Vec<(i64, Prop)>)>,
}

pub struct EdgeRec {
    pub src: usize,
    pub dst: usize,
    pub layer: usize,
    pub times: Vec<i64>,
    pub cprops: Vec<(String, Prop)>,
    pub tprops: Vec<(String, Vec<(i64, Prop)>)>,
}

/// The mathematical value of a node record.
pub ghost struct NodeV {
    pub gid: GidV,
    pub times: Seq<i64>,
    pub cprops: Seq<(Seq<char>, PropV)>,
    pub tprops: Seq<(Seq<char>, Seq<(i64, PropV)>)>,
}

/// The mathematical value of an edge record.
pub ghost struct EdgeV {
    pub src: int,
    pub dst: int,
    pub layer: int,
    pub times: Seq<i64>,
    pub cprops: Seq<(Seq<char>, PropV)>,
    pub tprops: Seq<(Seq<char>, Seq<(i64, PropV)>)>,
}

/// The mathematical value of the whole store.
pub ghost struct GraphV {
    pub nodes: Seq<NodeV>,
    pub edges: Seq<EdgeV>,
    pub layers: Seq<Seq<char>>,
    pub gcprops: Seq<(Seq<char>, PropV)>,
    pub gtprops: Seq<(Seq<char>, Seq<(i64, PropV)>)>,
}

impl View for NodeRec {
    type V = NodeV;

    open spec fn view(&self) -> NodeV {
        NodeV {
            gid: self.gid@,
            times: self.times@,
            cprops: spec_cprops_view(self.cprops@),
            tprops: spec_tprops_view(self.tprops@),
        }
    }
}

impl View for EdgeRec {
    type V = EdgeV;

    open spec fn view(&self) -> EdgeV {
        EdgeV {
            src: self.src as int,
            dst: self.dst as int,
            layer: self.layer as int,
            times: self.times@,
            cprops: spec_cprops_view(self.cprops@),
            tprops: spec_tprops_view(self.tprops@),
        }
    }
}

/// The temporal multigraph store.
pub struct Graph {
    pub nodes: Vec<NodeRec>,
    pub edges: Vec<EdgeRec>,
    pub layers: Vec<String>,
    pub gcprops: Vec<(String, Prop)>,
    pub gtprops: Vec<(String, Vec<(i64, Prop)>)>,
}

impl View for Graph {
    type V = GraphV;

    open spec fn view(&self) -> GraphV {
        GraphV {
            nodes: self.nodes@.map_values(|n: NodeRec| n@),
            edges: self.edges@.map_values(|e: EdgeRec| e@),
            layers: self.layers@.map_values(|s: String| s@),
            gcprops: spec_cprops_view(self.gcprops@),
            gtprops: spec_tprops_view(self.gtprops@),
        }
    }
}

/// The name of layer zero.
pub open spec fn spec_default_layer() -> Seq<char> {
    "_default"@
}

pub open spec fn spec_node_wf(n: NodeV) -> bool {
    &&& spec_sorted(n.times)
    &&& spec_keys_unique(n.cprops)
    &&& spec_tstore_wf(n.tprops)
    &&& n.gid == spec_canon_gid(n.gid)
}

pub open spec fn spec_edge_wf(e: EdgeV, nnodes: int, nlayers: int) -> bool {
    &&& 0 <= e.src < nnodes
    &&& 0 <= e.dst < nnodes
    &&& 0 <= e.layer < nlayers
    &&& spec_sorted(e.times)
    &&& e.times.len() >= 1
    &&& spec_keys_unique(e.cprops)
    &&& spec_tstore_wf(e.tprops)
}

/// Well-formedness of the store: layer zero is the default layer, names
/// and ids are unique, histories are strictly time-ordered, edge records
/// are in range and carry at least one event.
pub open spec fn spec_graph_wf(g: GraphV) -> bool {
    &&& g.layers.len() >= 1
    &&& g.layers[0] == spec_default_layer()
    &&& (forall|i: int, j: int| 0 <= i < j < g.layers.len() ==> g.layers[i] != g.layers[j])
    &&& (forall|i: int| 0 <= i < g.nodes.len() ==> spec_node_wf(#[trigger] g.nodes[i]))
    &&& (forall|i: int, j: int|
        0 <= i < j < g.nodes.len() ==> g.nodes[i].gid != g.nodes[j].gid)
    &&& (forall|i: int|
        0 <= i < g.edges.len() ==> spec_edge_wf(
            #[trigger] g.edges[i],
            g.nodes.len() as int,
            g.layers.len() as int,
        ))
    &&& (forall|i: int, j: int|
        0 <= i < j < g.edges.len() ==> !(g.edges[i].src == g.edges[j].src && g.edges[i].dst
            == g.edges[j].dst && g.edges[i].layer == g.edges[j].layer))
    &&& spec_keys_unique(g.gcprops)
    &&& spec_tstore_wf(g.gtprops)
}

/// The empty store: no nodes, no edges, only the default layer.
pub open spec fn spec_empty_graph() -> GraphV {
    GraphV {
        nodes: Seq::empty(),
        edges: Seq::empty(),
        layers: seq![spec_default_layer()],
        gcprops: Seq::empty(),
        gtprops: Seq::empty(),
    }
}

// ---------------------------------------------------------------------------
// Index lookups on the model.
// ---------------------------------------------------------------------------

/// First node index carrying this (canonical) external id.
pub open spec fn spec_node_index(nodes: Seq<NodeV>, gid: GidV) -> Option<int>
    decreases nodes.len(),
{
    if nodes.len() == 0 {
        None
    } else if nodes[0].gid == gid {
        Some(0)
    } else {
        match spec_node_index(nodes.subrange(1, nodes.len() as int), gid) {
            None => None,
            Some(i) => Some(i + 1),
        }
    }
}

pub proof fn lemma_node_index(nodes: Seq<NodeV>, gid: GidV)
    ensures
        match spec_node_index(nodes, gid) {
            None => forall|i: int| 0 <= i < nodes.len() ==> nodes[i].gid != gid,
            Some(i) => 0 <= i < nodes.len() && nodes[i].gid == gid && (forall|j: int|
                0 <= j < i ==> nodes[j].gid != gid),
        },
    decreases nodes.len(),
{
    if nodes.len() > 0 && nodes[0].gid != gid {
        let s1 = nodes.subrange(1, nodes.len() as int);
        lemma_node_index(s1, gid);
        match spec_node_index(s1, gid) {
            None => {
                assert forall|i: int| 0 <= i < nodes.len() implies nodes[i].gid != gid by {
                    if i > 0 {
                        assert(s1[i - 1].gid != gid);
                    }
                }
            },
            Some(i) => {
                assert(nodes[i + 1].gid == gid);
                assert forall|j: int| 0 <= j < i + 1 implies nodes[j].gid != gid by {
                    if j > 0 {
                        assert(s1[j - 1].gid != gid);
                    }
                }
            },
        }
    }
}

/// First layer index carrying this name.
pub open spec fn spec_layer_index(layers: Seq<Seq<char>>, name: Seq<char>) -> Option<int>
    decreases layers.len(),
{
    if layers.len() == 0 {
        None
    } else if layers[0] == name {
        Some(0)
    } else {
        match spec_layer_index(layers.subrange(1, layers.len() as int), name) {
            None => None,
            Some(i) => Some(i + 1),
        }
    }
}

pub proof fn lemma_layer_index(layers: Seq<Seq<char>>, name: Seq<char>)
    ensures
        match spec_layer_index(layers, name) {
            None => forall|i: int| 0 <= i < layers.len() ==> layers[i] != name,
            Some(i) => 0 <= i < layers.len() && layers[i] == name && (forall|j: int|
                0 <= j < i ==> layers[j] != name),
        },
    decreases layers.len(),
{
    if layers.len() > 0 && layers[0] != name {
        let s1 = layers.subrange(1, layers.len() as int);
        lemma_layer_index(s1, name);
        match spec_layer_index(s1, name) {
            None => {
                assert forall|i: int| 0 <= i < layers.len() implies layers[i] != name by {
                    if i > 0 {
                        assert(s1[i - 1] != name);
                    }
                }
            },
            Some(i) => {
                assert(layers[i + 1] == name);
                assert forall|j: int| 0 <= j < i + 1 implies layers[j] != name by {
                    if j > 0 {
                        assert(s1[j - 1] != name);
                    }
                }
            },
        }
    }
}

/// First edge-record index for `(src, dst, layer)`.
pub open spec fn spec_edge_index(edges: Seq<EdgeV>, s: int, d: int, l: int) -> Option<int>
    decreases edges.len(),
{
    if edges.len() == 0 {
        None
    } else if edges[0].src == s && edges[0].dst == d && edges[0].layer == l {
        Some(0)
    } else {
        match spec_edge_index(edges.subrange(1, edges.len() as int), s, d, l) {
            None => None,
            Some(i) => Some(i + 1),
        }
    }
}

pub proof fn lemma_edge_index(edges: Seq<EdgeV>, s: int, d: int, l: int)
    ensures
        match spec_edge_index(edges, s, d, l) {
            None => forall|i: int|
                0 <= i < edges.len() ==> !(edges[i].src == s && edges[i].dst == d
                    && edges[i].layer == l),
            Some(i) => 0 <= i < edges.len() && edges[i].src == s && edges[i].dst == d
                && edges[i].layer == l && (forall|j: int|
                0 <= j < i ==> !(edges[j].src == s && edges[j].dst == d && edges[j].layer == l)),
        },
    decreases edges.len(),
{
    if edges.len() > 0 && !(edges[0].src == s && edges[0].dst == d && edges[0].layer == l) {
        let s1 = edges.subrange(1, edges.len() as int);
        lemma_edge_index(s1, s, d, l);
        match spec_edge_index(s1, s, d, l) {
            None => {
                assert forall|i: int|
                    0 <= i < edges.len() implies !(edges[i].src == s && edges[i].dst == d
                    && edges[i].layer == l) by {
                    if i > 0 {
                        assert(!(s1[i - 1].src == s && s1[i - 1].dst == d && s1[i - 1].layer
                            == l));
                    }
                }
            },
            Some(i) => {
                assert(edges[i + 1].src == s && edges[i + 1].dst == d && edges[i + 1].layer == l);
                assert forall|j: int|
                    0 <= j < i + 1 implies !(edges[j].src == s && edges[j].dst == d
                    && edges[j].layer == l) by {
                    if j > 0 {
                        assert(!(s1[j - 1].src == s && s1[j - 1].dst == d && s1[j - 1].layer
                            == l));
                    }
                }
            },
        }
    }
}

// ---------------------------------------------------------------------------
// Mutations, on the model.
// ---------------------------------------------------------------------------

/// A node record after one more event at `t` with these property writes.
pub open spec fn spec_node_event(n: NodeV, t: i64, props: Seq<(Seq<char>, PropV)>) -> NodeV {
    NodeV {
        gid: n.gid,
        times: spec_time_insert(n.times, t),
        cprops: n.cprops,
        tprops: spec_tstore_write_all(n.tprops, t, props),
    }
}

/// A fresh node created by an event at `t`.
pub open spec fn spec_new_node(gid: GidV, t: i64, props: Seq<(Seq<char>, PropV)>) -> NodeV {
    NodeV {
        gid: gid,
        times: seq![t],
        cprops: Seq::empty(),
        tprops: spec_tstore_write_all(Seq::empty(), t, props),
    }
}

/// What `add_node` does: record an event on the node named by `id`,
/// creating it if the store does not know it yet.
pub open spec fn spec_upsert_node(
    g: GraphV,
    id: GidV,
    t: i64,
    props: Seq<(Seq<char>, PropV)>,
) -> GraphV {
    let c = spec_canon_gid(id);
    match spec_node_index(g.nodes, c) {
        Some(i) => GraphV {
            nodes: g.nodes.update(i, spec_node_event(g.nodes[i], t, props)),
            edges: g.edges,
            layers: g.layers,
            gcprops: g.gcprops,
            gtprops: g.gtprops,
        },
        None => GraphV {
            nodes: g.nodes.push(spec_new_node(c, t, props)),
            edges: g.edges,
            layers: g.layers,
            gcprops: g.gcprops,
            gtprops: g.gtprops,
        },
    }
}

pub proof fn lemma_canon_idempotent(id: GidV)
    ensures
        spec_canon_gid(spec_canon_gid(id)) == spec_canon_gid(id),
{
}

pub proof fn lemma_upsert_node(g: GraphV, id: GidV, t: i64, props: Seq<(Seq<char>, PropV)>)
    requires
        spec_graph_wf(g),
    ensures
        ({
            let r = spec_upsert_node(g, id, t, props);
            &&& spec_graph_wf(r)
            &&& r.edges == g.edges
            &&& r.layers == g.layers
            &&& r.gcprops == g.gcprops
            &&& r.gtprops == g.gtprops
            &&& g.nodes.len() <= r.nodes.len() <= g.nodes.len() + 1
            &&& spec_node_index(r.nodes, spec_canon_gid(id)) is Some
            &&& (forall|gid0: GidV|
                #[trigger] spec_node_index(g.nodes, gid0) is Some ==> spec_node_index(
                    r.nodes,
                    gid0,
                ) is Some)
        }),
{
    let c = spec_canon_gid(id);
    let r = spec_upsert_node(g, id, t, props);
    lemma_node_index(g.nodes, c);
    match spec_node_index(g.nodes, c) {
        Some(i) => {
            lemma_time_insert(g.nodes[i].times, t);
            lemma_tstore_write_all_wf(g.nodes[i].tprops, t, props);
            assert(spec_node_wf(r.nodes[i]));
            assert forall|k: int| 0 <= k < r.nodes.len() implies spec_node_wf(
                #[trigger] r.nodes[k],
            ) by {
                if k != i {
                    assert(r.nodes[k] == g.nodes[k]);
                }
            }
            assert forall|k: int, l: int| 0 <= k < l < r.nodes.len() implies r.nodes[k].gid
                != r.nodes[l].gid by {
                assert(r.nodes[k].gid == g.nodes[k].gid);
                assert(r.nodes[l].gid == g.nodes[l].gid);
            }
            lemma_node_index(r.nodes, c);
            assert(r.nodes[i].gid == c);
            if spec_node_index(r.nodes, c) is None {
                assert(false);
            }
        },
        None => {
            lemma_tstore_write_all_wf(Seq::empty(), t, props);
            lemma_canon_idempotent(id);
            assert(spec_node_wf(spec_new_node(c, t, props)));
            assert forall|k: int| 0 <= k < r.nodes.len() implies spec_node_wf(
                #[trigger] r.nodes[k],
            ) by {
                if k < g.nodes.len() {
                    assert(r.nodes[k] == g.nodes[k]);
                }
            }
            assert forall|k: int, l: int| 0 <= k < l < r.nodes.len() implies r.nodes[k].gid
                != r.nodes[l].gid by {
                if l < g.nodes.len() {
                } else {
                    assert(r.nodes[l].gid == c);
                    assert(g.nodes[k].gid != c);
                }
            }
            assert forall|k: int| 0 <= k < r.edges.len() implies spec_edge_wf(
                #[trigger] r.edges[k],
                r.nodes.len() as int,
                r.layers.len() as int,
            ) by {
                assert(spec_edge_wf(g.edges[k], g.nodes.len() as int, g.layers.len() as int));
            }
            lemma_node_index(r.nodes, c);
            assert(r.nodes[g.nodes.len() as int].gid == c);
            if spec_node_index(r.nodes, c) is None {
                assert(false);
            }
        },
    }
    assert forall|gid0: GidV| spec_node_index(g.nodes, gid0) is Some implies spec_node_index(
        r.nodes,
        gid0,
    ) is Some by {
        lemma_node_index(g.nodes, gid0);
        let i0 = spec_node_index(g.nodes, gid0).unwrap();
        assert(r.nodes[i0].gid == gid0);
        lemma_node_index(r.nodes, gid0);
        if spec_node_index(r.nodes, gid0) is None {
            assert(false);
        }
    }
}

/// Makes sure a node with this canonical id exists; a fresh node starts
/// with an empty history — an edge event is the edge's, not the node's.
pub open spec fn spec_ensure_node(g: GraphV, c: GidV) -> GraphV {
    match spec_node_index(g.nodes, c) {
        Some(_) => g,
        None => GraphV {
            nodes: g.nodes.push(
                NodeV { gid: c, times: Seq::empty(), cprops: Seq::empty(), tprops: Seq::empty() },
            ),
            edges: g.edges,
            layers: g.layers,
            gcprops: g.gcprops,
            gtprops: g.gtprops,
        },
    }
}

pub proof fn lemma_ensure_node(g: GraphV, c: GidV)
    requires
        spec_graph_wf(g),
        c == spec_canon_gid(c),
    ensures
        ({
            let r = spec_ensure_node(g, c);
            &&& spec_graph_wf(r)
            &&& r.edges == g.edges
            &&& r.layers == g.layers
            &&& r.gcprops == g.gcprops
            &&& r.gtprops == g.gtprops
            &&& g.nodes.len() <= r.nodes.len() <= g.nodes.len() + 1
            &&& spec_node_index(r.nodes, c) is Some
            &&& (forall|gid0: GidV|
                #[trigger] spec_node_index(g.nodes, gid0) is Some ==> spec_node_index(
                    r.nodes,
                    gid0,
                ) is Some)
        }),
{
    let r = spec_ensure_node(g, c);
    lemma_node_index(g.nodes, c);
    match spec_node_index(g.nodes, c) {
        Some(i) => {
            lemma_node_index(r.nodes, c);
        },
        None => {
            let nn = NodeV {
                gid: c,
                times: Seq::empty(),
                cprops: Seq::empty(),
                tprops: Seq::empty(),
            };
            assert(spec_node_wf(nn));
            assert forall|k: int| 0 <= k < r.nodes.len() implies spec_node_wf(
                #[trigger] r.nodes[k],
            ) by {
                if k < g.nodes.len() {
                    assert(r.nodes[k] == g.nodes[k]);
                }
            }
            assert forall|k: int, l: int| 0 <= k < l < r.nodes.len() implies r.nodes[k].gid
                != r.nodes[l].gid by {
                if l < g.nodes.len() {
                } else {
                    assert(r.nodes[l].gid == c);
                    assert(g.nodes[k].gid != c);
                }
            }
            assert forall|k: int| 0 <= k < r.edges.len() implies spec_edge_wf(
                #[trigger] r.edges[k],
                r.nodes.len() as int,
                r.layers.len() as int,
            ) by {
                assert(spec_edge_wf(g.edges[k], g.nodes.len() as int, g.layers.len() as int));
            }
            lemma_node_index(r.nodes, c);
            assert(r.nodes[g.nodes.len() as int].gid == c);
            if spec_node_index(r.nodes, c) is None {
                assert(false);
            }
        },
    }
    assert forall|gid0: GidV| #[trigger] spec_node_index(g.nodes, gid0) is Some
        implies spec_node_index(r.nodes, gid0) is Some by {
        lemma_node_index(g.nodes, gid0);
        let i0 = spec_node_index(g.nodes, gid0).unwrap();
        assert(r.nodes[i0].gid == gid0);
        lemma_node_index(r.nodes, gid0);
        if spec_node_index(r.nodes, gid0) is None {
            assert(false);
        }
    }
}

/// The layer id for an optional layer name, creating the name if needed;
/// `None` selects the default layer.
pub open spec fn spec_ensure_layer(layers: Seq<Seq<char>>, name: Option<Seq<char>>) -> (
    Seq<Seq<char>>,
    int,
) {
    match name {
        None => (layers, 0),
        Some(nm) => match spec_layer_index(layers, nm) {
            Some(i) => (layers, i),
            None => (layers.push(nm), layers.len() as int),
        },
    }
}

/// What `add_edge` does: both endpoints are made to exist (an edge event
/// belongs to the edge's history, not the nodes' own), the layer is
/// resolved or created, and the `(src, dst, layer)` record gets the event
/// and the property writes, being created if absent.
pub open spec fn spec_add_edge(
    g: GraphV,
    t: i64,
    src: GidV,
    dst: GidV,
    props: Seq<(Seq<char>, PropV)>,
    layer: Option<Seq<char>>,
) -> GraphV {
    let g1 = spec_ensure_node(g, spec_canon_gid(src));
    let g2 = spec_ensure_node(g1, spec_canon_gid(dst));
    let (layers2, lid) = spec_ensure_layer(g2.layers, layer);
    let si = match spec_node_index(g2.nodes, spec_canon_gid(src)) {
        Some(i) => i,
        None => 0,
    };
    let di = match spec_node_index(g2.nodes, spec_canon_gid(dst)) {
        Some(i) => i,
        None => 0,
    };
    let edges2 = match spec_edge_index(g2.edges, si, di, lid) {
        Some(k) => g2.edges.update(
            k,
            EdgeV {
                src: si,
                dst: di,
                layer: lid,
                times: spec_time_insert(g2.edges[k].times, t),
                cprops: g2.edges[k].cprops,
                tprops: spec_tstore_write_all(g2.edges[k].tprops, t, props),
            },
        ),
        None => g2.edges.push(
            EdgeV {
                src: si,
                dst: di,
                layer: lid,
                times: seq![t],
                cprops: Seq::empty(),
                tprops: spec_tstore_write_all(Seq::empty(), t, props),
            },
        ),
    };
    GraphV {
        nodes: g2.nodes,
        edges: edges2,
        layers: layers2,
        gcprops: g2.gcprops,
        gtprops: g2.gtprops,
    }
}

pub open spec fn spec_opt_name(layer: Option<String>) -> Option<Seq<char>> {
    match layer {
        None => None,
        Some(s) => Some(s@),
    }
}

// ---------------------------------------------------------------------------
// The exec mutation surface.
// ---------------------------------------------------------------------------

impl Graph {
    /// Well-formedness of the store; every mutation preserves it and every
    /// view relies on it.
    pub open spec fn wf(&self) -> bool {
        spec_graph_wf(self@)
    }

    /// A new, empty graph holding only the default layer.
    pub fn new() -> (g: Graph)
        ensures
            g.wf(),
            g@ == spec_empty_graph(),
    {
        let mut layers: Vec<String> = Vec::new();
        layers.push(String::from_str("_default"));
        let g = Graph {
            nodes: Vec::new(),
            edges: Vec::new(),
            layers,
            gcprops: Vec::new(),
            gtprops: Vec::new(),
        };
        proof {
            assert(g@.layers =~= seq![spec_default_layer()]);
            assert(g@.nodes =~= Seq::<NodeV>::empty());
            assert(g@.edges =~= Seq::<EdgeV>::empty());
            assert(g@.gcprops =~= Seq::<(Seq<char>, PropV)>::empty());
            assert(g@.gtprops =~= Seq::<(Seq<char>, Seq<(i64, PropV)>)>::empty());
        }
        g
    }

    /// The record index of a canonical external id.
    pub(crate) fn find_node(&self, cid: &NodeId) -> (r: Option<usize>)
        ensures
            match r {
                Some(i) => spec_node_index(self@.nodes, cid@) == Some(i as int) && i
                    < self@.nodes.len() && self@.nodes[i as int].gid == cid@,
                None => spec_node_index(self@.nodes, cid@) is None,
            },
    {
        proof {
            lemma_node_index(self@.nodes, cid@);
        }
        let mut i: usize = 0;
        let n = self.nodes.len();
        while i < n
            invariant
                0 <= i <= n,
                n == self@.nodes.len(),
                forall|j: int| 0 <= j < i ==> self@.nodes[j].gid != cid@,
            decreases n - i,
        {
            if self.nodes[i].gid.id_eq(cid) {
                proof {
                    lemma_node_index(self@.nodes, cid@);
                    assert(self@.nodes[i as int].gid == cid@);
                    let ki = spec_node_index(self@.nodes, cid@);
                    if ki is None {
                        assert(false);
                    }
                    let k = ki.unwrap();
                    if k < i as int {
                        assert(self@.nodes[k].gid != cid@);
                        assert(false);
                    }
                    if k > i as int {
                        assert(self@.nodes[i as int].gid != cid@);
                        assert(false);
                    }
                }
                return Some(i);
            }
            proof {
                assert(self@.nodes[i as int].gid == self.nodes@[i as int]@.gid);
            }
            i = i + 1;
        }
        proof {
            lemma_node_index(self@.nodes, cid@);
        }
        None
    }

    /// The id of a layer name already in the registry.
    pub(crate) fn find_layer(&self, name: &String) -> (r: Option<usize>)
        ensures
            match r {
                Some(i) => spec_layer_index(self@.layers, name@) == Some(i as int) && i
                    < self@.layers.len() && self@.layers[i as int] == name@,
                None => spec_layer_index(self@.layers, name@) is None,
            },
    {
        proof {
            lemma_layer_index(self@.layers, name@);
        }
        let mut i: usize = 0;
        let n = self.layers.len();
        while i < n
            invariant
                0 <= i <= n,
                n == self@.layers.len(),
                forall|j: int| 0 <= j < i ==> self@.layers[j] != name@,
            decreases n - i,
        {
            if self.layers[i].eq(name) {
                proof {
                    lemma_layer_index(self@.layers, name@);
                    assert(self@.layers[i as int] == name@);
                    let ki = spec_layer_index(self@.layers, name@);
                    if ki is None {
                        assert(false);
                    }
                    let k = ki.unwrap();
                    if k < i as int {
                        assert(self@.layers[k] != name@);
                        assert(false);
                    }
                    if k > i as int {
                        assert(self@.layers[i as int] != name@);
                        assert(false);
                    }
                }
                return Some(i);
            }
            proof {
                assert(self@.layers[i as int] == self.layers@[i as int]@);
            }
            i = i + 1;
        }
        proof {
            lemma_layer_index(self@.layers, name@);
        }
        None
    }

    /// The record index of the `(src, dst, layer)` triple.
    pub(crate) fn find_edge_rec(&self, s: usize, d: usize, l: usize) -> (r: Option<usize>)
        ensures
            match r {
                Some(i) => spec_edge_index(self@.edges, s as int, d as int, l as int) == Some(
                    i as int,
                ) && i < self@.edges.len(),
                None => spec_edge_index(self@.edges, s as int, d as int, l as int) is None,
            },
    {
        proof {
            lemma_edge_index(self@.edges, s as int, d as int, l as int);
        }
        let mut i: usize = 0;
        let n = self.edges.len();
        while i < n
            invariant
                0 <= i <= n,
                n == self@.edges.len(),
                forall|j: int|
                    0 <= j < i ==> !((#[trigger] self@.edges[j]).src == s as int
                        && self@.edges[j].dst == d as int && self@.edges[j].layer == l as int),
            decreases n - i,
        {
            let e = &self.edges[i];
            if e.src == s && e.dst == d && e.layer == l {
                proof {
                    lemma_edge_index(self@.edges, s as int, d as int, l as int);
                    assert(self@.edges[i as int].src == s as int && self@.edges[i as int].dst
                        == d as int && self@.edges[i as int].layer == l as int);
                    let ki = spec_edge_index(self@.edges, s as int, d as int, l as int);
                    if ki is None {
                        assert(false);
                    }
                    let k = ki.unwrap();
                    if k < i as int {
                        assert(!(self@.edges[k].src == s as int && self@.edges[k].dst == d as int
                            && self@.edges[k].layer == l as int));
                        assert(false);
                    }
                    if k > i as int {
                        assert(!(self@.edges[i as int].src == s as int
                            && self@.edges[i as int].dst == d as int
                            && self@.edges[i as int].layer == l as int));
                        assert(false);
                    }
                }
                return Some(i);
            }
            proof {
                assert(self@.edges[i as int] == self.edges@[i as int]@);
            }
            i = i + 1;
        }
        proof {
            lemma_edge_index(self@.edges, s as int, d as int, l as int);
        }
        None
    }

    /// Records an event on a node at time `t`, creating the node when the
    /// id is unknown, and appends the property observations to its
    /// temporal store.
    pub fn add_node(&mut self, t: i64, id: NodeId, props: Vec<(String, Prop)>) -> (r: Result<
        (),
        GraphError,
    >)
        requires
            old(self).wf(),
        ensures
            final(self).wf(),
            r.is_ok(),
            final(self)@ == spec_upsert_node(old(self)@, id@, t, spec_cprops_view(props@)),
    {
        let ghost g0 = self@;
        let ghost pv = spec_cprops_view(props@);
        proof {
            lemma_upsert_node(g0, id@, t, pv);
        }
        let cid = id.canonical();
        match self.find_node(&cid) {
            Some(i) => {
                let node = &mut self.nodes[i];
                times_insert(&mut node.times, t);
                tstore_write_all(&mut node.tprops, t, &props);
                proof {
                    assert(self@.nodes =~= g0.nodes.update(
                        i as int,
                        spec_node_event(g0.nodes[i as int], t, pv),
                    ));
                    assert(self@ == spec_upsert_node(g0, id@, t, pv));
                }
            },
            None => {
                let mut times: Vec<i64> = Vec::new();
                times.push(t);
                let mut tp: Vec<(String, Vec<(i64, Prop)>)> = Vec::new();
                tstore_write_all(&mut tp, t, &props);
                proof {
                    assert(spec_tprops_view(Seq::<(String, Vec<(i64, Prop)>)>::empty()) =~= Seq::<
                        (Seq<char>, Seq<(i64, PropV)>),
                    >::empty());
                }
                self.nodes.push(
                    NodeRec { gid: cid, times, cprops: Vec::new(), tprops: tp },
                );
                proof {
                    let nn = self.nodes@.last()@;
                    assert(nn.times =~= seq![t]);
                    assert(nn.cprops =~= Seq::<(Seq<char>, PropV)>::empty());
                    assert(nn == spec_new_node(spec_canon_gid(id@), t, pv));
                    assert(self@.nodes =~= g0.nodes.push(
                        spec_new_node(spec_canon_gid(id@), t, pv),
                    ));
                    assert(self@ == spec_upsert_node(g0, id@, t, pv));
                }
            },
        }
        Ok(())
    }

    /// The older name of `add_node`.
    pub fn add_vertex(&mut self, t: i64, id: NodeId, props: Vec<(String, Prop)>) -> (r: Result<
        (),
        GraphError,
    >)
        requires
            old(self).wf(),
        ensures
            final(self).wf(),
            r.is_ok(),
            final(self)@ == spec_upsert_node(old(self)@, id@, t, spec_cprops_view(props@)),
    {
        self.add_node(t, id, props)
    }

    /// Records an edge event at time `t` from `src` to `dst` in the named
    /// layer (the default layer when `None`), creating endpoints, layer
    /// and edge record as needed, and appends the property observations
    /// to the record's temporal store.
    /// Makes sure a node with this canonical id exists, creating it with
    /// an empty history when unknown.
    fn ensure_node(&mut self, cid: &NodeId)
        requires
            old(self).wf(),
            cid@ == spec_canon_gid(cid@),
        ensures
            final(self).wf(),
            final(self)@ == spec_ensure_node(old(self)@, cid@),
    {
        let ghost g0 = self@;
        proof {
            lemma_ensure_node(g0, cid@);
        }
        match self.find_node(cid) {
            Some(_) => {},
            None => {
                self.nodes.push(
                    NodeRec {
                        gid: cid.clone(),
                        times: Vec::new(),
                        cprops: Vec::new(),
                        tprops: Vec::new(),
                    },
                );
                proof {
                    let nn = self.nodes@.last()@;
                    assert(nn.times =~= Seq::<i64>::empty());
                    assert(nn.cprops =~= Seq::<(Seq<char>, PropV)>::empty());
                    assert(nn.tprops =~= Seq::<(Seq<char>, Seq<(i64, PropV)>)>::empty());
                    assert(self@.nodes =~= g0.nodes.push(
                        NodeV {
                            gid: cid@,
                            times: Seq::empty(),
                            cprops: Seq::empty(),
                            tprops: Seq::empty(),
                        },
                    ));
                    assert(self@ == spec_ensure_node(g0, cid@));
                }
            },
        }
    }

    pub fn add_edge(
        &mut self,
        t: i64,
        src: NodeId,
        dst: NodeId,
        props: Vec<(String, Prop)>,
        layer: Option<String>,
    ) -> (r: Result<(), GraphError>)
        requires
            old(self).wf(),
        ensures
            final(self).wf(),
            r.is_ok(),
            final(self)@ == spec_add_edge(
                old(self)@,
                t,
                src@,
                dst@,
                spec_cprops_view(props@),
                spec_opt_name(layer),
            ),
    {
        let ghost g0 = self@;
        let ghost pv = spec_cprops_view(props@);
        let ghost lv = spec_opt_name(layer);
        let csrc = src.canonical();
        let cdst = dst.canonical();
        proof {
            lemma_canon_idempotent(src@);
            lemma_canon_idempotent(dst@);
            lemma_ensure_node(g0, spec_canon_gid(src@));
        }
        self.ensure_node(&csrc);
        let ghost g1 = self@;
        proof {
            lemma_ensure_node(g1, spec_canon_gid(dst@));
        }
        self.ensure_node(&cdst);
        let ghost g2 = self@;
        let lid: usize = match &layer {
            None => 0,
            Some(nm) => match self.find_layer(nm) {
                Some(i) => i,
                None => {
                    self.layers.push(nm.clone());
                    proof {
                        assert(self@.layers =~= g2.layers.push(nm@));
                        assert(self@.nodes =~= g2.nodes);
                        assert(self@.edges =~= g2.edges);
                    }
                    self.layers.len() - 1
                },
            },
        };
        let ghost g3 = self@;
        proof {
            assert((g3.layers, lid as int) == spec_ensure_layer(g2.layers, lv));
            assert(g3.nodes == g2.nodes);
            assert(g3.edges == g2.edges);
            assert(g3.gcprops == g2.gcprops);
            assert(g3.gtprops == g2.gtprops);
        }
        proof {
            assert(spec_node_index(g1.nodes, spec_canon_gid(src@)) is Some);
            assert(spec_node_index(g2.nodes, spec_canon_gid(src@)) is Some);
            assert(spec_node_index(g2.nodes, spec_canon_gid(dst@)) is Some);
            assert(g3.nodes == g2.nodes);
            lemma_wf_after_layer(g2, lv);
        }
        let si = match self.find_node(&csrc) {
            Some(i) => i,
            None => {
                proof {
                    assert(false);
                }
                0
            },
        };
        let di = match self.find_node(&cdst) {
            Some(i) => i,
            None => {
                proof {
                    assert(false);
                }
                0
            },
        };
        match self.find_edge_rec(si, di, lid) {
            Some(k) => {
                let e = &mut self.edges[k];
                times_insert(&mut e.times, t);
                tstore_write_all(&mut e.tprops, t, &props);
                proof {
                    lemma_edge_index(g3.edges, si as int, di as int, lid as int);
                    lemma_time_insert(g3.edges[k as int].times, t);
                    lemma_tstore_write_all_wf(g3.edges[k as int].tprops, t, pv);
                    assert(self@.edges =~= g3.edges.update(
                        k as int,
                        EdgeV {
                            src: si as int,
                            dst: di as int,
                            layer: lid as int,
                            times: spec_time_insert(g3.edges[k as int].times, t),
                            cprops: g3.edges[k as int].cprops,
                            tprops: spec_tstore_write_all(g3.edges[k as int].tprops, t, pv),
                        },
                    ));
                    lemma_wf_edge_update(g3, k as int, t, pv, self@);
                    assert(self@ == spec_add_edge(g0, t, src@, dst@, pv, lv));
                }
            },
            None => {
                let mut times: Vec<i64> = Vec::new();
                times.push(t);
                let mut tp: Vec<(String, Vec<(i64, Prop)>)> = Vec::new();
                tstore_write_all(&mut tp, t, &props);
                proof {
                    assert(spec_tprops_view(Seq::<(String, Vec<(i64, Prop)>)>::empty()) =~= Seq::<
                        (Seq<char>, Seq<(i64, PropV)>),
                    >::empty());
                }
                self.edges.push(
                    EdgeRec { src: si, dst: di, layer: lid, times, cprops: Vec::new(), tprops: tp },
                );
                proof {
                    let ne = self.edges@.last()@;
                    assert(ne.times =~= seq![t]);
                    assert(ne.cprops =~= Seq::<(Seq<char>, PropV)>::empty());
                    assert(self@.edges =~= g3.edges.push(ne));
                    lemma_tstore_write_all_wf(Seq::empty(), t, pv);
                    lemma_edge_index(g3.edges, si as int, di as int, lid as int);
                    lemma_wf_edge_push(g3, si as int, di as int, lid as int, t, pv, self@);
                    assert(self@ == spec_add_edge(g0, t, src@, dst@, pv, lv));
                }
            },
        }
        Ok(())
    }
}

/// What `add_vertex_properties` does: merge constant writes into the
/// node's constant store, or report why nothing more happened.
pub open spec fn spec_node_cprops(g: GraphV, id: GidV, props: Seq<(Seq<char>, PropV)>) -> (
    GraphV,
    Option<GraphError>,
) {
    let c = spec_canon_gid(id);
    match spec_node_index(g.nodes, c) {
        None => (g, Some(GraphError::MissingNode)),
        Some(i) => {
            let w = spec_cstore_write_all(g.nodes[i].cprops, props);
            (
                GraphV {
                    nodes: g.nodes.update(
                        i,
                        NodeV {
                            gid: g.nodes[i].gid,
                            times: g.nodes[i].times,
                            cprops: w.0,
                            tprops: g.nodes[i].tprops,
                        },
                    ),
                    edges: g.edges,
                    layers: g.layers,
                    gcprops: g.gcprops,
                    gtprops: g.gtprops,
                },
                if w.1 {
                    None
                } else {
                    Some(GraphError::PropertyTypeError)
                },
            )
        },
    }
}

/// What `add_edge_properties` does: merge constant writes into the edge
/// record of `(src, dst, layer)`, or report why nothing more happened.
pub open spec fn spec_edge_cprops(
    g: GraphV,
    src: GidV,
    dst: GidV,
    props: Seq<(Seq<char>, PropV)>,
    layer: Option<Seq<char>>,
) -> (GraphV, Option<GraphError>) {
    let lido = match layer {
        None => Some(0int),
        Some(nm) => spec_layer_index(g.layers, nm),
    };
    match lido {
        None => (g, Some(GraphError::UnknownLayer)),
        Some(lid) => {
            let sio = spec_node_index(g.nodes, spec_canon_gid(src));
            let dio = spec_node_index(g.nodes, spec_canon_gid(dst));
            if sio is None || dio is None {
                (g, Some(GraphError::MissingEdge))
            } else {
                match spec_edge_index(g.edges, sio.unwrap(), dio.unwrap(), lid) {
                    None => (g, Some(GraphError::MissingEdge)),
                    Some(k) => {
                        let w = spec_cstore_write_all(g.edges[k].cprops, props);
                        (
                            GraphV {
                                nodes: g.nodes,
                                edges: g.edges.update(
                                    k,
                                    EdgeV {
                                        src: g.edges[k].src,
                                        dst: g.edges[k].dst,
                                        layer: g.edges[k].layer,
                                        times: g.edges[k].times,
                                        cprops: w.0,
                                        tprops: g.edges[k].tprops,
                                    },
                                ),
                                layers: g.layers,
                                gcprops: g.gcprops,
                                gtprops: g.gtprops,
                            },
                            if w.1 {
                                None
                            } else {
                                Some(GraphError::PropertyTypeError)
                            },
                        )
                    },
                }
            }
        },
    }
}

impl Graph {
    /// Merges constant properties into a node's constant store. A name
    /// already stored only accepts a value of the same type: the first
    /// clash stops the merge with `PropertyTypeError`, keeping the prior
    /// value. An unknown id reports `MissingNode`.
    pub fn add_vertex_properties(&mut self, id: NodeId, props: Vec<(String, Prop)>) -> (r: Result<
        (),
        GraphError,
    >)
        requires
            old(self).wf(),
        ensures
            final(self).wf(),
            final(self)@ == spec_node_cprops(old(self)@, id@, spec_cprops_view(props@)).0,
            r == (match spec_node_cprops(old(self)@, id@, spec_cprops_view(props@)).1 {
                None => Ok::<(), GraphError>(()),
                Some(e) => Err(e),
            }),
    {
        let ghost g0 = self@;
        let ghost pv = spec_cprops_view(props@);
        let cid = id.canonical();
        match self.find_node(&cid) {
            None => Err(GraphError::MissingNode),
            Some(i) => {
                proof {
                    lemma_cstore_write_all_wf(g0.nodes[i as int].cprops, pv);
                }
                let node = &mut self.nodes[i];
                let ok = cstore_write_all(&mut node.cprops, &props);
                proof {
                    let w = spec_cstore_write_all(g0.nodes[i as int].cprops, pv);
                    assert(self@.nodes =~= g0.nodes.update(
                        i as int,
                        NodeV {
                            gid: g0.nodes[i as int].gid,
                            times: g0.nodes[i as int].times,
                            cprops: w.0,
                            tprops: g0.nodes[i as int].tprops,
                        },
                    ));
                    assert forall|k: int| 0 <= k < self@.nodes.len() implies spec_node_wf(
                        #[trigger] self@.nodes[k],
                    ) by {
                        if k != i as int {
                            assert(self@.nodes[k] == g0.nodes[k]);
                        }
                    }
                    assert forall|k: int, l: int|
                        0 <= k < l < self@.nodes.len() implies self@.nodes[k].gid
                        != self@.nodes[l].gid by {
                        assert(self@.nodes[k].gid == g0.nodes[k].gid);
                        assert(self@.nodes[l].gid == g0.nodes[l].gid);
                    }
                }
                if ok {
                    Ok(())
                } else {
                    Err(GraphError::PropertyTypeError)
                }
            },
        }
    }

    /// Merges constant properties into the edge record of
    /// `(src, dst, layer)`; `None` selects the default layer. An unknown
    /// layer reports `UnknownLayer`; a missing record, `MissingEdge`; a
    /// type clash stops the merge with `PropertyTypeError`.
    pub fn add_edge_properties(
        &mut self,
        src: NodeId,
        dst: NodeId,
        props: Vec<(String, Prop)>,
        layer: Option<String>,
    ) -> (r: Result<(), GraphError>)
        requires
            old(self).wf(),
        ensures
            final(self).wf(),
            final(self)@ == spec_edge_cprops(
                old(self)@,
                src@,
                dst@,
                spec_cprops_view(props@),
                spec_opt_name(layer),
            ).0,
            r == (match spec_edge_cprops(
                old(self)@,
                src@,
                dst@,
                spec_cprops_view(props@),
                spec_opt_name(layer),
            ).1 {
                None => Ok::<(), GraphError>(()),
                Some(e) => Err(e),
            }),
    {
        let ghost g0 = self@;
        let ghost pv = spec_cprops_view(props@);
        let lid: usize = match &layer {
            None => 0,
            Some(nm) => match self.find_layer(nm) {
                Some(i) => i,
                None => {
                    return Err(GraphError::UnknownLayer);
                },
            },
        };
        let csrc = src.canonical();
        let cdst = dst.canonical();
        let si = match self.find_node(&csrc) {
            Some(i) => i,
            None => {
                return Err(GraphError::MissingEdge);
            },
        };
        let di = match self.find_node(&cdst) {
            Some(i) => i,
            None => {
                return Err(GraphError::MissingEdge);
            },
        };
        match self.find_edge_rec(si, di, lid) {
            None => Err(GraphError::MissingEdge),
            Some(k) => {
                proof {
                    lemma_cstore_write_all_wf(g0.edges[k as int].cprops, pv);
                }
                let e = &mut self.edges[k];
                let ok = cstore_write_all(&mut e.cprops, &props);
                proof {
                    let w = spec_cstore_write_all(g0.edges[k as int].cprops, pv);
                    assert(self@.edges =~= g0.edges.update(
                        k as int,
                        EdgeV {
                            src: g0.edges[k as int].src,
                            dst: g0.edges[k as int].dst,
                            layer: g0.edges[k as int].layer,
                            times: g0.edges[k as int].times,
                            cprops: w.0,
                            tprops: g0.edges[k as int].tprops,
                        },
                    ));
                    assert forall|j: int| 0 <= j < self@.edges.len() implies spec_edge_wf(
                        #[trigger] self@.edges[j],
                        self@.nodes.len() as int,
                        self@.layers.len() as int,
                    ) by {
                        if j != k as int {
                            assert(self@.edges[j] == g0.edges[j]);
                        }
                    }
                    assert forall|a: int, b: int|
                        0 <= a < b < self@.edges.len() implies !(self@.edges[a].src
                        == self@.edges[b].src && self@.edges[a].dst == self@.edges[b].dst
                        && self@.edges[a].layer == self@.edges[b].layer) by {
                        assert(self@.edges[a].src == g0.edges[a].src && self@.edges[a].dst
                            == g0.edges[a].dst && self@.edges[a].layer == g0.edges[a].layer);
                        assert(self@.edges[b].src == g0.edges[b].src && self@.edges[b].dst
                            == g0.edges[b].dst && self@.edges[b].layer == g0.edges[b].layer);
                    }
                }
                if ok {
                    Ok(())
                } else {
                    Err(GraphError::PropertyTypeError)
                }
            },
        }
    }

    /// Merges constant properties of the graph itself, under the same
    /// type-clash rule.
    pub fn add_static_properties(&mut self, props: Vec<(String, Prop)>) -> (r: Result<
        (),
        GraphError,
    >)
        requires
            old(self).wf(),
        ensures
            final(self).wf(),
            ({
                let w = spec_cstore_write_all(old(self)@.gcprops, spec_cprops_view(props@));
                final(self)@ == (GraphV { gcprops: w.0, ..old(self)@ }) && r == (if w.1 {
                    Ok::<(), GraphError>(())
                } else {
                    Err::<(), GraphError>(GraphError::PropertyTypeError)
                })
            }),
    {
        let ghost g0 = self@;
        proof {
            lemma_cstore_write_all_wf(g0.gcprops, spec_cprops_view(props@));
        }
        let ok = cstore_write_all(&mut self.gcprops, &props);
        if ok {
            Ok(())
        } else {
            Err(GraphError::PropertyTypeError)
        }
    }

    /// Records temporal properties of the graph itself at time `t`.
    pub fn add_properties(&mut self, t: i64, props: Vec<(String, Prop)>) -> (r: Result<
        (),
        GraphError,
    >)
        requires
            old(self).wf(),
        ensures
            final(self).wf(),
            r.is_ok(),
            final(self)@ == (GraphV {
                gtprops: spec_tstore_write_all(old(self)@.gtprops, t, spec_cprops_view(props@)),
                ..old(self)@
            }),
    {
        let ghost g0 = self@;
        proof {
            lemma_tstore_write_all_wf(g0.gtprops, t, spec_cprops_view(props@));
        }
        tstore_write_all(&mut self.gtprops, t, &props);
        Ok(())
    }
}

/// A store stays well formed when a fresh layer name is appended.
pub proof fn lemma_wf_after_layer(g: GraphV, name: Option<Seq<char>>)
    requires
        spec_graph_wf(g),
    ensures
        ({
            let (layers2, lid) = spec_ensure_layer(g.layers, name);
            &&& spec_graph_wf(GraphV { layers: layers2, ..g })
            &&& 0 <= lid < layers2.len()
            &&& g.layers.len() <= layers2.len()
        }),
{
    match name {
        None => {},
        Some(nm) => {
            lemma_layer_index(g.layers, nm);
            match spec_layer_index(g.layers, nm) {
                Some(_) => {},
                None => {
                    let layers2 = g.layers.push(nm);
                    assert forall|i: int, j: int| 0 <= i < j < layers2.len() implies layers2[i]
                        != layers2[j] by {
                        if j == layers2.len() - 1 {
                            assert(g.layers[i] != nm);
                        }
                    }
                    let g2 = GraphV { layers: layers2, ..g };
                    assert forall|i: int| 0 <= i < g2.edges.len() implies spec_edge_wf(
                        #[trigger] g2.edges[i],
                        g2.nodes.len() as int,
                        g2.layers.len() as int,
                    ) by {
                        assert(spec_edge_wf(
                            g.edges[i],
                            g.nodes.len() as int,
                            g.layers.len() as int,
                        ));
                    }
                },
            }
        },
    }
}

/// A store stays well formed when an existing edge record takes one more
/// event.
pub proof fn lemma_wf_edge_update(
    g: GraphV,
    k: int,
    t: i64,
    props: Seq<(Seq<char>, PropV)>,
    r: GraphV,
)
    requires
        spec_graph_wf(g),
        0 <= k < g.edges.len(),
        r.nodes == g.nodes,
        r.layers == g.layers,
        r.gcprops == g.gcprops,
        r.gtprops == g.gtprops,
        r.edges == g.edges.update(
            k,
            EdgeV {
                src: g.edges[k].src,
                dst: g.edges[k].dst,
                layer: g.edges[k].layer,
                times: spec_time_insert(g.edges[k].times, t),
                cprops: g.edges[k].cprops,
                tprops: spec_tstore_write_all(g.edges[k].tprops, t, props),
            },
        ),
    ensures
        spec_graph_wf(r),
{
    lemma_time_insert(g.edges[k].times, t);
    lemma_tstore_write_all_wf(g.edges[k].tprops, t, props);
    assert forall|i: int| 0 <= i < r.edges.len() implies spec_edge_wf(
        #[trigger] r.edges[i],
        r.nodes.len() as int,
        r.layers.len() as int,
    ) by {
        if i != k {
            assert(r.edges[i] == g.edges[i]);
        }
    }
    assert forall|i: int, j: int| 0 <= i < j < r.edges.len() implies !(r.edges[i].src
        == r.edges[j].src && r.edges[i].dst == r.edges[j].dst && r.edges[i].layer
        == r.edges[j].layer) by {
        assert(r.edges[i].src == g.edges[i].src && r.edges[i].dst == g.edges[i].dst
            && r.edges[i].layer == g.edges[i].layer);
        assert(r.edges[j].src == g.edges[j].src && r.edges[j].dst == g.edges[j].dst
            && r.edges[j].layer == g.edges[j].layer);
    }
}

/// A store stays well formed when a fresh edge record is appended.
pub proof fn lemma_wf_edge_push(
    g: GraphV,
    s: int,
    d: int,
    l: int,
    t: i64,
    props: Seq<(Seq<char>, PropV)>,
    r: GraphV,
)
    requires
        spec_graph_wf(g),
        0 <= s < g.nodes.len(),
        0 <= d < g.nodes.len(),
        0 <= l < g.layers.len(),
        spec_edge_index(g.edges, s, d, l) is None,
        r.nodes == g.nodes,
        r.layers == g.layers,
        r.gcprops == g.gcprops,
        r.gtprops == g.gtprops,
        r.edges == g.edges.push(
            EdgeV {
                src: s,
                dst: d,
                layer: l,
                times: seq![t],
                cprops: Seq::empty(),
                tprops: spec_tstore_write_all(Seq::empty(), t, props),
            },
        ),
    ensures
        spec_graph_wf(r),
{
    lemma_tstore_write_all_wf(Seq::empty(), t, props);
    lemma_edge_index(g.edges, s, d, l);
    assert forall|i: int| 0 <= i < r.edges.len() implies spec_edge_wf(
        #[trigger] r.edges[i],
        r.nodes.len() as int,
        r.layers.len() as int,
    ) by {
        if i < g.edges.len() {
            assert(r.edges[i] == g.edges[i]);
        }
    }
    assert forall|i: int, j: int| 0 <= i < j < r.edges.len() implies !(r.edges[i].src
        == r.edges[j].src && r.edges[i].dst == r.edges[j].dst && r.edges[i].layer
        == r.edges[j].layer) by {
        if j == r.edges.len() - 1 {
            assert(r.edges[i] == g.edges[i]);
            assert(!(g.edges[i].src == s && g.edges[i].dst == d && g.edges[i].layer == l));
        } else {
            assert(r.edges[i] == g.edges[i]);
            assert(r.edges[j] == g.edges[j]);
        }
    }
}

} // verus!
