//! The vertex-centric task runner: per-node work folded into named
//! accumulators, partitioned into chunks that workers may process in
//! parallel.
//!
//! The accumulators offered here combine associatively and commutatively
//! (wrapping sum, minimum, maximum), so the reduced result of any
//! chunking of the per-node values equals the plain sequential fold —
//! whatever the number of workers. That is proved, not assumed: see
//! `lemma_chunked_fold_deterministic` and the contract of
//! `run_partitioned`.

use vstd::prelude::*;
use crate::edge::EdgeView;
use crate::graph::spec_key_index;
use crate::node::{Direction, NodeView, spec_conn_list};
use crate::props::{Prop, PropV};
use crate::properties::spec_edge_tmerged;

verus! {

/// The combine operation of an accumulator: all three are associative and
/// commutative.
#[derive(Clone, Copy, PartialEq, Eq, Structural, Debug)]
pub enum AccKind {
    /// Wrapping 64-bit sum.
    Sum,
    /// Minimum.
    Min,
    /// Maximum.
    Max,
}

/// What combining two cell values yields.
pub open spec fn spec_combine(k: AccKind, a: i64, b: i64) -> i64 {
    match k {
        AccKind::Sum => vstd::wrapping::i64_specs::wrapping_add(a, b),
        AccKind::Min => if a <= b {
            a
        } else {
            b
        },
        AccKind::Max => if a >= b {
            a
        } else {
            b
        },
    }
}

/// The zero of each accumulator: the identity of its combine.
pub open spec fn spec_zero(k: AccKind) -> i64 {
    match k {
        AccKind::Sum => 0,
        AccKind::Min => i64::MAX,
        AccKind::Max => i64::MIN,
    }
}

/// The sequential left fold of the values into an accumulator cell.
pub open spec fn spec_fold(k: AccKind, z: i64, s: Seq<i64>) -> i64
    decreases s.len(),
{
    if s.len() == 0 {
        z
    } else {
        spec_combine(k, spec_fold(k, z, s.drop_last()), s.last())
    }
}

/// Combining is commutative.
pub proof fn lemma_combine_comm(k: AccKind, a: i64, b: i64)
    ensures
        spec_combine(k, a, b) == spec_combine(k, b, a),
{
}

/// Combining is associative.
pub proof fn lemma_combine_assoc(k: AccKind, a: i64, b: i64, c: i64)
    ensures
        spec_combine(k, spec_combine(k, a, b), c) == spec_combine(k, a, spec_combine(k, b, c)),
{
    match k {
        AccKind::Sum => {
            let r = 0x1_0000_0000_0000_0000int;
            let ab = spec_combine(k, a, b);
            let bc = spec_combine(k, b, c);
            let lhs = spec_combine(k, ab, c);
            let rhs = spec_combine(k, a, bc);
            assert(ab == a + b || ab == a + b - r || ab == a + b + r);
            assert(bc == b + c || bc == b + c - r || bc == b + c + r);
            assert(lhs == ab + c || lhs == ab + c - r || lhs == ab + c + r);
            assert(rhs == a + bc || rhs == a + bc - r || rhs == a + bc + r);
            assert(i64::MIN <= lhs <= i64::MAX);
            assert(i64::MIN <= rhs <= i64::MAX);
            assert(lhs == rhs);
        },
        AccKind::Min => {},
        AccKind::Max => {},
    }
}

/// The zero combines to the other side unchanged.
pub proof fn lemma_zero_identity(k: AccKind, a: i64)
    ensures
        spec_combine(k, spec_zero(k), a) == a,
        spec_combine(k, a, spec_zero(k)) == a,
{
    match k {
        AccKind::Sum => {},
        _ => {},
    }
}

/// Folding a concatenation folds the parts in turn.
pub proof fn lemma_fold_append(k: AccKind, z: i64, a: Seq<i64>, b: Seq<i64>)
    ensures
        spec_fold(k, z, a + b) == spec_fold(k, spec_fold(k, z, a), b),
    decreases b.len(),
{
    if b.len() == 0 {
        assert(a + b =~= a);
    } else {
        lemma_fold_append(k, z, a, b.drop_last());
        assert((a + b).drop_last() =~= a + b.drop_last());
        assert((a + b).last() == b.last());
    }
}

/// A fold from a combined seed splits into a combine of folds.
pub proof fn lemma_fold_from_combined(k: AccKind, x: i64, z: i64, s: Seq<i64>)
    ensures
        spec_fold(k, spec_combine(k, x, z), s) == spec_combine(k, x, spec_fold(k, z, s)),
    decreases s.len(),
{
    if s.len() > 0 {
        lemma_fold_from_combined(k, x, z, s.drop_last());
        lemma_combine_assoc(k, x, spec_fold(k, z, s.drop_last()), s.last());
    }
}

/// The determinism law of the runner: reducing the folds of any
/// consecutive partition of the values equals the sequential fold. The
/// chunk boundaries — hence the number of workers — cannot change the
/// result of an associative-commutative accumulator.
pub proof fn lemma_chunked_fold_deterministic(k: AccKind, a: Seq<i64>, b: Seq<i64>)
    ensures
        spec_combine(k, spec_fold(k, spec_zero(k), a), spec_fold(k, spec_zero(k), b)) == spec_fold(
            k,
            spec_zero(k),
            a + b,
        ),
{
    lemma_fold_append(k, spec_zero(k), a, b);
    let fa = spec_fold(k, spec_zero(k), a);
    lemma_zero_identity(k, fa);
    lemma_fold_from_combined(k, fa, spec_zero(k), b);
}

/// The exec combine.
pub fn combine(k: AccKind, a: i64, b: i64) -> (r: i64)
    ensures
        r == spec_combine(k, a, b),
{
    match k {
        AccKind::Sum => a.wrapping_add(b),
        AccKind::Min => if a <= b {
            a
        } else {
            b
        },
        AccKind::Max => if a >= b {
            a
        } else {
            b
        },
    }
}

/// The exec zero.
pub fn zero_of(k: AccKind) -> (r: i64)
    ensures
        r == spec_zero(k),
{
    match k {
        AccKind::Sum => 0,
        AccKind::Min => i64::MAX,
        AccKind::Max => i64::MIN,
    }
}

/// Folds one chunk of the per-node values.
pub fn fold_chunk(k: AccKind, z: i64, values: &Vec<i64>, from: usize, to: usize) -> (r: i64)
    requires
        from <= to,
        to <= values@.len(),
    ensures
        r == spec_fold(k, z, values@.subrange(from as int, to as int)),
{
    let mut acc = z;
    let mut i = from;
    proof {
        assert(values@.subrange(from as int, from as int) =~= Seq::<i64>::empty());
    }
    while i < to
        invariant
            from <= i <= to,
            acc == spec_fold(k, z, values@.subrange(from as int, i as int)),
        decreases to - i,
    {
        proof {
            let cur = values@.subrange(from as int, i as int + 1);
            assert(cur.drop_last() =~= values@.subrange(from as int, i as int));
            assert(cur.last() == values@[i as int]);
        }
        acc = combine(k, acc, values[i]);
        i = i + 1;
    }
    acc
}

/// Runs the reduction as the worker pool does: the values are cut into
/// consecutive chunks of (at most) `chunk` entries, each chunk is folded
/// on its own — in parallel, on real workers — and the partial results
/// are combined in order. Whatever `chunk` is, the result is the plain
/// sequential fold: the thread count cannot change it.
pub fn run_partitioned(k: AccKind, values: &Vec<i64>, chunk: usize) -> (r: i64)
    requires
        chunk >= 1,
    ensures
        r == spec_fold(k, spec_zero(k), values@),
{
    let z = zero_of(k);
    let mut acc = z;
    let mut i: usize = 0;
    let n = values.len();
    proof {
        assert(values@.subrange(0, 0) =~= Seq::<i64>::empty());
        lemma_zero_identity(k, acc);
    }
    while i < n
        invariant
            0 <= i <= n,
            n == values@.len(),
            chunk >= 1,
            acc == spec_fold(k, spec_zero(k), values@.subrange(0, i as int)),
        decreases n - i,
    {
        let to = if n - i < chunk {
            n
        } else {
            i + chunk
        };
        let part = fold_chunk(k, z, values, i, to);
        proof {
            let a = values@.subrange(0, i as int);
            let b = values@.subrange(i as int, to as int);
            lemma_chunked_fold_deterministic(k, a, b);
            assert(a + b =~= values@.subrange(0, to as int));
            lemma_fold_append(k, spec_zero(k), a, b);
        }
        acc = combine(k, acc, part);
        proof {
            let a = values@.subrange(0, i as int);
            let b = values@.subrange(i as int, to as int);
            lemma_fold_from_combined(k, spec_fold(k, spec_zero(k), a), spec_zero(k), b);
            lemma_zero_identity(k, spec_fold(k, spec_zero(k), a));
        }
        i = to;
    }
    proof {
        assert(values@.subrange(0, n as int) =~= values@);
    }
    acc
}

// ---------------------------------------------------------------------------
// The balance analytic's per-node work.
// ---------------------------------------------------------------------------

/// The signed pairs of a list.
pub open spec fn spec_pairs_view(s: Seq<(bool, Prop)>) -> Seq<(bool, PropV)> {
    s.map_values(|p: (bool, Prop)| (p.0, p.1@))
}

/// `spec_edge_tmerged` reads the layer selection through membership
/// alone.
proof fn lemma_tmerged_membership(e1: EdgeView<'_>, e2: EdgeView<'_>, lupto: int)
    requires
        e1.graph == e2.graph,
        e1.w == e2.w,
        e1.src == e2.src,
        e1.dst == e2.dst,
        e1.time_pin == e2.time_pin,
        e1.layer_pin == e2.layer_pin,
        forall|l: int|
            crate::view::spec_lids_has(e1.layers, l) == crate::view::spec_lids_has(e2.layers, l),
    ensures
        spec_edge_tmerged(e1, lupto) == spec_edge_tmerged(e2, lupto),
    decreases lupto,
{
    if lupto > 0 {
        lemma_tmerged_membership(e1, e2, lupto - 1);
        assert(crate::view::spec_lids_has(e1.layers, lupto - 1) == crate::view::spec_lids_has(
            e2.layers,
            lupto - 1,
        ));
    }
}

/// The observations the balance walk reads from one `(src, dst)` pair:
/// every in-window value of the named property over the node's layer
/// selection, tagged with the sign.
pub open spec fn spec_pair_values(
    nv: NodeView<'_>,
    su: int,
    du: int,
    name: Seq<char>,
    neg: bool,
) -> Seq<(bool, PropV)> {
    let ev = EdgeView {
        graph: nv.graph,
        w: nv.w,
        layers: nv.layers,
        src: su as usize,
        dst: du as usize,
        time_pin: None,
        layer_pin: None,
    };
    let merged = spec_edge_tmerged(ev, nv.graph@.layers.len() as int);
    match spec_key_index(merged, name) {
        None => Seq::empty(),
        Some(i) => merged[i].1.map_values(|p: (i64, PropV)| (neg, p.1)),
    }
}

/// The observations over a neighbour list, in list order.
pub open spec fn spec_dir_contribs(
    nv: NodeView<'_>,
    name: Seq<char>,
    list: Seq<int>,
    outgoing: bool,
    neg: bool,
) -> Seq<(bool, PropV)>
    decreases list.len(),
{
    if list.len() == 0 {
        Seq::empty()
    } else {
        spec_dir_contribs(nv, name, list.drop_last(), outgoing, neg) + (if outgoing {
            spec_pair_values(nv, nv.vid as int, list.last(), name, neg)
        } else {
            spec_pair_values(nv, list.last(), nv.vid as int, name, neg)
        })
    }
}

/// What the balance analytic folds for one node: outgoing observations
/// negated when the direction covers OUT, incoming observations positive
/// when it covers IN.
pub open spec fn spec_balance_contribs(nv: NodeView<'_>, name: Seq<char>, d: Direction) -> Seq<
    (bool, PropV),
> {
    let n = nv.graph@.nodes.len() as int;
    let outs = spec_dir_contribs(
        nv,
        name,
        spec_conn_list(nv.graph@, nv.w, nv.layers, nv.vid as int, n, Direction::OUT),
        true,
        true,
    );
    let ins = spec_dir_contribs(
        nv,
        name,
        spec_conn_list(nv.graph@, nv.w, nv.layers, nv.vid as int, n, Direction::IN),
        false,
        false,
    );
    match d {
        Direction::OUT => outs,
        Direction::IN => ins,
        Direction::BOTH => outs + ins,
    }
}

impl<'a> NodeView<'a> {
    /// Collects the named observations over one direction's neighbours.
    fn collect_contribs(&self, out: &mut Vec<(bool, Prop)>, name: &String, outgoing: bool, neg: bool)
        requires
            self.wf(),
        ensures
            spec_pairs_view(final(out)@) == spec_pairs_view(old(out)@) + spec_dir_contribs(
                *self,
                name@,
                spec_conn_list(
                    self.graph@,
                    self.w,
                    self.layers,
                    self.vid as int,
                    self.graph@.nodes.len() as int,
                    if outgoing {
                        Direction::OUT
                    } else {
                        Direction::IN
                    },
                ),
                outgoing,
                neg,
            ),
    {
        let d = if outgoing {
            Direction::OUT
        } else {
            Direction::IN
        };
        let vids = self.neighbour_vids(d);
        let ghost list = spec_conn_list(
            self.graph@,
            self.w,
            self.layers,
            self.vid as int,
            self.graph@.nodes.len() as int,
            d,
        );
        let ghost base = spec_pairs_view(out@);
        let mut p: usize = 0;
        let n = vids.len();
        proof {
            assert(list.subrange(0, 0) =~= Seq::<int>::empty());
        }
        while p < n
            invariant
                0 <= p <= n,
                n == vids@.len(),
                n == list.len(),
                self.wf(),
                vids@.map_values(|x: usize| x as int) == list,
                forall|q: int| 0 <= q < n ==> ((#[trigger] vids@[q]) as int) < self.graph@.nodes.len(),
                base == spec_pairs_view(old(out)@),
                spec_pairs_view(out@) == base + spec_dir_contribs(
                    *self,
                    name@,
                    list.subrange(0, p as int),
                    outgoing,
                    neg,
                ),
            decreases n - p,
        {
            let ghost prevals = spec_pairs_view(out@);
            let u = vids[p];
            proof {
                assert(vids@.map_values(|x: usize| x as int)[p as int] == list[p as int]);
            }
            let (su, du) = if outgoing {
                (self.vid, u)
            } else {
                (u, self.vid)
            };
            let ev = EdgeView {
                graph: self.graph,
                w: self.w,
                layers: self.layers.duplicate(),
                src: su,
                dst: du,
                time_pin: None,
                layer_pin: None,
            };
            let ghost gev = EdgeView {
                graph: self.graph,
                w: self.w,
                layers: self.layers,
                src: su,
                dst: du,
                time_pin: None,
                layer_pin: None,
            };
            proof {
                lemma_tmerged_membership(ev, gev, self.graph@.layers.len() as int);
            }
            let props = ev.properties();
            let ghost merged = spec_edge_tmerged(gev, self.graph@.layers.len() as int);
            let ghost pairvals = if outgoing {
                spec_pair_values(*self, self.vid as int, u as int, name@, neg)
            } else {
                spec_pair_values(*self, u as int, self.vid as int, name@, neg)
            };
            match crate::graph::tstore_find(&props.tprops.pairs, name) {
                None => {
                    proof {
                        assert(pairvals =~= Seq::<(bool, PropV)>::empty());
                        assert(spec_pairs_view(out@) == prevals + pairvals);
                    }
                },
                Some(i) => {
                    proof {
                        crate::graph::lemma_key_index(merged, name@);
                        let ki = spec_key_index(merged, name@);
                        if ki is Some {
                            assert(0 <= ki.unwrap() < merged.len());
                        }
                        assert(ki == Some(i as int));
                    }
                    let hist = &props.tprops.pairs[i].1;
                    let mut j: usize = 0;
                    let m = hist.len();
                    while j < m
                        invariant
                            0 <= j <= m,
                            m == hist@.len(),
                            crate::graph::spec_hist_view(hist@) == merged[i as int].1,
                            0 <= i < merged.len(),
                            pairvals == merged[i as int].1.map_values(
                                |pp: (i64, PropV)| (neg, pp.1),
                            ),
                            spec_pairs_view(out@) == prevals + pairvals.subrange(0, j as int),
                        decreases m - j,
                    {
                        let ghost outold = out@;
                        out.push((neg, hist[j].1.clone()));
                        proof {
                            assert(out@.drop_last() =~= outold);
                            assert forall|q: int|
                                0 <= q < outold.len() implies spec_pairs_view(out@)[q]
                                == spec_pairs_view(outold)[q] by {
                                assert(out@[q] == outold[q]);
                            }
                            assert(crate::graph::spec_hist_view(hist@)[j as int]
                                == merged[i as int].1[j as int]);
                            assert(merged[i as int].1[j as int].1 == hist@[j as int].1@);
                            assert(pairvals[j as int] == (neg, merged[i as int].1[j as int].1));
                            assert(spec_pairs_view(out@)[prevals.len() + j as int] == (
                                neg,
                                hist@[j as int].1@,
                            ));
                            assert(spec_pairs_view(out@).len() == prevals.len() + j + 1);
                            assert forall|q: int|
                                0 <= q < prevals.len() + j + 1 implies spec_pairs_view(out@)[q]
                                == (prevals + pairvals.subrange(0, j as int + 1))[q] by {
                                if q < prevals.len() + j {
                                    assert(spec_pairs_view(out@)[q] == spec_pairs_view(outold)[q]);
                                    assert(spec_pairs_view(outold)[q] == (prevals
                                        + pairvals.subrange(0, j as int))[q]);
                                    if q >= prevals.len() {
                                        assert((prevals + pairvals.subrange(0, j as int))[q]
                                            == pairvals[q - prevals.len()]);
                                        assert((prevals + pairvals.subrange(0, j as int + 1))[q]
                                            == pairvals[q - prevals.len()]);
                                    }
                                } else {
                                    assert(spec_pairs_view(out@)[q] == (neg, hist@[j as int].1@));
                                    assert((prevals + pairvals.subrange(0, j as int + 1))[q]
                                        == pairvals[j as int]);
                                }
                            }
                            assert(spec_pairs_view(out@) =~= prevals + pairvals.subrange(
                                0,
                                j as int + 1,
                            ));
                        }
                        j = j + 1;
                    }
                    proof {
                        assert(pairvals.subrange(0, m as int) =~= pairvals);
                    }
                },
            }
            proof {
                let cur = list.subrange(0, p as int + 1);
                assert(cur.drop_last() =~= list.subrange(0, p as int));
                assert(cur.last() == list[p as int]);
                assert(spec_pairs_view(out@) =~= base + spec_dir_contribs(
                    *self,
                    name@,
                    cur,
                    outgoing,
                    neg,
                ));
            }
            p = p + 1;
        }
        proof {
            assert(list.subrange(0, n as int) =~= list);
        }
    }

    /// The signed observations the balance analytic folds for this node:
    /// one `(negated, value)` pair per in-window observation of the named
    /// property on each incident edge — outgoing observations negated
    /// when the direction covers OUT, incoming ones positive when it
    /// covers IN.
    pub fn balance_contributions(&self, name: &String, d: Direction) -> (r: Vec<(bool, Prop)>)
        requires
            self.wf(),
        ensures
            spec_pairs_view(r@) == spec_balance_contribs(*self, name@, d),
    {
        let mut out: Vec<(bool, Prop)> = Vec::new();
        proof {
            assert(spec_pairs_view(out@) =~= Seq::<(bool, PropV)>::empty());
        }
        match d {
            Direction::OUT => {
                self.collect_contribs(&mut out, name, true, true);
            },
            Direction::IN => {
                self.collect_contribs(&mut out, name, false, false);
            },
            Direction::BOTH => {
                self.collect_contribs(&mut out, name, true, true);
                self.collect_contribs(&mut out, name, false, false);
            },
        }
        out
    }
}

} // verus!
