//! The snapshot codec: a self-describing encoding of the whole store as a
//! sequence of 64-bit words — nodes, edges, layer names and all
//! properties.
//!
//! `encode` writes exactly `spec_enc_graph` of the store's value, and
//! `decode` reads any such encoding back to a store with the same value:
//! the round trip is proved, not sampled. Turning the words into file
//! bytes (and back) is the caller's concern.

use vstd::prelude::*;
use crate::graph::{
    EdgeV, GidV, Graph, GraphV, NodeV, spec_graph_wf,
};
use crate::props::PropV;

verus! {

/// Whether `part` occupies `buf` starting at `pos`.
pub open spec fn spec_starts(buf: Seq<u64>, pos: int, part: Seq<u64>) -> bool {
    0 <= pos && pos + part.len() <= buf.len() && buf.subrange(pos, pos + part.len()) == part
}

/// A prefix of a concatenation splits into consecutive prefixes.
pub proof fn lemma_starts_split(buf: Seq<u64>, pos: int, a: Seq<u64>, b: Seq<u64>)
    requires
        spec_starts(buf, pos, a + b),
    ensures
        spec_starts(buf, pos, a),
        spec_starts(buf, pos + a.len(), b),
{
    assert(buf.subrange(pos, pos + a.len()) =~= a) by {
        assert forall|i: int| 0 <= i < a.len() implies buf.subrange(pos, pos + a.len())[i]
            == a[i] by {
            assert(buf.subrange(pos, pos + (a + b).len())[i] == (a + b)[i]);
        }
    }
    assert(buf.subrange(pos + a.len(), pos + a.len() + b.len()) =~= b) by {
        assert forall|i: int|
            0 <= i < b.len() implies buf.subrange(pos + a.len(), pos + a.len() + b.len())[i]
            == b[i] by {
            assert(buf.subrange(pos, pos + (a + b).len())[a.len() + i] == (a + b)[a.len() + i]);
        }
    }
}

// ---------------------------------------------------------------------------
// The encoding, as spec functions.
// ---------------------------------------------------------------------------

pub open spec fn spec_enc_chars(s: Seq<char>) -> Seq<u64> {
    s.map_values(|c: char| (c as u32) as u64)
}

pub open spec fn spec_enc_str(s: Seq<char>) -> Seq<u64> {
    seq![s.len() as u64] + spec_enc_chars(s)
}

pub open spec fn spec_enc_prop(p: PropV) -> Seq<u64> {
    match p {
        PropV::Bool(b) => seq![
            0u64,
            if b {
                1u64
            } else {
                0u64
            },
        ],
        PropV::I32(x) => seq![1u64, (x as u32) as u64],
        PropV::I64(x) => seq![2u64, x as u64],
        PropV::U32(x) => seq![3u64, x as u64],
        PropV::U64(x) => seq![4u64, x],
        PropV::F32Bits(x) => seq![5u64, x as u64],
        PropV::F64Bits(x) => seq![6u64, x],
        PropV::Str(s) => seq![7u64] + spec_enc_str(s),
    }
}

pub open spec fn spec_enc_times(ts: Seq<i64>) -> Seq<u64> {
    seq![ts.len() as u64] + ts.map_values(|t: i64| t as u64)
}

pub open spec fn spec_enc_cpairs(cp: Seq<(Seq<char>, PropV)>) -> Seq<u64>
    decreases cp.len(),
{
    if cp.len() == 0 {
        Seq::empty()
    } else {
        spec_enc_str(cp[0].0) + spec_enc_prop(cp[0].1) + spec_enc_cpairs(
            cp.subrange(1, cp.len() as int),
        )
    }
}

pub open spec fn spec_enc_cprops(cp: Seq<(Seq<char>, PropV)>) -> Seq<u64> {
    seq![cp.len() as u64] + spec_enc_cpairs(cp)
}

pub open spec fn spec_enc_hpairs(h: Seq<(i64, PropV)>) -> Seq<u64>
    decreases h.len(),
{
    if h.len() == 0 {
        Seq::empty()
    } else {
        seq![h[0].0 as u64] + spec_enc_prop(h[0].1) + spec_enc_hpairs(
            h.subrange(1, h.len() as int),
        )
    }
}

pub open spec fn spec_enc_hist(h: Seq<(i64, PropV)>) -> Seq<u64> {
    seq![h.len() as u64] + spec_enc_hpairs(h)
}

pub open spec fn spec_enc_tpairs(tp: Seq<(Seq<char>, Seq<(i64, PropV)>)>) -> Seq<u64>
    decreases tp.len(),
{
    if tp.len() == 0 {
        Seq::empty()
    } else {
        spec_enc_str(tp[0].0) + spec_enc_hist(tp[0].1) + spec_enc_tpairs(
            tp.subrange(1, tp.len() as int),
        )
    }
}

pub open spec fn spec_enc_tprops(tp: Seq<(Seq<char>, Seq<(i64, PropV)>)>) -> Seq<u64> {
    seq![tp.len() as u64] + spec_enc_tpairs(tp)
}

pub open spec fn spec_enc_gid(g: GidV) -> Seq<u64> {
    match g {
        GidV::U64(x) => seq![0u64, x],
        GidV::Name(s) => seq![1u64] + spec_enc_str(s),
    }
}

pub open spec fn spec_enc_node(n: NodeV) -> Seq<u64> {
    spec_enc_gid(n.gid) + spec_enc_times(n.times) + spec_enc_cprops(n.cprops) + spec_enc_tprops(
        n.tprops,
    )
}

pub open spec fn spec_enc_edge(e: EdgeV) -> Seq<u64> {
    seq![e.src as u64, e.dst as u64, e.layer as u64] + spec_enc_times(e.times) + spec_enc_cprops(
        e.cprops,
    ) + spec_enc_tprops(e.tprops)
}

pub open spec fn spec_enc_nodes(ns: Seq<NodeV>) -> Seq<u64>
    decreases ns.len(),
{
    if ns.len() == 0 {
        Seq::empty()
    } else {
        spec_enc_node(ns[0]) + spec_enc_nodes(ns.subrange(1, ns.len() as int))
    }
}

pub open spec fn spec_enc_edges(es: Seq<EdgeV>) -> Seq<u64>
    decreases es.len(),
{
    if es.len() == 0 {
        Seq::empty()
    } else {
        spec_enc_edge(es[0]) + spec_enc_edges(es.subrange(1, es.len() as int))
    }
}

pub open spec fn spec_enc_strs(ls: Seq<Seq<char>>) -> Seq<u64>
    decreases ls.len(),
{
    if ls.len() == 0 {
        Seq::empty()
    } else {
        spec_enc_str(ls[0]) + spec_enc_strs(ls.subrange(1, ls.len() as int))
    }
}

/// The whole store: counted lists of nodes, edges and layer names, then
/// the graph's own properties.
pub open spec fn spec_enc_graph(g: GraphV) -> Seq<u64> {
    seq![g.nodes.len() as u64] + spec_enc_nodes(g.nodes) + seq![g.edges.len() as u64]
        + spec_enc_edges(g.edges) + seq![g.layers.len() as u64] + spec_enc_strs(g.layers)
        + spec_enc_cprops(g.gcprops) + spec_enc_tprops(g.gtprops)
}

// ---------------------------------------------------------------------------
// Bounds that every value held by a real store satisfies.
// ---------------------------------------------------------------------------

pub open spec fn spec_fits_str(s: Seq<char>) -> bool {
    s.len() <= usize::MAX
}

pub open spec fn spec_fits_prop(p: PropV) -> bool {
    match p {
        PropV::Str(s) => spec_fits_str(s),
        _ => true,
    }
}

pub open spec fn spec_fits_cprops(cp: Seq<(Seq<char>, PropV)>) -> bool {
    &&& cp.len() <= usize::MAX
    &&& (forall|i: int|
        0 <= i < cp.len() ==> spec_fits_str((#[trigger] cp[i]).0) && spec_fits_prop(cp[i].1))
}

pub open spec fn spec_fits_hist(h: Seq<(i64, PropV)>) -> bool {
    &&& h.len() <= usize::MAX
    &&& (forall|i: int| 0 <= i < h.len() ==> spec_fits_prop((#[trigger] h[i]).1))
}

pub open spec fn spec_fits_tprops(tp: Seq<(Seq<char>, Seq<(i64, PropV)>)>) -> bool {
    &&& tp.len() <= usize::MAX
    &&& (forall|i: int|
        0 <= i < tp.len() ==> spec_fits_str((#[trigger] tp[i]).0) && spec_fits_hist(tp[i].1))
}

pub open spec fn spec_fits_gid(g: GidV) -> bool {
    match g {
        GidV::U64(_) => true,
        GidV::Name(s) => spec_fits_str(s),
    }
}

pub open spec fn spec_fits_node(n: NodeV) -> bool {
    &&& spec_fits_gid(n.gid)
    &&& n.times.len() <= usize::MAX
    &&& spec_fits_cprops(n.cprops)
    &&& spec_fits_tprops(n.tprops)
}

pub open spec fn spec_fits_edge(e: EdgeV) -> bool {
    &&& 0 <= e.src <= usize::MAX
    &&& 0 <= e.dst <= usize::MAX
    &&& 0 <= e.layer <= usize::MAX
    &&& e.times.len() <= usize::MAX
    &&& spec_fits_cprops(e.cprops)
    &&& spec_fits_tprops(e.tprops)
}

pub open spec fn spec_fits_graph(g: GraphV) -> bool {
    &&& g.nodes.len() <= usize::MAX
    &&& (forall|i: int| 0 <= i < g.nodes.len() ==> spec_fits_node(#[trigger] g.nodes[i]))
    &&& g.edges.len() <= usize::MAX
    &&& (forall|i: int| 0 <= i < g.edges.len() ==> spec_fits_edge(#[trigger] g.edges[i]))
    &&& g.layers.len() <= usize::MAX
    &&& (forall|i: int| 0 <= i < g.layers.len() ==> spec_fits_str(#[trigger] g.layers[i]))
    &&& spec_fits_cprops(g.gcprops)
    &&& spec_fits_tprops(g.gtprops)
}

// ---------------------------------------------------------------------------
// Snoc lemmas: appending one entry extends the encoding at the back.
// ---------------------------------------------------------------------------

proof fn lemma_cpairs_snoc(s: Seq<(Seq<char>, PropV)>, x: (Seq<char>, PropV))
    ensures
        spec_enc_cpairs(s.push(x)) == spec_enc_cpairs(s) + spec_enc_str(x.0) + spec_enc_prop(x.1),
    decreases s.len(),
{
    if s.len() == 0 {
        assert(s.push(x).subrange(1, s.push(x).len() as int) =~= Seq::empty());
        assert(spec_enc_cpairs(Seq::<(Seq<char>, PropV)>::empty()) =~= Seq::<u64>::empty());
        assert(spec_enc_cpairs(s.push(x).subrange(1, s.push(x).len() as int)) =~= Seq::<u64>::empty());
        assert(s.push(x)[0] == x);
        assert(spec_enc_cpairs(s) + spec_enc_str(x.0) + spec_enc_prop(x.1) =~= spec_enc_str(x.0)
            + spec_enc_prop(x.1));
        assert(spec_enc_cpairs(s.push(x)) =~= spec_enc_str(x.0) + spec_enc_prop(x.1));
    } else {
        let t = s.subrange(1, s.len() as int);
        lemma_cpairs_snoc(t, x);
        assert(s.push(x).subrange(1, s.push(x).len() as int) =~= t.push(x));
        assert(s.push(x)[0] == s[0]);
        assert(spec_enc_cpairs(s.push(x)) =~= spec_enc_cpairs(s) + spec_enc_str(x.0)
            + spec_enc_prop(x.1));
    }
}

proof fn lemma_hpairs_snoc(s: Seq<(i64, PropV)>, x: (i64, PropV))
    ensures
        spec_enc_hpairs(s.push(x)) == spec_enc_hpairs(s) + seq![x.0 as u64] + spec_enc_prop(x.1),
    decreases s.len(),
{
    if s.len() == 0 {
        assert(s.push(x).subrange(1, s.push(x).len() as int) =~= Seq::empty());
        assert(spec_enc_hpairs(Seq::<(i64, PropV)>::empty()) =~= Seq::<u64>::empty());
        assert(spec_enc_hpairs(s.push(x).subrange(1, s.push(x).len() as int)) =~= Seq::<u64>::empty());
        assert(s.push(x)[0] == x);
        assert(spec_enc_hpairs(s) + seq![x.0 as u64] + spec_enc_prop(x.1) =~= seq![x.0 as u64]
            + spec_enc_prop(x.1));
        assert(spec_enc_hpairs(s.push(x)) =~= seq![x.0 as u64] + spec_enc_prop(x.1));
    } else {
        let t = s.subrange(1, s.len() as int);
        lemma_hpairs_snoc(t, x);
        assert(s.push(x).subrange(1, s.push(x).len() as int) =~= t.push(x));
        assert(s.push(x)[0] == s[0]);
        assert(spec_enc_hpairs(s.push(x)) =~= spec_enc_hpairs(s) + seq![x.0 as u64]
            + spec_enc_prop(x.1));
    }
}

proof fn lemma_tpairs_snoc(s: Seq<(Seq<char>, Seq<(i64, PropV)>)>, x: (Seq<char>, Seq<(i64, PropV)>))
    ensures
        spec_enc_tpairs(s.push(x)) == spec_enc_tpairs(s) + spec_enc_str(x.0) + spec_enc_hist(x.1),
    decreases s.len(),
{
    if s.len() == 0 {
        assert(s.push(x).subrange(1, s.push(x).len() as int) =~= Seq::empty());
        assert(spec_enc_tpairs(Seq::<(Seq<char>, Seq<(i64, PropV)>)>::empty()) =~= Seq::<u64>::empty());
        assert(spec_enc_tpairs(s.push(x).subrange(1, s.push(x).len() as int)) =~= Seq::<u64>::empty());
        assert(s.push(x)[0] == x);
        assert(spec_enc_tpairs(s) + spec_enc_str(x.0) + spec_enc_hist(x.1) =~= spec_enc_str(x.0)
            + spec_enc_hist(x.1));
        assert(spec_enc_tpairs(s.push(x)) =~= spec_enc_str(x.0) + spec_enc_hist(x.1));
    } else {
        let t = s.subrange(1, s.len() as int);
        lemma_tpairs_snoc(t, x);
        assert(s.push(x).subrange(1, s.push(x).len() as int) =~= t.push(x));
        assert(s.push(x)[0] == s[0]);
        assert(spec_enc_tpairs(s.push(x)) =~= spec_enc_tpairs(s) + spec_enc_str(x.0)
            + spec_enc_hist(x.1));
    }
}

proof fn lemma_nodes_snoc(s: Seq<NodeV>, x: NodeV)
    ensures
        spec_enc_nodes(s.push(x)) == spec_enc_nodes(s) + spec_enc_node(x),
    decreases s.len(),
{
    if s.len() == 0 {
        assert(s.push(x).subrange(1, s.push(x).len() as int) =~= Seq::empty());
        assert(spec_enc_nodes(Seq::<NodeV>::empty()) =~= Seq::<u64>::empty());
        assert(spec_enc_nodes(s.push(x).subrange(1, s.push(x).len() as int)) =~= Seq::<u64>::empty());
        assert(s.push(x)[0] == x);
        assert(spec_enc_nodes(s) + spec_enc_node(x) =~= spec_enc_node(x));
        assert(spec_enc_nodes(s.push(x)) =~= spec_enc_node(x));
    } else {
        let t = s.subrange(1, s.len() as int);
        lemma_nodes_snoc(t, x);
        assert(s.push(x).subrange(1, s.push(x).len() as int) =~= t.push(x));
        assert(s.push(x)[0] == s[0]);
        assert(spec_enc_nodes(s.push(x)) =~= spec_enc_nodes(s) + spec_enc_node(x));
    }
}

proof fn lemma_edges_snoc(s: Seq<EdgeV>, x: EdgeV)
    ensures
        spec_enc_edges(s.push(x)) == spec_enc_edges(s) + spec_enc_edge(x),
    decreases s.len(),
{
    if s.len() == 0 {
        assert(s.push(x).subrange(1, s.push(x).len() as int) =~= Seq::empty());
        assert(spec_enc_edges(Seq::<EdgeV>::empty()) =~= Seq::<u64>::empty());
        assert(spec_enc_edges(s.push(x).subrange(1, s.push(x).len() as int)) =~= Seq::<u64>::empty());
        assert(s.push(x)[0] == x);
        assert(spec_enc_edges(s) + spec_enc_edge(x) =~= spec_enc_edge(x));
        assert(spec_enc_edges(s.push(x)) =~= spec_enc_edge(x));
    } else {
        let t = s.subrange(1, s.len() as int);
        lemma_edges_snoc(t, x);
        assert(s.push(x).subrange(1, s.push(x).len() as int) =~= t.push(x));
        assert(s.push(x)[0] == s[0]);
        assert(spec_enc_edges(s.push(x)) =~= spec_enc_edges(s) + spec_enc_edge(x));
    }
}

proof fn lemma_strs_snoc(s: Seq<Seq<char>>, x: Seq<char>)
    ensures
        spec_enc_strs(s.push(x)) == spec_enc_strs(s) + spec_enc_str(x),
    decreases s.len(),
{
    if s.len() == 0 {
        assert(s.push(x).subrange(1, s.push(x).len() as int) =~= Seq::empty());
        assert(spec_enc_strs(Seq::<Seq<char>>::empty()) =~= Seq::<u64>::empty());
        assert(spec_enc_strs(s.push(x).subrange(1, s.push(x).len() as int)) =~= Seq::<u64>::empty());
        assert(s.push(x)[0] == x);
        assert(spec_enc_strs(s) + spec_enc_str(x) =~= spec_enc_str(x));
        assert(spec_enc_strs(s.push(x)) =~= spec_enc_str(x));
    } else {
        let t = s.subrange(1, s.len() as int);
        lemma_strs_snoc(t, x);
        assert(s.push(x).subrange(1, s.push(x).len() as int) =~= t.push(x));
        assert(s.push(x)[0] == s[0]);
        assert(spec_enc_strs(s.push(x)) =~= spec_enc_strs(s) + spec_enc_str(x));
    }
}

// ---------------------------------------------------------------------------
// The exec encoders.
// ---------------------------------------------------------------------------

fn enc_str_into(out: &mut Vec<u64>, s: &String)
    ensures
        final(out)@ == old(out)@ + spec_enc_str(s@),
        spec_fits_str(s@),
{
    let st = s.as_str();
    let n = st.unicode_len();
    out.push(n as u64);
    let ghost mid = out@;
    let mut i: usize = 0;
    while i < n
        invariant
            0 <= i <= n,
            n == st@.len(),
            st@ == s@,
            out@ == mid + spec_enc_chars(s@.subrange(0, i as int)),
        decreases n - i,
    {
        let c = st.get_char(i);
        out.push((c as u32) as u64);
        proof {
            assert(out@ =~= mid + spec_enc_chars(s@.subrange(0, i as int + 1)));
        }
        i = i + 1;
    }
    proof {
        assert(s@.subrange(0, n as int) =~= s@);
        assert(out@ =~= old(out)@ + spec_enc_str(s@));
    }
}

fn enc_prop_into(out: &mut Vec<u64>, p: &crate::props::Prop)
    ensures
        final(out)@ == old(out)@ + spec_enc_prop(p@),
        spec_fits_prop(p@),
{
    match p {
        crate::props::Prop::Bool(b) => {
            out.push(0);
            out.push(
                if *b {
                    1
                } else {
                    0
                },
            );
            proof {
                assert(out@ =~= old(out)@ + spec_enc_prop(p@));
            }
        },
        crate::props::Prop::I32(x) => {
            out.push(1);
            out.push(#[verifier::truncate] (*x as u32) as u64);
            proof {
                assert(out@ =~= old(out)@ + spec_enc_prop(p@));
            }
        },
        crate::props::Prop::I64(x) => {
            out.push(2);
            out.push(#[verifier::truncate] (*x as u64));
            proof {
                assert(out@ =~= old(out)@ + spec_enc_prop(p@));
            }
        },
        crate::props::Prop::U32(x) => {
            out.push(3);
            out.push(*x as u64);
            proof {
                assert(out@ =~= old(out)@ + spec_enc_prop(p@));
            }
        },
        crate::props::Prop::U64(x) => {
            out.push(4);
            out.push(*x);
            proof {
                assert(out@ =~= old(out)@ + spec_enc_prop(p@));
            }
        },
        crate::props::Prop::F32Bits(x) => {
            out.push(5);
            out.push(*x as u64);
            proof {
                assert(out@ =~= old(out)@ + spec_enc_prop(p@));
            }
        },
        crate::props::Prop::F64Bits(x) => {
            out.push(6);
            out.push(*x);
            proof {
                assert(out@ =~= old(out)@ + spec_enc_prop(p@));
            }
        },
        crate::props::Prop::Str(s) => {
            out.push(7);
            let ghost mid = out@;
            enc_str_into(out, s);
            proof {
                assert(out@ =~= old(out)@ + spec_enc_prop(p@));
            }
        },
    }
}

fn enc_times_into(out: &mut Vec<u64>, ts: &Vec<i64>)
    ensures
        final(out)@ == old(out)@ + spec_enc_times(ts@),
        ts@.len() <= usize::MAX,
{
    let n = ts.len();
    out.push(n as u64);
    let ghost mid = out@;
    let mut i: usize = 0;
    while i < n
        invariant
            0 <= i <= n,
            n == ts@.len(),
            out@ == mid + ts@.subrange(0, i as int).map_values(|t: i64| t as u64),
        decreases n - i,
    {
        out.push(#[verifier::truncate] (ts[i] as u64));
        proof {
            assert(out@ =~= mid + ts@.subrange(0, i as int + 1).map_values(|t: i64| t as u64));
        }
        i = i + 1;
    }
    proof {
        assert(ts@.subrange(0, n as int) =~= ts@);
        assert(out@ =~= old(out)@ + spec_enc_times(ts@));
    }
}

fn enc_cprops_into(out: &mut Vec<u64>, cp: &Vec<(String, crate::props::Prop)>)
    ensures
        final(out)@ == old(out)@ + spec_enc_cprops(crate::graph::spec_cprops_view(cp@)),
        spec_fits_cprops(crate::graph::spec_cprops_view(cp@)),
{
    let ghost cv = crate::graph::spec_cprops_view(cp@);
    let n = cp.len();
    out.push(n as u64);
    let ghost mid = out@;
    let mut i: usize = 0;
    while i < n
        invariant
            0 <= i <= n,
            n == cp@.len(),
            cv == crate::graph::spec_cprops_view(cp@),
            out@ == mid + spec_enc_cpairs(cv.subrange(0, i as int)),
            forall|q: int|
                0 <= q < i ==> spec_fits_str((#[trigger] cv[q]).0) && spec_fits_prop(cv[q].1),
        decreases n - i,
    {
        let ghost pre = cv.subrange(0, i as int);
        enc_str_into(out, &cp[i].0);
        enc_prop_into(out, &cp[i].1);
        proof {
            lemma_cpairs_snoc(pre, cv[i as int]);
            assert(pre.push(cv[i as int]) =~= cv.subrange(0, i as int + 1));
            assert(out@ =~= mid + spec_enc_cpairs(cv.subrange(0, i as int + 1)));
        }
        i = i + 1;
    }
    proof {
        assert(cv.subrange(0, n as int) =~= cv);
        assert(out@ =~= old(out)@ + spec_enc_cprops(cv));
    }
}

fn enc_hist_into(out: &mut Vec<u64>, h: &Vec<(i64, crate::props::Prop)>)
    ensures
        final(out)@ == old(out)@ + spec_enc_hist(crate::graph::spec_hist_view(h@)),
        spec_fits_hist(crate::graph::spec_hist_view(h@)),
{
    let ghost hv = crate::graph::spec_hist_view(h@);
    let n = h.len();
    out.push(n as u64);
    let ghost mid = out@;
    let mut i: usize = 0;
    while i < n
        invariant
            0 <= i <= n,
            n == h@.len(),
            hv == crate::graph::spec_hist_view(h@),
            out@ == mid + spec_enc_hpairs(hv.subrange(0, i as int)),
            forall|q: int| 0 <= q < i ==> spec_fits_prop((#[trigger] hv[q]).1),
        decreases n - i,
    {
        let ghost pre = hv.subrange(0, i as int);
        out.push(#[verifier::truncate] (h[i].0 as u64));
        enc_prop_into(out, &h[i].1);
        proof {
            lemma_hpairs_snoc(pre, hv[i as int]);
            assert(pre.push(hv[i as int]) =~= hv.subrange(0, i as int + 1));
            assert(out@ =~= mid + spec_enc_hpairs(hv.subrange(0, i as int + 1)));
        }
        i = i + 1;
    }
    proof {
        assert(hv.subrange(0, n as int) =~= hv);
        assert(out@ =~= old(out)@ + spec_enc_hist(hv));
    }
}

fn enc_tprops_into(out: &mut Vec<u64>, tp: &Vec<(String, Vec<(i64, crate::props::Prop)>)>)
    ensures
        final(out)@ == old(out)@ + spec_enc_tprops(crate::graph::spec_tprops_view(tp@)),
        spec_fits_tprops(crate::graph::spec_tprops_view(tp@)),
{
    let ghost tv = crate::graph::spec_tprops_view(tp@);
    let n = tp.len();
    out.push(n as u64);
    let ghost mid = out@;
    let mut i: usize = 0;
    while i < n
        invariant
            0 <= i <= n,
            n == tp@.len(),
            tv == crate::graph::spec_tprops_view(tp@),
            out@ == mid + spec_enc_tpairs(tv.subrange(0, i as int)),
            forall|q: int|
                0 <= q < i ==> spec_fits_str((#[trigger] tv[q]).0) && spec_fits_hist(tv[q].1),
        decreases n - i,
    {
        let ghost pre = tv.subrange(0, i as int);
        enc_str_into(out, &tp[i].0);
        enc_hist_into(out, &tp[i].1);
        proof {
            lemma_tpairs_snoc(pre, tv[i as int]);
            assert(pre.push(tv[i as int]) =~= tv.subrange(0, i as int + 1));
            assert(out@ =~= mid + spec_enc_tpairs(tv.subrange(0, i as int + 1)));
        }
        i = i + 1;
    }
    proof {
        assert(tv.subrange(0, n as int) =~= tv);
        assert(out@ =~= old(out)@ + spec_enc_tprops(tv));
    }
}

fn enc_gid_into(out: &mut Vec<u64>, g: &crate::graph::NodeId)
    ensures
        final(out)@ == old(out)@ + spec_enc_gid(g@),
        spec_fits_gid(g@),
{
    match g {
        crate::graph::NodeId::U64(x) => {
            out.push(0);
            out.push(*x);
            proof {
                assert(out@ =~= old(out)@ + spec_enc_gid(g@));
            }
        },
        crate::graph::NodeId::Name(s) => {
            out.push(1);
            enc_str_into(out, s);
            proof {
                assert(out@ =~= old(out)@ + spec_enc_gid(g@));
            }
        },
    }
}

fn enc_node_into(out: &mut Vec<u64>, n: &crate::graph::NodeRec)
    ensures
        final(out)@ == old(out)@ + spec_enc_node(n@),
        spec_fits_node(n@),
{
    enc_gid_into(out, &n.gid);
    enc_times_into(out, &n.times);
    enc_cprops_into(out, &n.cprops);
    enc_tprops_into(out, &n.tprops);
    proof {
        assert(out@ =~= old(out)@ + spec_enc_node(n@));
    }
}

fn enc_edge_into(out: &mut Vec<u64>, e: &crate::graph::EdgeRec)
    ensures
        final(out)@ == old(out)@ + spec_enc_edge(e@),
        spec_fits_edge(e@),
{
    out.push(e.src as u64);
    out.push(e.dst as u64);
    out.push(e.layer as u64);
    enc_times_into(out, &e.times);
    enc_cprops_into(out, &e.cprops);
    enc_tprops_into(out, &e.tprops);
    proof {
        assert(out@ =~= old(out)@ + spec_enc_edge(e@));
    }
}

impl Graph {
    /// The snapshot of the store: exactly `spec_enc_graph` of its value,
    /// which also always fits the encoder's bounds.
    #[verifier::rlimit(100)]
    pub fn encode(&self) -> (r: Vec<u64>)
        ensures
            r@ == spec_enc_graph(self@),
            spec_fits_graph(self@),
    {
        let mut out: Vec<u64> = Vec::new();
        let nn = self.nodes.len();
        out.push(nn as u64);
        let ghost mid0 = out@;
        let mut i: usize = 0;
        while i < nn
            invariant
                0 <= i <= nn,
                nn == self.nodes@.len(),
                out@ == mid0 + spec_enc_nodes(self@.nodes.subrange(0, i as int)),
                forall|q: int| 0 <= q < i ==> spec_fits_node(#[trigger] self@.nodes[q]),
            decreases nn - i,
        {
            let ghost pre = self@.nodes.subrange(0, i as int);
            enc_node_into(&mut out, &self.nodes[i]);
            proof {
                lemma_nodes_snoc(pre, self@.nodes[i as int]);
                assert(pre.push(self@.nodes[i as int]) =~= self@.nodes.subrange(0, i as int + 1));
                assert(out@ =~= mid0 + spec_enc_nodes(self@.nodes.subrange(0, i as int + 1)));
            }
            i = i + 1;
        }
        proof {
            assert(self@.nodes.subrange(0, nn as int) =~= self@.nodes);
        }
        let ne = self.edges.len();
        out.push(ne as u64);
        let ghost mid1 = out@;
        let mut i: usize = 0;
        while i < ne
            invariant
                0 <= i <= ne,
                ne == self.edges@.len(),
                out@ == mid1 + spec_enc_edges(self@.edges.subrange(0, i as int)),
                forall|q: int| 0 <= q < i ==> spec_fits_edge(#[trigger] self@.edges[q]),
            decreases ne - i,
        {
            let ghost pre = self@.edges.subrange(0, i as int);
            enc_edge_into(&mut out, &self.edges[i]);
            proof {
                lemma_edges_snoc(pre, self@.edges[i as int]);
                assert(pre.push(self@.edges[i as int]) =~= self@.edges.subrange(0, i as int + 1));
                assert(out@ =~= mid1 + spec_enc_edges(self@.edges.subrange(0, i as int + 1)));
            }
            i = i + 1;
        }
        proof {
            assert(self@.edges.subrange(0, ne as int) =~= self@.edges);
        }
        let nl = self.layers.len();
        out.push(nl as u64);
        let ghost mid2 = out@;
        let mut i: usize = 0;
        while i < nl
            invariant
                0 <= i <= nl,
                nl == self.layers@.len(),
                out@ == mid2 + spec_enc_strs(self@.layers.subrange(0, i as int)),
                forall|q: int| 0 <= q < i ==> spec_fits_str(#[trigger] self@.layers[q]),
            decreases nl - i,
        {
            let ghost pre = self@.layers.subrange(0, i as int);
            enc_str_into(&mut out, &self.layers[i]);
            proof {
                lemma_strs_snoc(pre, self@.layers[i as int]);
                assert(pre.push(self@.layers[i as int]) =~= self@.layers.subrange(
                    0,
                    i as int + 1,
                ));
                assert(out@ =~= mid2 + spec_enc_strs(self@.layers.subrange(0, i as int + 1)));
            }
            i = i + 1;
        }
        proof {
            assert(self@.layers.subrange(0, nl as int) =~= self@.layers);
        }
        enc_cprops_into(&mut out, &self.gcprops);
        enc_tprops_into(&mut out, &self.gtprops);
        proof {
            assert(out@ =~= spec_enc_graph(self@));
        }
        out
    }
}

// ---------------------------------------------------------------------------
// The exec decoders. Each one's contract says: whatever value the words
// at the cursor encode, that value comes back and the cursor moves past
// it.
// ---------------------------------------------------------------------------

/// Relies on `char::from_u32` of std: `Some` exactly for Unicode scalar
/// values, and then the character with that code.
pub assume_specification[ char::from_u32 ](i: u32) -> (r: Option<char>)
    ensures
        r is Some <==> vstd::utf8::is_scalar(i),
        r is Some ==> r.unwrap() == i as char,
;

/// Reads one word.
fn rd(buf: &Vec<u64>, pos: &mut usize) -> (r: Option<u64>)
    ensures
        r is Some ==> (*old(pos) as int) < buf@.len() && *final(pos) == *old(pos) + 1
            && r.unwrap() == buf@[*old(pos) as int],
        r is None ==> *final(pos) == *old(pos) && (*old(pos) as int) >= buf@.len(),
{
    if *pos < buf.len() {
        let w = buf[*pos];
        *pos = *pos + 1;
        Some(w)
    } else {
        None
    }
}

/// Reads a string.
fn dec_str(buf: &Vec<u64>, pos: &mut usize) -> (r: Option<String>)
    ensures
        r is Some ==> *old(pos) <= *final(pos) <= buf@.len(),
        r is None ==> *final(pos) >= *old(pos),
        forall|v: Seq<char>|
            spec_fits_str(v) && #[trigger] spec_starts(buf@, *old(pos) as int, spec_enc_str(v))
                ==> r is Some && r.unwrap()@ == v && *final(pos) as int == *old(pos)
                + spec_enc_str(v).len(),
{
    let ghost p0 = *pos as int;
    let w = match rd(buf, pos) {
        Some(w) => w,
        None => {
            proof {
                assert forall|v: Seq<char>|
                    spec_fits_str(v) && #[trigger] spec_starts(buf@, p0, spec_enc_str(v))
                        implies false by {
                    assert(spec_enc_str(v).len() >= 1);
                }
            }
            return None;
        },
    };
    if w > (usize::MAX as u64) {
        proof {
            assert forall|v: Seq<char>|
                spec_fits_str(v) && #[trigger] spec_starts(buf@, p0, spec_enc_str(v))
                    implies false by {
                assert(buf@.subrange(p0, p0 + spec_enc_str(v).len())[0] == v.len() as u64);
                assert(buf@[p0] == v.len() as u64);
            }
        }
        return None;
    }
    let n = w as usize;
    let mut s = String::new();
    let mut i: usize = 0;
    while i < n
        invariant
            0 <= i <= n,
            s@.len() == i,
            *pos == p0 + 1 + i,
            *pos <= buf@.len(),
            n == w,
            w <= usize::MAX,
            p0 < buf@.len(),
            buf@[p0] == w,
            forall|q: int| 0 <= q < i ==> ((#[trigger] s@[q]) as u32) as u64 == buf@[p0 + 1 + q],
        decreases n - i,
    {
        let cw = match rd(buf, pos) {
            Some(cw) => cw,
            None => {
                proof {
                    lemma_dec_str_fail(buf@, p0, s@, i as int, n as int);
                }
                return None;
            },
        };
        if cw > (u32::MAX as u64) {
            proof {
                lemma_dec_str_fail2(buf@, p0, i as int, n as int);
            }
            return None;
        }
        let c = match char::from_u32(cw as u32) {
            Some(c) => c,
            None => {
                proof {
                    lemma_dec_str_fail2(buf@, p0, i as int, n as int);
                }
                return None;
            },
        };
        crate::props::push_char(&mut s, c);
        proof {
            vstd::utf8::char_u32_cast(c, cw as u32);
            assert((s@[i as int] as u32) as u64 == buf@[p0 + 1 + i]);
        }
        i = i + 1;
    }
    proof {
        assert forall|v: Seq<char>|
            spec_fits_str(v) && #[trigger] spec_starts(buf@, p0, spec_enc_str(v)) implies s@ == v
            && *pos == p0 + spec_enc_str(v).len() by {
            assert(buf@.subrange(p0, p0 + spec_enc_str(v).len())[0] == spec_enc_str(v)[0]);
            assert(buf@[p0] == v.len() as u64);
            assert(v.len() == n);
            assert forall|q: int| 0 <= q < n implies s@[q] == v[q] by {
                assert(buf@.subrange(p0, p0 + spec_enc_str(v).len())[1 + q] == spec_enc_str(v)[1
                    + q]);
                assert(buf@[p0 + 1 + q] == spec_enc_chars(v)[q]);
                assert(spec_enc_chars(v)[q] == (v[q] as u32) as u64);
                assert((s@[q] as u32) as u64 == (v[q] as u32) as u64);
                assert(s@[q] as u32 == v[q] as u32);
                vstd::utf8::char_u32_cast(s@[q], s@[q] as u32);
                vstd::utf8::char_u32_cast(v[q], v[q] as u32);
            }
            assert(s@ =~= v);
        }
    }
    Some(s)
}

/// Any string the words at `p0` could encode has its length there.
proof fn lemma_dec_str_fail(buf: Seq<u64>, p0: int, s: Seq<char>, i: int, n: int)
    requires
        0 <= p0 < buf.len(),
        0 <= i < n,
        buf[p0] == n as u64,
        n <= usize::MAX,
        p0 + 1 + i >= buf.len(),
    ensures
        forall|v: Seq<char>|
            !(spec_fits_str(v) && #[trigger] spec_starts(buf, p0, spec_enc_str(v))),
{
    assert forall|v: Seq<char>|
        spec_fits_str(v) && #[trigger] spec_starts(buf, p0, spec_enc_str(v)) implies false by {
        assert(buf.subrange(p0, p0 + spec_enc_str(v).len())[0] == v.len() as u64);
        assert(buf[p0] == v.len() as u64);
        assert(v.len() == n);
        assert(p0 + spec_enc_str(v).len() <= buf.len());
    }
}

/// Any string the words at `p0` could encode has a scalar char word at
/// every position.
proof fn lemma_dec_str_fail2(buf: Seq<u64>, p0: int, i: int, n: int)
    requires
        0 <= p0 < buf.len(),
        0 <= i < n,
        buf[p0] == n as u64,
        n <= usize::MAX,
        p0 + 1 + i < buf.len(),
        !(buf[p0 + 1 + i] <= u32::MAX && vstd::utf8::is_scalar(buf[p0 + 1 + i] as u32)),
    ensures
        forall|v: Seq<char>|
            !(spec_fits_str(v) && #[trigger] spec_starts(buf, p0, spec_enc_str(v))),
{
    assert forall|v: Seq<char>|
        spec_fits_str(v) && #[trigger] spec_starts(buf, p0, spec_enc_str(v)) implies false by {
        assert(buf.subrange(p0, p0 + spec_enc_str(v).len())[0] == v.len() as u64);
        assert(v.len() == n);
        assert(buf.subrange(p0, p0 + spec_enc_str(v).len())[1 + i] == spec_enc_str(v)[1 + i]);
        assert(buf[p0 + 1 + i] == spec_enc_chars(v)[i]);
        assert(buf[p0 + 1 + i] == (v[i] as u32) as u64);
        vstd::utf8::char_is_scalar(v[i]);
        assert(buf[p0 + 1 + i] <= u32::MAX);
        assert(buf[p0 + 1 + i] as u32 == v[i] as u32);
        assert(vstd::utf8::is_scalar(buf[p0 + 1 + i] as u32));
    }
}

/// Reads a property value.
fn dec_prop(buf: &Vec<u64>, pos: &mut usize) -> (r: Option<crate::props::Prop>)
    ensures
        r is Some ==> *old(pos) <= *final(pos) <= buf@.len(),
        r is None ==> *final(pos) >= *old(pos),
        forall|p: PropV|
            spec_fits_prop(p) && #[trigger] spec_starts(buf@, *old(pos) as int, spec_enc_prop(p))
                ==> r is Some && r.unwrap()@ == p && *final(pos) as int == *old(pos)
                + spec_enc_prop(p).len(),
{
    let ghost p0 = *pos as int;
    let tag = match rd(buf, pos) {
        Some(w) => w,
        None => {
            proof {
                assert forall|p: PropV|
                    spec_fits_prop(p) && #[trigger] spec_starts(buf@, p0, spec_enc_prop(p))
                        implies false by {
                    assert(spec_enc_prop(p).len() >= 1);
                }
            }
            return None;
        },
    };
    proof {
        assert forall|p: PropV|
            spec_fits_prop(p) && #[trigger] spec_starts(buf@, p0, spec_enc_prop(p)) implies buf@[
            p0] == spec_enc_prop(p)[0] by {
            assert(buf@.subrange(p0, p0 + spec_enc_prop(p).len())[0] == spec_enc_prop(p)[0]);
        }
    }
    if tag == 7 {
        let s = match dec_str(buf, pos) {
            Some(s) => s,
            None => {
                proof {
                    assert forall|p: PropV|
                        spec_fits_prop(p) && #[trigger] spec_starts(buf@, p0, spec_enc_prop(p))
                            implies false by {
                        if p is Str {
                            let sv = p->Str_0;
                            lemma_starts_split(buf@, p0, seq![7u64], spec_enc_str(sv));
                        }
                    }
                }
                return None;
            },
        };
        proof {
            assert forall|p: PropV|
                spec_fits_prop(p) && #[trigger] spec_starts(buf@, p0, spec_enc_prop(p))
                    implies p is Str && s@ == p->Str_0 && *pos as int == p0 + spec_enc_prop(
                p).len() by {
                let sv = p->Str_0;
                lemma_starts_split(buf@, p0, seq![7u64], spec_enc_str(sv));
            }
        }
        return Some(crate::props::Prop::Str(s));
    }
    let w = match rd(buf, pos) {
        Some(w) => w,
        None => {
            proof {
                assert forall|p: PropV|
                    spec_fits_prop(p) && #[trigger] spec_starts(buf@, p0, spec_enc_prop(p))
                        implies false by {
                    assert(!(p is Str));
                    assert(spec_enc_prop(p).len() == 2);
                }
            }
            return None;
        },
    };
    proof {
        assert forall|p: PropV|
            spec_fits_prop(p) && !(p is Str) && #[trigger] spec_starts(
                buf@,
                p0,
                spec_enc_prop(p),
            ) implies buf@[p0 + 1] == spec_enc_prop(p)[1] && *pos as int == p0 + 2 by {
            assert(buf@.subrange(p0, p0 + spec_enc_prop(p).len())[1] == spec_enc_prop(p)[1]);
        }
    }
    if tag == 0 {
        Some(crate::props::Prop::Bool(w != 0))
    } else if tag == 1 {
        let x: i32 = #[verifier::truncate] ((#[verifier::truncate] (w as u32)) as i32);
        proof {
            assert forall|p: PropV|
                spec_fits_prop(p) && #[trigger] spec_starts(buf@, p0, spec_enc_prop(p))
                    implies p is I32 && x == p->I32_0 by {
                let x0 = p->I32_0;
                assert(w == ((x0 as u32) as u64));
                assert(x == x0) by (bit_vector)
                    requires
                        w == ((x0 as u32) as u64),
                        x == ((w as u32) as i32),
                ;
            }
        }
        Some(crate::props::Prop::I32(x))
    } else if tag == 2 {
        let x: i64 = #[verifier::truncate] (w as i64);
        proof {
            assert forall|p: PropV|
                spec_fits_prop(p) && #[trigger] spec_starts(buf@, p0, spec_enc_prop(p))
                    implies p is I64 && x == p->I64_0 by {
                let x0 = p->I64_0;
                assert(w == (x0 as u64));
                assert(x == x0) by (bit_vector)
                    requires
                        w == (x0 as u64),
                        x == (w as i64),
                ;
            }
        }
        Some(crate::props::Prop::I64(x))
    } else if tag == 3 {
        if w > (u32::MAX as u64) {
            proof {
                assert forall|p: PropV|
                    spec_fits_prop(p) && #[trigger] spec_starts(buf@, p0, spec_enc_prop(p))
                        implies false by {}
            }
            return None;
        }
        Some(crate::props::Prop::U32(w as u32))
    } else if tag == 4 {
        Some(crate::props::Prop::U64(w))
    } else if tag == 5 {
        if w > (u32::MAX as u64) {
            proof {
                assert forall|p: PropV|
                    spec_fits_prop(p) && #[trigger] spec_starts(buf@, p0, spec_enc_prop(p))
                        implies false by {}
            }
            return None;
        }
        Some(crate::props::Prop::F32Bits(w as u32))
    } else if tag == 6 {
        Some(crate::props::Prop::F64Bits(w))
    } else {
        proof {
            assert forall|p: PropV|
                spec_fits_prop(p) && #[trigger] spec_starts(buf@, p0, spec_enc_prop(p))
                    implies false by {}
        }
        None
    }
}

/// Reads an event-time list.
fn dec_times(buf: &Vec<u64>, pos: &mut usize) -> (r: Option<Vec<i64>>)
    ensures
        r is Some ==> *old(pos) <= *final(pos) <= buf@.len(),
        r is None ==> *final(pos) >= *old(pos),
        forall|v: Seq<i64>|
            v.len() <= usize::MAX && #[trigger] spec_starts(
                buf@,
                *old(pos) as int,
                spec_enc_times(v),
            ) ==> r is Some && r.unwrap()@ == v && *final(pos) as int == *old(pos)
                + spec_enc_times(v).len(),
{
    let ghost p0 = *pos as int;
    let w = match rd(buf, pos) {
        Some(w) => w,
        None => {
            proof {
                assert forall|v: Seq<i64>|
                    v.len() <= usize::MAX && #[trigger] spec_starts(buf@, p0, spec_enc_times(v))
                        implies false by {
                    assert(spec_enc_times(v).len() >= 1);
                }
            }
            return None;
        },
    };
    proof {
        assert forall|v: Seq<i64>|
            v.len() <= usize::MAX && #[trigger] spec_starts(buf@, p0, spec_enc_times(v))
                implies buf@[p0] == v.len() as u64 by {
            assert(buf@.subrange(p0, p0 + spec_enc_times(v).len())[0] == spec_enc_times(v)[0]);
        }
    }
    if w > (usize::MAX as u64) {
        proof {
            assert forall|v: Seq<i64>|
                v.len() <= usize::MAX && #[trigger] spec_starts(buf@, p0, spec_enc_times(v))
                    implies false by {}
        }
        return None;
    }
    let n = w as usize;
    let mut out: Vec<i64> = Vec::new();
    let mut i: usize = 0;
    while i < n
        invariant
            0 <= i <= n,
            out@.len() == i,
            *pos == p0 + 1 + i,
            *pos <= buf@.len(),
            n == w,
            p0 < buf@.len(),
            buf@[p0] == w,
            forall|q: int| 0 <= q < i ==> ((#[trigger] out@[q]) as u64) == buf@[p0 + 1 + q],
        decreases n - i,
    {
        let cw = match rd(buf, pos) {
            Some(cw) => cw,
            None => {
                proof {
                    assert forall|v: Seq<i64>|
                        v.len() <= usize::MAX && #[trigger] spec_starts(
                            buf@,
                            p0,
                            spec_enc_times(v),
                        ) implies false by {
                        assert(buf@[p0] == v.len() as u64);
                        assert(p0 + spec_enc_times(v).len() <= buf@.len());
                    }
                }
                return None;
            },
        };
        out.push(#[verifier::truncate] (cw as i64));
        proof {
            assert((out@[i as int] as u64) == buf@[p0 + 1 + i]) by {
                let x = out@[i as int];
                assert(x == (cw as i64));
                assert((x as u64) == cw) by (bit_vector)
                    requires
                        x == (cw as i64),
                ;
            }
        }
        i = i + 1;
    }
    proof {
        assert forall|v: Seq<i64>|
            v.len() <= usize::MAX && #[trigger] spec_starts(buf@, p0, spec_enc_times(v))
                implies out@ == v && *pos as int == p0 + spec_enc_times(v).len() by {
            assert(buf@[p0] == v.len() as u64);
            assert(v.len() == n);
            assert forall|q: int| 0 <= q < n implies out@[q] == v[q] by {
                assert(buf@.subrange(p0, p0 + spec_enc_times(v).len())[1 + q] == spec_enc_times(
                    v,
                )[1 + q]);
                assert(buf@[p0 + 1 + q] == v.map_values(|t: i64| t as u64)[q]);
                assert(buf@[p0 + 1 + q] == (v[q] as u64));
                let x = out@[q];
                let y = v[q];
                assert(x == y) by (bit_vector)
                    requires
                        (x as u64) == (y as u64),
                ;
            }
            assert(out@ =~= v);
        }
    }
    Some(out)
}

/// Reads a constant-property list.
#[verifier::rlimit(100)]
#[verifier::spinoff_prover]
fn dec_cprops(buf: &Vec<u64>, pos: &mut usize) -> (r: Option<Vec<(String, crate::props::Prop)>>)
    ensures
        r is Some ==> *old(pos) <= *final(pos) <= buf@.len(),
        r is None ==> *final(pos) >= *old(pos),
        forall|v: Seq<(Seq<char>, PropV)>|
            spec_fits_cprops(v) && #[trigger] spec_starts(
                buf@,
                *old(pos) as int,
                spec_enc_cprops(v),
            ) ==> r is Some && crate::graph::spec_cprops_view(r.unwrap()@) == v && (*final(
                pos)) as int == *old(pos) + spec_enc_cprops(v).len(),
{
    let ghost p0 = *pos as int;
    let w = match rd(buf, pos) {
        Some(w) => w,
        None => {
            proof {
                assert forall|v: Seq<(Seq<char>, PropV)>|
                    spec_fits_cprops(v) && #[trigger] spec_starts(buf@, p0, spec_enc_cprops(v))
                        implies false by {
                    assert(spec_enc_cprops(v).len() >= 1);
                }
            }
            return None;
        },
    };
    proof {
        assert forall|v: Seq<(Seq<char>, PropV)>|
            spec_fits_cprops(v) && #[trigger] spec_starts(buf@, p0, spec_enc_cprops(v))
                implies buf@[p0] == v.len() as u64 && spec_starts(
                buf@,
                p0 + 1,
                spec_enc_cpairs(v),
            ) by {
            lemma_starts_split(buf@, p0, seq![v.len() as u64], spec_enc_cpairs(v));
            assert(buf@.subrange(p0, p0 + 1) == seq![v.len() as u64]);
            assert(buf@.subrange(p0, p0 + 1)[0] == buf@[p0]);
        }
    }
    if w > (usize::MAX as u64) {
        proof {
            assert forall|v: Seq<(Seq<char>, PropV)>|
                spec_fits_cprops(v) && #[trigger] spec_starts(buf@, p0, spec_enc_cprops(v))
                    implies false by {}
        }
        return None;
    }
    let n = w as usize;
    let mut out: Vec<(String, crate::props::Prop)> = Vec::new();
    let mut i: usize = 0;
    proof {
        assert(crate::graph::spec_cprops_view(out@) =~= Seq::<(Seq<char>, PropV)>::empty());
        assert forall|v: Seq<(Seq<char>, PropV)>|
            spec_fits_cprops(v) && v.len() == n && #[trigger] spec_starts(
                buf@,
                p0 + 1,
                spec_enc_cpairs(v),
            ) implies (crate::graph::spec_cprops_view(out@) == v.subrange(0, 0) && spec_starts(
            buf@,
            *pos as int,
            spec_enc_cpairs(v.subrange(0, n as int)),
        ) && *pos as int == p0 + 1 + spec_enc_cpairs(v).len() - spec_enc_cpairs(
            v.subrange(0, n as int),
        ).len()) by {
            assert(v.subrange(0, n as int) =~= v);
            assert(v.subrange(0, 0) =~= Seq::<(Seq<char>, PropV)>::empty());
        }
    }
    while i < n
        invariant
            0 <= i <= n,
            n == w,
            p0 < buf@.len(),
            buf@[p0] == w,
            *pos <= buf@.len(),
            p0 + 1 <= *pos as int,
            forall|v: Seq<(Seq<char>, PropV)>|
                spec_fits_cprops(v) && v.len() == n && #[trigger] spec_starts(
                    buf@,
                    p0 + 1,
                    spec_enc_cpairs(v),
                ) ==> (crate::graph::spec_cprops_view(out@) == v.subrange(0, i as int)
                    && spec_starts(
                    buf@,
                    *pos as int,
                    spec_enc_cpairs(v.subrange(i as int, n as int)),
                ) && *pos as int == p0 + 1 + spec_enc_cpairs(v).len() - spec_enc_cpairs(
                    v.subrange(i as int, n as int),
                ).len()),
        decreases n - i,
    {
        let ghost posi = *pos as int;
        let ghost outi = out@;
        let s = match dec_str(buf, pos) {
            Some(s) => s,
            None => {
                proof {
                    assert forall|v: Seq<(Seq<char>, PropV)>|
                        spec_fits_cprops(v) && v.len() == n && #[trigger] spec_starts(
                            buf@,
                            p0 + 1,
                            spec_enc_cpairs(v),
                        ) implies false by {
                        let sfx = v.subrange(i as int, n as int);
                        assert(spec_enc_cpairs(sfx) == spec_enc_str(sfx[0].0) + spec_enc_prop(
                            sfx[0].1,
                        ) + spec_enc_cpairs(sfx.subrange(1, sfx.len() as int)));
                        lemma_starts_split(
                            buf@,
                            posi,
                            spec_enc_str(sfx[0].0) + spec_enc_prop(sfx[0].1),
                            spec_enc_cpairs(sfx.subrange(1, sfx.len() as int)),
                        );
                        lemma_starts_split(buf@, posi, spec_enc_str(sfx[0].0), spec_enc_prop(sfx[0].1));
                        assert(spec_fits_str(v[i as int].0));
                    }
                }
                return None;
            },
        };
        let p = match dec_prop(buf, pos) {
            Some(p) => p,
            None => {
                proof {
                    assert forall|v: Seq<(Seq<char>, PropV)>|
                        spec_fits_cprops(v) && v.len() == n && #[trigger] spec_starts(
                            buf@,
                            p0 + 1,
                            spec_enc_cpairs(v),
                        ) implies false by {
                        let sfx = v.subrange(i as int, n as int);
                        assert(spec_enc_cpairs(sfx) == spec_enc_str(sfx[0].0) + spec_enc_prop(
                            sfx[0].1,
                        ) + spec_enc_cpairs(sfx.subrange(1, sfx.len() as int)));
                        lemma_starts_split(
                            buf@,
                            posi,
                            spec_enc_str(sfx[0].0) + spec_enc_prop(sfx[0].1),
                            spec_enc_cpairs(sfx.subrange(1, sfx.len() as int)),
                        );
                        lemma_starts_split(buf@, posi, spec_enc_str(sfx[0].0), spec_enc_prop(sfx[0].1));
                        assert(spec_fits_str(v[i as int].0));
                        assert(spec_fits_prop(v[i as int].1));
                    }
                }
                return None;
            },
        };
        out.push((s, p));
        proof {
            assert forall|v: Seq<(Seq<char>, PropV)>|
                spec_fits_cprops(v) && v.len() == n && #[trigger] spec_starts(
                    buf@,
                    p0 + 1,
                    spec_enc_cpairs(v),
                ) implies (crate::graph::spec_cprops_view(out@) == v.subrange(0, i as int + 1)
                && spec_starts(
                buf@,
                *pos as int,
                spec_enc_cpairs(v.subrange(i as int + 1, n as int)),
            ) && *pos as int == p0 + 1 + spec_enc_cpairs(v).len() - spec_enc_cpairs(
                v.subrange(i as int + 1, n as int),
            ).len()) by {
                let sfx = v.subrange(i as int, n as int);
                assert(spec_enc_cpairs(sfx) == spec_enc_str(sfx[0].0) + spec_enc_prop(sfx[0].1)
                    + spec_enc_cpairs(sfx.subrange(1, sfx.len() as int)));
                lemma_starts_split(
                    buf@,
                    posi,
                    spec_enc_str(sfx[0].0) + spec_enc_prop(sfx[0].1),
                    spec_enc_cpairs(sfx.subrange(1, sfx.len() as int)),
                );
                lemma_starts_split(buf@, posi, spec_enc_str(sfx[0].0), spec_enc_prop(sfx[0].1));
                assert(spec_fits_str(v[i as int].0));
                assert(spec_fits_prop(v[i as int].1));
                assert(s@ == sfx[0].0);
                assert(p@ == sfx[0].1);
                assert(sfx.subrange(1, sfx.len() as int) =~= v.subrange(i as int + 1, n as int));
                assert(crate::graph::spec_cprops_view(outi) == v.subrange(0, i as int));
                assert(crate::graph::spec_cprops_view(out@) =~= crate::graph::spec_cprops_view(
                    outi,
                ).push((s@, p@)));
                assert(v.subrange(0, i as int).push(v[i as int]) =~= v.subrange(0, i as int + 1));
            }
        }
        i = i + 1;
    }
    proof {
        assert forall|v: Seq<(Seq<char>, PropV)>|
            spec_fits_cprops(v) && #[trigger] spec_starts(buf@, p0, spec_enc_cprops(v))
                implies crate::graph::spec_cprops_view(out@) == v && *pos as int == p0
                + spec_enc_cprops(v).len() by {
            assert(v.len() == n);
            assert(v.subrange(0, n as int) =~= v);
            assert(v.subrange(n as int, n as int) =~= Seq::<(Seq<char>, PropV)>::empty());
            assert(spec_enc_cpairs(v.subrange(n as int, n as int)) =~= Seq::<u64>::empty());
        }
    }
    Some(out)
}

/// Reads one temporal history.
#[verifier::rlimit(100)]
#[verifier::spinoff_prover]
fn dec_hist(buf: &Vec<u64>, pos: &mut usize) -> (r: Option<Vec<(i64, crate::props::Prop)>>)
    ensures
        r is Some ==> *old(pos) <= *final(pos) <= buf@.len(),
        r is None ==> *final(pos) >= *old(pos),
        forall|v: Seq<(i64, PropV)>|
            spec_fits_hist(v) && #[trigger] spec_starts(buf@, *old(pos) as int, spec_enc_hist(v))
                ==> r is Some && crate::graph::spec_hist_view(r.unwrap()@) == v && (*final(
                pos)) as int == *old(pos) + spec_enc_hist(v).len(),
{
    let ghost p0 = *pos as int;
    let w = match rd(buf, pos) {
        Some(w) => w,
        None => {
            proof {
                assert forall|v: Seq<(i64, PropV)>|
                    spec_fits_hist(v) && #[trigger] spec_starts(buf@, p0, spec_enc_hist(v))
                        implies false by {
                    assert(spec_enc_hist(v).len() >= 1);
                }
            }
            return None;
        },
    };
    proof {
        assert forall|v: Seq<(i64, PropV)>|
            spec_fits_hist(v) && #[trigger] spec_starts(buf@, p0, spec_enc_hist(v)) implies buf@[
            p0] == v.len() as u64 && spec_starts(buf@, p0 + 1, spec_enc_hpairs(v)) by {
            lemma_starts_split(buf@, p0, seq![v.len() as u64], spec_enc_hpairs(v));
            assert(buf@.subrange(p0, p0 + 1)[0] == buf@[p0]);
        }
    }
    if w > (usize::MAX as u64) {
        proof {
            assert forall|v: Seq<(i64, PropV)>|
                spec_fits_hist(v) && #[trigger] spec_starts(buf@, p0, spec_enc_hist(v))
                    implies false by {}
        }
        return None;
    }
    let n = w as usize;
    let mut out: Vec<(i64, crate::props::Prop)> = Vec::new();
    let mut i: usize = 0;
    proof {
        assert(crate::graph::spec_hist_view(out@) =~= Seq::<(i64, PropV)>::empty());
        assert forall|v: Seq<(i64, PropV)>|
            spec_fits_hist(v) && v.len() == n && #[trigger] spec_starts(
                buf@,
                p0 + 1,
                spec_enc_hpairs(v),
            ) implies (crate::graph::spec_hist_view(out@) == v.subrange(0, 0) && spec_starts(
            buf@,
            *pos as int,
            spec_enc_hpairs(v.subrange(0, n as int)),
        ) && *pos as int == p0 + 1 + spec_enc_hpairs(v).len() - spec_enc_hpairs(
            v.subrange(0, n as int),
        ).len()) by {
            assert(v.subrange(0, n as int) =~= v);
            assert(v.subrange(0, 0) =~= Seq::<(i64, PropV)>::empty());
        }
    }
    while i < n
        invariant
            0 <= i <= n,
            n == w,
            p0 < buf@.len(),
            buf@[p0] == w,
            *pos <= buf@.len(),
            p0 + 1 <= *pos as int,
            forall|v: Seq<(i64, PropV)>|
                spec_fits_hist(v) && v.len() == n && #[trigger] spec_starts(
                    buf@,
                    p0 + 1,
                    spec_enc_hpairs(v),
                ) ==> (crate::graph::spec_hist_view(out@) == v.subrange(0, i as int)
                    && spec_starts(
                    buf@,
                    *pos as int,
                    spec_enc_hpairs(v.subrange(i as int, n as int)),
                ) && *pos as int == p0 + 1 + spec_enc_hpairs(v).len() - spec_enc_hpairs(
                    v.subrange(i as int, n as int),
                ).len()),
        decreases n - i,
    {
        let ghost posi = *pos as int;
        let ghost outi = out@;
        let tw = match rd(buf, pos) {
            Some(tw) => tw,
            None => {
                proof {
                    assert forall|v: Seq<(i64, PropV)>|
                        spec_fits_hist(v) && v.len() == n && #[trigger] spec_starts(
                            buf@,
                            p0 + 1,
                            spec_enc_hpairs(v),
                        ) implies false by {
                        let sfx = v.subrange(i as int, n as int);
                        assert(spec_enc_hpairs(sfx) == seq![sfx[0].0 as u64] + spec_enc_prop(
                            sfx[0].1,
                        ) + spec_enc_hpairs(sfx.subrange(1, sfx.len() as int)));
                        lemma_starts_split(
                            buf@,
                            posi,
                            seq![sfx[0].0 as u64] + spec_enc_prop(sfx[0].1),
                            spec_enc_hpairs(sfx.subrange(1, sfx.len() as int)),
                        );
                        lemma_starts_split(buf@, posi, seq![sfx[0].0 as u64], spec_enc_prop(sfx[0].1));
                    }
                }
                return None;
            },
        };
        let t: i64 = #[verifier::truncate] (tw as i64);
        let p = match dec_prop(buf, pos) {
            Some(p) => p,
            None => {
                proof {
                    assert forall|v: Seq<(i64, PropV)>|
                        spec_fits_hist(v) && v.len() == n && #[trigger] spec_starts(
                            buf@,
                            p0 + 1,
                            spec_enc_hpairs(v),
                        ) implies false by {
                        let sfx = v.subrange(i as int, n as int);
                        assert(spec_enc_hpairs(sfx) == seq![sfx[0].0 as u64] + spec_enc_prop(
                            sfx[0].1,
                        ) + spec_enc_hpairs(sfx.subrange(1, sfx.len() as int)));
                        lemma_starts_split(
                            buf@,
                            posi,
                            seq![sfx[0].0 as u64] + spec_enc_prop(sfx[0].1),
                            spec_enc_hpairs(sfx.subrange(1, sfx.len() as int)),
                        );
                        lemma_starts_split(buf@, posi, seq![sfx[0].0 as u64], spec_enc_prop(sfx[0].1));
                        assert(spec_fits_prop(v[i as int].1));
                        assert(buf@.subrange(posi, posi + 1)[0] == buf@[posi]);
                    }
                }
                return None;
            },
        };
        out.push((t, p));
        proof {
            assert forall|v: Seq<(i64, PropV)>|
                spec_fits_hist(v) && v.len() == n && #[trigger] spec_starts(
                    buf@,
                    p0 + 1,
                    spec_enc_hpairs(v),
                ) implies (crate::graph::spec_hist_view(out@) == v.subrange(0, i as int + 1)
                && spec_starts(
                buf@,
                *pos as int,
                spec_enc_hpairs(v.subrange(i as int + 1, n as int)),
            ) && *pos as int == p0 + 1 + spec_enc_hpairs(v).len() - spec_enc_hpairs(
                v.subrange(i as int + 1, n as int),
            ).len()) by {
                let sfx = v.subrange(i as int, n as int);
                assert(spec_enc_hpairs(sfx) == seq![sfx[0].0 as u64] + spec_enc_prop(sfx[0].1)
                    + spec_enc_hpairs(sfx.subrange(1, sfx.len() as int)));
                lemma_starts_split(
                    buf@,
                    posi,
                    seq![sfx[0].0 as u64] + spec_enc_prop(sfx[0].1),
                    spec_enc_hpairs(sfx.subrange(1, sfx.len() as int)),
                );
                lemma_starts_split(buf@, posi, seq![sfx[0].0 as u64], spec_enc_prop(sfx[0].1));
                assert(spec_fits_prop(v[i as int].1));
                assert(buf@.subrange(posi, posi + 1)[0] == buf@[posi]);
                assert(tw == (sfx[0].0 as u64));
                let t0 = sfx[0].0;
                assert(t == t0) by (bit_vector)
                    requires
                        tw == (t0 as u64),
                        t == (tw as i64),
                ;
                assert(p@ == sfx[0].1);
                assert(sfx.subrange(1, sfx.len() as int) =~= v.subrange(i as int + 1, n as int));
                assert(crate::graph::spec_hist_view(outi) == v.subrange(0, i as int));
                assert(crate::graph::spec_hist_view(out@) =~= crate::graph::spec_hist_view(
                    outi,
                ).push((t, p@)));
                assert(v.subrange(0, i as int).push(v[i as int]) =~= v.subrange(0, i as int + 1));
            }
        }
        i = i + 1;
    }
    proof {
        assert forall|v: Seq<(i64, PropV)>|
            spec_fits_hist(v) && #[trigger] spec_starts(buf@, p0, spec_enc_hist(v))
                implies crate::graph::spec_hist_view(out@) == v && *pos as int == p0
                + spec_enc_hist(v).len() by {
            assert(v.len() == n);
            assert(v.subrange(0, n as int) =~= v);
            assert(v.subrange(n as int, n as int) =~= Seq::<(i64, PropV)>::empty());
            assert(spec_enc_hpairs(v.subrange(n as int, n as int)) =~= Seq::<u64>::empty());
        }
    }
    Some(out)
}


/// One step of a temporal-store suffix: its head entry's parts and the
/// remaining suffix all sit consecutively.
proof fn lemma_tpairs_step(
    buf: Seq<u64>,
    posi: int,
    v: Seq<(Seq<char>, Seq<(i64, PropV)>)>,
    i: int,
    n: int,
)
    requires
        spec_fits_tprops(v),
        v.len() == n,
        0 <= i < n,
        spec_starts(buf, posi, spec_enc_tpairs(v.subrange(i, n))),
    ensures
        spec_fits_str(v[i].0),
        spec_fits_hist(v[i].1),
        spec_starts(buf, posi, spec_enc_str(v[i].0)),
        spec_starts(buf, posi + spec_enc_str(v[i].0).len(), spec_enc_hist(v[i].1)),
        spec_starts(
            buf,
            posi + spec_enc_str(v[i].0).len() + spec_enc_hist(v[i].1).len(),
            spec_enc_tpairs(v.subrange(i + 1, n)),
        ),
        spec_enc_tpairs(v.subrange(i, n)).len() == spec_enc_str(v[i].0).len() + spec_enc_hist(
            v[i].1,
        ).len() + spec_enc_tpairs(v.subrange(i + 1, n)).len(),
{
    let sfx = v.subrange(i, n);
    assert(sfx[0] == v[i]);
    assert(spec_enc_tpairs(sfx) == spec_enc_str(sfx[0].0) + spec_enc_hist(sfx[0].1)
        + spec_enc_tpairs(sfx.subrange(1, sfx.len() as int)));
    lemma_starts_split(
        buf,
        posi,
        spec_enc_str(sfx[0].0) + spec_enc_hist(sfx[0].1),
        spec_enc_tpairs(sfx.subrange(1, sfx.len() as int)),
    );
    lemma_starts_split(buf, posi, spec_enc_str(sfx[0].0), spec_enc_hist(sfx[0].1));
    assert(sfx.subrange(1, sfx.len() as int) =~= v.subrange(i + 1, n));
}

/// Reads a temporal-property store.
#[verifier::rlimit(100)]
#[verifier::spinoff_prover]
fn dec_tprops(buf: &Vec<u64>, pos: &mut usize) -> (r: Option<
    Vec<(String, Vec<(i64, crate::props::Prop)>)>,
>)
    ensures
        r is Some ==> *old(pos) <= *final(pos) <= buf@.len(),
        r is None ==> *final(pos) >= *old(pos),
        forall|v: Seq<(Seq<char>, Seq<(i64, PropV)>)>|
            spec_fits_tprops(v) && #[trigger] spec_starts(
                buf@,
                *old(pos) as int,
                spec_enc_tprops(v),
            ) ==> r is Some && crate::graph::spec_tprops_view(r.unwrap()@) == v && (*final(
                pos)) as int == *old(pos) + spec_enc_tprops(v).len(),
{
    let ghost p0 = *pos as int;
    let w = match rd(buf, pos) {
        Some(w) => w,
        None => {
            proof {
                assert forall|v: Seq<(Seq<char>, Seq<(i64, PropV)>)>|
                    spec_fits_tprops(v) && #[trigger] spec_starts(buf@, p0, spec_enc_tprops(v))
                        implies false by {
                    assert(spec_enc_tprops(v).len() >= 1);
                }
            }
            return None;
        },
    };
    proof {
        assert forall|v: Seq<(Seq<char>, Seq<(i64, PropV)>)>|
            spec_fits_tprops(v) && #[trigger] spec_starts(buf@, p0, spec_enc_tprops(v))
                implies buf@[p0] == v.len() as u64 && spec_starts(
                buf@,
                p0 + 1,
                spec_enc_tpairs(v),
            ) by {
            lemma_starts_split(buf@, p0, seq![v.len() as u64], spec_enc_tpairs(v));
            assert(buf@.subrange(p0, p0 + 1)[0] == buf@[p0]);
        }
    }
    if w > (usize::MAX as u64) {
        proof {
            assert forall|v: Seq<(Seq<char>, Seq<(i64, PropV)>)>|
                spec_fits_tprops(v) && #[trigger] spec_starts(buf@, p0, spec_enc_tprops(v))
                    implies false by {}
        }
        return None;
    }
    let n = w as usize;
    let mut out: Vec<(String, Vec<(i64, crate::props::Prop)>)> = Vec::new();
    let mut i: usize = 0;
    proof {
        assert(crate::graph::spec_tprops_view(out@) =~= Seq::<
            (Seq<char>, Seq<(i64, PropV)>),
        >::empty());
        assert forall|v: Seq<(Seq<char>, Seq<(i64, PropV)>)>|
            spec_fits_tprops(v) && v.len() == n && #[trigger] spec_starts(
                buf@,
                p0 + 1,
                spec_enc_tpairs(v),
            ) implies (crate::graph::spec_tprops_view(out@) == v.subrange(0, 0) && spec_starts(
            buf@,
            *pos as int,
            spec_enc_tpairs(v.subrange(0, n as int)),
        ) && *pos as int == p0 + 1 + spec_enc_tpairs(v).len() - spec_enc_tpairs(
            v.subrange(0, n as int),
        ).len()) by {
            assert(v.subrange(0, n as int) =~= v);
            assert(v.subrange(0, 0) =~= Seq::<(Seq<char>, Seq<(i64, PropV)>)>::empty());
        }
    }
    while i < n
        invariant
            0 <= i <= n,
            n == w,
            p0 < buf@.len(),
            buf@[p0] == w,
            *pos <= buf@.len(),
            p0 + 1 <= *pos as int,
            forall|v: Seq<(Seq<char>, Seq<(i64, PropV)>)>|
                spec_fits_tprops(v) && v.len() == n && #[trigger] spec_starts(
                    buf@,
                    p0 + 1,
                    spec_enc_tpairs(v),
                ) ==> (crate::graph::spec_tprops_view(out@) == v.subrange(0, i as int)
                    && spec_starts(
                    buf@,
                    *pos as int,
                    spec_enc_tpairs(v.subrange(i as int, n as int)),
                ) && *pos as int == p0 + 1 + spec_enc_tpairs(v).len() - spec_enc_tpairs(
                    v.subrange(i as int, n as int),
                ).len()),
        decreases n - i,
    {
        let ghost posi = *pos as int;
        let ghost outi = out@;
        let s = match dec_str(buf, pos) {
            Some(s) => s,
            None => {
                proof {
                    assert forall|v: Seq<(Seq<char>, Seq<(i64, PropV)>)>|
                        spec_fits_tprops(v) && v.len() == n && #[trigger] spec_starts(
                            buf@,
                            p0 + 1,
                            spec_enc_tpairs(v),
                        ) implies false by {
                        lemma_tpairs_step(buf@, posi, v, i as int, n as int);
                    }
                }
                return None;
            },
        };
        let h = match dec_hist(buf, pos) {
            Some(h) => h,
            None => {
                proof {
                    assert forall|v: Seq<(Seq<char>, Seq<(i64, PropV)>)>|
                        spec_fits_tprops(v) && v.len() == n && #[trigger] spec_starts(
                            buf@,
                            p0 + 1,
                            spec_enc_tpairs(v),
                        ) implies false by {
                        lemma_tpairs_step(buf@, posi, v, i as int, n as int);
                        assert(s@ == v[i as int].0);
                    }
                }
                return None;
            },
        };
        out.push((s, h));
        proof {
            assert forall|v: Seq<(Seq<char>, Seq<(i64, PropV)>)>|
                spec_fits_tprops(v) && v.len() == n && #[trigger] spec_starts(
                    buf@,
                    p0 + 1,
                    spec_enc_tpairs(v),
                ) implies (crate::graph::spec_tprops_view(out@) == v.subrange(0, i as int + 1)
                && spec_starts(
                buf@,
                *pos as int,
                spec_enc_tpairs(v.subrange(i as int + 1, n as int)),
            ) && *pos as int == p0 + 1 + spec_enc_tpairs(v).len() - spec_enc_tpairs(
                v.subrange(i as int + 1, n as int),
            ).len()) by {
                lemma_tpairs_step(buf@, posi, v, i as int, n as int);
                assert(s@ == v[i as int].0);
                assert(crate::graph::spec_hist_view(h@) == v[i as int].1);
                assert(crate::graph::spec_tprops_view(outi) == v.subrange(0, i as int));
                assert(crate::graph::spec_tprops_view(out@) =~= crate::graph::spec_tprops_view(
                    outi,
                ).push((s@, crate::graph::spec_hist_view(h@))));
                assert(v.subrange(0, i as int).push(v[i as int]) =~= v.subrange(0, i as int + 1));
            }
        }
        i = i + 1;
    }
    proof {
        assert forall|v: Seq<(Seq<char>, Seq<(i64, PropV)>)>|
            spec_fits_tprops(v) && #[trigger] spec_starts(buf@, p0, spec_enc_tprops(v))
                implies crate::graph::spec_tprops_view(out@) == v && *pos as int == p0
                + spec_enc_tprops(v).len() by {
            assert(v.len() == n);
            assert(v.subrange(0, n as int) =~= v);
            assert(v.subrange(n as int, n as int) =~= Seq::<(Seq<char>, Seq<(i64, PropV)>)>::empty());
            assert(spec_enc_tpairs(v.subrange(n as int, n as int)) =~= Seq::<u64>::empty());
        }
    }
    Some(out)
}

/// Reads an external id.
fn dec_gid(buf: &Vec<u64>, pos: &mut usize) -> (r: Option<crate::graph::NodeId>)
    ensures
        r is Some ==> *old(pos) <= *final(pos) <= buf@.len(),
        r is None ==> *final(pos) >= *old(pos),
        forall|v: GidV|
            spec_fits_gid(v) && #[trigger] spec_starts(buf@, *old(pos) as int, spec_enc_gid(v))
                ==> r is Some && r.unwrap()@ == v && (*final(pos)) as int == *old(pos)
                + spec_enc_gid(v).len(),
{
    let ghost p0 = *pos as int;
    let tag = match rd(buf, pos) {
        Some(w) => w,
        None => {
            proof {
                assert forall|v: GidV|
                    spec_fits_gid(v) && #[trigger] spec_starts(buf@, p0, spec_enc_gid(v))
                        implies false by {
                    assert(spec_enc_gid(v).len() >= 1);
                }
            }
            return None;
        },
    };
    proof {
        assert forall|v: GidV|
            spec_fits_gid(v) && #[trigger] spec_starts(buf@, p0, spec_enc_gid(v)) implies buf@[p0]
            == spec_enc_gid(v)[0] by {
            assert(buf@.subrange(p0, p0 + spec_enc_gid(v).len())[0] == spec_enc_gid(v)[0]);
        }
    }
    if tag == 0 {
        let w = match rd(buf, pos) {
            Some(w) => w,
            None => {
                proof {
                    assert forall|v: GidV|
                        spec_fits_gid(v) && #[trigger] spec_starts(buf@, p0, spec_enc_gid(v))
                            implies false by {
                        assert(v is U64);
                        assert(spec_enc_gid(v).len() == 2);
                    }
                }
                return None;
            },
        };
        proof {
            assert forall|v: GidV|
                spec_fits_gid(v) && #[trigger] spec_starts(buf@, p0, spec_enc_gid(v)) implies v
                is U64 && w == v->U64_0 && *pos as int == p0 + 2 by {
                assert(buf@.subrange(p0, p0 + spec_enc_gid(v).len())[1] == spec_enc_gid(v)[1]);
            }
        }
        Some(crate::graph::NodeId::U64(w))
    } else if tag == 1 {
        let s = match dec_str(buf, pos) {
            Some(s) => s,
            None => {
                proof {
                    assert forall|v: GidV|
                        spec_fits_gid(v) && #[trigger] spec_starts(buf@, p0, spec_enc_gid(v))
                            implies false by {
                        assert(v is Name);
                        lemma_starts_split(buf@, p0, seq![1u64], spec_enc_str(v->Name_0));
                    }
                }
                return None;
            },
        };
        proof {
            assert forall|v: GidV|
                spec_fits_gid(v) && #[trigger] spec_starts(buf@, p0, spec_enc_gid(v)) implies v
                is Name && s@ == v->Name_0 && *pos as int == p0 + spec_enc_gid(v).len() by {
                lemma_starts_split(buf@, p0, seq![1u64], spec_enc_str(v->Name_0));
            }
        }
        Some(crate::graph::NodeId::Name(s))
    } else {
        proof {
            assert forall|v: GidV|
                spec_fits_gid(v) && #[trigger] spec_starts(buf@, p0, spec_enc_gid(v))
                    implies false by {}
        }
        None
    }
}

/// Reads one node record.
fn dec_node(buf: &Vec<u64>, pos: &mut usize) -> (r: Option<crate::graph::NodeRec>)
    ensures
        r is Some ==> *old(pos) <= *final(pos) <= buf@.len(),
        r is None ==> *final(pos) >= *old(pos),
        forall|v: NodeV|
            spec_fits_node(v) && #[trigger] spec_starts(buf@, *old(pos) as int, spec_enc_node(v))
                ==> r is Some && r.unwrap()@ == v && (*final(pos)) as int == *old(pos)
                + spec_enc_node(v).len(),
{
    let ghost p0 = *pos as int;
    proof {
        assert forall|v: NodeV|
            spec_fits_node(v) && #[trigger] spec_starts(buf@, p0, spec_enc_node(v))
                implies spec_starts(buf@, p0, spec_enc_gid(v.gid)) && spec_starts(
                buf@,
                p0 + spec_enc_gid(v.gid).len(),
                spec_enc_times(v.times),
            ) && spec_starts(
                buf@,
                p0 + spec_enc_gid(v.gid).len() + spec_enc_times(v.times).len(),
                spec_enc_cprops(v.cprops),
            ) && spec_starts(
                buf@,
                p0 + spec_enc_gid(v.gid).len() + spec_enc_times(v.times).len() + spec_enc_cprops(
                    v.cprops,
                ).len(),
                spec_enc_tprops(v.tprops),
            ) by {
            let a = spec_enc_gid(v.gid);
            let b = spec_enc_times(v.times);
            let c = spec_enc_cprops(v.cprops);
            let d = spec_enc_tprops(v.tprops);
            assert(spec_enc_node(v) =~= ((a + b) + c) + d);
            lemma_starts_split(buf@, p0, (a + b) + c, d);
            lemma_starts_split(buf@, p0, a + b, c);
            lemma_starts_split(buf@, p0, a, b);
        }
    }
    let gid = match dec_gid(buf, pos) {
        Some(g) => g,
        None => {
            return None;
        },
    };
    let times = match dec_times(buf, pos) {
        Some(t) => t,
        None => {
            return None;
        },
    };
    let cprops = match dec_cprops(buf, pos) {
        Some(c) => c,
        None => {
            return None;
        },
    };
    let tprops = match dec_tprops(buf, pos) {
        Some(t) => t,
        None => {
            return None;
        },
    };
    Some(crate::graph::NodeRec { gid, times, cprops, tprops })
}

/// Reads one edge record.
fn dec_edge(buf: &Vec<u64>, pos: &mut usize) -> (r: Option<crate::graph::EdgeRec>)
    ensures
        r is Some ==> *old(pos) <= *final(pos) <= buf@.len(),
        r is None ==> *final(pos) >= *old(pos),
        forall|v: EdgeV|
            spec_fits_edge(v) && #[trigger] spec_starts(buf@, *old(pos) as int, spec_enc_edge(v))
                ==> r is Some && r.unwrap()@ == v && (*final(pos)) as int == *old(pos)
                + spec_enc_edge(v).len(),
{
    let ghost p0 = *pos as int;
    proof {
        assert forall|v: EdgeV|
            spec_fits_edge(v) && #[trigger] spec_starts(buf@, p0, spec_enc_edge(v))
                implies buf@[p0] == v.src as u64 && buf@[p0 + 1] == v.dst as u64 && buf@[p0 + 2]
                == v.layer as u64 && spec_starts(buf@, p0 + 3, spec_enc_times(v.times))
                && spec_starts(
                buf@,
                p0 + 3 + spec_enc_times(v.times).len(),
                spec_enc_cprops(v.cprops),
            ) && spec_starts(
                buf@,
                p0 + 3 + spec_enc_times(v.times).len() + spec_enc_cprops(v.cprops).len(),
                spec_enc_tprops(v.tprops),
            ) by {
            let a = seq![v.src as u64, v.dst as u64, v.layer as u64];
            let b = spec_enc_times(v.times);
            let c = spec_enc_cprops(v.cprops);
            let d = spec_enc_tprops(v.tprops);
            assert(spec_enc_edge(v) =~= ((a + b) + c) + d);
            lemma_starts_split(buf@, p0, (a + b) + c, d);
            lemma_starts_split(buf@, p0, a + b, c);
            lemma_starts_split(buf@, p0, a, b);
            assert(buf@.subrange(p0, p0 + 3)[0] == buf@[p0]);
            assert(buf@.subrange(p0, p0 + 3)[1] == buf@[p0 + 1]);
            assert(buf@.subrange(p0, p0 + 3)[2] == buf@[p0 + 2]);
        }
    }
    let sw = match rd(buf, pos) {
        Some(w) => w,
        None => {
            return None;
        },
    };
    let dw = match rd(buf, pos) {
        Some(w) => w,
        None => {
            return None;
        },
    };
    let lw = match rd(buf, pos) {
        Some(w) => w,
        None => {
            return None;
        },
    };
    if sw > (usize::MAX as u64) || dw > (usize::MAX as u64) || lw > (usize::MAX as u64) {
        return None;
    }
    let times = match dec_times(buf, pos) {
        Some(t) => t,
        None => {
            return None;
        },
    };
    let cprops = match dec_cprops(buf, pos) {
        Some(c) => c,
        None => {
            return None;
        },
    };
    let tprops = match dec_tprops(buf, pos) {
        Some(t) => t,
        None => {
            return None;
        },
    };
    Some(
        crate::graph::EdgeRec {
            src: sw as usize,
            dst: dw as usize,
            layer: lw as usize,
            times,
            cprops,
            tprops,
        },
    )
}

// ---------------------------------------------------------------------------
// Executable well-formedness checking, for freshly decoded stores.
// ---------------------------------------------------------------------------

proof fn lemma_adjacent_sorted(s: Seq<i64>)
    requires
        forall|q: int| 0 <= q < s.len() - 1 ==> #[trigger] s[q] < s[q + 1],
    ensures
        crate::graph::spec_sorted(s),
{
    assert forall|i: int, j: int| 0 <= i < j < s.len() implies s[i] < s[j] by {
        lemma_chain_lt(s, i, j);
    }
}

proof fn lemma_chain_lt(s: Seq<i64>, i: int, j: int)
    requires
        forall|q: int| 0 <= q < s.len() - 1 ==> #[trigger] s[q] < s[q + 1],
        0 <= i < j < s.len(),
    ensures
        s[i] < s[j],
    decreases j - i,
{
    if j == i + 1 {
    } else {
        lemma_chain_lt(s, i, j - 1);
        assert(s[j - 1] < s[j]);
    }
}

/// Whether an event list is strictly ascending.
fn check_sorted(v: &Vec<i64>) -> (r: bool)
    ensures
        r == crate::graph::spec_sorted(v@),
{
    let n = v.len();
    let mut q: usize = 0;
    while n > 0 && q < n - 1
        invariant
            0 <= q <= n,
            n == v@.len(),
            forall|b: int| 0 <= b < q ==> #[trigger] v@[b] < v@[b + 1],
        decreases n - q,
    {
        if v[q] >= v[q + 1] {
            proof {
                assert(!crate::graph::spec_sorted(v@));
            }
            return false;
        }
        q = q + 1;
    }
    proof {
        lemma_adjacent_sorted(v@);
    }
    true
}

/// Whether a history's times are strictly ascending.
fn check_hist_sorted(h: &Vec<(i64, crate::props::Prop)>) -> (r: bool)
    ensures
        r == crate::graph::spec_hist_sorted(crate::graph::spec_hist_view(h@)),
{
    let ghost hv = crate::graph::spec_hist_view(h@);
    let n = h.len();
    let mut q: usize = 0;
    while n > 0 && q < n - 1
        invariant
            0 <= q <= n,
            n == h@.len(),
            hv == crate::graph::spec_hist_view(h@),
            forall|b: int| 0 <= b < q ==> (#[trigger] hv[b]).0 < hv[b + 1].0,
        decreases n - q,
    {
        if h[q].0 >= h[q + 1].0 {
            proof {
                assert(hv[q as int].0 >= hv[q as int + 1].0);
            }
            return false;
        }
        q = q + 1;
    }
    proof {
        let times = hv.map_values(|p: (i64, PropV)| p.0);
        assert forall|i: int, j: int| 0 <= i < j < hv.len() implies hv[i].0 < hv[j].0 by {
            assert(forall|b: int| 0 <= b < times.len() - 1 ==> #[trigger] times[b] < times[b + 1]);
            lemma_chain_lt(times, i, j);
        }
    }
    true
}

/// Whether the names of a constant store are pairwise distinct.
fn check_ckeys_unique(cp: &Vec<(String, crate::props::Prop)>) -> (r: bool)
    ensures
        r == crate::graph::spec_keys_unique(crate::graph::spec_cprops_view(cp@)),
{
    let ghost cv = crate::graph::spec_cprops_view(cp@);
    let n = cp.len();
    let mut i: usize = 0;
    while i < n
        invariant
            0 <= i <= n,
            n == cp@.len(),
            cv == crate::graph::spec_cprops_view(cp@),
            forall|a: int, b: int| 0 <= a < b < n && a < i ==> cv[a].0 != cv[b].0,
        decreases n - i,
    {
        let mut j = i + 1;
        while j < n
            invariant
                i < j <= n || (i + 1 == j && j > n),
                i < n,
                n == cp@.len(),
                cv == crate::graph::spec_cprops_view(cp@),
                forall|b: int| i < b < j ==> cv[i as int].0 != cv[b].0,
            decreases n - j,
        {
            if cp[i].0.eq(&cp[j].0) {
                proof {
                    assert(cv[i as int].0 == cv[j as int].0);
                }
                return false;
            }
            j = j + 1;
        }
        i = i + 1;
    }
    true
}

/// Whether the names of a temporal store are pairwise distinct and every
/// history is strictly time-ordered.
fn check_tstore_wf(tp: &Vec<(String, Vec<(i64, crate::props::Prop)>)>) -> (r: bool)
    ensures
        r == crate::graph::spec_tstore_wf(crate::graph::spec_tprops_view(tp@)),
{
    let ghost tv = crate::graph::spec_tprops_view(tp@);
    let n = tp.len();
    let mut i: usize = 0;
    while i < n
        invariant
            0 <= i <= n,
            n == tp@.len(),
            tv == crate::graph::spec_tprops_view(tp@),
            forall|a: int, b: int| 0 <= a < b < n && a < i ==> tv[a].0 != tv[b].0,
            forall|a: int| 0 <= a < i ==> crate::graph::spec_hist_sorted(#[trigger] tv[a].1),
        decreases n - i,
    {
        if !check_hist_sorted(&tp[i].1) {
            proof {
                assert(!crate::graph::spec_hist_sorted(tv[i as int].1));
            }
            return false;
        }
        let mut j = i + 1;
        while j < n
            invariant
                i < j <= n || (i + 1 == j && j > n),
                i < n,
                n == tp@.len(),
                tv == crate::graph::spec_tprops_view(tp@),
                forall|b: int| i < b < j ==> tv[i as int].0 != tv[b].0,
            decreases n - j,
        {
            if tp[i].0.eq(&tp[j].0) {
                proof {
                    assert(tv[i as int].0 == tv[j as int].0);
                }
                return false;
            }
            j = j + 1;
        }
        i = i + 1;
    }
    true
}

/// Whether a freshly built store is well formed, executably.
fn check_graph_wf(g: &Graph) -> (r: bool)
    ensures
        r == g.wf(),
{
    let nl = g.layers.len();
    if nl == 0 {
        return false;
    }
    if !g.layers[0].eq(&String::from_str("_default")) {
        proof {
            assert(g@.layers[0] != crate::graph::spec_default_layer());
        }
        return false;
    }
    let mut i: usize = 0;
    while i < nl
        invariant
            0 <= i <= nl,
            nl == g.layers@.len(),
            forall|a: int, b: int| 0 <= a < b < nl && a < i ==> g@.layers[a] != g@.layers[b],
        decreases nl - i,
    {
        let mut j = i + 1;
        while j < nl
            invariant
                i < j <= nl || (i + 1 == j && j > nl),
                i < nl,
                nl == g.layers@.len(),
                forall|b: int| i < b < j ==> g@.layers[i as int] != g@.layers[b],
            decreases nl - j,
        {
            if g.layers[i].eq(&g.layers[j]) {
                proof {
                    assert(g@.layers[i as int] == g@.layers[j as int]);
                    assert(!g.wf());
                }
                return false;
            }
            j = j + 1;
        }
        i = i + 1;
    }
    let nn = g.nodes.len();
    let mut i: usize = 0;
    while i < nn
        invariant
            0 <= i <= nn,
            nn == g.nodes@.len(),
            forall|a: int| 0 <= a < i ==> crate::graph::spec_node_wf(#[trigger] g@.nodes[a]),
            forall|a: int, b: int|
                0 <= a < b < nn && a < i ==> g@.nodes[a].gid != g@.nodes[b].gid,
        decreases nn - i,
    {
        let node = &g.nodes[i];
        if !check_sorted(&node.times) {
            proof {
                assert(!crate::graph::spec_node_wf(g@.nodes[i as int]));
            }
            return false;
        }
        if !check_ckeys_unique(&node.cprops) {
            proof {
                assert(!crate::graph::spec_node_wf(g@.nodes[i as int]));
            }
            return false;
        }
        if !check_tstore_wf(&node.tprops) {
            proof {
                assert(!crate::graph::spec_node_wf(g@.nodes[i as int]));
            }
            return false;
        }
        let canon_ok = match &node.gid {
            crate::graph::NodeId::U64(_) => true,
            crate::graph::NodeId::Name(s) => crate::graph::digits_value(s.as_str()).is_none(),
        };
        if !canon_ok {
            proof {
                assert(g@.nodes[i as int].gid != crate::graph::spec_canon_gid(
                    g@.nodes[i as int].gid,
                ));
                assert(!crate::graph::spec_node_wf(g@.nodes[i as int]));
            }
            return false;
        }
        proof {
            assert(crate::graph::spec_node_wf(g@.nodes[i as int]));
        }
        let mut j = i + 1;
        while j < nn
            invariant
                i < j <= nn || (i + 1 == j && j > nn),
                i < nn,
                nn == g.nodes@.len(),
                forall|b: int| i < b < j ==> g@.nodes[i as int].gid != g@.nodes[b].gid,
            decreases nn - j,
        {
            if g.nodes[i].gid.id_eq(&g.nodes[j].gid) {
                proof {
                    assert(g@.nodes[i as int].gid == g@.nodes[j as int].gid);
                    assert(!g.wf());
                }
                return false;
            }
            j = j + 1;
        }
        i = i + 1;
    }
    let ne = g.edges.len();
    let mut i: usize = 0;
    while i < ne
        invariant
            0 <= i <= ne,
            ne == g.edges@.len(),
            nn == g.nodes@.len(),
            nl == g.layers@.len(),
            forall|a: int|
                0 <= a < i ==> crate::graph::spec_edge_wf(
                    #[trigger] g@.edges[a],
                    nn as int,
                    nl as int,
                ),
            forall|a: int, b: int|
                0 <= a < b < ne && a < i ==> !(g@.edges[a].src == g@.edges[b].src
                    && g@.edges[a].dst == g@.edges[b].dst && g@.edges[a].layer
                    == g@.edges[b].layer),
        decreases ne - i,
    {
        let e = &g.edges[i];
        if e.src >= nn || e.dst >= nn || e.layer >= nl || e.times.len() == 0 {
            proof {
                assert(!crate::graph::spec_edge_wf(g@.edges[i as int], nn as int, nl as int));
            }
            return false;
        }
        if !check_sorted(&e.times) {
            proof {
                assert(!crate::graph::spec_edge_wf(g@.edges[i as int], nn as int, nl as int));
            }
            return false;
        }
        if !check_ckeys_unique(&e.cprops) {
            proof {
                assert(!crate::graph::spec_edge_wf(g@.edges[i as int], nn as int, nl as int));
            }
            return false;
        }
        if !check_tstore_wf(&e.tprops) {
            proof {
                assert(!crate::graph::spec_edge_wf(g@.edges[i as int], nn as int, nl as int));
            }
            return false;
        }
        proof {
            assert(crate::graph::spec_edge_wf(g@.edges[i as int], nn as int, nl as int));
        }
        let mut j = i + 1;
        while j < ne
            invariant
                i < j <= ne || (i + 1 == j && j > ne),
                i < ne,
                ne == g.edges@.len(),
                forall|b: int|
                    i < b < j ==> !(g@.edges[i as int].src == g@.edges[b].src
                        && g@.edges[i as int].dst == g@.edges[b].dst && g@.edges[i as int].layer
                        == g@.edges[b].layer),
            decreases ne - j,
        {
            let e2 = &g.edges[j];
            if e.src == e2.src && e.dst == e2.dst && e.layer == e2.layer {
                proof {
                    assert(g@.edges[i as int].src == g@.edges[j as int].src
                        && g@.edges[i as int].dst == g@.edges[j as int].dst
                        && g@.edges[i as int].layer == g@.edges[j as int].layer);
                    assert(!g.wf());
                }
                return false;
            }
            j = j + 1;
        }
        i = i + 1;
    }
    if !check_ckeys_unique(&g.gcprops) {
        return false;
    }
    if !check_tstore_wf(&g.gtprops) {
        return false;
    }
    true
}

/// The consecutive sections of a whole-store encoding.
proof fn lemma_graph_sections(buf: Seq<u64>, gv: GraphV)
    requires
        buf == spec_enc_graph(gv),
    ensures
        ({
            let o1: int = 1 + spec_enc_nodes(gv.nodes).len() as int;
            let o2: int = o1 + 1 + spec_enc_edges(gv.edges).len();
            let o3: int = o2 + 1 + spec_enc_strs(gv.layers).len();
            let o4: int = o3 + spec_enc_cprops(gv.gcprops).len();
            &&& buf.len() >= 1
            &&& buf[0] == gv.nodes.len() as u64
            &&& spec_starts(buf, 1, spec_enc_nodes(gv.nodes))
            &&& o1 < buf.len()
            &&& buf[o1] == gv.edges.len() as u64
            &&& spec_starts(buf, o1 + 1, spec_enc_edges(gv.edges))
            &&& o2 < buf.len()
            &&& buf[o2] == gv.layers.len() as u64
            &&& spec_starts(buf, o2 + 1, spec_enc_strs(gv.layers))
            &&& spec_starts(buf, o3, spec_enc_cprops(gv.gcprops))
            &&& spec_starts(buf, o4, spec_enc_tprops(gv.gtprops))
            &&& buf.len() == o4 + spec_enc_tprops(gv.gtprops).len()
        }),
{
    let c1 = seq![gv.nodes.len() as u64];
    let sn = spec_enc_nodes(gv.nodes);
    let c2 = seq![gv.edges.len() as u64];
    let se = spec_enc_edges(gv.edges);
    let c3 = seq![gv.layers.len() as u64];
    let sl = spec_enc_strs(gv.layers);
    let gc = spec_enc_cprops(gv.gcprops);
    let gt = spec_enc_tprops(gv.gtprops);
    assert(buf =~= (((((((c1 + sn) + c2) + se) + c3) + sl) + gc) + gt));
    assert(buf.subrange(0, buf.len() as int) =~= buf);
    assert(spec_starts(buf, 0, buf));
    lemma_starts_split(buf, 0, ((((((c1 + sn) + c2) + se) + c3) + sl) + gc), gt);
    lemma_starts_split(buf, 0, (((((c1 + sn) + c2) + se) + c3) + sl), gc);
    lemma_starts_split(buf, 0, ((((c1 + sn) + c2) + se) + c3), sl);
    lemma_starts_split(buf, 0, (((c1 + sn) + c2) + se), c3);
    lemma_starts_split(buf, 0, ((c1 + sn) + c2), se);
    lemma_starts_split(buf, 0, (c1 + sn), c2);
    lemma_starts_split(buf, 0, c1, sn);
    assert(buf.subrange(0, 1)[0] == buf[0]);
    let o1: int = 1 + sn.len() as int;
    assert(buf.subrange(o1, o1 + 1)[0] == buf[o1]);
    let o2: int = o1 + 1 + se.len();
    assert(buf.subrange(o2, o2 + 1)[0] == buf[o2]);
}

/// One step of a node-list suffix.
proof fn lemma_nodes_step(buf: Seq<u64>, posi: int, v: Seq<NodeV>, i: int, n: int)
    requires
        forall|q: int| 0 <= q < v.len() ==> spec_fits_node(#[trigger] v[q]),
        v.len() == n,
        0 <= i < n,
        spec_starts(buf, posi, spec_enc_nodes(v.subrange(i, n))),
    ensures
        spec_fits_node(v[i]),
        spec_starts(buf, posi, spec_enc_node(v[i])),
        spec_starts(buf, posi + spec_enc_node(v[i]).len(), spec_enc_nodes(v.subrange(i + 1, n))),
        spec_enc_nodes(v.subrange(i, n)).len() == spec_enc_node(v[i]).len() + spec_enc_nodes(
            v.subrange(i + 1, n),
        ).len(),
{
    let sfx = v.subrange(i, n);
    assert(sfx[0] == v[i]);
    assert(spec_enc_nodes(sfx) == spec_enc_node(sfx[0]) + spec_enc_nodes(
        sfx.subrange(1, sfx.len() as int),
    ));
    lemma_starts_split(buf, posi, spec_enc_node(sfx[0]), spec_enc_nodes(sfx.subrange(1, sfx.len() as int)));
    assert(sfx.subrange(1, sfx.len() as int) =~= v.subrange(i + 1, n));
}

/// One step of an edge-list suffix.
proof fn lemma_edges_step(buf: Seq<u64>, posi: int, v: Seq<EdgeV>, i: int, n: int)
    requires
        forall|q: int| 0 <= q < v.len() ==> spec_fits_edge(#[trigger] v[q]),
        v.len() == n,
        0 <= i < n,
        spec_starts(buf, posi, spec_enc_edges(v.subrange(i, n))),
    ensures
        spec_fits_edge(v[i]),
        spec_starts(buf, posi, spec_enc_edge(v[i])),
        spec_starts(buf, posi + spec_enc_edge(v[i]).len(), spec_enc_edges(v.subrange(i + 1, n))),
        spec_enc_edges(v.subrange(i, n)).len() == spec_enc_edge(v[i]).len() + spec_enc_edges(
            v.subrange(i + 1, n),
        ).len(),
{
    let sfx = v.subrange(i, n);
    assert(sfx[0] == v[i]);
    assert(spec_enc_edges(sfx) == spec_enc_edge(sfx[0]) + spec_enc_edges(
        sfx.subrange(1, sfx.len() as int),
    ));
    lemma_starts_split(buf, posi, spec_enc_edge(sfx[0]), spec_enc_edges(sfx.subrange(1, sfx.len() as int)));
    assert(sfx.subrange(1, sfx.len() as int) =~= v.subrange(i + 1, n));
}

/// One step of a name-list suffix.
proof fn lemma_strs_step(buf: Seq<u64>, posi: int, v: Seq<Seq<char>>, i: int, n: int)
    requires
        forall|q: int| 0 <= q < v.len() ==> spec_fits_str(#[trigger] v[q]),
        v.len() == n,
        0 <= i < n,
        spec_starts(buf, posi, spec_enc_strs(v.subrange(i, n))),
    ensures
        spec_fits_str(v[i]),
        spec_starts(buf, posi, spec_enc_str(v[i])),
        spec_starts(buf, posi + spec_enc_str(v[i]).len(), spec_enc_strs(v.subrange(i + 1, n))),
        spec_enc_strs(v.subrange(i, n)).len() == spec_enc_str(v[i]).len() + spec_enc_strs(
            v.subrange(i + 1, n),
        ).len(),
{
    let sfx = v.subrange(i, n);
    assert(sfx[0] == v[i]);
    assert(spec_enc_strs(sfx) == spec_enc_str(sfx[0]) + spec_enc_strs(
        sfx.subrange(1, sfx.len() as int),
    ));
    lemma_starts_split(buf, posi, spec_enc_str(sfx[0]), spec_enc_strs(sfx.subrange(1, sfx.len() as int)));
    assert(sfx.subrange(1, sfx.len() as int) =~= v.subrange(i + 1, n));
}

impl Graph {
    /// Reads a snapshot back. Any encoding of a well-formed store decodes
    /// to a store with exactly the encoded value; anything else is
    /// rejected or yields a store that still passed the well-formedness
    /// check.
    #[verifier::rlimit(100)]
    #[verifier::spinoff_prover]
    pub fn decode(buf: &Vec<u64>) -> (r: Result<Graph, crate::GraphError>)
        ensures
            r is Ok ==> r.unwrap().wf(),
            forall|gv: GraphV|
                spec_graph_wf(gv) && spec_fits_graph(gv) && buf@ == #[trigger] spec_enc_graph(gv)
                    ==> r is Ok && r.unwrap()@ == gv,
    {
        let mut pos: usize = 0;
        let w0 = match rd(buf, &mut pos) {
            Some(w) => w,
            None => {
                proof {
                    assert forall|gv: GraphV|
                        spec_graph_wf(gv) && spec_fits_graph(gv) && buf@ == #[trigger] spec_enc_graph(gv)
                            implies false by {
                        lemma_graph_sections(buf@, gv);
                    }
                }
                return Err(crate::GraphError::GraphLoadError);
            },
        };
        if w0 > (usize::MAX as u64) {
            proof {
                assert forall|gv: GraphV|
                    spec_graph_wf(gv) && spec_fits_graph(gv) && buf@ == #[trigger] spec_enc_graph(gv)
                        implies false by {
                    lemma_graph_sections(buf@, gv);
                }
            }
            return Err(crate::GraphError::GraphLoadError);
        }
        let nn = w0 as usize;
        let mut nodes: Vec<crate::graph::NodeRec> = Vec::new();
        let mut i: usize = 0;
        proof {
            assert forall|gv: GraphV|
                spec_graph_wf(gv) && spec_fits_graph(gv) && buf@ == #[trigger] spec_enc_graph(gv)
                    implies (gv.nodes.len() == nn && nodes@.map_values(
                    |x: crate::graph::NodeRec| x@,
                ) =~= gv.nodes.subrange(0, 0) && spec_starts(
                    buf@,
                    pos as int,
                    spec_enc_nodes(gv.nodes.subrange(0, nn as int)),
                ) && pos as int == 1 + spec_enc_nodes(gv.nodes).len() - spec_enc_nodes(
                    gv.nodes.subrange(0, nn as int),
                ).len()) by {
                lemma_graph_sections(buf@, gv);
                assert(gv.nodes.subrange(0, gv.nodes.len() as int) =~= gv.nodes);
            }
        }
        while i < nn
            invariant
                0 <= i <= nn,
                pos <= buf@.len(),
                forall|gv: GraphV|
                    spec_graph_wf(gv) && spec_fits_graph(gv) && buf@ == #[trigger] spec_enc_graph(
                        gv,
                    ) ==> (gv.nodes.len() == nn && nodes@.map_values(
                        |x: crate::graph::NodeRec| x@,
                    ) == gv.nodes.subrange(0, i as int) && spec_starts(
                        buf@,
                        pos as int,
                        spec_enc_nodes(gv.nodes.subrange(i as int, nn as int)),
                    ) && pos as int == 1 + spec_enc_nodes(gv.nodes).len() - spec_enc_nodes(
                        gv.nodes.subrange(i as int, nn as int),
                    ).len()),
            decreases nn - i,
        {
            let ghost posi = pos as int;
            let ghost nodesi = nodes@;
            let nrec = match dec_node(buf, &mut pos) {
                Some(n) => n,
                None => {
                    proof {
                        assert forall|gv: GraphV|
                            spec_graph_wf(gv) && spec_fits_graph(gv) && buf@
                                == #[trigger] spec_enc_graph(gv) implies false by {
                            lemma_nodes_step(buf@, posi, gv.nodes, i as int, nn as int);
                        }
                    }
                    return Err(crate::GraphError::GraphLoadError);
                },
            };
            nodes.push(nrec);
            proof {
                assert forall|gv: GraphV|
                    spec_graph_wf(gv) && spec_fits_graph(gv) && buf@ == #[trigger] spec_enc_graph(
                        gv,
                    ) implies (nodes@.map_values(|x: crate::graph::NodeRec| x@) == gv.nodes.subrange(
                    0,
                    i as int + 1,
                ) && spec_starts(
                    buf@,
                    pos as int,
                    spec_enc_nodes(gv.nodes.subrange(i as int + 1, nn as int)),
                ) && pos as int == 1 + spec_enc_nodes(gv.nodes).len() - spec_enc_nodes(
                    gv.nodes.subrange(i as int + 1, nn as int),
                ).len()) by {
                    lemma_nodes_step(buf@, posi, gv.nodes, i as int, nn as int);
                    assert(nodesi.map_values(|x: crate::graph::NodeRec| x@) == gv.nodes.subrange(
                        0,
                        i as int,
                    ));
                    assert(nodes@.map_values(|x: crate::graph::NodeRec| x@) =~= nodesi.map_values(
                        |x: crate::graph::NodeRec| x@,
                    ).push(nrec@));
                    assert(gv.nodes.subrange(0, i as int).push(gv.nodes[i as int])
                        =~= gv.nodes.subrange(0, i as int + 1));
                }
            }
            i = i + 1;
        }
        proof {
            assert forall|gv: GraphV|
                spec_graph_wf(gv) && spec_fits_graph(gv) && buf@ == #[trigger] spec_enc_graph(gv)
                    implies (nodes@.map_values(|x: crate::graph::NodeRec| x@) == gv.nodes
                    && pos as int == 1 + spec_enc_nodes(gv.nodes).len()) by {
                assert(gv.nodes.subrange(0, nn as int) =~= gv.nodes);
                assert(gv.nodes.subrange(nn as int, nn as int) =~= Seq::<NodeV>::empty());
                assert(spec_enc_nodes(gv.nodes.subrange(nn as int, nn as int)) =~= Seq::<
                    u64,
                >::empty());
            }
        }
        let w1 = match rd(buf, &mut pos) {
            Some(w) => w,
            None => {
                proof {
                    assert forall|gv: GraphV|
                        spec_graph_wf(gv) && spec_fits_graph(gv) && buf@
                            == #[trigger] spec_enc_graph(gv) implies false by {
                        lemma_graph_sections(buf@, gv);
                    }
                }
                return Err(crate::GraphError::GraphLoadError);
            },
        };
        if w1 > (usize::MAX as u64) {
            proof {
                assert forall|gv: GraphV|
                    spec_graph_wf(gv) && spec_fits_graph(gv) && buf@ == #[trigger] spec_enc_graph(gv)
                        implies false by {
                    lemma_graph_sections(buf@, gv);
                }
            }
            return Err(crate::GraphError::GraphLoadError);
        }
        let ne = w1 as usize;
        let mut edges: Vec<crate::graph::EdgeRec> = Vec::new();
        let mut i: usize = 0;
        proof {
            assert forall|gv: GraphV|
                spec_graph_wf(gv) && spec_fits_graph(gv) && buf@ == #[trigger] spec_enc_graph(gv)
                    implies (gv.edges.len() == ne && edges@.map_values(
                    |x: crate::graph::EdgeRec| x@,
                ) =~= gv.edges.subrange(0, 0) && spec_starts(
                    buf@,
                    pos as int,
                    spec_enc_edges(gv.edges.subrange(0, ne as int)),
                ) && pos as int == 2 + spec_enc_nodes(gv.nodes).len() + spec_enc_edges(
                    gv.edges,
                ).len() - spec_enc_edges(gv.edges.subrange(0, ne as int)).len()) by {
                lemma_graph_sections(buf@, gv);
                assert(gv.edges.subrange(0, gv.edges.len() as int) =~= gv.edges);
            }
        }
        while i < ne
            invariant
                0 <= i <= ne,
                pos <= buf@.len(),
                forall|gv: GraphV|
                    spec_graph_wf(gv) && spec_fits_graph(gv) && buf@ == #[trigger] spec_enc_graph(
                        gv,
                    ) ==> (gv.edges.len() == ne && edges@.map_values(
                        |x: crate::graph::EdgeRec| x@,
                    ) == gv.edges.subrange(0, i as int) && spec_starts(
                        buf@,
                        pos as int,
                        spec_enc_edges(gv.edges.subrange(i as int, ne as int)),
                    ) && pos as int == 2 + spec_enc_nodes(gv.nodes).len() + spec_enc_edges(
                        gv.edges,
                    ).len() - spec_enc_edges(gv.edges.subrange(i as int, ne as int)).len()),
            decreases ne - i,
        {
            let ghost posi = pos as int;
            let ghost edgesi = edges@;
            let erec = match dec_edge(buf, &mut pos) {
                Some(e) => e,
                None => {
                    proof {
                        assert forall|gv: GraphV|
                            spec_graph_wf(gv) && spec_fits_graph(gv) && buf@
                                == #[trigger] spec_enc_graph(gv) implies false by {
                            lemma_edges_step(buf@, posi, gv.edges, i as int, ne as int);
                        }
                    }
                    return Err(crate::GraphError::GraphLoadError);
                },
            };
            edges.push(erec);
            proof {
                assert forall|gv: GraphV|
                    spec_graph_wf(gv) && spec_fits_graph(gv) && buf@ == #[trigger] spec_enc_graph(
                        gv,
                    ) implies (edges@.map_values(|x: crate::graph::EdgeRec| x@) == gv.edges.subrange(
                    0,
                    i as int + 1,
                ) && spec_starts(
                    buf@,
                    pos as int,
                    spec_enc_edges(gv.edges.subrange(i as int + 1, ne as int)),
                ) && pos as int == 2 + spec_enc_nodes(gv.nodes).len() + spec_enc_edges(
                    gv.edges,
                ).len() - spec_enc_edges(gv.edges.subrange(i as int + 1, ne as int)).len()) by {
                    lemma_edges_step(buf@, posi, gv.edges, i as int, ne as int);
                    assert(edgesi.map_values(|x: crate::graph::EdgeRec| x@) == gv.edges.subrange(
                        0,
                        i as int,
                    ));
                    assert(edges@.map_values(|x: crate::graph::EdgeRec| x@) =~= edgesi.map_values(
                        |x: crate::graph::EdgeRec| x@,
                    ).push(erec@));
                    assert(gv.edges.subrange(0, i as int).push(gv.edges[i as int])
                        =~= gv.edges.subrange(0, i as int + 1));
                }
            }
            i = i + 1;
        }
        proof {
            assert forall|gv: GraphV|
                spec_graph_wf(gv) && spec_fits_graph(gv) && buf@ == #[trigger] spec_enc_graph(gv)
                    implies (edges@.map_values(|x: crate::graph::EdgeRec| x@) == gv.edges
                    && pos as int == 2 + spec_enc_nodes(gv.nodes).len() + spec_enc_edges(
                    gv.edges,
                ).len()) by {
                assert(gv.edges.subrange(0, ne as int) =~= gv.edges);
                assert(gv.edges.subrange(ne as int, ne as int) =~= Seq::<EdgeV>::empty());
                assert(spec_enc_edges(gv.edges.subrange(ne as int, ne as int)) =~= Seq::<
                    u64,
                >::empty());
            }
        }
        let w2 = match rd(buf, &mut pos) {
            Some(w) => w,
            None => {
                proof {
                    assert forall|gv: GraphV|
                        spec_graph_wf(gv) && spec_fits_graph(gv) && buf@
                            == #[trigger] spec_enc_graph(gv) implies false by {
                        lemma_graph_sections(buf@, gv);
                    }
                }
                return Err(crate::GraphError::GraphLoadError);
            },
        };
        if w2 > (usize::MAX as u64) {
            proof {
                assert forall|gv: GraphV|
                    spec_graph_wf(gv) && spec_fits_graph(gv) && buf@ == #[trigger] spec_enc_graph(gv)
                        implies false by {
                    lemma_graph_sections(buf@, gv);
                }
            }
            return Err(crate::GraphError::GraphLoadError);
        }
        let nl = w2 as usize;
        let mut layers: Vec<String> = Vec::new();
        let mut i: usize = 0;
        proof {
            assert forall|gv: GraphV|
                spec_graph_wf(gv) && spec_fits_graph(gv) && buf@ == #[trigger] spec_enc_graph(gv)
                    implies (gv.layers.len() == nl && layers@.map_values(|x: String| x@)
                    =~= gv.layers.subrange(0, 0) && spec_starts(
                    buf@,
                    pos as int,
                    spec_enc_strs(gv.layers.subrange(0, nl as int)),
                ) && pos as int == 3 + spec_enc_nodes(gv.nodes).len() + spec_enc_edges(
                    gv.edges,
                ).len() + spec_enc_strs(gv.layers).len() - spec_enc_strs(
                    gv.layers.subrange(0, nl as int),
                ).len()) by {
                lemma_graph_sections(buf@, gv);
                assert(gv.layers.subrange(0, gv.layers.len() as int) =~= gv.layers);
            }
        }
        while i < nl
            invariant
                0 <= i <= nl,
                pos <= buf@.len(),
                forall|gv: GraphV|
                    spec_graph_wf(gv) && spec_fits_graph(gv) && buf@ == #[trigger] spec_enc_graph(
                        gv,
                    ) ==> (gv.layers.len() == nl && layers@.map_values(|x: String| x@)
                        == gv.layers.subrange(0, i as int) && spec_starts(
                        buf@,
                        pos as int,
                        spec_enc_strs(gv.layers.subrange(i as int, nl as int)),
                    ) && pos as int == 3 + spec_enc_nodes(gv.nodes).len() + spec_enc_edges(
                        gv.edges,
                    ).len() + spec_enc_strs(gv.layers).len() - spec_enc_strs(
                        gv.layers.subrange(i as int, nl as int),
                    ).len()),
            decreases nl - i,
        {
            let ghost posi = pos as int;
            let ghost layersi = layers@;
            let srec = match dec_str(buf, &mut pos) {
                Some(s) => s,
                None => {
                    proof {
                        assert forall|gv: GraphV|
                            spec_graph_wf(gv) && spec_fits_graph(gv) && buf@
                                == #[trigger] spec_enc_graph(gv) implies false by {
                            lemma_strs_step(buf@, posi, gv.layers, i as int, nl as int);
                        }
                    }
                    return Err(crate::GraphError::GraphLoadError);
                },
            };
            layers.push(srec);
            proof {
                assert forall|gv: GraphV|
                    spec_graph_wf(gv) && spec_fits_graph(gv) && buf@ == #[trigger] spec_enc_graph(
                        gv,
                    ) implies (layers@.map_values(|x: String| x@) == gv.layers.subrange(
                    0,
                    i as int + 1,
                ) && spec_starts(
                    buf@,
                    pos as int,
                    spec_enc_strs(gv.layers.subrange(i as int + 1, nl as int)),
                ) && pos as int == 3 + spec_enc_nodes(gv.nodes).len() + spec_enc_edges(
                    gv.edges,
                ).len() + spec_enc_strs(gv.layers).len() - spec_enc_strs(
                    gv.layers.subrange(i as int + 1, nl as int),
                ).len()) by {
                    lemma_strs_step(buf@, posi, gv.layers, i as int, nl as int);
                    assert(layersi.map_values(|x: String| x@) == gv.layers.subrange(0, i as int));
                    assert(layers@.map_values(|x: String| x@) =~= layersi.map_values(
                        |x: String| x@,
                    ).push(srec@));
                    assert(gv.layers.subrange(0, i as int).push(gv.layers[i as int])
                        =~= gv.layers.subrange(0, i as int + 1));
                }
            }
            i = i + 1;
        }
        proof {
            assert forall|gv: GraphV|
                spec_graph_wf(gv) && spec_fits_graph(gv) && buf@ == #[trigger] spec_enc_graph(gv)
                    implies (layers@.map_values(|x: String| x@) == gv.layers && pos as int == 3
                    + spec_enc_nodes(gv.nodes).len() + spec_enc_edges(gv.edges).len()
                    + spec_enc_strs(gv.layers).len() && spec_starts(
                    buf@,
                    pos as int,
                    spec_enc_cprops(gv.gcprops),
                )) by {
                assert(gv.layers.subrange(0, nl as int) =~= gv.layers);
                assert(gv.layers.subrange(nl as int, nl as int) =~= Seq::<Seq<char>>::empty());
                assert(spec_enc_strs(gv.layers.subrange(nl as int, nl as int)) =~= Seq::<
                    u64,
                >::empty());
                lemma_graph_sections(buf@, gv);
            }
        }
        let gcprops = match dec_cprops(buf, &mut pos) {
            Some(c) => c,
            None => {
                return Err(crate::GraphError::GraphLoadError);
            },
        };
        let ghost pos_gc = pos as int;
        let gtprops = match dec_tprops(buf, &mut pos) {
            Some(t) => t,
            None => {
                proof {
                    assert forall|gv: GraphV|
                        spec_graph_wf(gv) && spec_fits_graph(gv) && buf@
                            == #[trigger] spec_enc_graph(gv) implies false by {
                        lemma_graph_sections(buf@, gv);
                    }
                }
                return Err(crate::GraphError::GraphLoadError);
            },
        };
        if pos != buf.len() {
            proof {
                assert forall|gv: GraphV|
                    spec_graph_wf(gv) && spec_fits_graph(gv) && buf@ == #[trigger] spec_enc_graph(gv)
                        implies false by {
                    lemma_graph_sections(buf@, gv);
                }
            }
            return Err(crate::GraphError::GraphLoadError);
        }
        let g = Graph { nodes, edges, layers, gcprops, gtprops };
        proof {
            assert forall|gv: GraphV|
                spec_graph_wf(gv) && spec_fits_graph(gv) && buf@ == #[trigger] spec_enc_graph(gv)
                    implies g@ == gv by {
                lemma_graph_sections(buf@, gv);
                assert(g@.nodes == gv.nodes);
                assert(g@.edges == gv.edges);
                assert(g@.layers == gv.layers);
                assert(g@.gcprops == gv.gcprops);
                assert(g@.gtprops == gv.gtprops);
            }
        }
        if check_graph_wf(&g) {
            Ok(g)
        } else {
            proof {
                assert forall|gv: GraphV|
                    spec_graph_wf(gv) && spec_fits_graph(gv) && buf@ == #[trigger] spec_enc_graph(gv)
                        implies false by {
                    assert(g@ == gv);
                }
            }
            Err(crate::GraphError::GraphLoadError)
        }
    }

    /// The snapshot law: loading a saved store yields a store with the
    /// same value.
    pub fn snapshot_round_trip(&self) -> (r: Graph)
        requires
            self.wf(),
        ensures
            r.wf(),
            r@ == self@,
    {
        let words = self.encode();
        match Graph::decode(&words) {
            Ok(g) => g,
            Err(_) => {
                proof {
                    assert(false);
                }
                Graph::new()
            },
        }
    }
}

/// Whether node `i` of `a` has an external id that `b` also knows.
pub open spec fn spec_node_ids_covered(a: GraphV, b: GraphV) -> bool {
    forall|i: int|
        0 <= i < a.nodes.len() ==> crate::graph::spec_node_index(
            b.nodes,
            (#[trigger] a.nodes[i]).gid,
        ) is Some
}

/// Whether event `j` of record `k` of `a` has a matching edge in `b`:
/// same external endpoint ids, active at that time in some layer.
pub open spec fn spec_event_matched(a: GraphV, b: GraphV, k: int, j: int) -> bool {
    exists|k2: int|
        0 <= k2 < b.edges.len() && b.nodes[(#[trigger] b.edges[k2]).src].gid
            == a.nodes[a.edges[k].src].gid && b.nodes[b.edges[k2].dst].gid
            == a.nodes[a.edges[k].dst].gid && b.edges[k2].times.contains(a.edges[k].times[j])
}

/// Whether every exploded event of `a` is matched in `b`.
pub open spec fn spec_events_covered(a: GraphV, b: GraphV) -> bool {
    forall|k: int, j: int|
        0 <= k < a.edges.len() && 0 <= j < a.edges[k].times.len() ==> #[trigger] spec_event_matched(
            a,
            b,
            k,
            j,
        )
}

/// The number of exploded events over the first `upto` records.
pub open spec fn spec_total_events(edges: Seq<EdgeV>, upto: int) -> int
    decreases upto,
{
    if upto <= 0 {
        0
    } else {
        spec_total_events(edges, upto - 1) + edges[upto - 1].times.len()
    }
}

/// Observable store equality: equal node and edge counts, every node id
/// of the first known to the second, equally many exploded events, and
/// every exploded event of the first active on the matching edge of the
/// second.
pub open spec fn spec_graph_equal(a: GraphV, b: GraphV) -> bool {
    &&& crate::view::spec_count_visible(a, a.nodes.len() as int, None, crate::view::LayerIds::All)
        == crate::view::spec_count_visible(
        b,
        b.nodes.len() as int,
        None,
        crate::view::LayerIds::All,
    )
    &&& crate::view::spec_count_pairs(
        a.edges,
        a.edges.len() as int,
        None,
        crate::view::LayerIds::All,
    ) == crate::view::spec_count_pairs(
        b.edges,
        b.edges.len() as int,
        None,
        crate::view::LayerIds::All,
    )
    &&& spec_node_ids_covered(a, b)
    &&& spec_total_events(a.edges, a.edges.len() as int) == spec_total_events(
        b.edges,
        b.edges.len() as int,
    )
    &&& spec_events_covered(a, b)
}

/// A store observably equals any store with the same value.
pub proof fn lemma_graph_equal_refl(a: GraphV)
    requires
        spec_graph_wf(a),
    ensures
        spec_graph_equal(a, a),
{
    assert forall|i: int|
        0 <= i < a.nodes.len() implies crate::graph::spec_node_index(
        a.nodes,
        (#[trigger] a.nodes[i]).gid,
    ) is Some by {
        crate::graph::lemma_node_index(a.nodes, a.nodes[i].gid);
        if crate::graph::spec_node_index(a.nodes, a.nodes[i].gid) is None {
            assert(false);
        }
    }
    assert forall|k: int, j: int|
        0 <= k < a.edges.len() && 0 <= j < a.edges[k].times.len()
            implies #[trigger] spec_event_matched(a, a, k, j) by {
        assert(a.edges[k].times.contains(a.edges[k].times[j]));
        assert(0 <= k < a.edges.len() && a.nodes[a.edges[k].src].gid == a.nodes[a.edges[k].src].gid
            && a.nodes[a.edges[k].dst].gid == a.nodes[a.edges[k].dst].gid
            && a.edges[k].times.contains(a.edges[k].times[j]));
    }
}

/// The exact exploded-event count of a store.
fn count_total_events(g: &Graph) -> (r: u128)
    ensures
        r as int == spec_total_events(g@.edges, g@.edges.len() as int),
{
    let mut acc: u128 = 0;
    let mut k: usize = 0;
    let n = g.edges.len();
    while k < n
        invariant
            0 <= k <= n,
            n == g@.edges.len(),
            acc as int == spec_total_events(g@.edges, k as int),
            acc <= (k as u128) * 0xffff_ffff_ffff_ffffu128,
        decreases n - k,
    {
        acc = acc + (g.edges[k].times.len() as u128);
        k = k + 1;
    }
    acc
}

/// Whether an event list holds `t`, executably.
fn times_contain(times: &Vec<i64>, t: i64) -> (r: bool)
    ensures
        r == times@.contains(t),
{
    let mut j: usize = 0;
    let n = times.len();
    while j < n
        invariant
            0 <= j <= n,
            n == times@.len(),
            forall|b: int| 0 <= b < j ==> times@[b] != t,
        decreases n - j,
    {
        if times[j] == t {
            return true;
        }
        j = j + 1;
    }
    proof {
        if times@.contains(t) {
            let b = choose|b: int| 0 <= b < times@.len() && times@[b] == t;
            assert(false);
        }
    }
    false
}

/// Observable equality of two stores, exactly the clauses of
/// `spec_graph_equal`: counts, node-id containment and exploded-event
/// matching. Stores with equal values always compare equal.
pub fn graph_equal(g1: &Graph, g2: &Graph) -> (r: bool)
    requires
        g1.wf(),
        g2.wf(),
    ensures
        r == spec_graph_equal(g1@, g2@),
        g1@ == g2@ ==> r,
{
    proof {
        lemma_graph_equal_refl(g1@);
    }
    if g1.num_vertices() != g2.num_vertices() {
        return false;
    }
    if g1.num_edges() != g2.num_edges() {
        return false;
    }
    if count_total_events(g1) != count_total_events(g2) {
        return false;
    }
    let nn = g1.nodes.len();
    let mut i: usize = 0;
    while i < nn
        invariant
            0 <= i <= nn,
            nn == g1@.nodes.len(),
            g1.wf(),
            g2.wf(),
            forall|a: int|
                0 <= a < i ==> crate::graph::spec_node_index(
                    g2@.nodes,
                    (#[trigger] g1@.nodes[a]).gid,
                ) is Some,
        decreases nn - i,
    {
        match g2.find_node(&g1.nodes[i].gid) {
            Some(_) => {},
            None => {
                proof {
                    assert(crate::graph::spec_node_index(g2@.nodes, g1@.nodes[i as int].gid)
                        is None);
                }
                return false;
            },
        }
        i = i + 1;
    }
    let ne = g1.edges.len();
    let mut k: usize = 0;
    while k < ne
        invariant
            0 <= k <= ne,
            ne == g1@.edges.len(),
            g1.wf(),
            g2.wf(),
            forall|a: int, j: int|
                0 <= a < k && 0 <= j < g1@.edges[a].times.len() ==> #[trigger] spec_event_matched(
                    g1@,
                    g2@,
                    a,
                    j,
                ),
        decreases ne - k,
    {
        let e = &g1.edges[k];
        proof {
            assert(crate::graph::spec_edge_wf(
                g1@.edges[k as int],
                g1@.nodes.len() as int,
                g1@.layers.len() as int,
            ));
        }
        let mut j: usize = 0;
        let m = e.times.len();
        while j < m
            invariant
                0 <= j <= m,
                0 <= k < ne,
                ne == g1@.edges.len(),
                m == g1@.edges[k as int].times.len(),
                g1.wf(),
                g2.wf(),
                (g1@.edges[k as int].src as int) < g1@.nodes.len(),
                (g1@.edges[k as int].dst as int) < g1@.nodes.len(),
                e == &g1.edges@[k as int],
                forall|b: int|
                    0 <= b < j ==> spec_event_matched(g1@, g2@, k as int, b),
            decreases m - j,
        {
            let t = e.times[j];
            let mut matched = false;
            let mut k2: usize = 0;
            let n2 = g2.edges.len();
            while k2 < n2 && !matched
                invariant
                    0 <= k2 <= n2,
                    n2 == g2@.edges.len(),
                    g1.wf(),
                    g2.wf(),
                    0 <= k < ne,
                    ne == g1@.edges.len(),
                    0 <= j < m,
                    m == g1@.edges[k as int].times.len(),
                    (g1@.edges[k as int].src as int) < g1@.nodes.len(),
                    (g1@.edges[k as int].dst as int) < g1@.nodes.len(),
                    t == g1@.edges[k as int].times[j as int],
                    matched ==> spec_event_matched(g1@, g2@, k as int, j as int),
                    !matched ==> forall|b: int|
                        0 <= b < k2 ==> !(g2@.nodes[(#[trigger] g2@.edges[b]).src].gid
                            == g1@.nodes[g1@.edges[k as int].src].gid
                            && g2@.nodes[g2@.edges[b].dst].gid
                            == g1@.nodes[g1@.edges[k as int].dst].gid
                            && g2@.edges[b].times.contains(t)),
                decreases n2 - k2,
            {
                let e2 = &g2.edges[k2];
                proof {
                    assert(crate::graph::spec_edge_wf(
                        g2@.edges[k2 as int],
                        g2@.nodes.len() as int,
                        g2@.layers.len() as int,
                    ));
                }
                let src_ok = g2.nodes[e2.src].gid.id_eq(&g1.nodes[g1.edges[k].src].gid);
                let dst_ok = g2.nodes[e2.dst].gid.id_eq(&g1.nodes[g1.edges[k].dst].gid);
                if src_ok && dst_ok && times_contain(&e2.times, t) {
                    proof {
                        assert(g2@.nodes[(g2@.edges[k2 as int]).src].gid
                            == g1@.nodes[g1@.edges[k as int].src].gid);
                    }
                    matched = true;
                }
                k2 = k2 + 1;
            }
            if !matched {
                proof {
                    if spec_event_matched(g1@, g2@, k as int, j as int) {
                        let b = choose|b: int|
                            0 <= b < g2@.edges.len() && g2@.nodes[(
                            #[trigger] g2@.edges[b]).src].gid
                                == g1@.nodes[g1@.edges[k as int].src].gid && g2@.nodes[g2@.edges[
                            b].dst].gid == g1@.nodes[g1@.edges[k as int].dst].gid && g2@.edges[
                            b].times.contains(g1@.edges[k as int].times[j as int]);
                        assert(false);
                    }
                }
                return false;
            }
            j = j + 1;
        }
        k = k + 1;
    }
    true
}

} // verus!
