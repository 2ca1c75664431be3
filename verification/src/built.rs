//! What queries find on a graph that a builder made: one step along an
//! edge finds exactly the recorded edges, and a filter keeps exactly the
//! recorded annotations.
use vstd::prelude::*;

use crate::dag::{acyclic, ascending, built_from, grows, has_ann, law_ascending_acyclic, Dag, DagBuilder, Vx};
use crate::logical::{eval_seq, lemma_step_finite, reach, step, walk, ExprV};
use crate::sets::{canon, lemma_canon, lemma_canon_finite};

verus! {

/// One step from the single vertex `u`: to its children (`fwd`) or to its
/// parents.
pub open spec fn one_step(u: Vx, fwd: bool) -> ExprV {
    if fwd {
        ExprV::Up { input: Box::new(ExprV::Constant(seq![u])), lo: 1, hi: Some(1) }
    } else {
        ExprV::Down { input: Box::new(ExprV::Constant(seq![u])), lo: 1, hi: Some(1) }
    }
}

/// The vertices of `input` annotated with `value` under `label`.
pub open spec fn filtered(input: ExprV, label: Seq<char>, value: Seq<char>) -> ExprV {
    ExprV::Filter { input: Box::new(input), label, value }
}

proof fn lemma_one_step(dag: &Dag, u: Vx, fwd: bool)
    ensures
        eval_seq(dag, one_step(u, fwd)).to_set() == step(dag.edge_seq(), set![u], fwd),
        eval_seq(dag, one_step(u, fwd)) == canon(step(dag.edge_seq(), set![u], fwd)),
{
    let edges = dag.edge_seq();
    lemma_canon(seq![u]);
    assert(seq![u].to_set() =~= set![u]) by {
        assert(seq![u][0] == u);
        assert forall|x: Vx| seq![u].contains(x) == set![u].contains(x) by {
            if seq![u].contains(x) {
                let i = choose|i: int| 0 <= i < 1 && seq![u][i] == x;
            }
        }
    }
    assert(eval_seq(dag, ExprV::Constant(seq![u])).to_set() == set![u]);
    let w = walk(edges, set![u], 1, Some(1), fwd);
    let st = step(edges, set![u], fwd);
    assert(reach(edges, set![u], 0, fwd) == set![u]);
    assert(reach(edges, set![u], 1, fwd) == st);
    assert(w =~= st) by {
        assert forall|v: Vx| w.contains(v) == st.contains(v) by {
            if w.contains(v) {
                let d = choose|d: nat| crate::logical::in_bounds(d, 1, Some(1)) && #[trigger] reach(edges, set![u], d, fwd).contains(v);
                assert(d == 1);
            }
            if st.contains(v) {
                assert(crate::logical::in_bounds(1, 1, Some(1)));
                assert(reach(edges, set![u], 1, fwd).contains(v));
            }
        }
    }
    lemma_step_finite(edges, set![u], fwd);
    lemma_canon_finite(w);
}

proof fn lemma_same_edges(b: &DagBuilder, d: &Dag, e: (Vx, Vx))
    requires
        built_from(d, b),
    ensures
        d.edge_seq().contains(e) == b.edge_seq().contains(e),
{
    broadcast use vstd::seq_lib::group_to_multiset_ensures;

    assert(d.edge_seq().to_multiset().count(e) == b.edge_seq().to_multiset().count(e));
}

/// On a graph built from `b`, one step up from `u` finds `v`, and one step
/// down from `v` finds `u`, exactly when `b` recorded an edge from `u` to
/// `v` (by `edge` or by `m`).
pub proof fn law_built_step(b: &DagBuilder, d: &Dag, u: Vx, v: Vx)
    requires
        built_from(d, b),
    ensures
        eval_seq(d, one_step(u, true)).contains(v) == b.edge_seq().contains((u, v)),
        eval_seq(d, one_step(v, false)).contains(u) == b.edge_seq().contains((u, v)),
{
    let edges = d.edge_seq();
    lemma_one_step(d, u, true);
    lemma_one_step(d, v, false);
    lemma_same_edges(b, d, (u, v));
    let up = eval_seq(d, one_step(u, true));
    let down = eval_seq(d, one_step(v, false));
    assert(up.contains(v) == up.to_set().contains(v));
    assert(down.contains(u) == down.to_set().contains(u));
    if edges.contains((u, v)) {
        let i = choose|i: int| 0 <= i < edges.len() && edges[i] == (u, v);
        assert(set![u].contains(edges[i].0));
        assert(set![v].contains(edges[i].1));
    }
    if up.to_set().contains(v) {
        let i = choose|i: int| 0 <= i < edges.len() && edges[i].1 == v && set![u].contains(edges[i].0);
        assert(edges[i] == (u, v));
    }
    if down.to_set().contains(u) {
        let i = choose|i: int| 0 <= i < edges.len() && edges[i].0 == u && set![v].contains(edges[i].1);
        assert(edges[i] == (u, v));
    }
}

/// The children that `b` recorded for `v` (`fwd`), or its parents.
pub open spec fn recorded(b: &DagBuilder, v: Vx, fwd: bool) -> Set<Vx> {
    Set::new(|w: Vx| if fwd { b.edge_seq().contains((v, w)) } else { b.edge_seq().contains((w, v)) })
}

/// On a graph built from `b`, one step up from `v` gives exactly the
/// vertices that `b` recorded an edge to from `v`, and one step down exactly
/// those it recorded an edge from into `v`: each once, in increasing order.
/// So the parents of a vertex that `m` made from `vxs`, with no edge into it
/// recorded otherwise, are `vxs` sorted without repeats.
pub proof fn law_built_neighbours(b: &DagBuilder, d: &Dag, v: Vx)
    requires
        built_from(d, b),
    ensures
        eval_seq(d, one_step(v, true)) == canon(recorded(b, v, true)),
        eval_seq(d, one_step(v, false)) == canon(recorded(b, v, false)),
{
    lemma_one_step(d, v, true);
    lemma_one_step(d, v, false);
    assert(step(d.edge_seq(), set![v], true) =~= recorded(b, v, true)) by {
        assert forall|w: Vx| step(d.edge_seq(), set![v], true).contains(w) == recorded(b, v, true).contains(w) by {
            law_built_step(b, d, v, w);
            lemma_one_step(d, v, true);
            assert(eval_seq(d, one_step(v, true)).contains(w) == eval_seq(d, one_step(v, true)).to_set().contains(w));
        }
    }
    assert(step(d.edge_seq(), set![v], false) =~= recorded(b, v, false)) by {
        assert forall|w: Vx| step(d.edge_seq(), set![v], false).contains(w) == recorded(b, v, false).contains(w) by {
            law_built_step(b, d, w, v);
            lemma_one_step(d, v, false);
            assert(eval_seq(d, one_step(v, false)).contains(w) == eval_seq(d, one_step(v, false)).to_set().contains(w));
        }
    }
}

/// On a graph built from `b`, a filter on `label` and `value` keeps exactly
/// the vertices of its input that `b` annotated with `value` under `label`.
pub proof fn law_built_filter(b: &DagBuilder, d: &Dag, input: ExprV, label: Seq<char>, value: Seq<char>, v: Vx)
    requires
        built_from(d, b),
    ensures
        eval_seq(d, filtered(input, label, value)).contains(v) == (eval_seq(d, input).contains(v) && (b.annotation(label) matches Some(p) && p.contains((v, value)))),
{
    let q = eval_seq(d, input);
    let s = q.to_set();
    let out = eval_seq(d, filtered(input, label, value));
    assert(d.annotation(label) == b.annotation(label));
    vstd::seq_lib::seq_to_set_is_finite(q);
    match d.annotation(label) {
        Some(pairs) => {
            let f = s.filter(|w: Vx| pairs.contains((w, value)));
            vstd::set_lib::lemma_len_subset(f, s);
            lemma_canon_finite(f);
            assert(out == canon(f));
            assert(out.contains(v) == out.to_set().contains(v));
            assert(q.contains(v) == s.contains(v));
        },
        None => {
            assert(out == Seq::<Vx>::empty());
        },
    }
}

/// A graph built from edges that all lead to higher-numbered vertices, as
/// `m` records them from vertices handed out before, has no cycle, so every
/// query on it can be evaluated.
pub proof fn law_built_acyclic(b: &DagBuilder, d: &Dag)
    requires
        built_from(d, b),
        ascending(b.edge_seq()),
    ensures
        acyclic(d.edge_seq()),
{
    let e = d.edge_seq();
    assert forall|i: int| 0 <= i < e.len() implies (#[trigger] e[i]).0.0 < e[i].1.0 by {
        assert(e.contains(e[i]));
        lemma_same_edges(b, d, e[i]);
        let k = choose|k: int| 0 <= k < b.edge_seq().len() && b.edge_seq()[k] == e[i];
    }
    law_ascending_acyclic(e);
}

/// An edge from `u` to `v` recorded on `b0` (by `edge` or `m`) is found by
/// one step up from `u` and one step down from `v` on any graph built after
/// further calls.
pub proof fn law_recorded_edge_found(b0: DagBuilder, b: DagBuilder, d: &Dag, u: Vx, v: Vx)
    requires
        b0.edge_seq().contains((u, v)),
        grows(b0, b),
        built_from(d, &b),
    ensures
        eval_seq(d, one_step(u, true)).contains(v),
        eval_seq(d, one_step(v, false)).contains(u),
{
    let k = choose|k: int| 0 <= k < b0.edge_seq().len() && b0.edge_seq()[k] == (u, v);
    assert(b.edge_seq()[k] == b0.edge_seq()[k]) by {
        assert(b0.edge_seq() == b.edge_seq().subrange(0, b0.edge_seq().len() as int));
    }
    assert(b.edge_seq().contains((u, v)));
    law_built_step(&b, d, u, v);
}

/// A vertex annotated on `b0` with `value` under `label` is kept by that
/// filter over any query that holds it, on any graph built after further
/// calls.
pub proof fn law_recorded_annotation_kept(b0: DagBuilder, b: DagBuilder, d: &Dag, input: ExprV, label: Seq<char>, value: Seq<char>, v: Vx)
    requires
        has_ann(b0, label, (v, value)),
        grows(b0, b),
        built_from(d, &b),
        eval_seq(d, input).contains(v),
    ensures
        eval_seq(d, filtered(input, label, value)).contains(v),
{
    assert(has_ann(b, label, (v, value)));
    law_built_filter(&b, d, input, label, value, v);
}

/// The parents of a vertex `c` that `m` made from `vxs` on `b0`, when no
/// edge into `c` was recorded before or after, are `vxs` in increasing
/// order, each once.
pub proof fn law_merge_parents(b0: DagBuilder, b1: DagBuilder, b: DagBuilder, d: &Dag, vxs: Seq<Vx>, c: Vx)
    requires
        b1.edge_seq() == b0.edge_seq() + vxs.map_values(|x: Vx| (x, c)),
        forall|i: int| 0 <= i < b0.edge_seq().len() ==> (#[trigger] b0.edge_seq()[i]).1 != c,
        grows(b1, b),
        forall|i: int| b1.edge_seq().len() <= i < b.edge_seq().len() ==> (#[trigger] b.edge_seq()[i]).1 != c,
        built_from(d, &b),
    ensures
        eval_seq(d, one_step(c, false)) == canon(vxs.to_set()),
{
    law_built_neighbours(&b, d, c);
    let e = b.edge_seq();
    let n0 = b0.edge_seq().len();
    let n1 = b1.edge_seq().len();
    assert(b1.edge_seq() == e.subrange(0, n1 as int));
    assert forall|w: Vx| recorded(&b, c, false).contains(w) == vxs.to_set().contains(w) by {
        if e.contains((w, c)) {
            let k = choose|k: int| 0 <= k < e.len() && e[k] == (w, c);
            assert(k < n1);
            assert(e[k] == b1.edge_seq()[k]);
            if k < n0 {
                assert(b1.edge_seq()[k] == b0.edge_seq()[k]);
            } else {
                assert(b1.edge_seq()[k] == (vxs[k - n0], c));
                assert(vxs.contains(w));
            }
        }
        if vxs.contains(w) {
            let i = choose|i: int| 0 <= i < vxs.len() && vxs[i] == w;
            assert(b1.edge_seq()[n0 + i] == (w, c));
            assert(e[n0 + i] == (w, c));
            assert(e.contains((w, c)));
        }
    }
    assert(recorded(&b, c, false) =~= vxs.to_set());
}

} // verus!
