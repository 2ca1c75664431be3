//! What a query denotes, with `All` standing for every vertex, and the law
//! that the rewrite keeps it.
use vstd::prelude::*;

use crate::dag::{Dag, Vx};
use crate::logical::{eval_seq, eval_union, in_bounds, law_eval_walk, reach, step, walk, walk_from, ExprV};
use crate::optimize::meaning::{annotated, inter_all, lemma_eval_filter, lemma_eval_intersection};
use crate::optimize::{lemma_eval_union_finite, lemma_walk_finite_any};
use crate::sets::lemma_canon_finite;
use crate::optimize::{
    flatten_inter, flatten_union, hoistable, law_fold_walk, opt_fuel, opt_seq, optimizable, optimized, select,
    wrap_filters, RewriteRules,
};
use crate::optimize::ends::lemma_select_size;

verus! {

/// The vertices `e` denotes: `All` and an intersection without operands
/// every vertex; a constant its vertices; a walk the vertices at a distance
/// within its bounds; a range the vertices between its ends; unions and
/// intersections the union and intersection of their operands; a filter
/// its input's vertices that carry the annotation.
pub open spec fn denote(dag: &Dag, e: ExprV) -> Set<Vx>
    decreases e,
{
    match e {
        ExprV::All => Set::full(),
        ExprV::Constant(v) => v.to_set(),
        ExprV::Up { input, lo, hi } => walk(dag.edge_seq(), denote(dag, *input), lo, hi, true),
        ExprV::Down { input, lo, hi } => walk(dag.edge_seq(), denote(dag, *input), lo, hi, false),
        ExprV::Range { lo, hi } => walk(dag.edge_seq(), denote(dag, *lo), 0, None, true).intersect(
            walk(dag.edge_seq(), denote(dag, *hi), 0, None, false),
        ),
        ExprV::Union(es) => denote_union(dag, es),
        ExprV::Intersection(es) => denote_inter(dag, es),
        ExprV::Filter { input, label, value } => denote(dag, *input).intersect(annotated(dag, label, value)),
    }
}

/// The vertices any of the queries denotes.
pub open spec fn denote_union(dag: &Dag, es: Seq<ExprV>) -> Set<Vx>
    decreases es,
{
    if es.len() == 0 {
        Set::empty()
    } else {
        denote_union(dag, es.subrange(0, es.len() - 1)).union(denote(dag, es[es.len() - 1]))
    }
}

/// The vertices every query denotes (every vertex for none).
pub open spec fn denote_inter(dag: &Dag, es: Seq<ExprV>) -> Set<Vx>
    decreases es,
{
    if es.len() == 0 {
        Set::full()
    } else {
        denote_inter(dag, es.subrange(0, es.len() - 1)).intersect(denote(dag, es[es.len() - 1]))
    }
}

/// Every walk's upper bound, when it has one, is at least its lower bound.
pub open spec fn bounds_ordered(e: ExprV) -> bool
    decreases e,
{
    match e {
        ExprV::All => true,
        ExprV::Constant(_) => true,
        ExprV::Up { input, lo, hi } => (hi matches Some(h) ==> lo <= h) && bounds_ordered(*input),
        ExprV::Down { input, lo, hi } => (hi matches Some(h) ==> lo <= h) && bounds_ordered(*input),
        ExprV::Range { lo, hi } => bounds_ordered(*lo) && bounds_ordered(*hi),
        ExprV::Union(es) => forall|i: int| 0 <= i < es.len() ==> bounds_ordered(#[trigger] es[i]),
        ExprV::Intersection(es) => forall|i: int| 0 <= i < es.len() ==> bounds_ordered(#[trigger] es[i]),
        ExprV::Filter { input, .. } => bounds_ordered(*input),
    }
}

spec fn all_ordered(es: Seq<ExprV>) -> bool {
    forall|i: int| 0 <= i < es.len() ==> bounds_ordered(#[trigger] es[i])
}

proof fn lemma_union_concat(dag: &Dag, a: Seq<ExprV>, b: Seq<ExprV>)
    ensures
        denote_union(dag, a + b) == denote_union(dag, a).union(denote_union(dag, b)),
    decreases b.len(),
{
    if b.len() == 0 {
        assert(a + b =~= a);
        assert(denote_union(dag, a).union(denote_union(dag, b)) =~= denote_union(dag, a));
    } else {
        let b1 = b.subrange(0, b.len() - 1);
        lemma_union_concat(dag, a, b1);
        assert((a + b).subrange(0, (a + b).len() - 1) =~= a + b1);
        assert((a + b)[(a + b).len() - 1] == b[b.len() - 1]);
        assert(denote_union(dag, a + b) =~= denote_union(dag, a).union(denote_union(dag, b)));
    }
}

proof fn lemma_inter_concat(dag: &Dag, a: Seq<ExprV>, b: Seq<ExprV>)
    ensures
        denote_inter(dag, a + b) == denote_inter(dag, a).intersect(denote_inter(dag, b)),
    decreases b.len(),
{
    if b.len() == 0 {
        assert(a + b =~= a);
        assert(denote_inter(dag, a).intersect(Set::full()) =~= denote_inter(dag, a));
    } else {
        let b1 = b.subrange(0, b.len() - 1);
        lemma_inter_concat(dag, a, b1);
        assert((a + b).subrange(0, (a + b).len() - 1) =~= a + b1);
        assert((a + b)[(a + b).len() - 1] == b[b.len() - 1]);
        assert(denote_inter(dag, a + b) =~= denote_inter(dag, a).intersect(denote_inter(dag, b)));
    }
}

proof fn lemma_union_one(dag: &Dag, x: ExprV)
    ensures
        denote_union(dag, seq![x]) == denote(dag, x),
{
    assert(seq![x].subrange(0, 0) =~= Seq::<ExprV>::empty());
    assert(seq![x][0] == x);
    assert(denote_union(dag, Seq::<ExprV>::empty()) == Set::<Vx>::empty());
    assert(denote_union(dag, seq![x]) == denote_union(dag, seq![x].subrange(0, 0)).union(denote(dag, x)));
    assert(denote_union(dag, seq![x]) =~= denote(dag, x));
}

proof fn lemma_inter_one(dag: &Dag, x: ExprV)
    ensures
        denote_inter(dag, seq![x]) == denote(dag, x),
{
    assert(seq![x].subrange(0, 0) =~= Seq::<ExprV>::empty());
    assert(seq![x][0] == x);
    assert(denote_inter(dag, Seq::<ExprV>::empty()) == Set::<Vx>::full());
    assert(denote_inter(dag, seq![x]) == denote_inter(dag, seq![x].subrange(0, 0)).intersect(denote(dag, x)));
    assert(denote_inter(dag, seq![x]) =~= denote(dag, x));
}

proof fn lemma_flatten_union(dag: &Dag, os: Seq<ExprV>)
    ensures
        denote_union(dag, flatten_union(os)) == denote_union(dag, os),
    decreases os.len(),
{
    if os.len() > 0 {
        let init = os.drop_last();
        let x = os.last();
        lemma_flatten_union(dag, init);
        let piece = match x {
            ExprV::Union(inner) => inner,
            y => seq![y],
        };
        lemma_union_concat(dag, flatten_union(init), piece);
        assert(os.subrange(0, os.len() - 1) == init);
        assert(os[os.len() - 1] == x);
        assert(flatten_union(os) == flatten_union(init) + piece);
        assert(denote_union(dag, os) == denote_union(dag, init).union(denote(dag, x)));
        match x {
            ExprV::Union(inner) => {
                assert(denote(dag, x) == denote_union(dag, inner));
            },
            _ => {
                lemma_union_one(dag, x);
            },
        }
    }
}

proof fn lemma_flatten_inter(dag: &Dag, os: Seq<ExprV>)
    ensures
        denote_inter(dag, flatten_inter(os)) == denote_inter(dag, os),
    decreases os.len(),
{
    if os.len() > 0 {
        let init = os.drop_last();
        let x = os.last();
        lemma_flatten_inter(dag, init);
        let piece = match x {
            ExprV::Intersection(inner) => inner,
            y => seq![y],
        };
        lemma_inter_concat(dag, flatten_inter(init), piece);
        assert(os.subrange(0, os.len() - 1) == init);
        assert(os[os.len() - 1] == x);
        assert(flatten_inter(os) == flatten_inter(init) + piece);
        assert(denote_inter(dag, os) == denote_inter(dag, init).intersect(denote(dag, x)));
        match x {
            ExprV::Intersection(inner) => {
                assert(denote(dag, x) == denote_inter(dag, inner));
            },
            _ => {
                lemma_inter_one(dag, x);
            },
        }
    }
}

proof fn lemma_union_same(dag: &Dag, a: Seq<ExprV>, b: Seq<ExprV>)
    requires
        a.len() == b.len(),
        forall|i: int| 0 <= i < a.len() ==> denote(dag, #[trigger] a[i]) == denote(dag, b[i]),
    ensures
        denote_union(dag, a) == denote_union(dag, b),
    decreases a.len(),
{
    if a.len() > 0 {
        let da = a.subrange(0, a.len() - 1);
        let db = b.subrange(0, b.len() - 1);
        assert forall|i: int| 0 <= i < da.len() implies denote(dag, #[trigger] da[i]) == denote(dag, db[i]) by {
            assert(da[i] == a[i] && db[i] == b[i]);
        }
        lemma_union_same(dag, da, db);
    }
}

proof fn lemma_inter_same(dag: &Dag, a: Seq<ExprV>, b: Seq<ExprV>)
    requires
        a.len() == b.len(),
        forall|i: int| 0 <= i < a.len() ==> denote(dag, #[trigger] a[i]) == denote(dag, b[i]),
    ensures
        denote_inter(dag, a) == denote_inter(dag, b),
    decreases a.len(),
{
    if a.len() > 0 {
        let da = a.subrange(0, a.len() - 1);
        let db = b.subrange(0, b.len() - 1);
        assert forall|i: int| 0 <= i < da.len() implies denote(dag, #[trigger] da[i]) == denote(dag, db[i]) by {
            assert(da[i] == a[i] && db[i] == b[i]);
        }
        lemma_inter_same(dag, da, db);
    }
}

proof fn lemma_select_inter(dag: &Dag, os: Seq<ExprV>)
    ensures
        denote_inter(dag, os) == denote_inter(dag, select(os, false)).intersect(denote_inter(dag, select(os, true))),
    decreases os.len(),
{
    if os.len() == 0 {
        assert(Set::<Vx>::full().intersect(Set::full()) =~= Set::<Vx>::full());
    } else {
        let d = os.drop_last();
        let x = os.last();
        lemma_select_inter(dag, d);
        assert(os.subrange(0, os.len() - 1) == d);
        assert(os[os.len() - 1] == x);
        if hoistable(x) {
            let t = select(os, true);
            assert(t == select(d, true).push(x));
            assert(t.subrange(0, t.len() - 1) =~= select(d, true));
            assert(select(os, false) == select(d, false));
        } else {
            let t = select(os, false);
            assert(t == select(d, false).push(x));
            assert(t.subrange(0, t.len() - 1) =~= select(d, false));
            assert(select(os, true) == select(d, true));
        }
        assert(denote_inter(dag, os) =~= denote_inter(dag, select(os, false)).intersect(denote_inter(dag, select(os, true))));
    }
}

/// The vertices that carry each hoistable filter's annotation.
spec fn ann_all(dag: &Dag, fs: Seq<ExprV>) -> Set<Vx>
    decreases fs.len(),
{
    if fs.len() == 0 {
        Set::full()
    } else {
        ann_all(dag, fs.drop_last()).intersect(match fs.last() {
            ExprV::Filter { input, label, value } => annotated(dag, label, value),
            _ => Set::full(),
        })
    }
}

proof fn lemma_wrap(dag: &Dag, b: ExprV, fs: Seq<ExprV>)
    requires
        forall|i: int| 0 <= i < fs.len() ==> hoistable(#[trigger] fs[i]),
    ensures
        denote(dag, wrap_filters(b, fs)) == denote(dag, b).intersect(ann_all(dag, fs)),
        denote_inter(dag, fs) == ann_all(dag, fs),
    decreases fs.len(),
{
    if fs.len() == 0 {
        assert(denote(dag, b).intersect(Set::full()) =~= denote(dag, b));
    } else {
        let d = fs.drop_last();
        assert forall|i: int| 0 <= i < d.len() implies hoistable(#[trigger] d[i]) by {
            assert(d[i] == fs[i]);
        }
        lemma_wrap(dag, b, d);
        assert(hoistable(fs[fs.len() - 1]));
        assert(fs.subrange(0, fs.len() - 1) == d);
        if let ExprV::Filter { input, label, value } = fs.last() {
            assert(*input == ExprV::All);
            assert(denote(dag, *input) == Set::<Vx>::full());
            assert(denote(dag, fs.last()) == denote(dag, *input).intersect(annotated(dag, label, value)));
            assert(denote(dag, fs.last()) =~= annotated(dag, label, value));
            assert(denote(dag, wrap_filters(b, fs)) =~= denote(dag, b).intersect(ann_all(dag, fs)));
            assert(denote_inter(dag, fs) =~= ann_all(dag, fs));
        }
    }
}

proof fn lemma_concat_ordered(a: Seq<ExprV>, b: Seq<ExprV>)
    requires
        all_ordered(a),
        all_ordered(b),
    ensures
        all_ordered(a + b),
{
    assert forall|i: int| 0 <= i < (a + b).len() implies bounds_ordered(#[trigger] (a + b)[i]) by {
        if i < a.len() {
            assert((a + b)[i] == a[i]);
        } else {
            assert((a + b)[i] == b[i - a.len()]);
        }
    }
}

proof fn lemma_flatten_union_ordered(os: Seq<ExprV>)
    requires
        all_ordered(os),
    ensures
        all_ordered(flatten_union(os)),
    decreases os.len(),
{
    if os.len() > 0 {
        let d = os.drop_last();
        assert forall|i: int| 0 <= i < d.len() implies bounds_ordered(#[trigger] d[i]) by {
            assert(d[i] == os[i]);
        }
        lemma_flatten_union_ordered(d);
        let x = os.last();
        assert(bounds_ordered(os[os.len() - 1]));
        let piece = match x {
            ExprV::Union(inner) => inner,
            y => seq![y],
        };
        assert(all_ordered(piece));
        lemma_concat_ordered(flatten_union(d), piece);
    }
}

proof fn lemma_flatten_inter_ordered(os: Seq<ExprV>)
    requires
        all_ordered(os),
    ensures
        all_ordered(flatten_inter(os)),
    decreases os.len(),
{
    if os.len() > 0 {
        let d = os.drop_last();
        assert forall|i: int| 0 <= i < d.len() implies bounds_ordered(#[trigger] d[i]) by {
            assert(d[i] == os[i]);
        }
        lemma_flatten_inter_ordered(d);
        let x = os.last();
        assert(bounds_ordered(os[os.len() - 1]));
        let piece = match x {
            ExprV::Intersection(inner) => inner,
            y => seq![y],
        };
        assert(all_ordered(piece));
        lemma_concat_ordered(flatten_inter(d), piece);
    }
}

proof fn lemma_select_ordered(os: Seq<ExprV>, want: bool)
    requires
        all_ordered(os),
    ensures
        all_ordered(select(os, want)),
    decreases os.len(),
{
    if os.len() > 0 {
        let d = os.drop_last();
        assert forall|i: int| 0 <= i < d.len() implies bounds_ordered(#[trigger] d[i]) by {
            assert(d[i] == os[i]);
        }
        lemma_select_ordered(d, want);
        assert(bounds_ordered(os[os.len() - 1]));
        let t = select(os, want);
        assert forall|i: int| 0 <= i < t.len() implies bounds_ordered(#[trigger] t[i]) by {
            if hoistable(os.last()) == want {
                assert(t == select(d, want).push(os.last()));
                if i < t.len() - 1 {
                    assert(t[i] == select(d, want)[i]);
                }
            } else {
                assert(t == select(d, want));
            }
        }
    }
}

proof fn lemma_wrap_ordered(b: ExprV, fs: Seq<ExprV>)
    requires
        bounds_ordered(b),
    ensures
        bounds_ordered(wrap_filters(b, fs)),
    decreases fs.len(),
{
    if fs.len() > 0 {
        lemma_wrap_ordered(b, fs.drop_last());
    }
}

proof fn lemma_seq_denote(dag: &Dag, rules: RewriteRules, es: Seq<ExprV>, f: nat)
    requires
        all_ordered(es),
        opt_seq(rules, es, f) is Some,
    ensures
        opt_seq(rules, es, f)->0.len() == es.len(),
        forall|i: int| 0 <= i < es.len() ==> denote(dag, #[trigger] opt_seq(rules, es, f)->0[i]) == denote(dag, es[i]),
        all_ordered(opt_seq(rules, es, f)->0),
    decreases f, es.len(),
{
    if es.len() > 0 {
        let d = es.drop_last();
        assert forall|i: int| 0 <= i < d.len() implies bounds_ordered(#[trigger] d[i]) by {
            assert(d[i] == es[i]);
        }
        assert(bounds_ordered(es[es.len() - 1]));
        lemma_seq_denote(dag, rules, d, f);
        lemma_opt_denote(dag, rules, es.last(), f);
        let a = opt_seq(rules, d, f)->0;
        let b = opt_fuel(rules, es.last(), f)->0;
        let os = a.push(b);
        assert(opt_seq(rules, es, f)->0 == os);
        assert forall|i: int| 0 <= i < es.len() implies denote(dag, #[trigger] os[i]) == denote(dag, es[i]) by {
            if i < es.len() - 1 {
                assert(os[i] == a[i]);
                assert(d[i] == es[i]);
            } else {
                assert(os[i] == b);
            }
        }
        assert forall|i: int| 0 <= i < os.len() implies bounds_ordered(#[trigger] os[i]) by {
            if i < os.len() - 1 {
                assert(os[i] == a[i]);
            }
        }
    }
}

#[verifier::spinoff_prover]
#[verifier::rlimit(80)]
proof fn lemma_opt_denote(dag: &Dag, rules: RewriteRules, e: ExprV, f: nat)
    requires
        bounds_ordered(e),
        opt_fuel(rules, e, f) is Some,
    ensures
        denote(dag, opt_fuel(rules, e, f)->0) == denote(dag, e),
        bounds_ordered(opt_fuel(rules, e, f)->0),
    decreases f, 0nat,
{
    let g = (f - 1) as nat;
    let o = opt_fuel(rules, e, f)->0;
    let edges = dag.edge_seq();
    match e {
        ExprV::All => {},
        ExprV::Constant(_) => {},
        ExprV::Up { input, lo, hi } => {
            lemma_opt_denote(dag, rules, *input, g);
            let i = opt_fuel(rules, *input, g)->0;
            if rules.fold_up_up && i is Up {
                if let ExprV::Up { input: x, lo: ilo, hi: ihi } = i {
                    law_fold_walk(edges, denote(dag, *x), ilo, ihi, lo, hi, true);
                }
            }
        },
        ExprV::Down { input, lo, hi } => {
            lemma_opt_denote(dag, rules, *input, g);
            let i = opt_fuel(rules, *input, g)->0;
            if rules.fold_down_down && i is Down {
                if let ExprV::Down { input: x, lo: ilo, hi: ihi } = i {
                    law_fold_walk(edges, denote(dag, *x), ilo, ihi, lo, hi, false);
                }
            }
        },
        ExprV::Range { lo, hi } => {
            lemma_opt_denote(dag, rules, *lo, g);
            lemma_opt_denote(dag, rules, *hi, g);
        },
        ExprV::Union(es) => {
            assert(all_ordered(es));
            lemma_seq_denote(dag, rules, es, g);
            let os = opt_seq(rules, es, g)->0;
            lemma_union_same(dag, os, es);
            if rules.flatten_union {
                lemma_flatten_union(dag, os);
                lemma_flatten_union_ordered(os);
            }
        },
        ExprV::Intersection(es) => {
            assert(all_ordered(es));
            lemma_seq_denote(dag, rules, es, g);
            let os = opt_seq(rules, es, g)->0;
            lemma_inter_same(dag, os, es);
            if os.len() == 0 {
                assert(denote_inter(dag, os) == Set::<Vx>::full());
            } else if os.len() == 1 {
                lemma_inter_one(dag, os[0]);
                assert(os =~= seq![os[0]]);
            } else if rules.flatten_intersection && exists|k: int| 0 <= k < os.len() && #[trigger] os[k] is Intersection {
                let fl = flatten_inter(os);
                lemma_flatten_inter_ordered(os);
                lemma_flatten_inter(dag, os);
                lemma_opt_denote(dag, rules, ExprV::Intersection(fl), g);
            } else if rules.intersection_to_filter && exists|k: int| 0 <= k < os.len() && hoistable(#[trigger] os[k]) {
                lemma_select_size(os);
                lemma_select_ordered(os, false);
                let nh = select(os, false);
                let fs = select(os, true);
                let rest = ExprV::Intersection(nh);
                lemma_opt_denote(dag, rules, rest, g);
                let b = opt_fuel(rules, rest, g)->0;
                lemma_wrap(dag, b, fs);
                lemma_select_inter(dag, os);
                lemma_wrap_ordered(b, fs);
                assert(denote(dag, o) =~= denote(dag, e));
            }
        },
        ExprV::Filter { input, label, value } => {
            lemma_opt_denote(dag, rules, *input, g);
        },
    }
}

/// Rewriting a query whose walks all have bounds in order keeps the
/// vertices it denotes, whatever the rules.
pub proof fn law_optimize_keeps_denotation(dag: &Dag, rules: RewriteRules, e: ExprV)
    requires
        bounds_ordered(e),
        optimizable(rules, e),
    ensures
        denote(dag, optimized(rules, e)) == denote(dag, e),
{
    let f = choose|f: nat| (#[trigger] opt_fuel(rules, e, f)) is Some;
    lemma_opt_denote(dag, rules, e, f);
}

// ----- the evaluator and the denotation -----

/// Every intersection in the query has an operand.
pub open spec fn inters_have_operands(e: ExprV) -> bool
    decreases e,
{
    match e {
        ExprV::All => true,
        ExprV::Constant(_) => true,
        ExprV::Up { input, .. } => inters_have_operands(*input),
        ExprV::Down { input, .. } => inters_have_operands(*input),
        ExprV::Range { lo, hi } => inters_have_operands(*lo) && inters_have_operands(*hi),
        ExprV::Union(es) => forall|i: int| 0 <= i < es.len() ==> inters_have_operands(#[trigger] es[i]),
        ExprV::Intersection(es) => es.len() > 0 && forall|i: int| 0 <= i < es.len() ==> inters_have_operands(#[trigger] es[i]),
        ExprV::Filter { input, .. } => inters_have_operands(*input),
    }
}

proof fn lemma_vertices_finite(dag: &Dag)
    ensures
        dag.vertices().finite(),
{
    let e = dag.edge_seq();
    let ends = e.map_values(|p: (Vx, Vx)| p.0).to_set().union(e.map_values(|p: (Vx, Vx)| p.1).to_set()).insert(Vx(0));
    assert forall|v: Vx| dag.vertices().contains(v) implies ends.contains(v) by {
        if v != Vx(0) {
            let k = choose|k: int| 0 <= k < e.len() && (e[k].0 == v || e[k].1 == v);
            if e[k].0 == v {
                assert(e.map_values(|p: (Vx, Vx)| p.0)[k] == v);
            } else {
                assert(e.map_values(|p: (Vx, Vx)| p.1)[k] == v);
            }
        }
    }
    vstd::set_lib::lemma_len_subset(dag.vertices(), ends);
}

/// A step reaches only vertices of the graph, and only from them.
proof fn lemma_step_within(dag: &Dag, s: Set<Vx>, fwd: bool)
    ensures
        step(dag.edge_seq(), s, fwd) == step(dag.edge_seq(), s.intersect(dag.vertices()), fwd),
        step(dag.edge_seq(), s, fwd).subset_of(dag.vertices()),
{
    let e = dag.edge_seq();
    let u = dag.vertices();
    assert forall|i: int| 0 <= i < e.len() implies u.contains(#[trigger] e[i].0) && u.contains(e[i].1) by {
        assert(0 <= i < e.len() && (e[i].0 == e[i].0 || e[i].1 == e[i].0));
        assert(0 <= i < e.len() && (e[i].0 == e[i].1 || e[i].1 == e[i].1));
    }
    assert(step(e, s, fwd) =~= step(e, s.intersect(u), fwd));
}

proof fn lemma_reach_within(dag: &Dag, s: Set<Vx>, d: nat, fwd: bool)
    ensures
        reach(dag.edge_seq(), s, d, fwd).intersect(dag.vertices()) == reach(dag.edge_seq(), s.intersect(dag.vertices()), d, fwd).intersect(dag.vertices()),
    decreases d,
{
    let e = dag.edge_seq();
    let u = dag.vertices();
    if d == 0 {
        assert(s.intersect(u).intersect(u) =~= s.intersect(u));
    } else {
        let d1 = (d - 1) as nat;
        lemma_reach_within(dag, s, d1, fwd);
        let r = reach(e, s, d1, fwd);
        let r2 = reach(e, s.intersect(u), d1, fwd);
        lemma_step_within(dag, r, fwd);
        lemma_step_within(dag, r2, fwd);
        assert(step(e, r, fwd).intersect(u) =~= step(e, r2, fwd).intersect(u));
    }
}

proof fn lemma_walk_within(dag: &Dag, a: Set<Vx>, b: Set<Vx>, lo: nat, hi: Option<nat>, fwd: bool)
    requires
        a.intersect(dag.vertices()) == b.intersect(dag.vertices()),
    ensures
        walk(dag.edge_seq(), a, lo, hi, fwd).intersect(dag.vertices()) == walk(dag.edge_seq(), b, lo, hi, fwd).intersect(dag.vertices()),
{
    let e = dag.edge_seq();
    let u = dag.vertices();
    assert forall|v: Vx| walk(e, a, lo, hi, fwd).intersect(u).contains(v) == walk(e, b, lo, hi, fwd).intersect(u).contains(v) by {
        if walk(e, a, lo, hi, fwd).contains(v) && u.contains(v) {
            let d = choose|d: nat| in_bounds(d, lo, hi) && #[trigger] reach(e, a, d, fwd).contains(v);
            lemma_reach_within(dag, a, d, fwd);
            lemma_reach_within(dag, b, d, fwd);
            assert(reach(e, a, d, fwd).intersect(u).contains(v));
            assert(reach(e, a.intersect(u), d, fwd) == reach(e, b.intersect(u), d, fwd));
            assert(reach(e, b, d, fwd).intersect(u).contains(v));
            assert(reach(e, b, d, fwd).contains(v));
        }
        if walk(e, b, lo, hi, fwd).contains(v) && u.contains(v) {
            let d = choose|d: nat| in_bounds(d, lo, hi) && #[trigger] reach(e, b, d, fwd).contains(v);
            lemma_reach_within(dag, a, d, fwd);
            lemma_reach_within(dag, b, d, fwd);
            assert(reach(e, b, d, fwd).intersect(u).contains(v));
            assert(reach(e, a.intersect(u), d, fwd) == reach(e, b.intersect(u), d, fwd));
            assert(reach(e, a, d, fwd).intersect(u).contains(v));
            assert(reach(e, a, d, fwd).contains(v));
        }
    }
    assert(walk(e, a, lo, hi, fwd).intersect(u) =~= walk(e, b, lo, hi, fwd).intersect(u));
}

proof fn lemma_union_within(dag: &Dag, es: Seq<ExprV>)
    requires
        forall|i: int| 0 <= i < es.len() ==> inters_have_operands(#[trigger] es[i]),
    ensures
        eval_union(dag, es).intersect(dag.vertices()) == denote_union(dag, es).intersect(dag.vertices()),
    decreases es,
{
    if es.len() > 0 {
        let init = es.subrange(0, es.len() - 1);
        assert forall|i: int| 0 <= i < init.len() implies inters_have_operands(#[trigger] init[i]) by {
            assert(init[i] == es[i]);
        }
        lemma_union_within(dag, init);
        let x = es[es.len() - 1];
        lemma_eval_within(dag, x);
        let u = dag.vertices();
        assert(eval_union(dag, es) == eval_union(dag, init).union(eval_seq(dag, x).to_set()));
        assert(denote_union(dag, es) == denote_union(dag, init).union(denote(dag, x)));
        assert forall|v: Vx| eval_union(dag, es).intersect(u).contains(v) == denote_union(dag, es).intersect(u).contains(v) by {
            assert(eval_union(dag, init).intersect(u).contains(v) == denote_union(dag, init).intersect(u).contains(v));
            assert(eval_seq(dag, x).to_set().intersect(u).contains(v) == denote(dag, x).intersect(u).contains(v));
        }
        assert(eval_union(dag, es).intersect(u) =~= denote_union(dag, es).intersect(u));
    }
}

proof fn lemma_inter_within(dag: &Dag, es: Seq<ExprV>)
    requires
        forall|i: int| 0 <= i < es.len() ==> inters_have_operands(#[trigger] es[i]),
    ensures
        inter_all(dag, es).intersect(dag.vertices()) == denote_inter(dag, es).intersect(dag.vertices()),
    decreases es,
{
    if es.len() > 0 {
        let init = es.subrange(0, es.len() - 1);
        assert(init == es.drop_last());
        assert(es.last() == es[es.len() - 1]);
        assert forall|i: int| 0 <= i < init.len() implies inters_have_operands(#[trigger] init[i]) by {
            assert(init[i] == es[i]);
        }
        lemma_inter_within(dag, init);
        let x = es[es.len() - 1];
        lemma_eval_within(dag, x);
        let u = dag.vertices();
        assert(inter_all(dag, es) == inter_all(dag, init).intersect(eval_seq(dag, x).to_set()));
        assert(denote_inter(dag, es) == denote_inter(dag, init).intersect(denote(dag, x)));
        assert forall|v: Vx| inter_all(dag, es).intersect(u).contains(v) == denote_inter(dag, es).intersect(u).contains(v) by {
            assert(inter_all(dag, init).intersect(u).contains(v) == denote_inter(dag, init).intersect(u).contains(v));
            assert(eval_seq(dag, x).to_set().intersect(u).contains(v) == denote(dag, x).intersect(u).contains(v));
        }
        assert(inter_all(dag, es).intersect(u) =~= denote_inter(dag, es).intersect(u));
    }
}

proof fn lemma_eval_within(dag: &Dag, e: ExprV)
    requires
        inters_have_operands(e),
    ensures
        eval_seq(dag, e).to_set().intersect(dag.vertices()) == denote(dag, e).intersect(dag.vertices()),
    decreases e,
{
    let edges = dag.edge_seq();
    let u = dag.vertices();
    match e {
        ExprV::All => {
            lemma_vertices_finite(dag);
            lemma_canon_finite(u);
            assert(u.intersect(u) =~= Set::<Vx>::full().intersect(u));
        },
        ExprV::Constant(v) => {
            vstd::seq_lib::seq_to_set_is_finite(v);
            lemma_canon_finite(v.to_set());
        },
        ExprV::Up { input, lo, hi } => {
            lemma_eval_within(dag, *input);
            law_eval_walk(dag, *input, lo, hi, true);
            let w = walk(edges, eval_seq(dag, *input).to_set(), lo, hi, true);
            assert(eval_seq(dag, e).to_set() =~= w) by {
                assert(e == walk_from(*input, lo, hi, true));
                assert forall|x: Vx| eval_seq(dag, e).to_set().contains(x) == w.contains(x) by {
                    assert(eval_seq(dag, e).contains(x) == eval_seq(dag, e).to_set().contains(x));
                }
            }
            lemma_walk_within(dag, eval_seq(dag, *input).to_set(), denote(dag, *input), lo, hi, true);
        },
        ExprV::Down { input, lo, hi } => {
            lemma_eval_within(dag, *input);
            law_eval_walk(dag, *input, lo, hi, false);
            let w = walk(edges, eval_seq(dag, *input).to_set(), lo, hi, false);
            assert(eval_seq(dag, e).to_set() =~= w) by {
                assert(e == walk_from(*input, lo, hi, false));
                assert forall|x: Vx| eval_seq(dag, e).to_set().contains(x) == w.contains(x) by {
                    assert(eval_seq(dag, e).contains(x) == eval_seq(dag, e).to_set().contains(x));
                }
            }
            lemma_walk_within(dag, eval_seq(dag, *input).to_set(), denote(dag, *input), lo, hi, false);
        },
        ExprV::Range { lo, hi } => {
            lemma_eval_within(dag, *lo);
            lemma_eval_within(dag, *hi);
            let a = eval_seq(dag, *lo).to_set();
            let b = eval_seq(dag, *hi).to_set();
            vstd::seq_lib::seq_to_set_is_finite(eval_seq(dag, *lo));
            lemma_walk_finite_any(edges, a, 0, None, true);
            let w = walk(edges, a, 0, None, true).intersect(walk(edges, b, 0, None, false));
            vstd::set_lib::lemma_len_subset(w, walk(edges, a, 0, None, true));
            lemma_canon_finite(w);
            lemma_walk_within(dag, a, denote(dag, *lo), 0, None, true);
            lemma_walk_within(dag, b, denote(dag, *hi), 0, None, false);
            assert(eval_seq(dag, e) == crate::sets::canon(w));
            let wa = walk(edges, denote(dag, *lo), 0, None, true);
            let wb = walk(edges, denote(dag, *hi), 0, None, false);
            assert(denote(dag, e) == wa.intersect(wb));
            assert forall|v: Vx| w.intersect(u).contains(v) == wa.intersect(wb).intersect(u).contains(v) by {
                assert(walk(edges, a, 0, None, true).intersect(u).contains(v) == wa.intersect(u).contains(v));
                assert(walk(edges, b, 0, None, false).intersect(u).contains(v) == wb.intersect(u).contains(v));
            }
            assert(eval_seq(dag, e).to_set().intersect(u) =~= denote(dag, e).intersect(u));
        },
        ExprV::Union(es) => {
            lemma_eval_union_finite(dag, es);
            lemma_canon_finite(eval_union(dag, es));
            lemma_union_within(dag, es);
        },
        ExprV::Intersection(es) => {
            lemma_eval_intersection(dag, es);
            lemma_inter_within(dag, es);
        },
        ExprV::Filter { input, label, value } => {
            lemma_eval_within(dag, *input);
            lemma_eval_filter(dag, *input, label, value);
            let ev = eval_seq(dag, *input).to_set();
            let dn = denote(dag, *input);
            let an = annotated(dag, label, value);
            assert(denote(dag, e) == dn.intersect(an));
            assert forall|v: Vx| ev.intersect(an).intersect(u).contains(v) == dn.intersect(an).intersect(u).contains(v) by {
                assert(ev.intersect(u).contains(v) == dn.intersect(u).contains(v));
            }
            assert(eval_seq(dag, e).to_set().intersect(u) =~= denote(dag, e).intersect(u));
        },
    }
}

/// Within the graph's vertices, the evaluator gives what a query denotes,
/// when every intersection in the query has an operand (the evaluator gives
/// nothing for an intersection without operands, which denotes every
/// vertex).
pub proof fn law_eval_denotes(dag: &Dag, e: ExprV)
    requires
        inters_have_operands(e),
    ensures
        eval_seq(dag, e).to_set().intersect(dag.vertices()) == denote(dag, e).intersect(dag.vertices()),
{
    lemma_eval_within(dag, e);
}

} // verus!
