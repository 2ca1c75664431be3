//! The rewrite keeps what the evaluator gives for a query.
use vstd::prelude::*;

use crate::dag::{Dag, Vx};
use crate::logical::{eval_inter, eval_seq, eval_union, walk, ExprV};
use crate::optimize::{
    add_hi, flatten_inter, flatten_union, fold_walk, hoistable, law_fold_walk, lemma_flatten_union_eval,
    lemma_walk_finite_any, opt_fuel, opt_seq, optimizable, optimized, select, wrap_filters, RewriteRules,
};
use crate::optimize::ends::lemma_select_size;
use crate::optimize::{law_fold_down, law_fold_up};
use crate::sets::{canon, keep_in, lemma_canon_finite, lemma_keep_in};

verus! {

/// Every intersection in the query has an operand, and every walk's upper
/// bound, when it has one, is at least its lower bound.
pub open spec fn well_posed(e: ExprV) -> bool
    decreases e,
{
    match e {
        ExprV::All => true,
        ExprV::Constant(_) => true,
        ExprV::Up { input, lo, hi } => (hi matches Some(h) ==> lo <= h) && well_posed(*input),
        ExprV::Down { input, lo, hi } => (hi matches Some(h) ==> lo <= h) && well_posed(*input),
        ExprV::Range { lo, hi } => well_posed(*lo) && well_posed(*hi),
        ExprV::Union(es) => forall|i: int| 0 <= i < es.len() ==> well_posed(#[trigger] es[i]),
        ExprV::Intersection(es) => es.len() > 0 && forall|i: int| 0 <= i < es.len() ==> well_posed(#[trigger] es[i]),
        ExprV::Filter { input, .. } => well_posed(*input),
    }
}

/// The vertices that carry `value` under `label` (none without the label).
pub open spec fn annotated(dag: &Dag, label: Seq<char>, value: Seq<char>) -> Set<Vx> {
    match dag.annotation(label) {
        Some(pairs) => Set::new(|v: Vx| pairs.contains((v, value))),
        None => Set::empty(),
    }
}

/// Every vertex that carries an annotation is a vertex of the graph.
pub open spec fn annotated_in_graph(dag: &Dag) -> bool {
    forall|label: Seq<char>, value: Seq<char>, v: Vx| #[trigger] annotated(dag, label, value).contains(v) ==> dag.all_seq().contains(v)
}

/// The vertices in the result of every query (every vertex at all for none).
pub open spec fn inter_all(dag: &Dag, es: Seq<ExprV>) -> Set<Vx>
    decreases es.len(),
{
    if es.len() == 0 {
        Set::full()
    } else {
        inter_all(dag, es.drop_last()).intersect(eval_seq(dag, es.last()).to_set())
    }
}

proof fn lemma_eval_inter_set(dag: &Dag, acc: Seq<Vx>, es: Seq<ExprV>)
    ensures
        eval_inter(dag, acc, es).to_set() == acc.to_set().intersect(inter_all(dag, es)),
    decreases es.len(),
{
    if es.len() == 0 {
        assert(acc.to_set().intersect(Set::full()) =~= acc.to_set());
    } else {
        let init = es.subrange(0, es.len() - 1);
        assert(init == es.drop_last());
        lemma_eval_inter_set(dag, acc, init);
        lemma_keep_in(eval_inter(dag, acc, init), eval_seq(dag, es[es.len() - 1]).to_set());
        assert(eval_inter(dag, acc, es).to_set() =~= acc.to_set().intersect(inter_all(dag, es)));
    }
}

proof fn lemma_inter_all_front(dag: &Dag, es: Seq<ExprV>)
    requires
        es.len() > 0,
    ensures
        inter_all(dag, es) == eval_seq(dag, es[0]).to_set().intersect(inter_all(dag, es.subrange(1, es.len() as int))),
    decreases es.len(),
{
    if es.len() == 1 {
        assert(es.subrange(1, 1) =~= Seq::<ExprV>::empty());
        assert(es.drop_last() =~= Seq::<ExprV>::empty());
        assert(inter_all(dag, Seq::<ExprV>::empty()) == Set::<Vx>::full());
        assert(es.last() == es[0]);
        assert(inter_all(dag, es) =~= eval_seq(dag, es[0]).to_set().intersect(Set::full()));
    } else {
        let d = es.drop_last();
        lemma_inter_all_front(dag, d);
        assert(d.subrange(1, d.len() as int) =~= es.subrange(1, es.len() as int).drop_last());
        assert(es.subrange(1, es.len() as int).last() == es.last());
        assert(inter_all(dag, es) =~= eval_seq(dag, es[0]).to_set().intersect(inter_all(dag, es.subrange(1, es.len() as int))));
    }
}

/// What an intersection with operands evaluates to.
pub(crate) proof fn lemma_eval_intersection(dag: &Dag, es: Seq<ExprV>)
    requires
        es.len() > 0,
    ensures
        eval_seq(dag, ExprV::Intersection(es)).to_set() == inter_all(dag, es),
{
    lemma_eval_inter_set(dag, eval_seq(dag, es[0]), es.subrange(1, es.len() as int));
    lemma_inter_all_front(dag, es);
}

proof fn lemma_inter_all_same(dag: &Dag, a: Seq<ExprV>, b: Seq<ExprV>)
    requires
        a.len() == b.len(),
        forall|i: int| 0 <= i < a.len() ==> eval_seq(dag, #[trigger] a[i]).to_set() == eval_seq(dag, b[i]).to_set(),
    ensures
        inter_all(dag, a) == inter_all(dag, b),
    decreases a.len(),
{
    if a.len() > 0 {
        let da = a.drop_last();
        let db = b.drop_last();
        assert forall|i: int| 0 <= i < da.len() implies eval_seq(dag, #[trigger] da[i]).to_set() == eval_seq(dag, db[i]).to_set() by {
            assert(da[i] == a[i] && db[i] == b[i]);
        }
        lemma_inter_all_same(dag, da, db);
        assert(a.last() == a[a.len() - 1]);
        assert(b.last() == b[b.len() - 1]);
    }
}

proof fn lemma_union_same(dag: &Dag, a: Seq<ExprV>, b: Seq<ExprV>)
    requires
        a.len() == b.len(),
        forall|i: int| 0 <= i < a.len() ==> eval_seq(dag, #[trigger] a[i]).to_set() == eval_seq(dag, b[i]).to_set(),
    ensures
        eval_union(dag, a) == eval_union(dag, b),
    decreases a.len(),
{
    if a.len() > 0 {
        let da = a.subrange(0, a.len() - 1);
        let db = b.subrange(0, b.len() - 1);
        assert forall|i: int| 0 <= i < da.len() implies eval_seq(dag, #[trigger] da[i]).to_set() == eval_seq(dag, db[i]).to_set() by {
            assert(da[i] == a[i] && db[i] == b[i]);
        }
        lemma_union_same(dag, da, db);
    }
}

proof fn lemma_inter_all_concat(dag: &Dag, a: Seq<ExprV>, b: Seq<ExprV>)
    ensures
        inter_all(dag, a + b) == inter_all(dag, a).intersect(inter_all(dag, b)),
    decreases b.len(),
{
    if b.len() == 0 {
        assert(a + b =~= a);
        assert(inter_all(dag, a).intersect(Set::full()) =~= inter_all(dag, a));
    } else {
        lemma_inter_all_concat(dag, a, b.drop_last());
        assert((a + b).drop_last() =~= a + b.drop_last());
        assert((a + b).last() == b.last());
        assert(inter_all(dag, a + b) =~= inter_all(dag, a).intersect(inter_all(dag, b)));
    }
}

proof fn lemma_inter_all_one(dag: &Dag, x: ExprV)
    ensures
        inter_all(dag, seq![x]) == eval_seq(dag, x).to_set(),
{
    assert(seq![x].drop_last() =~= Seq::<ExprV>::empty());
    assert(inter_all(dag, Seq::<ExprV>::empty()) == Set::<Vx>::full());
    assert(seq![x].last() == x);
    assert(inter_all(dag, seq![x]) =~= eval_seq(dag, x).to_set());
}

proof fn lemma_flatten_inter_all(dag: &Dag, os: Seq<ExprV>)
    requires
        forall|i: int| 0 <= i < os.len() && (#[trigger] os[i]) is Intersection ==> os[i]->Intersection_0.len() > 0,
    ensures
        inter_all(dag, flatten_inter(os)) == inter_all(dag, os),
    decreases os.len(),
{
    if os.len() > 0 {
        let d = os.drop_last();
        let x = os.last();
        assert forall|i: int| 0 <= i < d.len() && (#[trigger] d[i]) is Intersection implies d[i]->Intersection_0.len() > 0 by {
            assert(d[i] == os[i]);
        }
        lemma_flatten_inter_all(dag, d);
        let piece = match x {
            ExprV::Intersection(inner) => inner,
            y => seq![y],
        };
        assert(flatten_inter(os) == flatten_inter(d) + piece);
        lemma_inter_all_concat(dag, flatten_inter(d), piece);
        assert(os[os.len() - 1] == x);
        match x {
            ExprV::Intersection(inner) => {
                lemma_eval_intersection(dag, inner);
            },
            _ => {
                lemma_inter_all_one(dag, x);
            },
        }
    }
}

proof fn lemma_select_all(dag: &Dag, os: Seq<ExprV>)
    ensures
        inter_all(dag, os) == inter_all(dag, select(os, false)).intersect(inter_all(dag, select(os, true))),
    decreases os.len(),
{
    if os.len() == 0 {
        assert(Set::<Vx>::full().intersect(Set::full()) =~= Set::<Vx>::full());
    } else {
        let d = os.drop_last();
        let x = os.last();
        lemma_select_all(dag, d);
        if hoistable(x) {
            assert(select(os, true) == select(d, true).push(x));
            assert(select(os, true).drop_last() =~= select(d, true));
            assert(select(os, false) == select(d, false));
        } else {
            assert(select(os, false) == select(d, false).push(x));
            assert(select(os, false).drop_last() =~= select(d, false));
            assert(select(os, true) == select(d, true));
        }
        assert(inter_all(dag, os) =~= inter_all(dag, select(os, false)).intersect(inter_all(dag, select(os, true))));
    }
}

/// What a filter evaluates to.
pub(crate) proof fn lemma_eval_filter(dag: &Dag, input: ExprV, label: Seq<char>, value: Seq<char>)
    ensures
        eval_seq(dag, ExprV::Filter { input: Box::new(input), label, value }).to_set()
            == eval_seq(dag, input).to_set().intersect(annotated(dag, label, value)),
{
    let s = eval_seq(dag, input).to_set();
    vstd::seq_lib::seq_to_set_is_finite(eval_seq(dag, input));
    match dag.annotation(label) {
        Some(pairs) => {
            let f = s.filter(|v: Vx| pairs.contains((v, value)));
            vstd::set_lib::lemma_len_subset(f, s);
            lemma_canon_finite(f);
            assert(f =~= s.intersect(annotated(dag, label, value)));
        },
        None => {
            assert(Seq::<Vx>::empty().to_set() =~= s.intersect(annotated(dag, label, value)));
        },
    }
}

/// The vertices that carry each filter's annotation.
pub open spec fn ann_all(dag: &Dag, fs: Seq<ExprV>) -> Set<Vx>
    decreases fs.len(),
{
    if fs.len() == 0 {
        Set::full()
    } else {
        ann_all(dag, fs.drop_last()).intersect(match fs.last() {
            ExprV::Filter { input, label, value } => annotated(dag, label, value),
            _ => Set::full(),
        })
    }
}

proof fn lemma_wrap(dag: &Dag, b: ExprV, fs: Seq<ExprV>)
    requires
        forall|i: int| 0 <= i < fs.len() ==> hoistable(#[trigger] fs[i]),
    ensures
        eval_seq(dag, wrap_filters(b, fs)).to_set() == eval_seq(dag, b).to_set().intersect(ann_all(dag, fs)),
    decreases fs.len(),
{
    if fs.len() == 0 {
        assert(eval_seq(dag, b).to_set().intersect(Set::full()) =~= eval_seq(dag, b).to_set());
    } else {
        let d = fs.drop_last();
        assert forall|i: int| 0 <= i < d.len() implies hoistable(#[trigger] d[i]) by {
            assert(d[i] == fs[i]);
        }
        lemma_wrap(dag, b, d);
        assert(hoistable(fs[fs.len() - 1]));
        if let ExprV::Filter { input, label, value } = fs.last() {
            lemma_eval_filter(dag, wrap_filters(b, d), label, value);
            assert(eval_seq(dag, wrap_filters(b, fs)).to_set() =~= eval_seq(dag, b).to_set().intersect(ann_all(dag, fs)));
        }
    }
}

proof fn lemma_hoisted_all(dag: &Dag, fs: Seq<ExprV>)
    requires
        annotated_in_graph(dag),
        forall|i: int| 0 <= i < fs.len() ==> hoistable(#[trigger] fs[i]),
    ensures
        inter_all(dag, fs) == ann_all(dag, fs),
        fs.len() > 0 ==> ann_all(dag, fs).subset_of(dag.all_seq().to_set()),
    decreases fs.len(),
{
    if fs.len() > 0 {
        let d = fs.drop_last();
        assert forall|i: int| 0 <= i < d.len() implies hoistable(#[trigger] d[i]) by {
            assert(d[i] == fs[i]);
        }
        lemma_hoisted_all(dag, d);
        assert(hoistable(fs[fs.len() - 1]));
        if let ExprV::Filter { input, label, value } = fs.last() {
            lemma_eval_filter(dag, ExprV::All, label, value);
            assert(*input == ExprV::All);
            assert(eval_seq(dag, ExprV::All) == dag.all_seq());
            let a = annotated(dag, label, value);
            assert forall|v: Vx| #[trigger] a.contains(v) implies dag.all_seq().to_set().contains(v) by {
                assert(dag.all_seq().contains(v));
            }
            assert(inter_all(dag, fs) =~= ann_all(dag, fs));
        }
    }
}

spec fn all_posed(es: Seq<ExprV>) -> bool {
    forall|i: int| 0 <= i < es.len() ==> well_posed(#[trigger] es[i])
}

proof fn lemma_concat_posed(a: Seq<ExprV>, b: Seq<ExprV>)
    requires
        all_posed(a),
        all_posed(b),
    ensures
        all_posed(a + b),
{
    assert forall|i: int| 0 <= i < (a + b).len() implies well_posed(#[trigger] (a + b)[i]) by {
        if i < a.len() {
            assert((a + b)[i] == a[i]);
        } else {
            assert((a + b)[i] == b[i - a.len()]);
        }
    }
}

proof fn lemma_flatten_union_posed(os: Seq<ExprV>)
    requires
        all_posed(os),
    ensures
        all_posed(flatten_union(os)),
    decreases os.len(),
{
    if os.len() > 0 {
        let d = os.drop_last();
        assert forall|i: int| 0 <= i < d.len() implies well_posed(#[trigger] d[i]) by {
            assert(d[i] == os[i]);
        }
        lemma_flatten_union_posed(d);
        let x = os.last();
        assert(well_posed(os[os.len() - 1]));
        let piece = match x {
            ExprV::Union(inner) => inner,
            y => seq![y],
        };
        assert(all_posed(piece));
        lemma_concat_posed(flatten_union(d), piece);
        assert(flatten_union(os) == flatten_union(d) + piece);
    }
}

proof fn lemma_flatten_inter_posed(os: Seq<ExprV>)
    requires
        all_posed(os),
    ensures
        all_posed(flatten_inter(os)),
        os.len() > 0 ==> flatten_inter(os).len() > 0,
    decreases os.len(),
{
    if os.len() > 0 {
        let d = os.drop_last();
        assert forall|i: int| 0 <= i < d.len() implies well_posed(#[trigger] d[i]) by {
            assert(d[i] == os[i]);
        }
        lemma_flatten_inter_posed(d);
        let x = os.last();
        assert(well_posed(os[os.len() - 1]));
        let piece = match x {
            ExprV::Intersection(inner) => inner,
            y => seq![y],
        };
        assert(all_posed(piece));
        assert(piece.len() > 0);
        lemma_concat_posed(flatten_inter(d), piece);
        assert(flatten_inter(os) == flatten_inter(d) + piece);
    }
}

proof fn lemma_select_posed(os: Seq<ExprV>, want: bool)
    requires
        all_posed(os),
    ensures
        all_posed(select(os, want)),
    decreases os.len(),
{
    if os.len() > 0 {
        let d = os.drop_last();
        assert forall|i: int| 0 <= i < d.len() implies well_posed(#[trigger] d[i]) by {
            assert(d[i] == os[i]);
        }
        lemma_select_posed(d, want);
        assert(well_posed(os[os.len() - 1]));
        let t = select(os, want);
        assert forall|i: int| 0 <= i < t.len() implies well_posed(#[trigger] t[i]) by {
            if hoistable(os.last()) == want {
                assert(t == select(d, want).push(os.last()));
                if i < t.len() - 1 {
                    assert(t[i] == select(d, want)[i]);
                }
            } else {
                assert(t == select(d, want));
            }
        }
    }
}

proof fn lemma_wrap_posed(b: ExprV, fs: Seq<ExprV>)
    requires
        well_posed(b),
    ensures
        well_posed(wrap_filters(b, fs)),
    decreases fs.len(),
{
    if fs.len() > 0 {
        lemma_wrap_posed(b, fs.drop_last());
    }
}

proof fn lemma_seq_meaning(dag: &Dag, rules: RewriteRules, es: Seq<ExprV>, f: nat)
    requires
        all_posed(es),
        annotated_in_graph(dag),
        opt_seq(rules, es, f) is Some,
    ensures
        opt_seq(rules, es, f)->0.len() == es.len(),
        forall|i: int| 0 <= i < es.len() ==> eval_seq(dag, #[trigger] opt_seq(rules, es, f)->0[i]).to_set() == eval_seq(dag, es[i]).to_set(),
        all_posed(opt_seq(rules, es, f)->0),
    decreases f, es.len(),
{
    if es.len() > 0 {
        let d = es.drop_last();
        assert forall|i: int| 0 <= i < d.len() implies well_posed(#[trigger] d[i]) by {
            assert(d[i] == es[i]);
        }
        assert(well_posed(es[es.len() - 1]));
        lemma_seq_meaning(dag, rules, d, f);
        lemma_opt_meaning(dag, rules, es.last(), f);
        let a = opt_seq(rules, d, f)->0;
        let b = opt_fuel(rules, es.last(), f)->0;
        let os = a.push(b);
        assert(opt_seq(rules, es, f)->0 == os);
        assert forall|i: int| 0 <= i < es.len() implies eval_seq(dag, #[trigger] os[i]).to_set() == eval_seq(dag, es[i]).to_set() by {
            if i < es.len() - 1 {
                assert(os[i] == a[i]);
                assert(d[i] == es[i]);
            } else {
                assert(os[i] == b);
            }
        }
        assert forall|i: int| 0 <= i < os.len() implies well_posed(#[trigger] os[i]) by {
            if i < os.len() - 1 {
                assert(os[i] == a[i]);
            }
        }
    }
}

#[verifier::spinoff_prover]
#[verifier::rlimit(80)]
proof fn lemma_opt_meaning(dag: &Dag, rules: RewriteRules, e: ExprV, f: nat)
    requires
        well_posed(e),
        annotated_in_graph(dag),
        opt_fuel(rules, e, f) is Some,
    ensures
        eval_seq(dag, opt_fuel(rules, e, f)->0).to_set() == eval_seq(dag, e).to_set(),
        well_posed(opt_fuel(rules, e, f)->0),
    decreases f, 0nat,
{
    let g = (f - 1) as nat;
    let o = opt_fuel(rules, e, f)->0;
    match e {
        ExprV::All => {},
        ExprV::Constant(_) => {},
        ExprV::Up { input, lo, hi } => {
            lemma_opt_meaning(dag, rules, *input, g);
            let i = opt_fuel(rules, *input, g)->0;
            let plain = ExprV::Up { input: Box::new(i), lo, hi };
            assert(eval_seq(dag, plain) == eval_seq(dag, e));
            if rules.fold_up_up && i is Up {
                if let ExprV::Up { input: x, lo: ilo, hi: ihi } = i {
                    law_fold_up(dag, *x, ilo, ihi, lo, hi);
                    assert(plain == ExprV::Up { input: Box::new(ExprV::Up { input: x, lo: ilo, hi: ihi }), lo, hi });
                }
            }
        },
        ExprV::Down { input, lo, hi } => {
            lemma_opt_meaning(dag, rules, *input, g);
            let i = opt_fuel(rules, *input, g)->0;
            let plain = ExprV::Down { input: Box::new(i), lo, hi };
            assert(eval_seq(dag, plain) == eval_seq(dag, e));
            if rules.fold_down_down && i is Down {
                if let ExprV::Down { input: x, lo: ilo, hi: ihi } = i {
                    law_fold_down(dag, *x, ilo, ihi, lo, hi);
                    assert(plain == ExprV::Down { input: Box::new(ExprV::Down { input: x, lo: ilo, hi: ihi }), lo, hi });
                }
            }
        },
        ExprV::Range { lo, hi } => {
            lemma_opt_meaning(dag, rules, *lo, g);
            lemma_opt_meaning(dag, rules, *hi, g);
        },
        ExprV::Union(es) => {
            assert(all_posed(es));
            lemma_seq_meaning(dag, rules, es, g);
            let os = opt_seq(rules, es, g)->0;
            lemma_union_same(dag, os, es);
            if rules.flatten_union {
                lemma_flatten_union_eval(dag, os);
                lemma_flatten_union_posed(os);
            }
        },
        ExprV::Intersection(es) => {
            assert(all_posed(es));
            lemma_seq_meaning(dag, rules, es, g);
            let os = opt_seq(rules, es, g)->0;
            lemma_inter_all_same(dag, os, es);
            lemma_eval_intersection(dag, es);
            if os.len() == 1 {
                lemma_inter_all_one(dag, os[0]);
                assert(os =~= seq![os[0]]);
            } else if rules.flatten_intersection && exists|k: int| 0 <= k < os.len() && #[trigger] os[k] is Intersection {
                let fl = flatten_inter(os);
                lemma_flatten_inter_posed(os);
                assert forall|i: int| 0 <= i < os.len() && (#[trigger] os[i]) is Intersection implies os[i]->Intersection_0.len() > 0 by {
                    assert(well_posed(os[i]));
                }
                lemma_flatten_inter_all(dag, os);
                lemma_opt_meaning(dag, rules, ExprV::Intersection(fl), g);
                lemma_eval_intersection(dag, fl);
            } else if rules.intersection_to_filter && exists|k: int| 0 <= k < os.len() && hoistable(#[trigger] os[k]) {
                lemma_select_size(os);
                lemma_select_posed(os, false);
                let nh = select(os, false);
                let fs = select(os, true);
                let rest = ExprV::Intersection(nh);
                let b = opt_fuel(rules, rest, g)->0;
                lemma_wrap(dag, b, fs);
                lemma_select_all(dag, os);
                lemma_hoisted_all(dag, fs);
                if nh.len() > 0 {
                    lemma_opt_meaning(dag, rules, rest, g);
                    lemma_eval_intersection(dag, nh);
                } else {
                    assert(g > 0);
                    assert(opt_seq(rules, nh, (g - 1) as nat) == Some(Seq::<ExprV>::empty()));
                    assert(b == ExprV::All);
                    assert(nh =~= Seq::<ExprV>::empty());
                    assert(inter_all(dag, nh) == Set::<Vx>::full());
                    assert(eval_seq(dag, b).to_set() == dag.all_seq().to_set());
                }
                lemma_wrap_posed(b, fs);
                assert(eval_seq(dag, o).to_set() =~= eval_seq(dag, e).to_set());
            } else {
                lemma_eval_intersection(dag, os);
            }
        },
        ExprV::Filter { input, label, value } => {
            lemma_opt_meaning(dag, rules, *input, g);
            let i = opt_fuel(rules, *input, g)->0;
            lemma_eval_filter(dag, *input, label, value);
            lemma_eval_filter(dag, i, label, value);
        },
    }
}

/// On a graph whose annotated vertices are all vertices of the graph,
/// rewriting a query whose intersections all have operands and whose walks
/// all have bounds in order keeps the vertices the evaluator gives for it
/// (the evaluator gives nothing for an intersection without operands; see
/// `law_optimize_keeps_denotation` for the law without these conditions).
pub proof fn law_optimize_keeps_meaning(dag: &Dag, rules: RewriteRules, e: ExprV)
    requires
        well_posed(e),
        annotated_in_graph(dag),
        optimizable(rules, e),
    ensures
        eval_seq(dag, optimized(rules, e)).to_set() == eval_seq(dag, e).to_set(),
{
    let f = choose|f: nat| (#[trigger] opt_fuel(rules, e, f)) is Some;
    lemma_opt_meaning(dag, rules, e, f);
}

} // verus!
