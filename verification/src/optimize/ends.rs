//! The rewrite finishes on every query whose walk bounds add up to a `usize`.
use vstd::prelude::*;

use crate::logical::ExprV;
use crate::optimize::{
    flatten_inter, flatten_union, fold_walk, hoistable, opt_fuel, opt_seq, optimizable, select,
    wrap_filters, RewriteRules,
};

verus! {

/// How many nodes the query has.
pub open spec fn plan_size(e: ExprV) -> nat
    decreases e,
{
    match e {
        ExprV::All => 1,
        ExprV::Constant(_) => 1,
        ExprV::Up { input, .. } => 1 + plan_size(*input),
        ExprV::Down { input, .. } => 1 + plan_size(*input),
        ExprV::Range { lo, hi } => 1 + plan_size(*lo) + plan_size(*hi),
        ExprV::Union(es) => 1 + plan_sizes(es),
        ExprV::Intersection(es) => 1 + plan_sizes(es),
        ExprV::Filter { input, .. } => 1 + plan_size(*input),
    }
}

/// How many nodes the queries have together.
pub open spec fn plan_sizes(es: Seq<ExprV>) -> nat
    decreases es,
{
    if es.len() == 0 {
        0
    } else {
        plan_sizes(es.drop_last()) + plan_size(es[es.len() - 1])
    }
}

/// The sum of every walk bound in the query (an absent upper bound counts
/// nothing).
pub open spec fn bound_sum(e: ExprV) -> nat
    decreases e,
{
    match e {
        ExprV::All => 0,
        ExprV::Constant(_) => 0,
        ExprV::Up { input, lo, hi } => lo + match hi {
            Some(h) => h,
            None => 0,
        } + bound_sum(*input),
        ExprV::Down { input, lo, hi } => lo + match hi {
            Some(h) => h,
            None => 0,
        } + bound_sum(*input),
        ExprV::Range { lo, hi } => bound_sum(*lo) + bound_sum(*hi),
        ExprV::Union(es) => bound_sums(es),
        ExprV::Intersection(es) => bound_sums(es),
        ExprV::Filter { input, .. } => bound_sum(*input),
    }
}

/// The sum of every walk bound in the queries.
pub open spec fn bound_sums(es: Seq<ExprV>) -> nat
    decreases es,
{
    if es.len() == 0 {
        0
    } else {
        bound_sums(es.drop_last()) + bound_sum(es[es.len() - 1])
    }
}

proof fn lemma_sizes_concat(a: Seq<ExprV>, b: Seq<ExprV>)
    ensures
        plan_sizes(a + b) == plan_sizes(a) + plan_sizes(b),
        bound_sums(a + b) == bound_sums(a) + bound_sums(b),
    decreases b.len(),
{
    if b.len() == 0 {
        assert(a + b =~= a);
    } else {
        lemma_sizes_concat(a, b.drop_last());
        assert((a + b).drop_last() =~= a + b.drop_last());
        assert((a + b)[(a + b).len() - 1] == b[b.len() - 1]);
    }
}

proof fn lemma_sizes_one(x: ExprV)
    ensures
        plan_sizes(seq![x]) == plan_size(x),
        bound_sums(seq![x]) == bound_sum(x),
{
    let one = seq![x];
    assert(one.drop_last() =~= Seq::<ExprV>::empty());
    assert(plan_sizes(Seq::<ExprV>::empty()) == 0);
    assert(bound_sums(Seq::<ExprV>::empty()) == 0);
    assert(one[one.len() - 1] == x);
    assert(plan_sizes(one) == plan_sizes(one.drop_last()) + plan_size(one[one.len() - 1]));
    assert(bound_sums(one) == bound_sums(one.drop_last()) + bound_sum(one[one.len() - 1]));
}

proof fn lemma_flatten_inter_size(os: Seq<ExprV>)
    ensures
        plan_sizes(flatten_inter(os)) <= plan_sizes(os),
        (exists|k: int| 0 <= k < os.len() && #[trigger] os[k] is Intersection) ==> plan_sizes(flatten_inter(os)) < plan_sizes(os),
        bound_sums(flatten_inter(os)) == bound_sums(os),
    decreases os.len(),
{
    if os.len() > 0 {
        let d = os.drop_last();
        let x = os.last();
        lemma_flatten_inter_size(d);
        assert(os[os.len() - 1] == x);
        assert(plan_sizes(os) == plan_sizes(d) + plan_size(x));
        assert(bound_sums(os) == bound_sums(d) + bound_sum(x));
        let piece = match x {
            ExprV::Intersection(inner) => inner,
            y => seq![y],
        };
        lemma_sizes_concat(flatten_inter(d), piece);
        assert(flatten_inter(os) == flatten_inter(d) + piece);
        assert(os[os.len() - 1] == x);
        match x {
            ExprV::Intersection(inner) => {},
            _ => {
                lemma_sizes_one(x);
            },
        }
        if exists|k: int| 0 <= k < os.len() && #[trigger] os[k] is Intersection {
            let k = choose|k: int| 0 <= k < os.len() && #[trigger] os[k] is Intersection;
            if k < os.len() - 1 {
                assert(d[k] == os[k]);
            }
        }
    }
}

proof fn lemma_flatten_union_size(os: Seq<ExprV>)
    ensures
        plan_sizes(flatten_union(os)) <= plan_sizes(os),
        bound_sums(flatten_union(os)) == bound_sums(os),
    decreases os.len(),
{
    if os.len() > 0 {
        let d = os.drop_last();
        let x = os.last();
        lemma_flatten_union_size(d);
        assert(os[os.len() - 1] == x);
        assert(plan_sizes(os) == plan_sizes(d) + plan_size(x));
        assert(bound_sums(os) == bound_sums(d) + bound_sum(x));
        let piece = match x {
            ExprV::Union(inner) => inner,
            y => seq![y],
        };
        lemma_sizes_concat(flatten_union(d), piece);
        assert(flatten_union(os) == flatten_union(d) + piece);
        assert(os[os.len() - 1] == x);
        match x {
            ExprV::Union(inner) => {},
            _ => {
                lemma_sizes_one(x);
            },
        }
    }
}

pub(crate) proof fn lemma_select_size(os: Seq<ExprV>)
    ensures
        plan_sizes(select(os, false)) + plan_sizes(select(os, true)) == plan_sizes(os),
        bound_sums(select(os, false)) + bound_sums(select(os, true)) == bound_sums(os),
        plan_sizes(select(os, true)) == 2 * select(os, true).len(),
        bound_sums(select(os, true)) == 0,
        forall|i: int| 0 <= i < select(os, true).len() ==> hoistable(#[trigger] select(os, true)[i]),
        (exists|k: int| 0 <= k < os.len() && hoistable(#[trigger] os[k])) ==> select(os, true).len() > 0,
    decreases os.len(),
{
    if os.len() > 0 {
        let d = os.drop_last();
        let x = os.last();
        lemma_select_size(d);
        assert(os[os.len() - 1] == x);
        assert(plan_sizes(os) == plan_sizes(d) + plan_size(x));
        assert(bound_sums(os) == bound_sums(d) + bound_sum(x));
        let t = select(os, true);
        assert(os[os.len() - 1] == x);
        if hoistable(x) {
            assert(t == select(d, true).push(x));
            assert(t.drop_last() =~= select(d, true));
            assert(t[t.len() - 1] == x);
            assert(plan_sizes(t) == plan_sizes(select(d, true)) + plan_size(x));
            assert(bound_sums(t) == bound_sums(select(d, true)) + bound_sum(x));
            if let ExprV::Filter { input, .. } = x {
                assert(*input == ExprV::All);
                assert(plan_size(ExprV::All) == 1);
                assert(bound_sum(ExprV::All) == 0);
                assert(plan_size(x) == 2);
                assert(bound_sum(x) == 0);
            }
            assert(select(os, false) == select(d, false));
            assert forall|i: int| 0 <= i < t.len() implies hoistable(#[trigger] t[i]) by {
                if i < t.len() - 1 {
                    assert(t[i] == select(d, true)[i]);
                }
            }
        } else {
            let fl = select(os, false);
            assert(fl == select(d, false).push(x));
            assert(fl.drop_last() =~= select(d, false));
            assert(fl[fl.len() - 1] == x);
            assert(t == select(d, true));
            if exists|k: int| 0 <= k < os.len() && hoistable(#[trigger] os[k]) {
                let k = choose|k: int| 0 <= k < os.len() && hoistable(#[trigger] os[k]);
                assert(d[k] == os[k]);
            }
        }
    }
}

proof fn lemma_wrap_size(b: ExprV, fs: Seq<ExprV>)
    requires
        forall|i: int| 0 <= i < fs.len() ==> hoistable(#[trigger] fs[i]),
    ensures
        plan_size(wrap_filters(b, fs)) == plan_size(b) + fs.len(),
        bound_sum(wrap_filters(b, fs)) == bound_sum(b),
    decreases fs.len(),
{
    if fs.len() > 0 {
        let d = fs.drop_last();
        assert forall|i: int| 0 <= i < d.len() implies hoistable(#[trigger] d[i]) by {
            assert(d[i] == fs[i]);
        }
        lemma_wrap_size(b, d);
        assert(hoistable(fs[fs.len() - 1]));
    }
}

proof fn lemma_fold_ends(i: ExprV, lo: nat, hi: Option<nat>, outer: ExprV)
    requires
        i is Up || i is Down,
        outer == (if i is Up { ExprV::Up { input: Box::new(i), lo, hi } } else { ExprV::Down { input: Box::new(i), lo, hi } }),
        bound_sum(outer) <= usize::MAX,
    ensures
        fold_walk(i, lo, hi) matches Some(o) && plan_size(o) < plan_size(outer) && bound_sum(o) <= bound_sum(outer),
{
    match i {
        ExprV::Up { input, lo: ilo, hi: ihi } => {
            assert(bound_sum(outer) == lo + (match hi { Some(h) => h, None => 0nat }) + bound_sum(i));
            assert(bound_sum(i) == ilo + (match ihi { Some(h) => h, None => 0nat }) + bound_sum(*input));
            assert(plan_size(i) == 1 + plan_size(*input));
            assert(plan_size(outer) == 2 + plan_size(*input));
        },
        ExprV::Down { input, lo: ilo, hi: ihi } => {
            assert(bound_sum(outer) == lo + (match hi { Some(h) => h, None => 0nat }) + bound_sum(i));
            assert(bound_sum(i) == ilo + (match ihi { Some(h) => h, None => 0nat }) + bound_sum(*input));
            assert(plan_size(i) == 1 + plan_size(*input));
            assert(plan_size(outer) == 2 + plan_size(*input));
        },
        _ => {},
    }
}

proof fn lemma_seq_ends(rules: RewriteRules, es: Seq<ExprV>, f: nat)
    requires
        f >= plan_sizes(es),
        bound_sums(es) <= usize::MAX,
    ensures
        opt_seq(rules, es, f) matches Some(os) && os.len() == es.len() && plan_sizes(os) <= plan_sizes(es)
            && bound_sums(os) <= bound_sums(es),
    decreases f, es.len(),
{
    if es.len() > 0 {
        let d = es.drop_last();
        lemma_seq_ends(rules, d, f);
        lemma_ends(rules, es.last(), f);
        let a = opt_seq(rules, d, f)->0;
        let b = opt_fuel(rules, es.last(), f)->0;
        assert(a.push(b).drop_last() =~= a);
        assert(a.push(b)[a.push(b).len() - 1] == b);
    }
}

#[verifier::spinoff_prover]
#[verifier::rlimit(60)]
proof fn lemma_ends(rules: RewriteRules, e: ExprV, f: nat)
    requires
        f >= plan_size(e),
        bound_sum(e) <= usize::MAX,
    ensures
        opt_fuel(rules, e, f) matches Some(o) && plan_size(o) <= plan_size(e) && bound_sum(o) <= bound_sum(e),
    decreases f, 0nat,
{
    let g = (f - 1) as nat;
    match e {
        ExprV::All => {},
        ExprV::Constant(_) => {},
        ExprV::Up { input, lo, hi } => {
            lemma_ends(rules, *input, g);
            let i = opt_fuel(rules, *input, g)->0;
            if rules.fold_up_up && i is Up {
                lemma_fold_ends(i, lo, hi, ExprV::Up { input: Box::new(i), lo, hi });
            }
        },
        ExprV::Down { input, lo, hi } => {
            lemma_ends(rules, *input, g);
            let i = opt_fuel(rules, *input, g)->0;
            if rules.fold_down_down && i is Down {
                lemma_fold_ends(i, lo, hi, ExprV::Down { input: Box::new(i), lo, hi });
            }
        },
        ExprV::Range { lo, hi } => {
            lemma_ends(rules, *lo, g);
            lemma_ends(rules, *hi, g);
        },
        ExprV::Union(es) => {
            lemma_seq_ends(rules, es, g);
            let os = opt_seq(rules, es, g)->0;
            lemma_flatten_union_size(os);
        },
        ExprV::Intersection(es) => {
            lemma_seq_ends(rules, es, g);
            let os = opt_seq(rules, es, g)->0;
            if os.len() == 0 {
            } else if os.len() == 1 {
                assert(os.drop_last() =~= Seq::<ExprV>::empty());
            } else if rules.flatten_intersection && exists|k: int| 0 <= k < os.len() && #[trigger] os[k] is Intersection {
                lemma_flatten_inter_size(os);
                lemma_ends(rules, ExprV::Intersection(flatten_inter(os)), g);
            } else if rules.intersection_to_filter && exists|k: int| 0 <= k < os.len() && hoistable(#[trigger] os[k]) {
                lemma_select_size(os);
                let rest = ExprV::Intersection(select(os, false));
                lemma_ends(rules, rest, g);
                let b = opt_fuel(rules, rest, g)->0;
                lemma_wrap_size(b, select(os, true));
            }
        },
        ExprV::Filter { input, .. } => {
            lemma_ends(rules, *input, g);
        },
    }
}

/// The rewrite finishes on every query whose walk bounds add up to at most
/// `usize::MAX` (so that no folded bound can leave `usize`).
pub proof fn law_optimizable(rules: RewriteRules, e: ExprV)
    requires
        bound_sum(e) <= usize::MAX,
    ensures
        optimizable(rules, e),
{
    lemma_ends(rules, e, plan_size(e));
    assert(opt_fuel(rules, e, plan_size(e)) is Some);
}

} // verus!
