//! The rewrite does not depend on how many steps it is allowed once it
//! finishes, and nested walks fold exactly as their own rule says.
use vstd::prelude::*;

use crate::logical::{walk_from, ExprV};
use crate::optimize::{add_hi, flatten_inter, opt_fuel, opt_seq, optimizable, optimized, select, RewriteRules};

verus! {

proof fn lemma_fuel_mono(rules: RewriteRules, e: ExprV, f: nat, g: nat)
    requires
        opt_fuel(rules, e, f) is Some,
        f <= g,
    ensures
        opt_fuel(rules, e, g) == opt_fuel(rules, e, f),
    decreases f, 0nat,
{
    let f1 = (f - 1) as nat;
    let g1 = (g - 1) as nat;
    match e {
        ExprV::Up { input, .. } => {
            lemma_fuel_mono(rules, *input, f1, g1);
        },
        ExprV::Down { input, .. } => {
            lemma_fuel_mono(rules, *input, f1, g1);
        },
        ExprV::Range { lo, hi } => {
            lemma_fuel_mono(rules, *lo, f1, g1);
            lemma_fuel_mono(rules, *hi, f1, g1);
        },
        ExprV::Union(es) => {
            lemma_seq_mono(rules, es, f1, g1);
        },
        ExprV::Intersection(es) => {
            lemma_seq_mono(rules, es, f1, g1);
            let os = opt_seq(rules, es, f1)->0;
            if os.len() > 1 {
                if rules.flatten_intersection && exists|k: int| 0 <= k < os.len() && #[trigger] os[k] is Intersection {
                    lemma_fuel_mono(rules, ExprV::Intersection(flatten_inter(os)), f1, g1);
                } else if rules.intersection_to_filter && exists|k: int| 0 <= k < os.len() && crate::optimize::hoistable(#[trigger] os[k]) {
                    lemma_fuel_mono(rules, ExprV::Intersection(select(os, false)), f1, g1);
                }
            }
        },
        ExprV::Filter { input, .. } => {
            lemma_fuel_mono(rules, *input, f1, g1);
        },
        _ => {},
    }
}

proof fn lemma_seq_mono(rules: RewriteRules, es: Seq<ExprV>, f: nat, g: nat)
    requires
        opt_seq(rules, es, f) is Some,
        f <= g,
    ensures
        opt_seq(rules, es, g) == opt_seq(rules, es, f),
    decreases f, es.len(),
{
    if es.len() > 0 {
        lemma_seq_mono(rules, es.drop_last(), f, g);
        lemma_fuel_mono(rules, es.last(), f, g);
    }
}

/// Once the rewrite of `e` finishes within some number of steps, that
/// rewrite is the rewrite of `e`: allowing more steps changes nothing.
pub proof fn law_optimized_any_fuel(rules: RewriteRules, e: ExprV, f: nat)
    requires
        opt_fuel(rules, e, f) is Some,
    ensures
        optimizable(rules, e),
        optimized(rules, e) == opt_fuel(rules, e, f)->0,
{
    let c = choose|c: nat| (#[trigger] opt_fuel(rules, e, c)) is Some;
    assert(opt_fuel(rules, e, c) is Some);
    if c <= f {
        lemma_fuel_mono(rules, e, c, f);
    } else {
        lemma_fuel_mono(rules, e, f, c);
    }
}

/// With the fold rule of a walk's direction on (`fold_up_up` for walks up,
/// `fold_down_down` for walks down), a walk of `l2..h2` steps from a walk of
/// `l1..h1` steps in the same direction from `x` rewrites to one walk of
/// `l1 + l2` to `h1 + h2` steps (no upper bound when either has none) from
/// the rewrite of `x`, when that rewrite is no walk in that direction and
/// the sums fit in `usize`; whatever the other rules are.
pub proof fn law_fold_nested_walks(rules: RewriteRules, x: ExprV, l1: nat, h1: Option<nat>, l2: nat, h2: Option<nat>, up: bool)
    requires
        if up { rules.fold_up_up } else { rules.fold_down_down },
        optimizable(rules, x),
        !(if up { optimized(rules, x) is Up } else { optimized(rules, x) is Down }),
        l1 + l2 <= usize::MAX,
        (add_hi(h1, h2) matches Some(h) ==> h <= usize::MAX),
    ensures
        optimizable(rules, walk_from(walk_from(x, l1, h1, up), l2, h2, up)),
        optimized(rules, walk_from(walk_from(x, l1, h1, up), l2, h2, up)) == walk_from(optimized(rules, x), l1 + l2, add_hi(h1, h2), up),
{
    let f = choose|f: nat| (#[trigger] opt_fuel(rules, x, f)) is Some;
    law_optimized_any_fuel(rules, x, f);
    let i = optimized(rules, x);
    let inner = walk_from(x, l1, h1, up);
    let e = walk_from(inner, l2, h2, up);
    assert(opt_fuel(rules, inner, f + 1) == Some(walk_from(i, l1, h1, up)));
    assert(opt_fuel(rules, e, f + 2) == Some(walk_from(i, l1 + l2, add_hi(h1, h2), up)));
    law_optimized_any_fuel(rules, e, f + 2);
}

/// With the fold rule of a walk's direction off, a walk over a walk in the
/// same direction stays two walks, over the rewrite of `x`, whatever the
/// other rules are.
pub proof fn law_nested_walks_kept(rules: RewriteRules, x: ExprV, l1: nat, h1: Option<nat>, l2: nat, h2: Option<nat>, up: bool)
    requires
        !(if up { rules.fold_up_up } else { rules.fold_down_down }),
        optimizable(rules, x),
    ensures
        optimizable(rules, walk_from(walk_from(x, l1, h1, up), l2, h2, up)),
        optimized(rules, walk_from(walk_from(x, l1, h1, up), l2, h2, up)) == walk_from(walk_from(optimized(rules, x), l1, h1, up), l2, h2, up),
{
    let f = choose|f: nat| (#[trigger] opt_fuel(rules, x, f)) is Some;
    law_optimized_any_fuel(rules, x, f);
    let i = optimized(rules, x);
    let inner = walk_from(x, l1, h1, up);
    let e = walk_from(inner, l2, h2, up);
    assert(opt_fuel(rules, inner, f + 1) == Some(walk_from(i, l1, h1, up)));
    assert(opt_fuel(rules, e, f + 2) == Some(walk_from(walk_from(i, l1, h1, up), l2, h2, up)));
    law_optimized_any_fuel(rules, e, f + 2);
}

} // verus!
