//! The rewrite does not depend on how many steps it is allowed once it
//! finishes, and what follows from that: nested walks fold into one.
use vstd::prelude::*;

use crate::planner::expr::PlanV;
use crate::planner::rewrite::{
    add_hi, concat_consts, count_open, drop_trivial, first_yank, flatten, key_sorted, lead_consts, meet_consts, opt_fuel,
    opt_inter, opt_seq, opt_union, optimizable, optimized, preds_of, shared_preds, sort_by_key, strip_preds, unwrap_filters,
    walk_input, walks, RewriteRules,
};

verus! {

proof fn lemma_fuel_mono(rules: RewriteRules, e: PlanV, f: nat, g: nat)
    requires
        opt_fuel(rules, e, f) is Some,
        f <= g,
    ensures
        opt_fuel(rules, e, g) == opt_fuel(rules, e, f),
    decreases f, 2nat,
{
    let f1 = (f - 1) as nat;
    let g1 = (g - 1) as nat;
    match e {
        PlanV::Up { input, lo, hi } => {
            lemma_fuel_mono(rules, *input, f1, g1);
        },
        PlanV::Down { input, lo, hi } => {
            lemma_fuel_mono(rules, *input, f1, g1);
        },
        PlanV::Range { lo, hi } => {
            lemma_fuel_mono(rules, *lo, f1, g1);
            lemma_fuel_mono(rules, *hi, f1, g1);
        },
        PlanV::Union(es) => {
            lemma_seq_mono(rules, es, f1, g1);
            let os = opt_seq(rules, es, f1)->0;
            lemma_union_mono(rules, os, f1, g1);
        },
        PlanV::Intersection(es) => {
            lemma_seq_mono(rules, es, f1, g1);
            let os = opt_seq(rules, es, f1)->0;
            lemma_inter_mono(rules, os, f1, g1);
        },
        PlanV::Filter { input, preds } => {
            if preds.len() != 0 {
                match *input {
                    PlanV::Filter { input: inner, preds: inner_preds } => {
                        lemma_fuel_mono(rules, PlanV::Filter { input: inner, preds: preds + inner_preds }, f1, g1);
                    },
                    _ => {
                        lemma_fuel_mono(rules, *input, f1, g1);
                    },
                }
            }
        },
        _ => {},
    }
}

proof fn lemma_seq_mono(rules: RewriteRules, es: Seq<PlanV>, f: nat, g: nat)
    requires
        opt_seq(rules, es, f) is Some,
        f <= g,
    ensures
        opt_seq(rules, es, g) == opt_seq(rules, es, f),
    decreases f, 3 + es.len(),
{
    if es.len() > 0 {
        lemma_seq_mono(rules, es.drop_last(), f, g);
        lemma_fuel_mono(rules, es.last(), f, g);
    }
}

proof fn lemma_union_mono(rules: RewriteRules, os: Seq<PlanV>, f: nat, g: nat)
    requires
        opt_union(rules, os, f) is Some,
        f <= g,
    ensures
        opt_union(rules, os, g) == opt_union(rules, os, f),
    decreases f, 3nat,
{
    if rules.flatten_union && exists|k: int| 0 <= k < os.len() && #[trigger] os[k] is Union {
        lemma_fuel_mono(rules, PlanV::Union(flatten(os, true)), f, g);
    } else if os.len() <= 1 {
    } else if exists|k: int| 0 <= k < os.len() && #[trigger] os[k] is Nothing {
        lemma_fuel_mono(rules, PlanV::Union(drop_trivial(os, true)), f, g);
    } else if exists|k: int| 0 <= k < os.len() && #[trigger] os[k] is All {
    } else if !key_sorted(os, true) {
        lemma_fuel_mono(rules, PlanV::Union(sort_by_key(os, true)), f, g);
    } else if os[1] is Constant {
        let n = lead_consts(os);
        lemma_fuel_mono(rules, PlanV::Union(seq![PlanV::Constant(concat_consts(os, n))] + os.skip(n as int)), f, g);
    } else {
        match shared_preds(os) {
            Some(c) => if c.len() > 0 {
                lemma_fuel_mono(rules, PlanV::Filter { input: Box::new(PlanV::Union(strip_preds(os, c))), preds: c }, f, g);
            },
            None => {},
        }
    }
}

proof fn lemma_inter_mono(rules: RewriteRules, os: Seq<PlanV>, f: nat, g: nat)
    requires
        opt_inter(rules, os, f) is Some,
        f <= g,
    ensures
        opt_inter(rules, os, g) == opt_inter(rules, os, f),
    decreases f, 3nat,
{
    if os.len() <= 1 {
    } else if rules.flatten_intersection && exists|k: int| 0 <= k < os.len() && #[trigger] os[k] is Intersection {
        lemma_fuel_mono(rules, PlanV::Intersection(flatten(os, false)), f, g);
    } else if exists|k: int| 0 <= k < os.len() && #[trigger] os[k] is Nothing {
    } else if exists|k: int| 0 <= k < os.len() && #[trigger] os[k] is All {
        lemma_fuel_mono(rules, PlanV::Intersection(drop_trivial(os, false)), f, g);
    } else if !key_sorted(os, false) {
        lemma_fuel_mono(rules, PlanV::Intersection(sort_by_key(os, false)), f, g);
    } else if os[1] is Constant {
        let n = lead_consts(os);
        lemma_fuel_mono(rules, PlanV::Intersection(seq![PlanV::Constant(meet_consts(os, n))] + os.skip(n as int)), f, g);
    } else if count_open(os, true) == 1 && count_open(os, false) == 1 {
        let ud = walks(os, true);
        let (up, down) = if ud[0] is Down { (ud[1], ud[0]) } else { (ud[0], ud[1]) };
        if ud.len() >= 2 && up is Up && down is Down {
            lemma_fuel_mono(
                rules,
                PlanV::Intersection(walks(os, false).push(PlanV::Range { lo: Box::new(walk_input(up)), hi: Box::new(walk_input(down)) })),
                f,
                g,
            );
        }
    } else {
        match first_yank(os) {
            Some(y) => {
                let base = PlanV::Intersection(unwrap_filters(os, y + 1));
                lemma_fuel_mono(rules, base, f, g);
                let b = opt_fuel(rules, base, f)->0;
                lemma_fuel_mono(rules, PlanV::Filter { input: Box::new(b), preds: preds_of(os[y]) }, f, g);
            },
            None => {},
        }
    }
}

/// A walk up of `lo..hi` steps from `x`.
pub open spec fn up_walk(x: PlanV, lo: nat, hi: Option<nat>) -> PlanV {
    PlanV::Up { input: Box::new(x), lo, hi }
}

/// A walk down of `lo..hi` steps from `x`.
pub open spec fn down_walk(x: PlanV, lo: nat, hi: Option<nat>) -> PlanV {
    PlanV::Down { input: Box::new(x), lo, hi }
}

/// Once the rewrite of `e` finishes within some number of steps, that
/// rewrite is the rewrite of `e`: allowing more steps changes nothing.
pub proof fn law_optimized_any_fuel(rules: RewriteRules, e: PlanV, f: nat)
    requires
        opt_fuel(rules, e, f) is Some,
    ensures
        optimizable(rules, e),
        optimized(rules, e) == opt_fuel(rules, e, f)->0,
{
    let c = choose|c: nat| (#[trigger] opt_fuel(rules, e, c)) is Some;
    assert(opt_fuel(rules, e, c) is Some);
    if c <= f {
        lemma_fuel_mono(rules, e, c, f);
    } else {
        lemma_fuel_mono(rules, e, f, c);
    }
}

/// With `fold_up_up` on, a walk up of `l2..h2` steps from a walk up of
/// `l1..h1` steps from `x` rewrites to one walk up of `l1 + l2` to
/// `h1 + h2` steps (no upper bound when either has none) from the rewrite
/// of `x`, when that rewrite is no walk up itself and the sums fit in
/// `usize`.
pub proof fn law_fold_up_up(rules: RewriteRules, x: PlanV, l1: nat, h1: Option<nat>, l2: nat, h2: Option<nat>)
    requires
        rules.fold_up_up,
        optimizable(rules, x),
        !(optimized(rules, x) is Up),
        l1 + l2 <= usize::MAX,
        (add_hi(h1, h2) matches Some(h) ==> h <= usize::MAX),
    ensures
        optimizable(rules, up_walk(up_walk(x, l1, h1), l2, h2)),
        optimized(rules, up_walk(up_walk(x, l1, h1), l2, h2))
            == up_walk(optimized(rules, x), l1 + l2, add_hi(h1, h2)),
{
    let f = choose|f: nat| (#[trigger] opt_fuel(rules, x, f)) is Some;
    law_optimized_any_fuel(rules, x, f);
    let i = optimized(rules, x);
    let inner = PlanV::Up { input: Box::new(x), lo: l1, hi: h1 };
    let e = PlanV::Up { input: Box::new(inner), lo: l2, hi: h2 };
    assert(opt_fuel(rules, inner, f + 1) == Some(PlanV::Up { input: Box::new(i), lo: l1, hi: h1 }));
    assert(opt_fuel(rules, e, f + 2) == Some(PlanV::Up { input: Box::new(i), lo: l1 + l2, hi: add_hi(h1, h2) }));
    law_optimized_any_fuel(rules, e, f + 2);
}

/// With `fold_down_down` on, a walk down of `l2..h2` steps from a walk down
/// of `l1..h1` steps from `x` rewrites to one walk down of `l1 + l2` to
/// `h1 + h2` steps (no upper bound when either has none) from the rewrite
/// of `x`, when that rewrite is no walk down itself and the sums fit in
/// `usize`.
pub proof fn law_fold_down_down(rules: RewriteRules, x: PlanV, l1: nat, h1: Option<nat>, l2: nat, h2: Option<nat>)
    requires
        rules.fold_down_down,
        optimizable(rules, x),
        !(optimized(rules, x) is Down),
        l1 + l2 <= usize::MAX,
        (add_hi(h1, h2) matches Some(h) ==> h <= usize::MAX),
    ensures
        optimizable(rules, down_walk(down_walk(x, l1, h1), l2, h2)),
        optimized(rules, down_walk(down_walk(x, l1, h1), l2, h2))
            == down_walk(optimized(rules, x), l1 + l2, add_hi(h1, h2)),
{
    let f = choose|f: nat| (#[trigger] opt_fuel(rules, x, f)) is Some;
    law_optimized_any_fuel(rules, x, f);
    let i = optimized(rules, x);
    let inner = PlanV::Down { input: Box::new(x), lo: l1, hi: h1 };
    let e = PlanV::Down { input: Box::new(inner), lo: l2, hi: h2 };
    assert(opt_fuel(rules, inner, f + 1) == Some(PlanV::Down { input: Box::new(i), lo: l1, hi: h1 }));
    assert(opt_fuel(rules, e, f + 2) == Some(PlanV::Down { input: Box::new(i), lo: l1 + l2, hi: add_hi(h1, h2) }));
    law_optimized_any_fuel(rules, e, f + 2);
}

/// With `fold_up_up` off, a walk up over a walk up stays two walks, over the
/// rewrite of `x`, whatever the other rules are.
pub proof fn law_up_up_kept(rules: RewriteRules, x: PlanV, l1: nat, h1: Option<nat>, l2: nat, h2: Option<nat>)
    requires
        !rules.fold_up_up,
        optimizable(rules, x),
    ensures
        optimizable(rules, up_walk(up_walk(x, l1, h1), l2, h2)),
        optimized(rules, up_walk(up_walk(x, l1, h1), l2, h2)) == up_walk(up_walk(optimized(rules, x), l1, h1), l2, h2),
{
    let f = choose|f: nat| (#[trigger] opt_fuel(rules, x, f)) is Some;
    law_optimized_any_fuel(rules, x, f);
    let i = optimized(rules, x);
    let inner = up_walk(x, l1, h1);
    let e = up_walk(inner, l2, h2);
    assert(opt_fuel(rules, inner, f + 1) == Some(up_walk(i, l1, h1)));
    assert(opt_fuel(rules, e, f + 2) == Some(up_walk(up_walk(i, l1, h1), l2, h2)));
    law_optimized_any_fuel(rules, e, f + 2);
}

/// With `fold_down_down` off, a walk down over a walk down stays two walks,
/// over the rewrite of `x`, whatever the other rules are.
pub proof fn law_down_down_kept(rules: RewriteRules, x: PlanV, l1: nat, h1: Option<nat>, l2: nat, h2: Option<nat>)
    requires
        !rules.fold_down_down,
        optimizable(rules, x),
    ensures
        optimizable(rules, down_walk(down_walk(x, l1, h1), l2, h2)),
        optimized(rules, down_walk(down_walk(x, l1, h1), l2, h2)) == down_walk(down_walk(optimized(rules, x), l1, h1), l2, h2),
{
    let f = choose|f: nat| (#[trigger] opt_fuel(rules, x, f)) is Some;
    law_optimized_any_fuel(rules, x, f);
    let i = optimized(rules, x);
    let inner = down_walk(x, l1, h1);
    let e = down_walk(inner, l2, h2);
    assert(opt_fuel(rules, inner, f + 1) == Some(down_walk(i, l1, h1)));
    assert(opt_fuel(rules, e, f + 2) == Some(down_walk(down_walk(i, l1, h1), l2, h2)));
    law_optimized_any_fuel(rules, e, f + 2);
}

// ----- which plans the rewrite accepts -----

/// The plan holds no union and no intersection.
pub open spec fn set_free(p: PlanV) -> bool
    decreases p,
{
    match p {
        PlanV::Up { input, .. } => set_free(*input),
        PlanV::Down { input, .. } => set_free(*input),
        PlanV::Range { lo, hi } => set_free(*lo) && set_free(*hi),
        PlanV::Union(_) => false,
        PlanV::Intersection(_) => false,
        PlanV::Filter { input, .. } => set_free(*input),
        _ => true,
    }
}

/// The sum of the lower bounds of the plan's walks.
pub open spec fn lo_total(p: PlanV) -> nat
    decreases p,
{
    match p {
        PlanV::Up { input, lo, .. } => lo + lo_total(*input),
        PlanV::Down { input, lo, .. } => lo + lo_total(*input),
        PlanV::Range { lo, hi } => lo_total(*lo) + lo_total(*hi),
        PlanV::Filter { input, .. } => lo_total(*input),
        _ => 0,
    }
}

/// The sum of the upper bounds that the plan's walks have.
pub open spec fn hi_total(p: PlanV) -> nat
    decreases p,
{
    match p {
        PlanV::Up { input, hi, .. } => (match hi {
            Some(h) => h,
            None => 0,
        }) + hi_total(*input),
        PlanV::Down { input, hi, .. } => (match hi {
            Some(h) => h,
            None => 0,
        }) + hi_total(*input),
        PlanV::Range { lo, hi } => hi_total(*lo) + hi_total(*hi),
        PlanV::Filter { input, .. } => hi_total(*input),
        _ => 0,
    }
}

/// The number of nodes of a plan without unions or intersections.
pub open spec fn plan_size(p: PlanV) -> nat
    decreases p,
{
    match p {
        PlanV::Up { input, .. } => 1 + plan_size(*input),
        PlanV::Down { input, .. } => 1 + plan_size(*input),
        PlanV::Range { lo, hi } => 1 + plan_size(*lo) + plan_size(*hi),
        PlanV::Filter { input, .. } => 1 + plan_size(*input),
        _ => 1,
    }
}

proof fn lemma_accepts(rules: RewriteRules, p: PlanV)
    requires
        set_free(p),
        lo_total(p) <= usize::MAX,
        hi_total(p) <= usize::MAX,
    ensures
        opt_fuel(rules, p, plan_size(p)) is Some,
        set_free(opt_fuel(rules, p, plan_size(p))->0),
        lo_total(opt_fuel(rules, p, plan_size(p))->0) <= lo_total(p),
        hi_total(opt_fuel(rules, p, plan_size(p))->0) <= hi_total(p),
    decreases plan_size(p),
{
    let f = plan_size(p);
    let g = (f - 1) as nat;
    match p {
        PlanV::Up { input, lo, hi } => {
            lemma_accepts(rules, *input);
            lemma_fuel_mono(rules, *input, plan_size(*input), g);
            let i = opt_fuel(rules, *input, g)->0;
            let r = opt_fuel(rules, p, f)->0;
            assert(f == plan_size(*input) + 1);
            assert(lo_total(p) == lo + lo_total(*input));
            assert(hi_total(p) == (match hi {
                Some(h) => h,
                None => 0,
            }) + hi_total(*input));
            if rules.fold_up_up && i is Up {
                if let PlanV::Up { input: x, lo: ilo, hi: ihi } = i {
                    assert(lo_total(i) == ilo + lo_total(*x));
                    assert(hi_total(i) == (match ihi {
                        Some(h) => h,
                        None => 0,
                    }) + hi_total(*x));
                    assert(ilo + lo <= usize::MAX);
                    assert(!(add_hi(ihi, hi) matches Some(h) && h > usize::MAX));
                    assert(r == PlanV::Up { input: x, lo: ilo + lo, hi: add_hi(ihi, hi) });
                    assert(lo_total(r) == ilo + lo + lo_total(*x));
                    assert(hi_total(r) == (match add_hi(ihi, hi) {
                        Some(h) => h,
                        None => 0,
                    }) + hi_total(*x));
                }
            } else {
                assert(r == PlanV::Up { input: Box::new(i), lo, hi });
                assert(lo_total(r) == lo + lo_total(i));
                assert(hi_total(r) == (match hi {
                    Some(h) => h,
                    None => 0,
                }) + hi_total(i));
            }
        },
        PlanV::Down { input, lo, hi } => {
            lemma_accepts(rules, *input);
            lemma_fuel_mono(rules, *input, plan_size(*input), g);
            let i = opt_fuel(rules, *input, g)->0;
            let r = opt_fuel(rules, p, f)->0;
            assert(f == plan_size(*input) + 1);
            assert(lo_total(p) == lo + lo_total(*input));
            assert(hi_total(p) == (match hi {
                Some(h) => h,
                None => 0,
            }) + hi_total(*input));
            if rules.fold_down_down && i is Down {
                if let PlanV::Down { input: x, lo: ilo, hi: ihi } = i {
                    assert(lo_total(i) == ilo + lo_total(*x));
                    assert(hi_total(i) == (match ihi {
                        Some(h) => h,
                        None => 0,
                    }) + hi_total(*x));
                    assert(ilo + lo <= usize::MAX);
                    assert(!(add_hi(ihi, hi) matches Some(h) && h > usize::MAX));
                    assert(r == PlanV::Down { input: x, lo: ilo + lo, hi: add_hi(ihi, hi) });
                    assert(lo_total(r) == ilo + lo + lo_total(*x));
                    assert(hi_total(r) == (match add_hi(ihi, hi) {
                        Some(h) => h,
                        None => 0,
                    }) + hi_total(*x));
                }
            } else {
                assert(r == PlanV::Down { input: Box::new(i), lo, hi });
                assert(lo_total(r) == lo + lo_total(i));
                assert(hi_total(r) == (match hi {
                    Some(h) => h,
                    None => 0,
                }) + hi_total(i));
            }
        },
        PlanV::Range { lo, hi } => {
            lemma_accepts(rules, *lo);
            lemma_accepts(rules, *hi);
            lemma_fuel_mono(rules, *lo, plan_size(*lo), g);
            lemma_fuel_mono(rules, *hi, plan_size(*hi), g);
        },
        PlanV::Filter { input, preds } => {
            if preds.len() != 0 {
                match *input {
                    PlanV::Filter { input: inner, preds: inner_preds } => {
                        let merged = PlanV::Filter { input: inner, preds: preds + inner_preds };
                        assert(plan_size(*input) == 1 + plan_size(*inner));
                        assert(set_free(*input));
                        assert(set_free(*inner));
                        assert(lo_total(*input) == lo_total(*inner));
                        assert(hi_total(*input) == hi_total(*inner));
                        assert(plan_size(merged) == g);
                        lemma_accepts(rules, merged);
                    },
                    _ => {
                        lemma_accepts(rules, *input);
                        lemma_fuel_mono(rules, *input, plan_size(*input), g);
                    },
                }
            }
        },
        _ => {},
    }
}

/// The rewrite accepts every plan without unions or intersections whose
/// walks' lower bounds, and whose walks' upper bounds, each add up to at
/// most `usize::MAX`: no fold then leaves `usize`.
pub proof fn law_accepts_set_free(rules: RewriteRules, p: PlanV)
    requires
        set_free(p),
        lo_total(p) <= usize::MAX,
        hi_total(p) <= usize::MAX,
    ensures
        optimizable(rules, p),
{
    lemma_accepts(rules, p);
}

} // verus!
