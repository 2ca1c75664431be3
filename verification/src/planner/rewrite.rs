//! Rewriting plans: folding walks, flattening, simplifying constants and
//! empty sets, sorting operands, merging a walk up and a walk down into a
//! range, and moving shared filters outwards.
use vstd::prelude::*;

use crate::dag::Vx;
use crate::planner::expr::{lemma_view_plans, view_plan, view_plans, view_preds, Expr, PlanV, PredV};
use crate::planner::vecs::{
    count_open_vec, drop_trivial_vec, flatten_vec, has_kind, is_key_sorted, kind_is, lead_consts_vec,
    lemma_view_plans_push, merge_consts, partition_walks, shared_preds_vec, sort_by_key_vec, strip_vec,
    yank_filters,
};
use crate::sets::{canon, sort_dedup};

verus! {

/// Which rewrites the planner applies.
#[derive(Debug, Clone, Copy)]
pub struct RewriteRules {
    pub fold_up_up: bool,
    pub fold_down_down: bool,
    pub flatten_union: bool,
    pub flatten_intersection: bool,
}

impl RewriteRules {
    /// Every rewrite on.
    pub fn all() -> (r: Self)
        ensures
            r.fold_up_up && r.fold_down_down && r.flatten_union && r.flatten_intersection,
    {
        Self { fold_up_up: true, fold_down_down: true, flatten_union: true, flatten_intersection: true }
    }

    /// Every rewrite off.
    pub fn none() -> (r: Self)
        ensures
            !r.fold_up_up && !r.fold_down_down && !r.flatten_union && !r.flatten_intersection,
    {
        Self { fold_up_up: false, fold_down_down: false, flatten_union: false, flatten_intersection: false }
    }
}

/// Rewrites plans by its rules.
#[derive(Debug, Clone)]
pub struct Planner {
    pub rules: RewriteRules,
}

impl Default for Planner {
    /// The planner with every rewrite on.
    fn default() -> (r: Self)
        ensures
            r.rules.fold_up_up && r.rules.fold_down_down && r.rules.flatten_union && r.rules.flatten_intersection,
    {
        Self { rules: RewriteRules::all() }
    }
}

// ----- pieces of the rewrite -----

pub open spec fn add_hi(a: Option<nat>, b: Option<nat>) -> Option<nat> {
    match (a, b) {
        (Some(x), Some(y)) => Some(x + y),
        _ => None,
    }
}

/// A walk of bounds `lo..hi` folded onto the inner walk `i` of the same
/// direction; none when a sum leaves `usize`.
pub open spec fn fold_walk(i: PlanV, lo: nat, hi: Option<nat>) -> Option<PlanV> {
    match i {
        PlanV::Up { input, lo: ilo, hi: ihi } => if ilo + lo > usize::MAX || (add_hi(ihi, hi) matches Some(h) && h > usize::MAX) {
            None
        } else {
            Some(PlanV::Up { input, lo: ilo + lo, hi: add_hi(ihi, hi) })
        },
        PlanV::Down { input, lo: ilo, hi: ihi } => if ilo + lo > usize::MAX || (add_hi(ihi, hi) matches Some(h) && h > usize::MAX) {
            None
        } else {
            Some(PlanV::Down { input, lo: ilo + lo, hi: add_hi(ihi, hi) })
        },
        _ => None,
    }
}

/// The operands with nested unions (`union`) or intersections spliced in.
pub open spec fn flatten(os: Seq<PlanV>, union: bool) -> Seq<PlanV>
    decreases os.len(),
{
    if os.len() == 0 {
        Seq::empty()
    } else {
        flatten(os.drop_last(), union) + match os.last() {
            PlanV::Union(inner) => if union { inner } else { seq![os.last()] },
            PlanV::Intersection(inner) => if union { seq![os.last()] } else { inner },
            x => seq![x],
        }
    }
}

/// The sort key of a union operand: constants first.
pub open spec fn union_key(e: PlanV) -> nat {
    if e is Constant { 0 } else { 1 }
}

/// The sort key of an intersection operand: constants, walks up, walks
/// down, then the rest.
pub open spec fn inter_key(e: PlanV) -> nat {
    match e {
        PlanV::Constant(_) => 0,
        PlanV::Up { .. } => 1,
        PlanV::Down { .. } => 2,
        _ => 3,
    }
}

/// The sort key of an operand of a union (`union`) or an intersection.
pub open spec fn key(e: PlanV, union: bool) -> nat {
    if union { union_key(e) } else { inter_key(e) }
}

/// The operands with key `k`, in order.
pub open spec fn with_key(os: Seq<PlanV>, union: bool, k: nat) -> Seq<PlanV>
    decreases os.len(),
{
    if os.len() == 0 {
        Seq::empty()
    } else if key(os.last(), union) == k {
        with_key(os.drop_last(), union, k).push(os.last())
    } else {
        with_key(os.drop_last(), union, k)
    }
}

/// The keys never decrease.
pub open spec fn key_sorted(os: Seq<PlanV>, union: bool) -> bool {
    forall|i: int, j: int| 0 <= i <= j < os.len() ==> key(#[trigger] os[i], union) <= key(#[trigger] os[j], union)
}

/// The operands stably sorted by key.
pub open spec fn sort_by_key(os: Seq<PlanV>, union: bool) -> Seq<PlanV> {
    if union {
        with_key(os, true, 0) + with_key(os, true, 1)
    } else {
        with_key(os, false, 0) + with_key(os, false, 1) + with_key(os, false, 2) + with_key(os, false, 3)
    }
}

/// The operands that are not `Nothing` (`nothing`) or not `All`, in order.
pub open spec fn drop_trivial(os: Seq<PlanV>, nothing: bool) -> Seq<PlanV>
    decreases os.len(),
{
    if os.len() == 0 {
        Seq::empty()
    } else if (nothing && os.last() is Nothing) || (!nothing && os.last() is All) {
        drop_trivial(os.drop_last(), nothing)
    } else {
        drop_trivial(os.drop_last(), nothing).push(os.last())
    }
}

/// How many operands at the front are constants.
pub open spec fn lead_consts(os: Seq<PlanV>) -> nat
    decreases os.len(),
{
    if os.len() > 0 && os[0] is Constant {
        1 + lead_consts(os.drop_first())
    } else {
        0
    }
}

/// The vertices of the constant `e` (none for another plan).
pub open spec fn const_vxs(e: PlanV) -> Seq<Vx> {
    match e {
        PlanV::Constant(v) => v,
        _ => Seq::empty(),
    }
}

/// The vertices of the first `n` operands, one after the other.
pub open spec fn concat_consts(os: Seq<PlanV>, n: nat) -> Seq<Vx>
    decreases n,
{
    if n == 0 {
        Seq::empty()
    } else {
        concat_consts(os, (n - 1) as nat) + const_vxs(os[n - 1])
    }
}

/// The elements of `a` that occur in `b`, in order.
pub open spec fn keep_vxs(a: Seq<Vx>, b: Seq<Vx>) -> Seq<Vx>
    decreases a.len(),
{
    if a.len() == 0 {
        a
    } else if b.contains(a.last()) {
        keep_vxs(a.drop_last(), b).push(a.last())
    } else {
        keep_vxs(a.drop_last(), b)
    }
}

/// The vertices of the first operand kept by each of the next `n - 1`.
pub open spec fn meet_consts(os: Seq<PlanV>, n: nat) -> Seq<Vx>
    decreases n,
{
    if n <= 1 {
        const_vxs(os[0])
    } else {
        keep_vxs(meet_consts(os, (n - 1) as nat), const_vxs(os[n - 1]))
    }
}

/// The predicates of `a` that occur in `b`, in order.
pub open spec fn keep_preds(a: Seq<PredV>, b: Seq<PredV>) -> Seq<PredV>
    decreases a.len(),
{
    if a.len() == 0 {
        a
    } else if b.contains(a.last()) {
        keep_preds(a.drop_last(), b).push(a.last())
    } else {
        keep_preds(a.drop_last(), b)
    }
}

/// The predicates of `a` that do not occur in `b`, in order.
pub open spec fn drop_preds(a: Seq<PredV>, b: Seq<PredV>) -> Seq<PredV>
    decreases a.len(),
{
    if a.len() == 0 {
        a
    } else if b.contains(a.last()) {
        drop_preds(a.drop_last(), b)
    } else {
        drop_preds(a.drop_last(), b).push(a.last())
    }
}

/// The predicates that every operand filters on (the first filter's order;
/// none shared once an operand is not a filter); none without operands.
pub open spec fn shared_preds(os: Seq<PlanV>) -> Option<Seq<PredV>>
    decreases os.len(),
{
    if os.len() == 0 {
        None
    } else {
        let acc = shared_preds(os.drop_last());
        match os.last() {
            PlanV::Filter { input, preds } => match acc {
                Some(a) => Some(keep_preds(a, preds)),
                None => Some(preds),
            },
            _ => Some(Seq::empty()),
        }
    }
}

/// Each filter operand without the predicates of `c`.
pub open spec fn strip_preds(os: Seq<PlanV>, c: Seq<PredV>) -> Seq<PlanV> {
    os.map_values(|e: PlanV| match e {
        PlanV::Filter { input, preds } => PlanV::Filter { input, preds: drop_preds(preds, c) },
        x => x,
    })
}

/// `e` is a walk up (`up`) or down from round 0 without end.
pub open spec fn open_walk(e: PlanV, up: bool) -> bool {
    match e {
        PlanV::Up { input, lo, hi } => up && lo == 0 && hi is None,
        PlanV::Down { input, lo, hi } => !up && lo == 0 && hi is None,
        _ => false,
    }
}

/// How many operands are open walks up (`up`) or down.
pub open spec fn count_open(os: Seq<PlanV>, up: bool) -> nat
    decreases os.len(),
{
    if os.len() == 0 {
        0
    } else {
        count_open(os.drop_last(), up) + if open_walk(os.last(), up) { 1nat } else { 0nat }
    }
}

/// The operands that are open walks, up or down (`want`), or that are not,
/// in order.
pub open spec fn walks(os: Seq<PlanV>, want: bool) -> Seq<PlanV>
    decreases os.len(),
{
    if os.len() == 0 {
        Seq::empty()
    } else if (open_walk(os.last(), true) || open_walk(os.last(), false)) == want {
        walks(os.drop_last(), want).push(os.last())
    } else {
        walks(os.drop_last(), want)
    }
}

/// The input of a walk.
pub open spec fn walk_input(e: PlanV) -> PlanV {
    match e {
        PlanV::Up { input, .. } => *input,
        PlanV::Down { input, .. } => *input,
        _ => e,
    }
}

/// The position of the first filter with predicates, if any.
pub open spec fn first_yank(os: Seq<PlanV>) -> Option<int>
    decreases os.len(),
{
    if os.len() == 0 {
        None
    } else if os[0] matches PlanV::Filter { input, preds } && preds.len() > 0 {
        Some(0)
    } else {
        match first_yank(os.drop_first()) {
            Some(k) => Some(k + 1),
            None => None,
        }
    }
}

/// The operands with each filter before position `upto` replaced by its
/// input.
pub open spec fn unwrap_filters(os: Seq<PlanV>, upto: int) -> Seq<PlanV> {
    Seq::new(os.len(), |k: int| if k < upto && os[k] is Filter { filter_input(os[k]) } else { os[k] })
}

/// The input of a filter.
pub open spec fn filter_input(e: PlanV) -> PlanV {
    match e {
        PlanV::Filter { input, .. } => *input,
        _ => e,
    }
}

/// The predicates of a filter.
pub open spec fn preds_of(e: PlanV) -> Seq<PredV> {
    match e {
        PlanV::Filter { preds, .. } => preds,
        _ => Seq::empty(),
    }
}

// ----- the rewrite -----

/// Each operand rewritten in order, if every rewrite ends.
pub open spec fn opt_seq(rules: RewriteRules, es: Seq<PlanV>, fuel: nat) -> Option<Seq<PlanV>>
    decreases fuel, 3 + es.len(),
{
    if es.len() == 0 {
        Some(Seq::empty())
    } else {
        match (opt_seq(rules, es.drop_last(), fuel), opt_fuel(rules, es.last(), fuel)) {
            (Some(a), Some(b)) => Some(a.push(b)),
            _ => None,
        }
    }
}

/// The rewrite of a union of the rewritten operands `os`.
pub open spec fn opt_union(rules: RewriteRules, os: Seq<PlanV>, f: nat) -> Option<PlanV>
    decreases f, 3nat,
{
    if rules.flatten_union && exists|k: int| 0 <= k < os.len() && #[trigger] os[k] is Union {
        opt_fuel(rules, PlanV::Union(flatten(os, true)), f)
    } else if os.len() == 0 {
        Some(PlanV::Nothing)
    } else if os.len() == 1 {
        Some(os[0])
    } else if exists|k: int| 0 <= k < os.len() && #[trigger] os[k] is Nothing {
        opt_fuel(rules, PlanV::Union(drop_trivial(os, true)), f)
    } else if exists|k: int| 0 <= k < os.len() && #[trigger] os[k] is All {
        Some(PlanV::All)
    } else if !key_sorted(os, true) {
        opt_fuel(rules, PlanV::Union(sort_by_key(os, true)), f)
    } else if os[1] is Constant {
        let n = lead_consts(os);
        opt_fuel(rules, PlanV::Union(seq![PlanV::Constant(concat_consts(os, n))] + os.skip(n as int)), f)
    } else {
        match shared_preds(os) {
            Some(c) => if c.len() > 0 {
                opt_fuel(rules, PlanV::Filter { input: Box::new(PlanV::Union(strip_preds(os, c))), preds: c }, f)
            } else {
                Some(PlanV::Union(os))
            },
            None => Some(PlanV::Union(os)),
        }
    }
}

/// The rewrite of an intersection of the rewritten operands `os`.
pub open spec fn opt_inter(rules: RewriteRules, os: Seq<PlanV>, f: nat) -> Option<PlanV>
    decreases f, 3nat,
{
    if os.len() == 0 {
        Some(PlanV::All)
    } else if os.len() == 1 {
        Some(os[0])
    } else if rules.flatten_intersection && exists|k: int| 0 <= k < os.len() && #[trigger] os[k] is Intersection {
        opt_fuel(rules, PlanV::Intersection(flatten(os, false)), f)
    } else if exists|k: int| 0 <= k < os.len() && #[trigger] os[k] is Nothing {
        Some(PlanV::Nothing)
    } else if exists|k: int| 0 <= k < os.len() && #[trigger] os[k] is All {
        opt_fuel(rules, PlanV::Intersection(drop_trivial(os, false)), f)
    } else if !key_sorted(os, false) {
        opt_fuel(rules, PlanV::Intersection(sort_by_key(os, false)), f)
    } else if os[1] is Constant {
        let n = lead_consts(os);
        opt_fuel(rules, PlanV::Intersection(seq![PlanV::Constant(meet_consts(os, n))] + os.skip(n as int)), f)
    } else if count_open(os, true) == 1 && count_open(os, false) == 1 {
        let ud = walks(os, true);
        let (up, down) = if ud[0] is Down { (ud[1], ud[0]) } else { (ud[0], ud[1]) };
        if ud.len() >= 2 && up is Up && down is Down {
            opt_fuel(
                rules,
                PlanV::Intersection(walks(os, false).push(PlanV::Range { lo: Box::new(walk_input(up)), hi: Box::new(walk_input(down)) })),
                f,
            )
        } else {
            None
        }
    } else {
        match first_yank(os) {
            Some(y) => match opt_fuel(rules, PlanV::Intersection(unwrap_filters(os, y + 1)), f) {
                Some(base) => opt_fuel(rules, PlanV::Filter { input: Box::new(base), preds: preds_of(os[y]) }, f),
                None => None,
            },
            None => Some(PlanV::Intersection(unwrap_filters(os, os.len() as int))),
        }
    }
}

/// The rewrite of `e` within `fuel` nested steps: none if the steps run
/// out, a folded bound leaves `usize`, or a merge of walks meets operands
/// it cannot pair.
pub open spec fn opt_fuel(rules: RewriteRules, e: PlanV, fuel: nat) -> Option<PlanV>
    decreases fuel, 2nat,
{
    if fuel == 0 {
        None
    } else {
        let f = (fuel - 1) as nat;
        match e {
            PlanV::Nothing => Some(PlanV::Nothing),
            PlanV::All => Some(PlanV::All),
            PlanV::Constant(v) => if v.len() == 0 {
                Some(PlanV::Nothing)
            } else {
                Some(PlanV::Constant(canon(v.to_set())))
            },
            PlanV::Up { input, lo, hi } => match opt_fuel(rules, *input, f) {
                None => None,
                Some(i) => if rules.fold_up_up && i is Up {
                    fold_walk(i, lo, hi)
                } else {
                    Some(PlanV::Up { input: Box::new(i), lo, hi })
                },
            },
            PlanV::Down { input, lo, hi } => match opt_fuel(rules, *input, f) {
                None => None,
                Some(i) => if rules.fold_down_down && i is Down {
                    fold_walk(i, lo, hi)
                } else {
                    Some(PlanV::Down { input: Box::new(i), lo, hi })
                },
            },
            PlanV::Range { lo, hi } => match (opt_fuel(rules, *lo, f), opt_fuel(rules, *hi, f)) {
                (Some(l), Some(h)) => Some(PlanV::Range { lo: Box::new(l), hi: Box::new(h) }),
                _ => None,
            },
            PlanV::Union(es) => match opt_seq(rules, es, f) {
                None => None,
                Some(os) => opt_union(rules, os, f),
            },
            PlanV::Intersection(es) => match opt_seq(rules, es, f) {
                None => None,
                Some(os) => opt_inter(rules, os, f),
            },
            PlanV::Filter { input, preds } => if preds.len() == 0 {
                Some(*input)
            } else {
                match *input {
                    PlanV::Filter { input: inner, preds: inner_preds } => opt_fuel(
                        rules,
                        PlanV::Filter { input: inner, preds: preds + inner_preds },
                        f,
                    ),
                    _ => match opt_fuel(rules, *input, f) {
                        None => None,
                        Some(i) => Some(PlanV::Filter { input: Box::new(i), preds }),
                    },
                }
            },
        }
    }
}

/// The rewrite finishes on `e`.
pub open spec fn optimizable(rules: RewriteRules, e: PlanV) -> bool {
    exists|f: nat| (#[trigger] opt_fuel(rules, e, f)) is Some
}

/// The rewrite of `e`.
pub open spec fn optimized(rules: RewriteRules, e: PlanV) -> PlanV {
    opt_fuel(rules, e, choose|f: nat| (#[trigger] opt_fuel(rules, e, f)) is Some)->0
}

/// `kind_is` and the variant tests agree.
proof fn lemma_kinds(os: Seq<PlanV>)
    ensures
        (exists|k: int| 0 <= k < os.len() && kind_is(#[trigger] os[k], 0)) == (exists|k: int| 0 <= k < os.len() && #[trigger] os[k] is Union),
        (exists|k: int| 0 <= k < os.len() && kind_is(#[trigger] os[k], 1)) == (exists|k: int| 0 <= k < os.len() && #[trigger] os[k] is Intersection),
        (exists|k: int| 0 <= k < os.len() && kind_is(#[trigger] os[k], 2)) == (exists|k: int| 0 <= k < os.len() && #[trigger] os[k] is Nothing),
        (exists|k: int| 0 <= k < os.len() && kind_is(#[trigger] os[k], 3)) == (exists|k: int| 0 <= k < os.len() && #[trigger] os[k] is All),
{
    assert forall|k: int| 0 <= k < os.len() implies (kind_is(#[trigger] os[k], 0) == (os[k] is Union) && kind_is(os[k], 1) == (os[k] is Intersection)
        && kind_is(os[k], 2) == (os[k] is Nothing) && kind_is(os[k], 3) == (os[k] is All)) by {
    }
}

impl Planner {
    /// Rewrites `expr` by the planner's rules (see `opt_fuel`).
    pub fn optimize(&self, expr: Expr) -> (r: Expr)
        requires
            optimizable(self.rules, expr@),
        ensures
            r@ == optimized(self.rules, expr@),
    {
        let ghost f = choose|f: nat| (#[trigger] opt_fuel(self.rules, expr@, f)) is Some;
        self.opt_rec(expr, Ghost(f))
    }

    fn opt_rec(&self, e: Expr, Ghost(fuel): Ghost<nat>) -> (r: Expr)
        requires
            opt_fuel(self.rules, e@, fuel) is Some,
        ensures
            r@ == opt_fuel(self.rules, e@, fuel)->0,
        decreases fuel, 2nat,
    {
        let ghost f = (fuel - 1) as nat;
        match e {
            Expr::Nothing => Expr::Nothing,
            Expr::All => Expr::All,
            Expr::Constant(v) => {
                if v.len() == 0 {
                    Expr::Nothing
                } else {
                    Expr::Constant(sort_dedup(&v))
                }
            },
            Expr::Up { input, lo, hi } => {
                let i = self.opt_rec(*input, Ghost(f));
                if self.rules.fold_up_up {
                    match i {
                        Expr::Up { input: inner, lo: ilo, hi: ihi } => {
                            let nhi = match (ihi, hi) {
                                (Some(a), Some(b)) => Some(a + b),
                                _ => None,
                            };
                            Expr::Up { input: inner, lo: ilo + lo, hi: nhi }
                        },
                        i => Expr::Up { input: Box::new(i), lo, hi },
                    }
                } else {
                    Expr::Up { input: Box::new(i), lo, hi }
                }
            },
            Expr::Down { input, lo, hi } => {
                let i = self.opt_rec(*input, Ghost(f));
                if self.rules.fold_down_down {
                    match i {
                        Expr::Down { input: inner, lo: ilo, hi: ihi } => {
                            let nhi = match (ihi, hi) {
                                (Some(a), Some(b)) => Some(a + b),
                                _ => None,
                            };
                            Expr::Down { input: inner, lo: ilo + lo, hi: nhi }
                        },
                        i => Expr::Down { input: Box::new(i), lo, hi },
                    }
                } else {
                    Expr::Down { input: Box::new(i), lo, hi }
                }
            },
            Expr::Range { lo, hi } => {
                let l = self.opt_rec(*lo, Ghost(f));
                let h = self.opt_rec(*hi, Ghost(f));
                Expr::Range { lo: Box::new(l), hi: Box::new(h) }
            },
            Expr::Union(inputs) => {
                let os = self.opt_each(inputs, Ghost(f));
                self.opt_union_vec(os, Ghost(f))
            },
            Expr::Intersection(inputs) => {
                let os = self.opt_each(inputs, Ghost(f));
                self.opt_inter_vec(os, Ghost(f))
            },
            Expr::Filter { input, preds } => {
                if preds.len() == 0 {
                    *input
                } else {
                    match *input {
                        Expr::Filter { input: inner, preds: mut inner_preds } => {
                            proof {
                                reveal_with_fuel(view_plan, 2);
                            }
                            let ghost ev = e@;
                            let mut all = preds;
                            let ghost (a, b) = (all@, inner_preds@);
                            proof {
                                assert(ev == PlanV::Filter {
                                    input: Box::new(PlanV::Filter { input: Box::new(view_plan(*inner)), preds: view_preds(b) }),
                                    preds: view_preds(a),
                                });
                                assert(view_preds(a).len() > 0);
                            }
                            all.append(&mut inner_preds);
                            proof {
                                assert(view_preds(all@) =~= view_preds(a) + view_preds(b));
                            }
                            self.opt_rec(Expr::Filter { input: inner, preds: all }, Ghost(f))
                        },
                        other => {
                            let i = self.opt_rec(other, Ghost(f));
                            Expr::Filter { input: Box::new(i), preds }
                        },
                    }
                }
            },
        }
    }

    /// Rewrites each operand, in order.
    fn opt_each(&self, inputs: Vec<Expr>, Ghost(f): Ghost<nat>) -> (r: Vec<Expr>)
        requires
            opt_seq(self.rules, view_plans(inputs@), f) is Some,
        ensures
            view_plans(r@) == opt_seq(self.rules, view_plans(inputs@), f)->0,
        decreases f, 3nat,
    {
        let ghost es = view_plans(inputs@);
        proof {
            lemma_view_plans(inputs@);
        }
        let mut rest = inputs;
        let mut out: Vec<Expr> = Vec::new();
        let ghost n = es.len();
        proof {
            assert(es.take(0) =~= Seq::<PlanV>::empty());
            assert(view_plans(out@) =~= Seq::<PlanV>::empty());
        }
        while rest.len() > 0
            invariant
                out@.len() + rest@.len() == n,
                n == es.len(),
                opt_seq(self.rules, es, f) is Some,
                forall|j: int| 0 <= j < rest@.len() ==> view_plan(#[trigger] rest@[j]) == es[out@.len() + j],
                opt_seq(self.rules, es.take(out@.len() as int), f) is Some,
                view_plans(out@) == opt_seq(self.rules, es.take(out@.len() as int), f)->0,
            decreases rest@.len(),
        {
            let ghost before = rest@;
            let ghost k = out@.len() as int;
            let x = rest.remove(0);
            proof {
                assert(view_plan(x) == es[k]);
                assert forall|j: int| 0 <= j < rest@.len() implies view_plan(#[trigger] rest@[j]) == es[k + 1 + j] by {
                    assert(rest@[j] == before[j + 1]);
                }
                lemma_opt_seq_prefix(self.rules, es, f, k + 1);
                let pre1 = es.take(k + 1);
                assert(pre1.drop_last() =~= es.take(k));
                assert(pre1.last() == es[k]);
            }
            let ghost o = out@;
            let y = self.opt_rec(x, Ghost(f));
            out.push(y);
            proof {
                lemma_view_plans_push(o, y);
            }
        }
        proof {
            assert(es.take(n as int) =~= es);
        }
        out
    }

    fn opt_union_vec(&self, os: Vec<Expr>, Ghost(f): Ghost<nat>) -> (r: Expr)
        requires
            opt_union(self.rules, view_plans(os@), f) is Some,
        ensures
            r@ == opt_union(self.rules, view_plans(os@), f)->0,
        decreases f, 3nat,
    {
        let ghost v = view_plans(os@);
        proof {
            lemma_view_plans(os@);
            lemma_kinds(v);
        }
        let mut os = os;
        if self.rules.flatten_union && has_kind(&os, 0) {
            return self.opt_rec(Expr::Union(flatten_vec(os, true)), Ghost(f));
        }
        if os.len() == 0 {
            return Expr::Nothing;
        }
        if os.len() == 1 {
            return os.remove(0);
        }
        if has_kind(&os, 2) {
            return self.opt_rec(Expr::Union(drop_trivial_vec(os, true)), Ghost(f));
        }
        if has_kind(&os, 3) {
            return Expr::All;
        }
        if !is_key_sorted(&os, true) {
            return self.opt_rec(Expr::Union(sort_by_key_vec(os, true)), Ghost(f));
        }
        if crate::planner::vecs::is_kind_pub(&os[1], 4) {
            let n = lead_consts_vec(&os);
            proof {
                assert(key(v[0], true) <= key(v[1], true));
                lemma_lead_two(v);
            }
            return self.opt_rec(Expr::Union(merge_consts(os, n, true)), Ghost(f));
        }
        match shared_preds_vec(&os) {
            Some(c) => {
                proof {
                    reveal_with_fuel(view_plan, 2);
                    assert(shared_preds(v) == Some(view_preds(c@)));
                    assert(view_preds(c@).len() == c@.len());
                    assert(!(v[1] is Constant));
                }
                if c.len() > 0 {
                    let stripped = strip_vec(os, &c);
                    return self.opt_rec(Expr::Filter { input: Box::new(Expr::Union(stripped)), preds: c }, Ghost(f));
                }
                Expr::Union(os)
            },
            None => Expr::Union(os),
        }
    }

    fn opt_inter_vec(&self, os: Vec<Expr>, Ghost(f): Ghost<nat>) -> (r: Expr)
        requires
            opt_inter(self.rules, view_plans(os@), f) is Some,
        ensures
            r@ == opt_inter(self.rules, view_plans(os@), f)->0,
        decreases f, 3nat,
    {
        let ghost v = view_plans(os@);
        proof {
            lemma_view_plans(os@);
            lemma_kinds(v);
        }
        let mut os = os;
        if os.len() == 0 {
            return Expr::All;
        }
        if os.len() == 1 {
            return os.remove(0);
        }
        if self.rules.flatten_intersection && has_kind(&os, 1) {
            return self.opt_rec(Expr::Intersection(flatten_vec(os, false)), Ghost(f));
        }
        if has_kind(&os, 2) {
            return Expr::Nothing;
        }
        if has_kind(&os, 3) {
            return self.opt_rec(Expr::Intersection(drop_trivial_vec(os, false)), Ghost(f));
        }
        if !is_key_sorted(&os, false) {
            return self.opt_rec(Expr::Intersection(sort_by_key_vec(os, false)), Ghost(f));
        }
        if crate::planner::vecs::is_kind_pub(&os[1], 4) {
            let n = lead_consts_vec(&os);
            proof {
                assert(key(v[0], false) <= key(v[1], false));
                lemma_lead_two(v);
            }
            return self.opt_rec(Expr::Intersection(merge_consts(os, n, false)), Ghost(f));
        }
        if count_open_vec(&os, true) == 1 && count_open_vec(&os, false) == 1 {
            let (mut ud, mut rest) = partition_walks(os);
            proof {
                lemma_view_plans(ud@);
            }
            let a = ud.remove(0);
            let b = ud.remove(0);
            let a_down = match &a {
                Expr::Down { .. } => true,
                _ => false,
            };
            let (up, down) = if a_down { (b, a) } else { (a, b) };
            match (up, down) {
                (Expr::Up { input: ui, .. }, Expr::Down { input: di, .. }) => {
                    let ghost o = rest@;
                    let range = Expr::Range { lo: ui, hi: di };
                    rest.push(range);
                    proof {
                        lemma_view_plans_push(o, range);
                    }
                    return self.opt_rec(Expr::Intersection(rest), Ghost(f));
                },
                _ => {
                    return Expr::All;
                },
            }
        }
        let (unwrapped, yanked) = yank_filters(os);
        match yanked {
            Some(preds) => {
                let base = self.opt_rec(Expr::Intersection(unwrapped), Ghost(f));
                self.opt_rec(Expr::Filter { input: Box::new(base), preds }, Ghost(f))
            },
            None => Expr::Intersection(unwrapped),
        }
    }
}

impl Expr {
    /// This plan rewritten by `planner`.
    pub fn optimize(self, planner: &Planner) -> (r: Self)
        requires
            optimizable(planner.rules, self@),
        ensures
            r@ == optimized(planner.rules, self@),
    {
        planner.optimize(self)
    }
}

proof fn lemma_opt_seq_prefix(rules: RewriteRules, es: Seq<PlanV>, f: nat, k: int)
    requires
        opt_seq(rules, es, f) is Some,
        0 <= k <= es.len(),
    ensures
        opt_seq(rules, es.take(k), f) is Some,
    decreases es.len(),
{
    if k < es.len() {
        lemma_opt_seq_prefix(rules, es.drop_last(), f, k);
        assert(es.drop_last().take(k) =~= es.take(k));
    } else {
        assert(es.take(k) =~= es);
    }
}

/// Two constants at the front when the second operand of key-sorted
/// operands is a constant.
proof fn lemma_lead_two(v: Seq<PlanV>)
    requires
        v.len() >= 2,
        v[1] is Constant,
        v[0] is Constant,
    ensures
        lead_consts(v) >= 2,
{
    reveal_with_fuel(lead_consts, 2);
    assert(v.drop_first()[0] == v[1]);
}

} // verus!
