//! Rewriting queries into cheaper equivalent forms, and the constructors
//! that build queries.
use vstd::prelude::*;

pub mod ends;
pub mod fold;
pub mod denote;
pub mod meaning;

use crate::dag::Vx;
use crate::dag::Dag;
use crate::logical::{eval_seq, eval_union, in_bounds, lemma_view_exprs, reach, step, view_expr, view_exprs, walk, Expr, ExprV};
use crate::sets::{canon, lemma_canon_finite};

verus! {

/// Which rewrites the planner applies.
#[derive(Debug, Clone, Copy)]
pub struct RewriteRules {
    pub fold_up_up: bool,
    pub fold_down_down: bool,
    pub flatten_union: bool,
    pub flatten_intersection: bool,
    pub intersection_to_filter: bool,
}

impl RewriteRules {
    /// Every rewrite on.
    pub fn all() -> (r: Self)
        ensures
            r.fold_up_up && r.fold_down_down && r.flatten_union && r.flatten_intersection
                && r.intersection_to_filter,
    {
        Self {
            fold_up_up: true,
            fold_down_down: true,
            flatten_union: true,
            flatten_intersection: true,
            intersection_to_filter: true,
        }
    }

    /// Every rewrite off.
    pub fn none() -> (r: Self)
        ensures
            !r.fold_up_up && !r.fold_down_down && !r.flatten_union && !r.flatten_intersection
                && !r.intersection_to_filter,
    {
        Self {
            fold_up_up: false,
            fold_down_down: false,
            flatten_union: false,
            flatten_intersection: false,
            intersection_to_filter: false,
        }
    }
}

/// Rewrites queries by its rules.
#[derive(Debug, Clone)]
pub struct Planner {
    pub rules: RewriteRules,
}

impl Default for Planner {
    /// The planner with every rewrite on.
    fn default() -> (r: Self)
        ensures
            r.rules.fold_up_up && r.rules.fold_down_down && r.rules.flatten_union
                && r.rules.flatten_intersection && r.rules.intersection_to_filter,
    {
        Self { rules: RewriteRules::all() }
    }
}

// ----- the rewrite -----

/// The sum of two upper bounds; none (unbounded) if either is none.
pub open spec fn add_hi(a: Option<nat>, b: Option<nat>) -> Option<nat> {
    match (a, b) {
        (Some(x), Some(y)) => Some(x + y),
        _ => None,
    }
}

/// Folds a walk of bounds `lo..hi` onto the inner walk `i` of the same
/// direction; none when a sum leaves `usize`.
pub open spec fn fold_walk(i: ExprV, lo: nat, hi: Option<nat>) -> Option<ExprV> {
    match i {
        ExprV::Up { input, lo: ilo, hi: ihi } => if ilo + lo > usize::MAX || (add_hi(ihi, hi) matches Some(h) && h > usize::MAX) {
            None
        } else {
            Some(ExprV::Up { input, lo: ilo + lo, hi: add_hi(ihi, hi) })
        },
        ExprV::Down { input, lo: ilo, hi: ihi } => if ilo + lo > usize::MAX || (add_hi(ihi, hi) matches Some(h) && h > usize::MAX) {
            None
        } else {
            Some(ExprV::Down { input, lo: ilo + lo, hi: add_hi(ihi, hi) })
        },
        _ => None,
    }
}

/// The operands, with those that are themselves intersections spliced in.
pub open spec fn flatten_inter(os: Seq<ExprV>) -> Seq<ExprV>
    decreases os.len(),
{
    if os.len() == 0 {
        Seq::empty()
    } else {
        flatten_inter(os.drop_last()) + match os.last() {
            ExprV::Intersection(inner) => inner,
            x => seq![x],
        }
    }
}

/// The operands, with those that are themselves unions spliced in.
pub open spec fn flatten_union(os: Seq<ExprV>) -> Seq<ExprV>
    decreases os.len(),
{
    if os.len() == 0 {
        Seq::empty()
    } else {
        flatten_union(os.drop_last()) + match os.last() {
            ExprV::Union(inner) => inner,
            x => seq![x],
        }
    }
}

/// A filter over every vertex, which can move onto the other operands of an
/// intersection.
pub open spec fn hoistable(e: ExprV) -> bool {
    match e {
        ExprV::Filter { input, label, value } => *input == ExprV::All,
        _ => false,
    }
}

/// The operands that are (`want`) or are not hoistable filters, in order.
pub open spec fn select(os: Seq<ExprV>, want: bool) -> Seq<ExprV>
    decreases os.len(),
{
    if os.len() == 0 {
        Seq::empty()
    } else if hoistable(os.last()) == want {
        select(os.drop_last(), want).push(os.last())
    } else {
        select(os.drop_last(), want)
    }
}

/// `e` under each filter of `fs` in turn, the first innermost.
pub open spec fn wrap_filters(e: ExprV, fs: Seq<ExprV>) -> ExprV
    decreases fs.len(),
{
    if fs.len() == 0 {
        e
    } else {
        match fs.last() {
            ExprV::Filter { input, label, value } => ExprV::Filter {
                input: Box::new(wrap_filters(e, fs.drop_last())),
                label,
                value,
            },
            _ => wrap_filters(e, fs.drop_last()),
        }
    }
}

/// Each operand rewritten in order, if every rewrite ends.
pub open spec fn opt_seq(rules: RewriteRules, es: Seq<ExprV>, fuel: nat) -> Option<Seq<ExprV>>
    decreases fuel, es.len(),
{
    if es.len() == 0 {
        Some(Seq::empty())
    } else {
        match (opt_seq(rules, es.drop_last(), fuel), opt_fuel(rules, es.last(), fuel)) {
            (Some(a), Some(b)) => Some(a.push(b)),
            _ => None,
        }
    }
}

/// The rewrite of `e` within `fuel` nested steps: none if the steps run out
/// or a folded bound leaves `usize`.
pub open spec fn opt_fuel(rules: RewriteRules, e: ExprV, fuel: nat) -> Option<ExprV>
    decreases fuel, 0nat,
{
    if fuel == 0 {
        None
    } else {
        let f = (fuel - 1) as nat;
        match e {
            ExprV::All => Some(ExprV::All),
            ExprV::Constant(v) => Some(ExprV::Constant(v)),
            ExprV::Up { input, lo, hi } => match opt_fuel(rules, *input, f) {
                None => None,
                Some(i) => if rules.fold_up_up && i is Up {
                    fold_walk(i, lo, hi)
                } else {
                    Some(ExprV::Up { input: Box::new(i), lo, hi })
                },
            },
            ExprV::Down { input, lo, hi } => match opt_fuel(rules, *input, f) {
                None => None,
                Some(i) => if rules.fold_down_down && i is Down {
                    fold_walk(i, lo, hi)
                } else {
                    Some(ExprV::Down { input: Box::new(i), lo, hi })
                },
            },
            ExprV::Range { lo, hi } => match (opt_fuel(rules, *lo, f), opt_fuel(rules, *hi, f)) {
                (Some(l), Some(h)) => Some(ExprV::Range { lo: Box::new(l), hi: Box::new(h) }),
                _ => None,
            },
            ExprV::Union(es) => match opt_seq(rules, es, f) {
                None => None,
                Some(os) => Some(
                    if rules.flatten_union {
                        ExprV::Union(flatten_union(os))
                    } else {
                        ExprV::Union(os)
                    },
                ),
            },
            ExprV::Intersection(es) => match opt_seq(rules, es, f) {
                None => None,
                Some(os) => if os.len() == 0 {
                    Some(ExprV::All)
                } else if os.len() == 1 {
                    Some(os[0])
                } else if rules.flatten_intersection && exists|k: int| 0 <= k < os.len() && #[trigger] os[k] is Intersection {
                    opt_fuel(rules, ExprV::Intersection(flatten_inter(os)), f)
                } else if rules.intersection_to_filter && exists|k: int| 0 <= k < os.len() && hoistable(#[trigger] os[k]) {
                    match opt_fuel(rules, ExprV::Intersection(select(os, false)), f) {
                        None => None,
                        Some(b) => Some(wrap_filters(b, select(os, true))),
                    }
                } else {
                    Some(ExprV::Intersection(os))
                },
            },
            ExprV::Filter { input, label, value } => match opt_fuel(rules, *input, f) {
                None => None,
                Some(i) => Some(ExprV::Filter { input: Box::new(i), label, value }),
            },
        }
    }
}

/// The rewrite finishes on `e` (its steps end, and no folded bound leaves
/// `usize`).
pub open spec fn optimizable(rules: RewriteRules, e: ExprV) -> bool {
    exists|f: nat| (#[trigger] opt_fuel(rules, e, f)) is Some
}

/// The rewrite of `e`.
pub open spec fn optimized(rules: RewriteRules, e: ExprV) -> ExprV {
    opt_fuel(rules, e, choose|f: nat| (#[trigger] opt_fuel(rules, e, f)) is Some)->0
}

// ----- what a fold keeps -----

/// The vertices at the ends of the edges, on the side a step lands on.
spec fn landings(edges: Seq<(Vx, Vx)>, fwd: bool) -> Set<Vx> {
    Set::new(|v: Vx| exists|i: int| 0 <= i < edges.len() && (if fwd { edges[i].1 } else { edges[i].0 }) == v)
}

proof fn lemma_landings_finite(edges: Seq<(Vx, Vx)>, fwd: bool)
    ensures
        landings(edges, fwd).finite(),
{
    let ends = edges.map_values(|p: (Vx, Vx)| if fwd { p.1 } else { p.0 });
    assert(landings(edges, fwd) =~= ends.to_set()) by {
        assert forall|v: Vx| landings(edges, fwd).contains(v) implies ends.to_set().contains(v) by {
            let i = choose|i: int| 0 <= i < edges.len() && (if fwd { edges[i].1 } else { edges[i].0 }) == v;
            assert(ends[i] == v);
        }
        assert forall|v: Vx| ends.to_set().contains(v) implies landings(edges, fwd).contains(v) by {
            let i = choose|i: int| 0 <= i < ends.len() && ends[i] == v;
        }
    }
}

proof fn lemma_reach_within(edges: Seq<(Vx, Vx)>, s: Set<Vx>, d: nat, fwd: bool)
    ensures
        reach(edges, s, d, fwd).subset_of(s.union(landings(edges, fwd))),
{
    if d > 0 {
        assert forall|v: Vx| reach(edges, s, d, fwd).contains(v) implies s.union(landings(edges, fwd)).contains(v) by {
            let r = reach(edges, s, (d - 1) as nat, fwd);
            assert(step(edges, r, fwd).contains(v));
            if fwd {
                let i = choose|i: int| 0 <= i < edges.len() && edges[i].1 == v && r.contains(edges[i].0);
                assert(landings(edges, fwd).contains(v));
            } else {
                let i = choose|i: int| 0 <= i < edges.len() && edges[i].0 == v && r.contains(edges[i].1);
                assert(landings(edges, fwd).contains(v));
            }
        }
    }
}

/// A walk from finitely many vertices reaches finitely many.
pub(crate) proof fn lemma_walk_finite_any(edges: Seq<(Vx, Vx)>, s: Set<Vx>, lo: nat, hi: Option<nat>, fwd: bool)
    requires
        s.finite(),
    ensures
        walk(edges, s, lo, hi, fwd).finite(),
{
    let bound = s.union(landings(edges, fwd));
    lemma_landings_finite(edges, fwd);
    assert forall|v: Vx| walk(edges, s, lo, hi, fwd).contains(v) implies bound.contains(v) by {
        let d = choose|d: nat| in_bounds(d, lo, hi) && #[trigger] reach(edges, s, d, fwd).contains(v);
        lemma_reach_within(edges, s, d, fwd);
    }
    vstd::set_lib::lemma_len_subset(walk(edges, s, lo, hi, fwd), bound);
}

proof fn lemma_reach_add(edges: Seq<(Vx, Vx)>, s: Set<Vx>, d1: nat, d2: nat, fwd: bool)
    ensures
        reach(edges, s, d1 + d2, fwd) == reach(edges, reach(edges, s, d1, fwd), d2, fwd),
    decreases d2,
{
    if d2 > 0 {
        lemma_reach_add(edges, s, d1, (d2 - 1) as nat, fwd);
        assert((d1 + d2 - 1) as nat == d1 + (d2 - 1) as nat);
    }
}

proof fn lemma_reach_mono(edges: Seq<(Vx, Vx)>, a: Set<Vx>, b: Set<Vx>, d: nat, fwd: bool)
    requires
        a.subset_of(b),
    ensures
        reach(edges, a, d, fwd).subset_of(reach(edges, b, d, fwd)),
    decreases d,
{
    if d > 0 {
        lemma_reach_mono(edges, a, b, (d - 1) as nat, fwd);
        let ra = reach(edges, a, (d - 1) as nat, fwd);
        let rb = reach(edges, b, (d - 1) as nat, fwd);
        assert forall|v: Vx| step(edges, ra, fwd).contains(v) implies step(edges, rb, fwd).contains(v) by {
            if fwd {
                let i = choose|i: int| 0 <= i < edges.len() && edges[i].1 == v && ra.contains(edges[i].0);
                assert(rb.contains(edges[i].0));
            } else {
                let i = choose|i: int| 0 <= i < edges.len() && edges[i].0 == v && ra.contains(edges[i].1);
                assert(rb.contains(edges[i].1));
            }
        }
    }
}

proof fn lemma_reach_of_walk(edges: Seq<(Vx, Vx)>, s: Set<Vx>, a: nat, b: Option<nat>, d2: nat, fwd: bool, v: Vx)
    requires
        reach(edges, walk(edges, s, a, b, fwd), d2, fwd).contains(v),
    ensures
        exists|d1: nat| in_bounds(d1, a, b) && #[trigger] reach(edges, s, d1 + d2, fwd).contains(v),
    decreases d2,
{
    let w = walk(edges, s, a, b, fwd);
    if d2 == 0 {
        let d1 = choose|d1: nat| in_bounds(d1, a, b) && #[trigger] reach(edges, s, d1, fwd).contains(v);
        assert(d1 + d2 == d1);
    } else {
        let r = reach(edges, w, (d2 - 1) as nat, fwd);
        assert(step(edges, r, fwd).contains(v));
        let i = if fwd {
            choose|i: int| 0 <= i < edges.len() && edges[i].1 == v && r.contains(edges[i].0)
        } else {
            choose|i: int| 0 <= i < edges.len() && edges[i].0 == v && r.contains(edges[i].1)
        };
        let u = if fwd { edges[i].0 } else { edges[i].1 };
        lemma_reach_of_walk(edges, s, a, b, (d2 - 1) as nat, fwd, u);
        let d1 = choose|d1: nat| in_bounds(d1, a, b) && #[trigger] reach(edges, s, d1 + (d2 - 1) as nat, fwd).contains(u);
        let k = d1 + (d2 - 1) as nat;
        assert(k + 1 == d1 + d2);
        assert(step(edges, reach(edges, s, k, fwd), fwd).contains(v));
        assert(reach(edges, s, (d1 + d2) as nat, fwd) == step(edges, reach(edges, s, k, fwd), fwd));
    }
}

/// Walking `lo..=hi` steps from the vertices `ilo..=ihi` steps from `s` reaches
/// just what walking `ilo + lo ..= ihi + hi` steps from `s` does, when neither
/// pair of bounds is empty (an absent upper bound is no bound).
pub proof fn law_fold_walk(
    edges: Seq<(Vx, Vx)>,
    s: Set<Vx>,
    ilo: nat,
    ihi: Option<nat>,
    lo: nat,
    hi: Option<nat>,
    fwd: bool,
)
    requires
        ihi matches Some(h) ==> ilo <= h,
        hi matches Some(h) ==> lo <= h,
    ensures
        walk(edges, walk(edges, s, ilo, ihi, fwd), lo, hi, fwd) == walk(edges, s, ilo + lo, add_hi(ihi, hi), fwd),
{
    let inner = walk(edges, s, ilo, ihi, fwd);
    let lhs = walk(edges, inner, lo, hi, fwd);
    let rhs = walk(edges, s, ilo + lo, add_hi(ihi, hi), fwd);
    assert forall|v: Vx| lhs.contains(v) implies rhs.contains(v) by {
        let d2 = choose|d2: nat| in_bounds(d2, lo, hi) && #[trigger] reach(edges, inner, d2, fwd).contains(v);
        lemma_reach_of_walk(edges, s, ilo, ihi, d2, fwd, v);
        let d1 = choose|d1: nat| in_bounds(d1, ilo, ihi) && #[trigger] reach(edges, s, d1 + d2, fwd).contains(v);
        assert(in_bounds(d1 + d2, ilo + lo, add_hi(ihi, hi)));
    }
    assert forall|v: Vx| rhs.contains(v) implies lhs.contains(v) by {
        let k = choose|k: nat| in_bounds(k, ilo + lo, add_hi(ihi, hi)) && #[trigger] reach(edges, s, k, fwd).contains(v);
        let d1: nat = match hi {
            Some(h) => if k - ilo <= h { ilo } else { (k - h) as nat },
            None => ilo,
        };
        let d2: nat = (k - d1) as nat;
        assert(in_bounds(d1, ilo, ihi));
        assert(in_bounds(d2, lo, hi));
        lemma_reach_add(edges, s, d1, d2, fwd);
        assert(d1 + d2 == k);
        assert forall|u: Vx| reach(edges, s, d1, fwd).contains(u) implies inner.contains(u) by {
        }
        lemma_reach_mono(edges, reach(edges, s, d1, fwd), inner, d2, fwd);
    }
    assert(lhs =~= rhs);
}

/// Folding a walk up onto a walk up keeps what the query evaluates to, when
/// neither walk's bounds are empty.
pub proof fn law_fold_up(dag: &Dag, x: ExprV, ilo: nat, ihi: Option<nat>, lo: nat, hi: Option<nat>)
    requires
        ihi matches Some(h) ==> ilo <= h,
        hi matches Some(h) ==> lo <= h,
    ensures
        eval_seq(dag, ExprV::Up { input: Box::new(ExprV::Up { input: Box::new(x), lo: ilo, hi: ihi }), lo, hi })
            == eval_seq(dag, ExprV::Up { input: Box::new(x), lo: ilo + lo, hi: add_hi(ihi, hi) }),
{
    let e = dag.edge_seq();
    let s = eval_seq(dag, x).to_set();
    let w = walk(e, s, ilo, ihi, true);
    vstd::seq_lib::seq_to_set_is_finite(eval_seq(dag, x));
    lemma_walk_finite_any(e, s, ilo, ihi, true);
    lemma_canon_finite(w);
    law_fold_walk(e, s, ilo, ihi, lo, hi, true);
    assert(canon(w).to_set() == w);
    let inner = ExprV::Up { input: Box::new(x), lo: ilo, hi: ihi };
    assert(eval_seq(dag, inner) == canon(w));
    assert(eval_seq(dag, ExprV::Up { input: Box::new(inner), lo, hi }) == canon(walk(e, w, lo, hi, true)));
}

/// Folding a walk down onto a walk down keeps what the query evaluates to,
/// when neither walk's bounds are empty.
pub proof fn law_fold_down(dag: &Dag, x: ExprV, ilo: nat, ihi: Option<nat>, lo: nat, hi: Option<nat>)
    requires
        ihi matches Some(h) ==> ilo <= h,
        hi matches Some(h) ==> lo <= h,
    ensures
        eval_seq(dag, ExprV::Down { input: Box::new(ExprV::Down { input: Box::new(x), lo: ilo, hi: ihi }), lo, hi })
            == eval_seq(dag, ExprV::Down { input: Box::new(x), lo: ilo + lo, hi: add_hi(ihi, hi) }),
{
    let e = dag.edge_seq();
    let s = eval_seq(dag, x).to_set();
    let w = walk(e, s, ilo, ihi, false);
    vstd::seq_lib::seq_to_set_is_finite(eval_seq(dag, x));
    lemma_walk_finite_any(e, s, ilo, ihi, false);
    lemma_canon_finite(w);
    law_fold_walk(e, s, ilo, ihi, lo, hi, false);
    assert(canon(w).to_set() == w);
    let inner = ExprV::Down { input: Box::new(x), lo: ilo, hi: ihi };
    assert(eval_seq(dag, inner) == canon(w));
    assert(eval_seq(dag, ExprV::Down { input: Box::new(inner), lo, hi }) == canon(walk(e, w, lo, hi, false)));
}

proof fn lemma_eval_union_concat(dag: &Dag, a: Seq<ExprV>, b: Seq<ExprV>)
    ensures
        eval_union(dag, a + b) == eval_union(dag, a).union(eval_union(dag, b)),
    decreases b.len(),
{
    if b.len() == 0 {
        assert(a + b =~= a);
        assert(eval_union(dag, a).union(eval_union(dag, b)) =~= eval_union(dag, a));
    } else {
        let b1 = b.subrange(0, b.len() - 1);
        lemma_eval_union_concat(dag, a, b1);
        assert((a + b).subrange(0, (a + b).len() - 1) =~= a + b1);
        assert((a + b)[(a + b).len() - 1] == b[b.len() - 1]);
        assert(eval_union(dag, a + b) =~= eval_union(dag, a).union(eval_union(dag, b)));
    }
}

pub(crate) proof fn lemma_eval_union_finite(dag: &Dag, es: Seq<ExprV>)
    ensures
        eval_union(dag, es).finite(),
    decreases es.len(),
{
    if es.len() > 0 {
        lemma_eval_union_finite(dag, es.subrange(0, es.len() - 1));
        vstd::seq_lib::seq_to_set_is_finite(eval_seq(dag, es[es.len() - 1]));
    }
}

pub(crate) proof fn lemma_flatten_union_eval(dag: &Dag, os: Seq<ExprV>)
    ensures
        eval_union(dag, flatten_union(os)) == eval_union(dag, os),
    decreases os.len(),
{
    if os.len() > 0 {
        let init = os.drop_last();
        let x = os.last();
        lemma_flatten_union_eval(dag, init);
        let piece = match x {
            ExprV::Union(inner) => inner,
            y => seq![y],
        };
        lemma_eval_union_concat(dag, flatten_union(init), piece);
        assert(os.subrange(0, os.len() - 1) == init);
        match x {
            ExprV::Union(inner) => {
                lemma_eval_union_finite(dag, inner);
                lemma_canon_finite(eval_union(dag, inner));
                assert(eval_seq(dag, x) == canon(eval_union(dag, inner)));
            },
            _ => {
                assert(piece == seq![x]);
                assert(piece.subrange(0, 0) =~= Seq::<ExprV>::empty());
                assert(eval_union(dag, Seq::<ExprV>::empty()) == Set::<Vx>::empty());
                assert(eval_union(dag, piece) == eval_union(dag, piece.subrange(0, 0)).union(eval_seq(dag, piece[0]).to_set()));
                assert(eval_union(dag, piece) =~= eval_seq(dag, x).to_set());
            },
        }
    }
}

/// Splicing the operands of unions among a union's operands into it keeps
/// what the union evaluates to.
pub proof fn law_flatten_union(dag: &Dag, os: Seq<ExprV>)
    ensures
        eval_seq(dag, ExprV::Union(flatten_union(os))) == eval_seq(dag, ExprV::Union(os)),
{
    lemma_flatten_union_eval(dag, os);
}

impl Planner {
    /// Rewrites `expr` by the planner's rules: folds nested walks of one
    /// direction, splices nested unions and intersections, and moves filters
    /// over every vertex onto the other operands of an intersection.
    pub fn optimize(&self, expr: Expr) -> (r: Expr)
        requires
            optimizable(self.rules, expr@),
        ensures
            r@ == optimized(self.rules, expr@),
    {
        let ghost f = choose|f: nat| (#[trigger] opt_fuel(self.rules, expr@, f)) is Some;
        self.opt_rec(expr, Ghost(f))
    }

    fn opt_rec(&self, e: Expr, Ghost(fuel): Ghost<nat>) -> (r: Expr)
        requires
            opt_fuel(self.rules, e@, fuel) is Some,
        ensures
            r@ == opt_fuel(self.rules, e@, fuel)->0,
        decreases fuel, 0nat,
    {
        let ghost f = (fuel - 1) as nat;
        let ghost ev = e@;
        match e {
            Expr::All => Expr::All,
            Expr::Constant(v) => Expr::Constant(v),
            Expr::Up { input, lo, hi } => {
                let i = self.opt_rec(*input, Ghost(f));
                if self.rules.fold_up_up {
                    match i {
                        Expr::Up { input: inner, lo: ilo, hi: ihi } => {
                            let nlo = ilo + lo;
                            let nhi = match (ihi, hi) {
                                (Some(a), Some(b)) => Some(a + b),
                                _ => None,
                            };
                            Expr::Up { input: inner, lo: nlo, hi: nhi }
                        },
                        i => Expr::Up { input: Box::new(i), lo, hi },
                    }
                } else {
                    Expr::Up { input: Box::new(i), lo, hi }
                }
            },
            Expr::Down { input, lo, hi } => {
                let i = self.opt_rec(*input, Ghost(f));
                if self.rules.fold_down_down {
                    match i {
                        Expr::Down { input: inner, lo: ilo, hi: ihi } => {
                            let nlo = ilo + lo;
                            let nhi = match (ihi, hi) {
                                (Some(a), Some(b)) => Some(a + b),
                                _ => None,
                            };
                            Expr::Down { input: inner, lo: nlo, hi: nhi }
                        },
                        i => Expr::Down { input: Box::new(i), lo, hi },
                    }
                } else {
                    Expr::Down { input: Box::new(i), lo, hi }
                }
            },
            Expr::Range { lo, hi } => {
                let l = self.opt_rec(*lo, Ghost(f));
                let h = self.opt_rec(*hi, Ghost(f));
                Expr::Range { lo: Box::new(l), hi: Box::new(h) }
            },
            Expr::Union(inputs) => {
                let os = self.opt_each(inputs, Ghost(f));
                if self.rules.flatten_union {
                    let flat = splice(os, false);
                    Expr::Union(flat)
                } else {
                    Expr::Union(os)
                }
            },
            Expr::Intersection(inputs) => {
                let mut os = self.opt_each(inputs, Ghost(f));
                let ghost osv = view_exprs(os@);
                proof {
                    lemma_view_exprs(os@);
                }
                if os.len() == 0 {
                    return Expr::All;
                }
                if os.len() == 1 {
                    return os.remove(0);
                }
                if self.rules.flatten_intersection {
                    if any_intersection(&os) {
                        let flat = splice(os, true);
                        return self.opt_rec(Expr::Intersection(flat), Ghost(f));
                    }
                }
                if self.rules.intersection_to_filter {
                    if any_hoistable(&os) {
                        let (hoisted, base) = partition_hoistable(os);
                        let mut expr = self.opt_rec(Expr::Intersection(base), Ghost(f));
                        let mut k: usize = 0;
                        let ghost hv = view_exprs(hoisted@);
                        proof {
                            lemma_view_exprs(hoisted@);
                            assert(hoisted@.len() == hoisted.len());
                            assert(hv.subrange(0, 0) =~= Seq::<ExprV>::empty());
                        }
                        let ghost b0 = expr@;
                        let mut hs = hoisted;
                        while hs.len() > 0
                            invariant
                                k + hs@.len() == hv.len(),
                                hv.len() == view_exprs(hoisted@).len(),
                                hv.len() <= usize::MAX,
                                forall|j: int| 0 <= j < hs@.len() ==> view_expr(#[trigger] hs@[j]) == hv[k + j],
                                expr@ == wrap_filters(b0, hv.subrange(0, k as int)),
                            decreases hs@.len(),
                        {
                            let ghost before = hs@;
                            let filter = hs.remove(0);
                            proof {
                                assert(view_expr(filter) == hv[k as int]);
                                assert forall|j: int| 0 <= j < hs@.len() implies view_expr(#[trigger] hs@[j]) == hv[k + 1 + j] by {
                                    assert(hs@[j] == before[j + 1]);
                                }
                                assert(hv.subrange(0, k + 1).drop_last() =~= hv.subrange(0, k as int));
                            }
                            match filter {
                                Expr::Filter { input: _, label, value } => {
                                    expr = Expr::Filter { input: Box::new(expr), label, value };
                                },
                                _ => {},
                            }
                            k = k + 1;
                        }
                        proof {
                            assert(hv.subrange(0, k as int) =~= hv);
                        }
                        return expr;
                    }
                }
                Expr::Intersection(os)
            },
            Expr::Filter { input, label, value } => {
                let i = self.opt_rec(*input, Ghost(f));
                Expr::Filter { input: Box::new(i), label, value }
            },
        }
    }

    /// Rewrites each operand, in order.
    fn opt_each(&self, inputs: Vec<Expr>, Ghost(f): Ghost<nat>) -> (r: Vec<Expr>)
        requires
            opt_seq(self.rules, view_exprs(inputs@), f) is Some,
        ensures
            view_exprs(r@) == opt_seq(self.rules, view_exprs(inputs@), f)->0,
        decreases f, 1nat,
    {
        let ghost es = view_exprs(inputs@);
        proof {
            lemma_view_exprs(inputs@);
        }
        let mut rest = inputs;
        let mut out: Vec<Expr> = Vec::new();
        let ghost n = es.len();
        proof {
            lemma_view_exprs(out@);
            assert(es.subrange(0, 0) =~= Seq::<ExprV>::empty());
        }
        while rest.len() > 0
            invariant
                out@.len() + rest@.len() == n,
                n == es.len(),
                opt_seq(self.rules, es, f) is Some,
                forall|j: int| 0 <= j < rest@.len() ==> view_expr(#[trigger] rest@[j]) == es[out@.len() + j],
                opt_seq(self.rules, es.subrange(0, out@.len() as int), f) is Some,
                view_exprs(out@) == opt_seq(self.rules, es.subrange(0, out@.len() as int), f)->0,
            decreases rest@.len(),
        {
            let ghost before = rest@;
            let ghost k = out@.len() as int;
            let x = rest.remove(0);
            proof {
                assert(view_expr(x) == es[k]);
                assert forall|j: int| 0 <= j < rest@.len() implies view_expr(#[trigger] rest@[j]) == es[k + 1 + j] by {
                    assert(rest@[j] == before[j + 1]);
                }
                lemma_opt_seq_prefix(self.rules, es, f, k + 1);
                let pre1 = es.subrange(0, k + 1);
                assert(pre1.drop_last() =~= es.subrange(0, k));
                assert(pre1.last() == es[k]);
            }
            let ghost o = out@;
            let y = self.opt_rec(x, Ghost(f));
            out.push(y);
            proof {
                lemma_view_exprs_add(o, seq![y]);
                lemma_view_exprs(seq![y]);
                assert(view_exprs(seq![y]) =~= seq![view_expr(y)]);
                assert(o + seq![y] =~= out@);
            }
        }
        proof {
            assert(es.subrange(0, n as int) =~= es);
        }
        out
    }
}

proof fn lemma_opt_seq_prefix(rules: RewriteRules, es: Seq<ExprV>, f: nat, k: int)
    requires
        opt_seq(rules, es, f) is Some,
        0 <= k <= es.len(),
    ensures
        opt_seq(rules, es.subrange(0, k), f) is Some,
    decreases es.len(),
{
    if k < es.len() {
        lemma_opt_seq_prefix(rules, es.drop_last(), f, k);
        assert(es.drop_last().subrange(0, k) =~= es.subrange(0, k));
    } else {
        assert(es.subrange(0, k) =~= es);
    }
}

/// Whether some operand is an intersection.
fn any_intersection(os: &Vec<Expr>) -> (r: bool)
    ensures
        r == exists|k: int| 0 <= k < view_exprs(os@).len() && #[trigger] view_exprs(os@)[k] is Intersection,
{
    proof {
        lemma_view_exprs(os@);
    }
    let mut i: usize = 0;
    while i < os.len()
        invariant
            i <= os.len(),
            view_exprs(os@).len() == os@.len(),
            forall|k: int| 0 <= k < os@.len() ==> #[trigger] view_exprs(os@)[k] == view_expr(os@[k]),
            forall|k: int| 0 <= k < i ==> !(#[trigger] view_exprs(os@)[k] is Intersection),
        decreases os.len() - i,
    {
        if let Expr::Intersection(_) = &os[i] {
            proof {
                assert(view_exprs(os@)[i as int] is Intersection);
            }
            return true;
        }
        proof {
            assert(!(view_exprs(os@)[i as int] is Intersection));
        }
        i = i + 1;
    }
    false
}

/// Whether the expression is a filter over every vertex.
fn is_hoistable(e: &Expr) -> (r: bool)
    ensures
        r == hoistable(view_expr(*e)),
{
    proof {
        reveal_with_fuel(view_expr, 2);
    }
    match e {
        Expr::Filter { input, label: _, value: _ } => match &**input {
            Expr::All => true,
            _ => false,
        },
        _ => false,
    }
}

/// Whether some operand is a filter over every vertex.
fn any_hoistable(os: &Vec<Expr>) -> (r: bool)
    ensures
        r == exists|k: int| 0 <= k < view_exprs(os@).len() && hoistable(#[trigger] view_exprs(os@)[k]),
{
    proof {
        lemma_view_exprs(os@);
    }
    let mut i: usize = 0;
    while i < os.len()
        invariant
            i <= os.len(),
            view_exprs(os@).len() == os@.len(),
            forall|k: int| 0 <= k < os@.len() ==> #[trigger] view_exprs(os@)[k] == view_expr(os@[k]),
            forall|k: int| 0 <= k < i ==> !hoistable(#[trigger] view_exprs(os@)[k]),
        decreases os.len() - i,
    {
        if is_hoistable(&os[i]) {
            proof {
                assert(hoistable(view_exprs(os@)[i as int]));
            }
            return true;
        }
        i = i + 1;
    }
    false
}

/// Splits the operands into the hoistable filters and the rest, each in order.
fn partition_hoistable(os: Vec<Expr>) -> (r: (Vec<Expr>, Vec<Expr>))
    ensures
        view_exprs(r.0@) == select(view_exprs(os@), true),
        view_exprs(r.1@) == select(view_exprs(os@), false),
{
    let ghost es = view_exprs(os@);
    proof {
        lemma_view_exprs(os@);
    }
    let mut rest = os;
    let mut yes: Vec<Expr> = Vec::new();
    let mut no: Vec<Expr> = Vec::new();
    let ghost n = es.len();
    proof {
        lemma_view_exprs(yes@);
        lemma_view_exprs(no@);
        assert(view_exprs(yes@) =~= select(es.subrange(0, 0), true));
        assert(view_exprs(no@) =~= select(es.subrange(0, 0), false));
    }
    while rest.len() > 0
        invariant
            n == es.len(),
            rest@.len() <= n,
            forall|j: int| 0 <= j < rest@.len() ==> view_expr(#[trigger] rest@[j]) == es[n - rest@.len() + j],
            view_exprs(yes@) == select(es.subrange(0, n - rest@.len()), true),
            view_exprs(no@) == select(es.subrange(0, n - rest@.len()), false),
        decreases rest@.len(),
    {
        let ghost before = rest@;
        let ghost k = n - rest@.len();
        let x = rest.remove(0);
        let h = is_hoistable(&x);
        proof {
            assert(view_expr(x) == es[k]);
            assert forall|j: int| 0 <= j < rest@.len() implies view_expr(#[trigger] rest@[j]) == es[n - rest@.len() + j] by {
                assert(rest@[j] == before[j + 1]);
            }
            let pre1 = es.subrange(0, k + 1);
            assert(pre1.drop_last() =~= es.subrange(0, k));
            assert(pre1.last() == es[k]);
        }
        let ghost oy = yes@;
        let ghost on = no@;
        if h {
            yes.push(x);
        } else {
            no.push(x);
        }
        proof {
            lemma_view_exprs(oy);
            lemma_view_exprs(on);
            lemma_view_exprs(yes@);
            lemma_view_exprs(no@);
            if h {
                assert(view_exprs(yes@) =~= view_exprs(oy).push(view_expr(x)));
                assert(no@ == on);
            } else {
                assert(view_exprs(no@) =~= view_exprs(on).push(view_expr(x)));
                assert(yes@ == oy);
            }
        }
    }
    proof {
        assert(es.subrange(0, n as int) =~= es);
    }
    (yes, no)
}

/// The operands, with nested intersections (`inter`) or nested unions spliced
/// in.
fn splice(os: Vec<Expr>, inter: bool) -> (r: Vec<Expr>)
    ensures
        inter ==> view_exprs(r@) == flatten_inter(view_exprs(os@)),
        !inter ==> view_exprs(r@) == flatten_union(view_exprs(os@)),
{
    let ghost es = view_exprs(os@);
    proof {
        lemma_view_exprs(os@);
    }
    let mut rest = os;
    let mut out: Vec<Expr> = Vec::new();
    let ghost n = es.len();
    proof {
        lemma_view_exprs(out@);
        assert(es.subrange(0, 0) =~= Seq::<ExprV>::empty());
    }
    while rest.len() > 0
        invariant
            n == es.len(),
            rest@.len() <= n,
            forall|j: int| 0 <= j < rest@.len() ==> view_expr(#[trigger] rest@[j]) == es[n - rest@.len() + j],
            inter ==> view_exprs(out@) == flatten_inter(es.subrange(0, n - rest@.len())),
            !inter ==> view_exprs(out@) == flatten_union(es.subrange(0, n - rest@.len())),
        decreases rest@.len(),
    {
        let ghost before = rest@;
        let ghost k = n - rest@.len();
        let x = rest.remove(0);
        proof {
            assert(view_expr(x) == es[k]);
            assert forall|j: int| 0 <= j < rest@.len() implies view_expr(#[trigger] rest@[j]) == es[n - rest@.len() + j] by {
                assert(rest@[j] == before[j + 1]);
            }
            let pre1 = es.subrange(0, k + 1);
            assert(pre1.drop_last() =~= es.subrange(0, k));
            assert(pre1.last() == es[k]);
        }
        let ghost o = out@;
        let ghost vx = view_expr(x);
        let spliced = match &x {
            Expr::Intersection(_) => inter,
            Expr::Union(_) => !inter,
            _ => false,
        };
        proof {
            reveal_with_fuel(flatten_inter, 2);
            reveal_with_fuel(flatten_union, 2);
            assert(flatten_inter(es.subrange(0, k + 1)) == flatten_inter(es.subrange(0, k)) + match vx {
                ExprV::Intersection(inner) => inner,
                y => seq![y],
            });
            assert(flatten_union(es.subrange(0, k + 1)) == flatten_union(es.subrange(0, k)) + match vx {
                ExprV::Union(inner) => inner,
                y => seq![y],
            });
        }
        if spliced {
            match x {
                Expr::Intersection(mut inner) => {
                    proof {
                        lemma_view_exprs_add(o, inner@);
                    }
                    out.append(&mut inner);
                },
                Expr::Union(mut inner) => {
                    proof {
                        lemma_view_exprs_add(o, inner@);
                    }
                    out.append(&mut inner);
                },
                x => {
                    out.push(x);
                },
            }
        } else {
            out.push(x);
            proof {
                lemma_view_exprs_add(o, seq![x]);
                lemma_view_exprs(seq![x]);
                assert(view_exprs(seq![x]) =~= seq![view_expr(x)]);
                assert(o + seq![x] =~= out@);
            }
        }
    }
    proof {
        assert(es.subrange(0, n as int) =~= es);
    }
    out
}

pub proof fn lemma_view_exprs_add(a: Seq<Expr>, b: Seq<Expr>)
    ensures
        view_exprs(a + b) == view_exprs(a) + view_exprs(b),
{
    lemma_view_exprs(a);
    lemma_view_exprs(b);
    lemma_view_exprs(a + b);
    assert forall|i: int| 0 <= i < (a + b).len() implies view_exprs(a + b)[i] == (view_exprs(a) + view_exprs(b))[i] by {
        if i < a.len() {
            assert((a + b)[i] == a[i]);
        } else {
            assert((a + b)[i] == b[i - a.len()]);
        }
    }
    assert(view_exprs(a + b) =~= view_exprs(a) + view_exprs(b));
}

// ----- constructors -----

impl Expr {
    /// The given vertices.
    pub fn constant(vxs: Vec<Vx>) -> (r: Self)
        ensures
            r@ == ExprV::Constant(vxs@),
    {
        Expr::Constant(vxs)
    }

    /// Walks up (along the edges) from this query, keeping the vertices
    /// reached in rounds `lo..=hi` (without end when `hi` is none).
    pub fn up(self, lo: usize, hi: Option<usize>) -> (r: Self)
        ensures
            r@ == (ExprV::Up { input: Box::new(self@), lo: lo as nat, hi: crate::logical::opt_nat(hi) }),
    {
        Expr::Up { input: Box::new(self), lo, hi }
    }

    /// Walks down (against the edges) from this query, keeping the vertices
    /// reached in rounds `lo..=hi` (without end when `hi` is none).
    pub fn down(self, lo: usize, hi: Option<usize>) -> (r: Self)
        ensures
            r@ == (ExprV::Down { input: Box::new(self@), lo: lo as nat, hi: crate::logical::opt_nat(hi) }),
    {
        Expr::Down { input: Box::new(self), lo, hi }
    }

    /// The union of this query and `other`.
    pub fn union(self, other: Expr) -> (r: Self)
        ensures
            r@ == ExprV::Union(seq![self@, other@]),
    {
        let mut v: Vec<Expr> = Vec::new();
        v.push(self);
        v.push(other);
        proof {
            lemma_view_exprs(v@);
            assert(view_exprs(v@) =~= seq![self@, other@]);
        }
        Expr::Union(v)
    }

    /// The union of the queries.
    pub fn union_all(inputs: Vec<Expr>) -> (r: Self)
        ensures
            r@ == ExprV::Union(view_exprs(inputs@)),
    {
        Expr::Union(inputs)
    }

    /// The intersection of this query and `other`.
    pub fn intersection(self, other: Expr) -> (r: Self)
        ensures
            r@ == ExprV::Intersection(seq![self@, other@]),
    {
        let mut v: Vec<Expr> = Vec::new();
        v.push(self);
        v.push(other);
        proof {
            lemma_view_exprs(v@);
            assert(view_exprs(v@) =~= seq![self@, other@]);
        }
        Expr::Intersection(v)
    }

    /// The intersection of the queries.
    pub fn intersection_all(inputs: Vec<Expr>) -> (r: Self)
        ensures
            r@ == ExprV::Intersection(view_exprs(inputs@)),
    {
        Expr::Intersection(inputs)
    }

    /// The vertices of this query that carry annotation `value` under `label`.
    pub fn filter(self, label: &str, value: &str) -> (r: Self)
        ensures
            r@ == (ExprV::Filter { input: Box::new(self@), label: label@, value: value@ }),
    {
        Expr::Filter { input: Box::new(self), label: label.to_owned(), value: value.to_owned() }
    }

    /// This query rewritten by `planner`.
    pub fn optimize(self, planner: &Planner) -> (r: Self)
        requires
            optimizable(planner.rules, self@),
        ensures
            r@ == optimized(planner.rules, self@),
    {
        planner.optimize(self)
    }

    /// The vertices that descend from `lo` and are ancestors of `hi`.
    pub fn range(lo: Expr, hi: Expr) -> (r: Expr)
        ensures
            r@ == (ExprV::Range { lo: Box::new(lo@), hi: Box::new(hi@) }),
    {
        Expr::Range { lo: Box::new(lo), hi: Box::new(hi) }
    }
}

} // verus!
