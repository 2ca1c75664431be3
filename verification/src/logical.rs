//! Query expressions over the graph: their meaning, their evaluation, their
//! rewriting and their printed form.
use vstd::prelude::*;

use crate::dag::{acyclic, pred, ranked, succ, Batch, Dag, Vx};
use crate::sets::{canon, keep_in, lemma_canon, lemma_canon_finite, lemma_keep_in, merge_union, sort_dedup, sorted, strictly_sorted};
use crate::dag::{inter_fold, union_of};

verus! {

/// A query: a set of vertices described by constants, graph walks and set
/// operations.
#[derive(Debug)]
#[allow(inconsistent_fields)]
pub enum Expr {
    All,
    Constant(Vec<Vx>),
    Up {
        input: Box<Expr>,
        // Only include results if they appeared in the lo-th round.
        lo: usize,
        // Don't include results appearing later than the hi-th round.
        hi: Option<usize>,
    },
    Down {
        input: Box<Expr>,
        // Only include results if they appeared in the lo-th round.
        lo: usize,
        // Don't include results appearing later than the hi-th round.
        hi: Option<usize>,
    },
    Range { lo: Box<Expr>, hi: Box<Expr> },
    Union(Vec<Expr>),
    Intersection(Vec<Expr>),
    Filter { input: Box<Expr>, label: String, value: String },
}

/// The mathematical form of a query.
#[allow(inconsistent_fields)]
pub enum ExprV {
    All,
    Constant(Seq<Vx>),
    Up { input: Box<ExprV>, lo: nat, hi: Option<nat> },
    Down { input: Box<ExprV>, lo: nat, hi: Option<nat> },
    Range { lo: Box<ExprV>, hi: Box<ExprV> },
    Union(Seq<ExprV>),
    Intersection(Seq<ExprV>),
    Filter { input: Box<ExprV>, label: Seq<char>, value: Seq<char> },
}

pub open spec fn opt_nat(o: Option<usize>) -> Option<nat> {
    match o {
        Some(h) => Some(h as nat),
        None => None,
    }
}

pub open spec fn view_expr(e: Expr) -> ExprV
    decreases e,
{
    match e {
        Expr::All => ExprV::All,
        Expr::Constant(v) => ExprV::Constant(v@),
        Expr::Up { input, lo, hi } => ExprV::Up { input: Box::new(view_expr(*input)), lo: lo as nat, hi: opt_nat(hi) },
        Expr::Down { input, lo, hi } => ExprV::Down { input: Box::new(view_expr(*input)), lo: lo as nat, hi: opt_nat(hi) },
        Expr::Range { lo, hi } => ExprV::Range { lo: Box::new(view_expr(*lo)), hi: Box::new(view_expr(*hi)) },
        Expr::Union(v) => ExprV::Union(view_exprs(v@)),
        Expr::Intersection(v) => ExprV::Intersection(view_exprs(v@)),
        Expr::Filter { input, label, value } => ExprV::Filter { input: Box::new(view_expr(*input)), label: label@, value: value@ },
    }
}

pub open spec fn view_exprs(s: Seq<Expr>) -> Seq<ExprV>
    decreases s,
{
    if s.len() == 0 {
        Seq::empty()
    } else {
        seq![view_expr(s[0])] + view_exprs(s.subrange(1, s.len() as int))
    }
}

impl View for Expr {
    type V = ExprV;

    open spec fn view(&self) -> ExprV {
        view_expr(*self)
    }
}

pub proof fn lemma_view_exprs(s: Seq<Expr>)
    ensures
        view_exprs(s).len() == s.len(),
        forall|i: int| 0 <= i < s.len() ==> #[trigger] view_exprs(s)[i] == view_expr(s[i]),
    decreases s.len(),
{
    if s.len() > 0 {
        lemma_view_exprs(s.subrange(1, s.len() as int));
        assert forall|i: int| 0 <= i < s.len() implies #[trigger] view_exprs(s)[i] == view_expr(s[i]) by {
            if i > 0 {
                assert(s.subrange(1, s.len() as int)[i - 1] == s[i]);
            }
        }
    }
}

// ----- meaning -----

/// One step along the edges (`fwd`) or against them.
pub open spec fn step(edges: Seq<(Vx, Vx)>, s: Set<Vx>, fwd: bool) -> Set<Vx> {
    if fwd {
        succ(edges, s)
    } else {
        pred(edges, s)
    }
}

/// The vertices `d` steps away from `s`.
pub open spec fn reach(edges: Seq<(Vx, Vx)>, s: Set<Vx>, d: nat, fwd: bool) -> Set<Vx>
    decreases d,
{
    if d == 0 {
        s
    } else {
        step(edges, reach(edges, s, (d - 1) as nat, fwd), fwd)
    }
}

/// Within the distance bounds: at least `lo`, at most `hi` when given.
pub open spec fn in_bounds(d: nat, lo: nat, hi: Option<nat>) -> bool {
    lo <= d && match hi {
        Some(h) => d <= h,
        None => true,
    }
}

/// The vertices at a distance from `s` within the bounds.
pub open spec fn walk(edges: Seq<(Vx, Vx)>, s: Set<Vx>, lo: nat, hi: Option<nat>, fwd: bool) -> Set<Vx> {
    Set::new(|v: Vx| exists|d: nat| in_bounds(d, lo, hi) && #[trigger] reach(edges, s, d, fwd).contains(v))
}

/// The vertices at a distance from `s` within the bounds and at most `m`.
pub open spec fn walk_upto(edges: Seq<(Vx, Vx)>, s: Set<Vx>, lo: nat, m: nat, fwd: bool) -> Set<Vx> {
    Set::new(|v: Vx| exists|d: nat| lo <= d <= m && #[trigger] reach(edges, s, d, fwd).contains(v))
}

/// What evaluating `e` on `dag` gives: the vertices in increasing order,
/// each once (every vertex of the graph for `All`; nothing for an
/// intersection without operands).
pub open spec fn eval_seq(dag: &Dag, e: ExprV) -> Seq<Vx>
    decreases e,
{
    match e {
        ExprV::All => dag.all_seq(),
        ExprV::Constant(v) => canon(v.to_set()),
        ExprV::Up { input, lo, hi } => canon(walk(dag.edge_seq(), eval_seq(dag, *input).to_set(), lo, hi, true)),
        ExprV::Down { input, lo, hi } => canon(walk(dag.edge_seq(), eval_seq(dag, *input).to_set(), lo, hi, false)),
        ExprV::Range { lo, hi } => canon(
            walk(dag.edge_seq(), eval_seq(dag, *lo).to_set(), 0, None, true).intersect(
                walk(dag.edge_seq(), eval_seq(dag, *hi).to_set(), 0, None, false),
            ),
        ),
        ExprV::Union(es) => canon(eval_union(dag, es)),
        ExprV::Intersection(es) => if es.len() == 0 {
            Seq::empty()
        } else {
            eval_inter(dag, eval_seq(dag, es[0]), es.subrange(1, es.len() as int))
        },
        ExprV::Filter { input, label, value } => match dag.annotation(label) {
            Some(pairs) => canon(eval_seq(dag, *input).to_set().filter(|v: Vx| pairs.contains((v, value)))),
            None => Seq::empty(),
        },
    }
}

/// The vertices of any of the queries.
pub open spec fn eval_union(dag: &Dag, es: Seq<ExprV>) -> Set<Vx>
    decreases es,
{
    if es.len() == 0 {
        Set::empty()
    } else {
        eval_union(dag, es.subrange(0, es.len() - 1)).union(eval_seq(dag, es[es.len() - 1]).to_set())
    }
}

/// `acc` filtered by the results of each query in turn.
pub open spec fn eval_inter(dag: &Dag, acc: Seq<Vx>, es: Seq<ExprV>) -> Seq<Vx>
    decreases es,
{
    if es.len() == 0 {
        acc
    } else {
        keep_in(eval_inter(dag, acc, es.subrange(0, es.len() - 1)), eval_seq(dag, es[es.len() - 1]).to_set())
    }
}

/// The query walks without a distance bound somewhere (an unbounded `Up` or
/// `Down`, or a `Range`): its evaluation ends only on a graph without cycles.
pub open spec fn unbounded(e: ExprV) -> bool
    decreases e,
{
    match e {
        ExprV::All => false,
        ExprV::Constant(_) => false,
        ExprV::Up { input, lo, hi } => hi is None || unbounded(*input),
        ExprV::Down { input, lo, hi } => hi is None || unbounded(*input),
        ExprV::Range { lo, hi } => true,
        ExprV::Union(es) => unbounded_any(es),
        ExprV::Intersection(es) => unbounded_any(es),
        ExprV::Filter { input, label, value } => unbounded(*input),
    }
}

pub open spec fn unbounded_any(es: Seq<ExprV>) -> bool
    decreases es,
{
    if es.len() == 0 {
        false
    } else {
        unbounded_any(es.subrange(0, es.len() - 1)) || unbounded(es[es.len() - 1])
    }
}

pub proof fn lemma_unbounded_any(es: Seq<ExprV>, i: int)
    requires
        0 <= i < es.len(),
        !unbounded_any(es),
    ensures
        !unbounded(es[i]),
    decreases es.len(),
{
    if i < es.len() - 1 {
        lemma_unbounded_any(es.subrange(0, es.len() - 1), i);
        assert(es.subrange(0, es.len() - 1)[i] == es[i]);
    }
}

// ----- walking lemmas -----

proof fn lemma_reach_finite(edges: Seq<(Vx, Vx)>, s: Set<Vx>, d: nat, fwd: bool)
    requires
        s.finite(),
    ensures
        reach(edges, s, d, fwd).finite(),
    decreases d,
{
    if d > 0 {
        lemma_reach_finite(edges, s, (d - 1) as nat, fwd);
        lemma_step_finite(edges, reach(edges, s, (d - 1) as nat, fwd), fwd);
    }
}

pub(crate) proof fn lemma_step_finite(edges: Seq<(Vx, Vx)>, s: Set<Vx>, fwd: bool)
    ensures
        step(edges, s, fwd).finite(),
{
    let ends = if fwd {
        edges.map_values(|p: (Vx, Vx)| p.1)
    } else {
        edges.map_values(|p: (Vx, Vx)| p.0)
    };
    assert(step(edges, s, fwd).subset_of(ends.to_set())) by {
        assert forall|v: Vx| step(edges, s, fwd).contains(v) implies ends.to_set().contains(v) by {
            if fwd {
                let i = choose|i: int| 0 <= i < edges.len() && edges[i].1 == v && s.contains(edges[i].0);
                assert(ends[i] == v);
            } else {
                let i = choose|i: int| 0 <= i < edges.len() && edges[i].0 == v && s.contains(edges[i].1);
                assert(ends[i] == v);
            }
        }
    }
    vstd::set_lib::lemma_len_subset(step(edges, s, fwd), ends.to_set());
}

proof fn lemma_reach_empty(edges: Seq<(Vx, Vx)>, s: Set<Vx>, d: nat, e: nat, fwd: bool)
    requires
        reach(edges, s, d, fwd) =~= Set::<Vx>::empty(),
        d <= e,
    ensures
        reach(edges, s, e, fwd) =~= Set::<Vx>::empty(),
    decreases e - d,
{
    if d < e {
        lemma_reach_empty(edges, s, d, (e - 1) as nat, fwd);
        let r = reach(edges, s, (e - 1) as nat, fwd);
        assert(step(edges, r, fwd) =~= Set::<Vx>::empty());
    }
}

/// On a ranked graph, the vertices `d >= 1` steps from anywhere have a rank
/// at least `d` (forwards) or at most `edges.len() - d` (backwards).
proof fn lemma_reach_rank(edges: Seq<(Vx, Vx)>, rank: spec_fn(Vx) -> nat, s: Set<Vx>, d: nat, fwd: bool, v: Vx)
    requires
        ranked(edges, rank),
        d >= 1,
        reach(edges, s, d, fwd).contains(v),
    ensures
        fwd ==> d <= rank(v) <= edges.len(),
        !fwd ==> rank(v) + d <= edges.len(),
    decreases d,
{
    let r = reach(edges, s, (d - 1) as nat, fwd);
    if fwd {
        let i = choose|i: int| 0 <= i < edges.len() && edges[i].1 == v && r.contains(edges[i].0);
        assert(rank(edges[i].0) < rank(edges[i].1));
        if d > 1 {
            lemma_reach_rank(edges, rank, s, (d - 1) as nat, fwd, edges[i].0);
        }
    } else {
        let i = choose|i: int| 0 <= i < edges.len() && edges[i].0 == v && r.contains(edges[i].1);
        assert(rank(edges[i].0) < rank(edges[i].1));
        if d > 1 {
            lemma_reach_rank(edges, rank, s, (d - 1) as nat, fwd, edges[i].1);
        }
    }
}

// ----- evaluation -----

/// Evaluates queries against one graph.
pub struct Evaluator<'a> {
    dag: &'a Dag,
}

impl Dag {
    /// An evaluator over this graph.
    pub fn evaluator(&self) -> (r: Evaluator<'_>)
        ensures
            r.dag() == self,
    {
        Evaluator { dag: self }
    }
}

impl<'a> Evaluator<'a> {
    /// The graph it evaluates against.
    pub closed spec fn dag(&self) -> &'a Dag {
        self.dag
    }

    /// Evaluates `expr`: ordered vertices (see `eval_seq`). A query that walks
    /// without bound needs a graph without cycles to finish.
    pub fn eval(&mut self, expr: Expr) -> (r: Batch)
        requires
            unbounded(expr@) ==> acyclic(old(self).dag().edge_seq()),
        ensures
            final(self).dag() == old(self).dag(),
            r@ == eval_seq(old(self).dag(), expr@),
    {
        self.eval_ref(&expr)
    }

    fn eval_ref(&self, e: &Expr) -> (r: Batch)
        requires
            unbounded(e@) ==> acyclic(self.dag.edge_seq()),
        ensures
            r@ == eval_seq(self.dag, e@),
        decreases e,
    {
        match e {
            Expr::All => self.dag.all(),
            Expr::Constant(vxs) => {
                let v = sort_dedup(vxs);
                Batch::from_sorted(v)
            },
            Expr::Up { input, lo, hi } => {
                let frontier = self.eval_ref(input);
                self.walk(frontier, *lo, *hi, true)
            },
            Expr::Down { input, lo, hi } => {
                let frontier = self.eval_ref(input);
                self.walk(frontier, *lo, *hi, false)
            },
            Expr::Union(inputs) => {
                let mut results: Vec<Batch> = Vec::new();
                let mut i: usize = 0;
                proof {
                    lemma_view_exprs(inputs@);
                }
                while i < inputs.len()
                    invariant
                        i <= inputs.len(),
                        *e == Expr::Union(*inputs),
                        unbounded(e@) ==> acyclic(self.dag.edge_seq()),
                        view_exprs(inputs@).len() == inputs@.len(),
                        forall|k: int| 0 <= k < inputs@.len() ==> #[trigger] view_exprs(inputs@)[k] == view_expr(inputs@[k]),
                        results@.len() == i,
                        forall|k: int| 0 <= k < i ==> #[trigger] results@[k]@ == eval_seq(self.dag, view_expr(inputs@[k])),
                    decreases inputs.len() - i,
                {
                    proof {
                        assert(decreases_to!(*e => e->Union_0));
                        assert(decreases_to!(*inputs => inputs[i as int]));
                        if !unbounded(e@) {
                            lemma_unbounded_any(view_exprs(inputs@), i as int);
                        }
                    }
                    let b = self.eval_ref(&inputs[i]);
                    results.push(b);
                    i = i + 1;
                }
                let r = Batch::union_all(results);
                proof {
                    let es = view_exprs(inputs@);
                    let bs = results@.map_values(|b: Batch| b@);
                    lemma_union_matches(self.dag, es, bs);
                    lemma_canon(r@);
                }
                r
            },
            Expr::Intersection(inputs) => {
                let mut results: Vec<Batch> = Vec::new();
                let mut i: usize = 0;
                proof {
                    lemma_view_exprs(inputs@);
                }
                while i < inputs.len()
                    invariant
                        i <= inputs.len(),
                        *e == Expr::Intersection(*inputs),
                        unbounded(e@) ==> acyclic(self.dag.edge_seq()),
                        view_exprs(inputs@).len() == inputs@.len(),
                        forall|k: int| 0 <= k < inputs@.len() ==> #[trigger] view_exprs(inputs@)[k] == view_expr(inputs@[k]),
                        results@.len() == i,
                        forall|k: int| 0 <= k < i ==> #[trigger] results@[k]@ == eval_seq(self.dag, view_expr(inputs@[k])),
                    decreases inputs.len() - i,
                {
                    proof {
                        assert(decreases_to!(*e => e->Intersection_0));
                        assert(decreases_to!(*inputs => inputs[i as int]));
                        if !unbounded(e@) {
                            lemma_unbounded_any(view_exprs(inputs@), i as int);
                        }
                    }
                    let b = self.eval_ref(&inputs[i]);
                    results.push(b);
                    i = i + 1;
                }
                let ghost bs = results@;
                let r = Batch::intersection_all(results);
                proof {
                    let es = view_exprs(inputs@);
                    if es.len() > 0 {
                        let rest = bs.subrange(1, bs.len() as int).map_values(|b: Batch| b@);
                        lemma_inter_matches(self.dag, bs[0]@, es.subrange(1, es.len() as int), rest);
                    }
                }
                r
            },
            Expr::Filter { input, label, value } => {
                let b = self.eval_ref(input);
                self.dag.filter_label(&b, label, value)
            },
            Expr::Range { lo, hi } => {
                let lo_b = self.eval_ref(lo);
                let hi_b = self.eval_ref(hi);
                let lo_c = Batch::from_sorted(sort_dedup(lo_b.as_vec()));
                let hi_c = Batch::from_sorted(sort_dedup(hi_b.as_vec()));
                let descendants = self.walk(lo_c, 0, None, true);
                let ancestors = self.walk(hi_c, 0, None, false);
                let mut both: Vec<Batch> = Vec::new();
                both.push(descendants);
                both.push(ancestors);
                let ghost bs = both@;
                let r = Batch::intersection_all(both);
                proof {
                    let d = bs[0]@;
                    let a = bs[1]@;
                    let rest = bs.subrange(1, 2).map_values(|b: Batch| b@);
                    assert(rest =~= seq![a]);
                    assert(rest.drop_last() =~= Seq::<Seq<Vx>>::empty());
                    assert(inter_fold(d, rest.drop_last()) == d);
                    assert(r@ == keep_in(d, a.to_set()));
                    let ws = walk(self.dag.edge_seq(), eval_seq(self.dag, lo@).to_set(), 0, None, true);
                    let wa = walk(self.dag.edge_seq(), eval_seq(self.dag, hi@).to_set(), 0, None, false);
                    lemma_walk_finite(self.dag.edge_seq(), eval_seq(self.dag, lo@).to_set(), 0, true);
                    lemma_walk_finite(self.dag.edge_seq(), eval_seq(self.dag, hi@).to_set(), 0, false);
                    lemma_canon_finite(ws);
                    lemma_canon_finite(wa);
                    lemma_keep_in(d, a.to_set());
                    assert(r@.to_set() =~= ws.intersect(wa));
                    lemma_canon(r@);
                }
                r
            },
        }
    }

    /// The vertices at a distance from `start` within the bounds, walking with
    /// the edges (`fwd`) or against them.
    fn walk(&self, start: Batch, lo: usize, hi: Option<usize>, fwd: bool) -> (r: Batch)
        requires
            hi is None ==> acyclic(self.dag.edge_seq()),
        ensures
            r@ == canon(walk(self.dag.edge_seq(), start@.to_set(), lo as nat, opt_nat(hi), fwd)),
    {
        let ghost edges = self.dag.edge_seq();
        let ghost s0 = start@.to_set();
        let mut frontier = start;
        let mut res: Vec<Vx> = Vec::new();
        if lo == 0 {
            res = merge_union(&res, frontier.as_vec());
        }
        proof {
            assert(res@.to_set() =~= walk_upto(edges, s0, lo as nat, 0, fwd)) by {
                assert forall|v: Vx| walk_upto(edges, s0, lo as nat, 0, fwd).contains(v) implies res@.to_set().contains(v) by {
                    let d = choose|d: nat| lo <= d <= 0 && #[trigger] reach(edges, s0, d, fwd).contains(v);
                }
                assert forall|v: Vx| res@.to_set().contains(v) implies walk_upto(edges, s0, lo as nat, 0, fwd).contains(v) by {
                    assert(reach(edges, s0, 0, fwd).contains(v));
                }
            }
        }
        let mut dist: usize = 0;
        match hi {
            Some(h) => {
                while dist < h
                    invariant
                        dist <= h,
                        edges == self.dag.edge_seq(),
                        frontier@.to_set() == reach(edges, s0, dist as nat, fwd),
                        strictly_sorted(res@),
                        res@.to_set() == walk_upto(edges, s0, lo as nat, dist as nat, fwd),
                    decreases h - dist,
                {
                    frontier = if fwd { self.dag.iter_up(frontier) } else { self.dag.iter_down(frontier) };
                    dist = dist + 1;
                    proof {
                        lemma_frontier_step(edges, s0, (dist - 1) as nat, fwd, frontier@);
                    }
                    if dist >= lo {
                        res = merge_union(&res, frontier.as_vec());
                    }
                    proof {
                        lemma_upto_step(edges, s0, lo as nat, (dist - 1) as nat, fwd);
                        if dist < lo {
                            assert(walk_upto(edges, s0, lo as nat, dist as nat, fwd) =~= walk_upto(edges, s0, lo as nat, (dist - 1) as nat, fwd));
                        }
                    }
                }
                proof {
                    assert(walk_upto(edges, s0, lo as nat, h as nat, fwd) =~= walk(edges, s0, lo as nat, Some(h as nat), fwd));
                }
            },
            None => {
                let ghost rank = choose|rank: spec_fn(Vx) -> nat| ranked(edges, rank);
                proof {
                    self.dag.lemma_edge_len();
                }
                let ghost mut at: nat = 0;
                while !frontier.is_empty()
                    invariant
                        edges == self.dag.edge_seq(),
                        ranked(edges, rank),
                        edges.len() <= usize::MAX,
                        dist <= edges.len(),
                        at == dist || (at == dist + 1 && frontier@.len() == 0),
                        frontier@.to_set() == reach(edges, s0, at, fwd),
                        strictly_sorted(res@),
                        res@.to_set() == walk_upto(edges, s0, lo as nat, dist as nat, fwd),
                    decreases edges.len() - dist, frontier@.len(),
                {
                    let next = if fwd { self.dag.iter_up(frontier) } else { self.dag.iter_down(frontier) };
                    proof {
                        lemma_frontier_step(edges, s0, dist as nat, fwd, next@);
                    }
                    if next.is_empty() {
                        frontier = next;
                        proof {
                            at = (dist + 1) as nat;
                        }
                    } else {
                        proof {
                            let v = next@[0];
                            assert(next@.to_set().contains(v));
                            lemma_reach_rank(edges, rank, s0, (dist + 1) as nat, fwd, v);
                        }
                        dist = dist + 1;
                        frontier = next;
                        proof {
                            at = dist as nat;
                        }
                        if dist >= lo {
                            res = merge_union(&res, frontier.as_vec());
                        }
                        proof {
                            lemma_upto_step(edges, s0, lo as nat, (dist - 1) as nat, fwd);
                            if dist < lo {
                                assert(walk_upto(edges, s0, lo as nat, dist as nat, fwd) =~= walk_upto(edges, s0, lo as nat, (dist - 1) as nat, fwd));
                            }
                        }
                    }
                }
                proof {
                    assert(reach(edges, s0, at, fwd) =~= Set::<Vx>::empty()) by {
                        assert forall|v: Vx| !reach(edges, s0, at, fwd).contains(v) by {
                            if reach(edges, s0, at, fwd).contains(v) {
                                assert(frontier@.to_set().contains(v));
                                let k = choose|k: int| 0 <= k < frontier@.len() && frontier@[k] == v;
                            }
                        }
                    }
                    assert forall|v: Vx| walk(edges, s0, lo as nat, None, fwd).contains(v) implies walk_upto(edges, s0, lo as nat, dist as nat, fwd).contains(v) by {
                        let d = choose|d: nat| in_bounds(d, lo as nat, None) && #[trigger] reach(edges, s0, d, fwd).contains(v);
                        if d > dist {
                            lemma_reach_empty(edges, s0, at, d, fwd);
                        }
                    }
                    assert(walk_upto(edges, s0, lo as nat, dist as nat, fwd) =~= walk(edges, s0, lo as nat, None, fwd));
                }
            },
        }
        proof {
            lemma_canon(res@);
        }
        Batch::from_sorted(res)
    }
}

proof fn lemma_frontier_step(edges: Seq<(Vx, Vx)>, s0: Set<Vx>, d: nat, fwd: bool, next: Seq<Vx>)
    requires
        next == canon(step(edges, reach(edges, s0, d, fwd), fwd)),
    ensures
        next.to_set() == reach(edges, s0, d + 1, fwd),
        strictly_sorted(next),
{
    lemma_step_finite(edges, reach(edges, s0, d, fwd), fwd);
    lemma_canon_finite(step(edges, reach(edges, s0, d, fwd), fwd));
}

proof fn lemma_upto_step(edges: Seq<(Vx, Vx)>, s0: Set<Vx>, lo: nat, d: nat, fwd: bool)
    ensures
        lo <= d + 1 ==> walk_upto(edges, s0, lo, d + 1, fwd) == walk_upto(edges, s0, lo, d, fwd).union(reach(edges, s0, d + 1, fwd)),
{
    let d1: nat = d + 1;
    if lo <= d1 {
        let big = walk_upto(edges, s0, lo, d1, fwd);
        let small = walk_upto(edges, s0, lo, d, fwd).union(reach(edges, s0, d1, fwd));
        assert forall|v: Vx| #[trigger] big.contains(v) implies small.contains(v) by {
            let k = choose|k: nat| lo <= k <= d1 && #[trigger] reach(edges, s0, k, fwd).contains(v);
        }
        assert forall|v: Vx| #[trigger] small.contains(v) implies big.contains(v) by {
            if walk_upto(edges, s0, lo, d, fwd).contains(v) {
                let k = choose|k: nat| lo <= k <= d && #[trigger] reach(edges, s0, k, fwd).contains(v);
            } else {
                assert(reach(edges, s0, d1, fwd).contains(v));
            }
        }
        assert(big =~= small);
    }
}

proof fn lemma_walk_finite(edges: Seq<(Vx, Vx)>, s: Set<Vx>, lo: nat, fwd: bool)
    requires
        s.finite(),
        acyclic(edges),
    ensures
        walk(edges, s, lo, None, fwd).finite(),
{
    let rank = choose|rank: spec_fn(Vx) -> nat| ranked(edges, rank);
    let m = edges.len();
    // beyond `m` steps nothing is reached
    assert forall|v: Vx| walk(edges, s, lo, None, fwd).contains(v) implies walk_upto(edges, s, 0, m, fwd).contains(v) by {
        let d = choose|d: nat| in_bounds(d, lo, None) && #[trigger] reach(edges, s, d, fwd).contains(v);
        if d >= 1 {
            lemma_reach_rank(edges, rank, s, d, fwd, v);
        }
        assert(0 <= d <= m);
    }
    lemma_upto_finite(edges, s, m, fwd);
    vstd::set_lib::lemma_len_subset(walk(edges, s, lo, None, fwd), walk_upto(edges, s, 0, m, fwd));
}

proof fn lemma_upto_finite(edges: Seq<(Vx, Vx)>, s: Set<Vx>, m: nat, fwd: bool)
    requires
        s.finite(),
    ensures
        walk_upto(edges, s, 0, m, fwd).finite(),
    decreases m,
{
    lemma_reach_finite(edges, s, m, fwd);
    if m == 0 {
        assert(walk_upto(edges, s, 0, 0, fwd) =~= reach(edges, s, 0, fwd)) by {
            assert forall|v: Vx| walk_upto(edges, s, 0, 0, fwd).contains(v) implies reach(edges, s, 0, fwd).contains(v) by {
                let k = choose|k: nat| 0 <= k <= 0 && #[trigger] reach(edges, s, k, fwd).contains(v);
            }
        }
    } else {
        lemma_upto_finite(edges, s, (m - 1) as nat, fwd);
        lemma_upto_step(edges, s, 0, (m - 1) as nat, fwd);
    }
}

proof fn lemma_union_matches(dag: &Dag, es: Seq<ExprV>, bs: Seq<Seq<Vx>>)
    requires
        es.len() == bs.len(),
        forall|k: int| 0 <= k < es.len() ==> #[trigger] bs[k] == eval_seq(dag, es[k]),
    ensures
        union_of(bs) == eval_union(dag, es),
    decreases es.len(),
{
    if es.len() > 0 {
        let n = es.len() - 1;
        assert(bs.drop_last().len() == es.subrange(0, n).len());
        assert forall|k: int| 0 <= k < n implies #[trigger] bs.drop_last()[k] == eval_seq(dag, es.subrange(0, n)[k]) by {
            assert(bs[k] == eval_seq(dag, es[k]));
        }
        lemma_union_matches(dag, es.subrange(0, n), bs.drop_last());
        assert(bs.last() == eval_seq(dag, es[n]));
    }
}

proof fn lemma_inter_matches(dag: &Dag, acc: Seq<Vx>, es: Seq<ExprV>, bs: Seq<Seq<Vx>>)
    requires
        es.len() == bs.len(),
        forall|k: int| 0 <= k < es.len() ==> #[trigger] bs[k] == eval_seq(dag, es[k]),
    ensures
        inter_fold(acc, bs) == eval_inter(dag, acc, es),
    decreases es.len(),
{
    if es.len() > 0 {
        let n = es.len() - 1;
        assert forall|k: int| 0 <= k < n implies #[trigger] bs.drop_last()[k] == eval_seq(dag, es.subrange(0, n)[k]) by {
            assert(bs[k] == eval_seq(dag, es[k]));
        }
        lemma_inter_matches(dag, acc, es.subrange(0, n), bs.drop_last());
        assert(bs.last() == eval_seq(dag, es[n]));
    }
}

/// A walk from `x`: up along the edges (`fwd`) or down against them.
pub open spec fn walk_from(x: ExprV, lo: nat, hi: Option<nat>, fwd: bool) -> ExprV {
    if fwd {
        ExprV::Up { input: Box::new(x), lo, hi }
    } else {
        ExprV::Down { input: Box::new(x), lo, hi }
    }
}

/// A walk evaluates to the vertices at a distance from the vertices of its
/// input within its bounds, each once, in increasing order.
pub proof fn law_eval_walk(dag: &Dag, x: ExprV, lo: nat, hi: Option<nat>, fwd: bool)
    ensures
        strictly_sorted(eval_seq(dag, walk_from(x, lo, hi, fwd))),
        forall|v: Vx| #[trigger] eval_seq(dag, walk_from(x, lo, hi, fwd)).contains(v)
            == exists|d: nat| in_bounds(d, lo, hi) && #[trigger] reach(dag.edge_seq(), eval_seq(dag, x).to_set(), d, fwd).contains(v),
{
    let s = eval_seq(dag, x).to_set();
    let w = walk(dag.edge_seq(), s, lo, hi, fwd);
    vstd::seq_lib::seq_to_set_is_finite(eval_seq(dag, x));
    crate::optimize::lemma_walk_finite_any(dag.edge_seq(), s, lo, hi, fwd);
    lemma_canon_finite(w);
    let r = eval_seq(dag, walk_from(x, lo, hi, fwd));
    assert(r == canon(w));
    assert forall|v: Vx| #[trigger] r.contains(v) == w.contains(v) by {
        assert(r.contains(v) == r.to_set().contains(v));
    }
}

} // verus!
