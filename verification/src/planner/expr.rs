//! Query plans with filters over several predicates, and their constructors.
use vstd::prelude::*;

pub use crate::dag::Vx;
use crate::logical::opt_nat;

verus! {

/// A condition on a revision's metadata.
#[derive(Debug, Clone, PartialEq, Eq)]
pub enum Predicate {
    Author(String),
    Description(String),
}

/// The mathematical form of a predicate.
pub enum PredV {
    Author(Seq<char>),
    Description(Seq<char>),
}

impl View for Predicate {
    type V = PredV;

    open spec fn view(&self) -> PredV {
        match self {
            Predicate::Author(s) => PredV::Author(s@),
            Predicate::Description(s) => PredV::Description(s@),
        }
    }
}

/// A query plan.
#[derive(Debug)]
#[allow(inconsistent_fields)]
pub enum Expr {
    Nothing,
    All,
    Constant(Vec<Vx>),
    Up {
        input: Box<Expr>,
        // Only include results if they appeared in the lo-th round.
        lo: usize,
        // Don't include results appearing later than the hi-th round.
        hi: Option<usize>,
    },
    Down {
        input: Box<Expr>,
        // Only include results if they appeared in the lo-th round.
        lo: usize,
        // Don't include results appearing later than the hi-th round.
        hi: Option<usize>,
    },
    Range { lo: Box<Expr>, hi: Box<Expr> },
    Union(Vec<Expr>),
    Intersection(Vec<Expr>),
    Filter { input: Box<Expr>, preds: Vec<Predicate> },
}

/// The mathematical form of a plan.
#[allow(inconsistent_fields)]
pub enum PlanV {
    Nothing,
    All,
    Constant(Seq<Vx>),
    Up { input: Box<PlanV>, lo: nat, hi: Option<nat> },
    Down { input: Box<PlanV>, lo: nat, hi: Option<nat> },
    Range { lo: Box<PlanV>, hi: Box<PlanV> },
    Union(Seq<PlanV>),
    Intersection(Seq<PlanV>),
    Filter { input: Box<PlanV>, preds: Seq<PredV> },
}

pub open spec fn view_preds(s: Seq<Predicate>) -> Seq<PredV> {
    s.map_values(|p: Predicate| p@)
}

pub open spec fn view_plan(e: Expr) -> PlanV
    decreases e,
{
    match e {
        Expr::Nothing => PlanV::Nothing,
        Expr::All => PlanV::All,
        Expr::Constant(v) => PlanV::Constant(v@),
        Expr::Up { input, lo, hi } => PlanV::Up { input: Box::new(view_plan(*input)), lo: lo as nat, hi: opt_nat(hi) },
        Expr::Down { input, lo, hi } => PlanV::Down { input: Box::new(view_plan(*input)), lo: lo as nat, hi: opt_nat(hi) },
        Expr::Range { lo, hi } => PlanV::Range { lo: Box::new(view_plan(*lo)), hi: Box::new(view_plan(*hi)) },
        Expr::Union(v) => PlanV::Union(view_plans(v@)),
        Expr::Intersection(v) => PlanV::Intersection(view_plans(v@)),
        Expr::Filter { input, preds } => PlanV::Filter { input: Box::new(view_plan(*input)), preds: view_preds(preds@) },
    }
}

pub open spec fn view_plans(s: Seq<Expr>) -> Seq<PlanV>
    decreases s,
{
    if s.len() == 0 {
        Seq::empty()
    } else {
        view_plans(s.subrange(0, s.len() - 1)).push(view_plan(s[s.len() - 1]))
    }
}

impl View for Expr {
    type V = PlanV;

    open spec fn view(&self) -> PlanV {
        view_plan(*self)
    }
}

pub proof fn lemma_view_plans(s: Seq<Expr>)
    ensures
        view_plans(s).len() == s.len(),
        forall|i: int| 0 <= i < s.len() ==> #[trigger] view_plans(s)[i] == view_plan(s[i]),
    decreases s.len(),
{
    if s.len() > 0 {
        lemma_view_plans(s.subrange(0, s.len() - 1));
        assert forall|i: int| 0 <= i < s.len() implies #[trigger] view_plans(s)[i] == view_plan(s[i]) by {
            if i < s.len() - 1 {
                assert(s.subrange(0, s.len() - 1)[i] == s[i]);
            }
        }
    }
}

/// Two sequences of plans with equal views pointwise have equal views.
pub proof fn lemma_view_plans_ext(a: Seq<Expr>, b: Seq<PlanV>)
    requires
        a.len() == b.len(),
        forall|i: int| 0 <= i < a.len() ==> view_plan(#[trigger] a[i]) == b[i],
    ensures
        view_plans(a) == b,
{
    lemma_view_plans(a);
    assert(view_plans(a) =~= b);
}

impl Expr {
    /// The given vertices.
    pub fn constant(vxs: Vec<Vx>) -> (r: Self)
        ensures
            r@ == PlanV::Constant(vxs@),
    {
        Expr::Constant(vxs)
    }

    /// Walks up from this plan, keeping rounds `lo..=hi`.
    pub fn up(self, lo: usize, hi: Option<usize>) -> (r: Self)
        ensures
            r@ == (PlanV::Up { input: Box::new(self@), lo: lo as nat, hi: opt_nat(hi) }),
    {
        Expr::Up { input: Box::new(self), lo, hi }
    }

    /// Walks down from this plan, keeping rounds `lo..=hi`.
    pub fn down(self, lo: usize, hi: Option<usize>) -> (r: Self)
        ensures
            r@ == (PlanV::Down { input: Box::new(self@), lo: lo as nat, hi: opt_nat(hi) }),
    {
        Expr::Down { input: Box::new(self), lo, hi }
    }

    /// The union of this plan and `other`.
    pub fn union(self, other: Expr) -> (r: Self)
        ensures
            r@ == PlanV::Union(seq![self@, other@]),
    {
        let mut v: Vec<Expr> = Vec::new();
        v.push(self);
        v.push(other);
        proof {
            lemma_view_plans_ext(v@, seq![self@, other@]);
        }
        Expr::Union(v)
    }

    /// The union of the plans.
    pub fn union_all(inputs: Vec<Expr>) -> (r: Self)
        ensures
            r@ == PlanV::Union(view_plans(inputs@)),
    {
        Expr::Union(inputs)
    }

    /// The intersection of this plan and `other`.
    pub fn intersection(self, other: Expr) -> (r: Self)
        ensures
            r@ == PlanV::Intersection(seq![self@, other@]),
    {
        let mut v: Vec<Expr> = Vec::new();
        v.push(self);
        v.push(other);
        proof {
            lemma_view_plans_ext(v@, seq![self@, other@]);
        }
        Expr::Intersection(v)
    }

    /// The intersection of the plans.
    pub fn intersection_all(inputs: Vec<Expr>) -> (r: Self)
        ensures
            r@ == PlanV::Intersection(view_plans(inputs@)),
    {
        Expr::Intersection(inputs)
    }

    /// The revisions of this plan that meet every predicate.
    pub fn filter(self, preds: Vec<Predicate>) -> (r: Self)
        ensures
            r@ == (PlanV::Filter { input: Box::new(self@), preds: view_preds(preds@) }),
    {
        Expr::Filter { input: Box::new(self), preds }
    }

    /// The revisions that descend from `lo` and lead to `hi`.
    pub fn range(lo: Expr, hi: Expr) -> (r: Expr)
        ensures
            r@ == (PlanV::Range { lo: Box::new(lo@), hi: Box::new(hi@) }),
    {
        Expr::Range { lo: Box::new(lo), hi: Box::new(hi) }
    }
}

} // verus!
