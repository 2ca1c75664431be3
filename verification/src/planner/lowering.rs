//! What each kind of parsed revset lowers to, in terms of what its parts
//! lower to.
use vstd::prelude::*;

use crate::logical::opt_nat;
use crate::planner::expr::PlanV;
use crate::planner::lower::{author_union_of, bounds_of, lowered, LowerErrV, RevsetTree};

verus! {

/// `roots::heads` lowers to the range whose lower end is what `roots`
/// lowers to and whose upper end is what `heads` lowers to (the
/// descendants of the roots that are ancestors of the heads), and so does
/// `roots..heads`; an intersection lowers to the intersection of what its
/// left and right sides lower to, in that order. When a side fails, the
/// roots' (left) error comes first.
pub proof fn law_lower_pairs(x: RevsetTree, y: RevsetTree)
    ensures
        ((lowered(x), lowered(y)) matches (Ok(a), Ok(b)) ==> lowered((RevsetTree::DagRange { roots: Box::new(x), heads: Box::new(y) }))
            == Ok::<PlanV, LowerErrV>((PlanV::Range { lo: Box::new(a), hi: Box::new(b) }))),
        ((lowered(x), lowered(y)) matches (Ok(a), Ok(b)) ==> lowered((RevsetTree::Range { roots: Box::new(x), heads: Box::new(y) }))
            == Ok::<PlanV, LowerErrV>((PlanV::Range { lo: Box::new(a), hi: Box::new(b) }))),
        ((lowered(x), lowered(y)) matches (Ok(a), Ok(b)) ==> lowered(RevsetTree::Intersection(Box::new(x), Box::new(y)))
            == Ok::<PlanV, LowerErrV>(PlanV::Intersection(seq![a, b]))),
        (lowered(x) matches Err(e) ==> lowered((RevsetTree::DagRange { roots: Box::new(x), heads: Box::new(y) })) == Err::<PlanV, LowerErrV>(e)),
        ((lowered(x), lowered(y)) matches (Ok(_), Err(e)) ==> lowered((RevsetTree::DagRange { roots: Box::new(x), heads: Box::new(y) })) == Err::<PlanV, LowerErrV>(e)),
{
}

/// `::heads` (ancestors within a generation range) lowers to a walk down from
/// what `heads` lowers to, and `roots::` (descendants) to a walk up from
/// what `roots` lowers to, over the rounds that the generation range gives.
pub proof fn law_lower_walks(x: RevsetTree, g: std::ops::Range<u64>)
    ensures
        ((bounds_of(g), lowered(x)) matches (Ok((lo, hi)), Ok(p)) ==> lowered((RevsetTree::Ancestors { heads: Box::new(x), generation: g }))
            == Ok::<PlanV, LowerErrV>((PlanV::Down { input: Box::new(p), lo: lo as nat, hi: opt_nat(hi) }))),
        ((bounds_of(g), lowered(x)) matches (Ok((lo, hi)), Ok(p)) ==> lowered((RevsetTree::Descendants { roots: Box::new(x), generation: g }))
            == Ok::<PlanV, LowerErrV>((PlanV::Up { input: Box::new(p), lo: lo as nat, hi: opt_nat(hi) }))),
{
}

/// A union that is not two filters on one author lowers to the union of
/// what its left and right sides lower to, in that order; one that is
/// lowers to that single author filter over every revision.
pub proof fn law_lower_union(x: RevsetTree, y: RevsetTree)
    ensures
        ((author_union_of(RevsetTree::Union(Box::new(x), Box::new(y))), lowered(x), lowered(y)) matches (Ok(None), Ok(a), Ok(b))
            ==> lowered(RevsetTree::Union(Box::new(x), Box::new(y))) == Ok::<PlanV, LowerErrV>(PlanV::Union(seq![a, b]))),
        (author_union_of(RevsetTree::Union(Box::new(x), Box::new(y))) matches Ok(Some(p))
            ==> lowered(RevsetTree::Union(Box::new(x), Box::new(y))) == Ok::<PlanV, LowerErrV>((PlanV::Filter { input: Box::new(PlanV::All), preds: seq![p] }))),
{
}

} // verus!
