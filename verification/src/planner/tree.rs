//! The indented, chained text form of a plan.
use vstd::prelude::*;

use crate::planner::expr::{lemma_view_plans, view_plan, view_plans, view_preds, Expr, PlanV, PredV, Predicate};
use crate::text::{dec, debug_str, pad, str_debug, vx_list, write_pad, write_vx_list};
use crate::tree::{hi_text, write_close, write_open, write_walk};

verus! {

/// How deeply the query nests calls (each argument list adds a level).
pub open spec fn nesting(e: PlanV) -> nat
    decreases e,
{
    match e {
        PlanV::Nothing => 0,
        PlanV::All => 0,
        PlanV::Constant(_) => 0,
        PlanV::Up { input, lo, hi } => nesting(*input),
        PlanV::Down { input, lo, hi } => nesting(*input),
        PlanV::Filter { input, preds } => nesting(*input),
        PlanV::Range { lo, hi } => 1 + if nesting(*lo) >= nesting(*hi) { nesting(*lo) } else { nesting(*hi) },
        PlanV::Union(es) => 1 + nesting_all(es),
        PlanV::Intersection(es) => 1 + nesting_all(es),
    }
}

pub open spec fn nesting_all(es: Seq<PlanV>) -> nat
    decreases es,
{
    if es.len() == 0 {
        0
    } else {
        let a = nesting_all(es.subrange(0, es.len() - 1));
        let b = nesting(es[es.len() - 1]);
        if a >= b { a } else { b }
    }
}

/// The text of `e` at `indent`, without its final line break: the input of
/// a walk or filter first, then the method on its own line one level
/// deeper; calls open a line, list each argument one level deeper followed
/// by a comma, and close at the call's own level.
pub open spec fn body(e: PlanV, indent: nat) -> Seq<char>
    decreases e,
{
    match e {
        PlanV::Nothing => pad(indent) + "none()"@,
        PlanV::All => pad(indent) + "all()"@,
        PlanV::Constant(v) => pad(indent) + "constant("@ + vx_list(v) + ")"@,
        PlanV::Up { input, lo, hi } => body(*input, indent) + "\n"@ + pad(indent + 1) + ".up("@ + dec(lo) + ", "@ + hi_text(hi) + ")"@,
        PlanV::Down { input, lo, hi } => body(*input, indent) + "\n"@ + pad(indent + 1) + ".down("@ + dec(lo) + ", "@ + hi_text(hi) + ")"@,
        PlanV::Filter { input, preds } => body(*input, indent) + "\n"@ + pad(indent + 1) + ".filter("@ + pred_list(preds) + ")"@,
        PlanV::Range { lo, hi } => pad(indent) + "range(\n"@ + body(*lo, indent + 1) + ",\n"@ + body(*hi, indent + 1) + ",\n"@ + pad(indent) + ")"@,
        PlanV::Union(es) => pad(indent) + "union(\n"@ + args(es, indent + 1) + pad(indent) + ")"@,
        PlanV::Intersection(es) => pad(indent) + "intersection(\n"@ + args(es, indent + 1) + pad(indent) + ")"@,
    }
}

/// Each argument's text followed by `,` and a line break.
pub open spec fn args(es: Seq<PlanV>, indent: nat) -> Seq<char>
    decreases es,
{
    if es.len() == 0 {
        Seq::empty()
    } else {
        args(es.subrange(0, es.len() - 1), indent) + body(es[es.len() - 1], indent) + ",\n"@
    }
}

/// A predicate as its derived debug form shows it.
pub open spec fn pred_text(p: PredV) -> Seq<char> {
    match p {
        PredV::Author(s) => "Author("@ + str_debug(s) + ")"@,
        PredV::Description(s) => "Description("@ + str_debug(s) + ")"@,
    }
}

/// The predicates separated by `, `.
pub open spec fn pred_items(ps: Seq<PredV>) -> Seq<char>
    decreases ps.len(),
{
    if ps.len() == 0 {
        Seq::empty()
    } else if ps.len() == 1 {
        pred_text(ps[0])
    } else {
        pred_items(ps.drop_last()) + ", "@ + pred_text(ps.last())
    }
}

/// A predicate list as its derived debug form shows it.
pub open spec fn pred_list(ps: Seq<PredV>) -> Seq<char> {
    "["@ + pred_items(ps) + "]"@
}

/// The printed form of a plan: its text and a final line break.
pub open spec fn tree_text(e: PlanV) -> Seq<char> {
    body(e, 0) + "\n"@
}

/// A plan to be printed as a tree.
pub struct ExprTree<'a>(pub &'a Expr);

impl Expr {
    /// The plan as a printable tree.
    pub fn tree(&self) -> (t: ExprTree<'_>)
        ensures
            t.0 == self,
    {
        ExprTree(self)
    }
}

impl<'a> ExprTree<'a> {
    /// The tree's text (see `body`).
    pub fn to_string(&self) -> (s: String)
        requires
            nesting(self.0@) < usize::MAX,
        ensures
            s@ == tree_text(self.0@),
    {
        let mut out = String::new();
        write_body(self.0, &mut out, 0);
        out.append("\n");
        out
    }
}

fn write_pred(out: &mut String, p: &Predicate)
    ensures
        final(out)@ == old(out)@ + pred_text(p@),
{
    let ghost o = out@;
    match p {
        Predicate::Author(s) => {
            out.append("Author(");
            let d = debug_str(s);
            out.append(d.as_str());
            out.append(")");
        },
        Predicate::Description(s) => {
            out.append("Description(");
            let d = debug_str(s);
            out.append(d.as_str());
            out.append(")");
        },
    }
    proof {
        assert(out@ =~= o + pred_text(p@));
    }
}

/// Appends a filter's method line (after a line break).
fn write_filter(out: &mut String, indent: usize, preds: &Vec<Predicate>)
    requires
        indent < usize::MAX,
    ensures
        final(out)@ == old(out)@ + "\n"@ + pad((indent + 1) as nat) + ".filter("@ + pred_list(view_preds(preds@)) + ")"@,
{
    let ghost o = out@;
    out.append("\n");
    write_pad(out, indent + 1);
    out.append(".filter(");
    out.append("[");
    let ghost start = out@;
    let mut i: usize = 0;
    proof {
        assert(view_preds(preds@.take(0)) =~= Seq::<PredV>::empty());
    }
    while i < preds.len()
        invariant
            i <= preds.len(),
            out@ == start + pred_items(view_preds(preds@.take(i as int))),
        decreases preds.len() - i,
    {
        if i > 0 {
            out.append(", ");
        }
        write_pred(out, &preds[i]);
        proof {
            let pre = view_preds(preds@.take(i as int));
            let pre1 = view_preds(preds@.take(i + 1));
            assert(pre1 =~= pre.push(preds@[i as int]@));
            assert(pre1.drop_last() =~= pre);
            if i == 0 {
                assert(pre =~= Seq::<PredV>::empty());
            }
            assert(out@ =~= start + pred_items(pre1));
        }
        i = i + 1;
    }
    out.append("]");
    out.append(")");
    proof {
        assert(preds@.take(i as int) =~= preds@);
        assert(out@ =~= o + "\n"@ + pad((indent + 1) as nat) + ".filter("@ + pred_list(view_preds(preds@)) + ")"@);
    }
}

#[verifier::spinoff_prover]
#[verifier::rlimit(50)]
fn write_body(e: &Expr, out: &mut String, indent: usize)
    requires
        indent + nesting(e@) < usize::MAX,
    ensures
        final(out)@ == old(out)@ + body(e@, indent as nat),
    decreases e,
{
    let ghost o = out@;
    match e {
        Expr::Nothing => {
            write_open(out, indent, "none()");
            proof {
                assert(out@ =~= o + body(e@, indent as nat));
            }
        },
        Expr::All => {
            write_open(out, indent, "all()");
            proof {
                assert(out@ =~= o + body(e@, indent as nat));
            }
        },
        Expr::Constant(vxs) => {
            write_open(out, indent, "constant(");
            write_vx_list(out, vxs);
            out.append(")");
            proof {
                assert(out@ =~= o + body(e@, indent as nat));
            }
        },
        Expr::Up { input, lo, hi } => {
            write_body(input, out, indent);
            write_walk(out, indent, true, *lo, *hi);
            proof {
                assert(out@ =~= o + body(e@, indent as nat));
            }
        },
        Expr::Down { input, lo, hi } => {
            write_body(input, out, indent);
            write_walk(out, indent, false, *lo, *hi);
            proof {
                assert(out@ =~= o + body(e@, indent as nat));
            }
        },
        Expr::Filter { input, preds } => {
            write_body(input, out, indent);
            write_filter(out, indent, preds);
            proof {
                assert(out@ =~= o + body(e@, indent as nat));
            }
        },
        Expr::Range { lo, hi } => {
            write_open(out, indent, "range(\n");
            write_body(lo, out, indent + 1);
            out.append(",\n");
            write_body(hi, out, indent + 1);
            out.append(",\n");
            write_close(out, indent);
            proof {
                assert(out@ =~= o + body(e@, indent as nat));
            }
        },
        Expr::Union(inputs) => {
            write_open(out, indent, "union(\n");
            write_args(e, inputs, out, indent + 1);
            write_close(out, indent);
            proof {
                assert(out@ =~= o + body(e@, indent as nat));
            }
        },
        Expr::Intersection(inputs) => {
            write_open(out, indent, "intersection(\n");
            write_args(e, inputs, out, indent + 1);
            write_close(out, indent);
            proof {
                assert(out@ =~= o + body(e@, indent as nat));
            }
        },
    }
}

fn write_args(parent: &Expr, inputs: &Vec<Expr>, out: &mut String, indent: usize)
    requires
        *parent == Expr::Union(*inputs) || *parent == Expr::Intersection(*inputs),
        indent + nesting_all(view_plans(inputs@)) < usize::MAX,
    ensures
        final(out)@ == old(out)@ + args(view_plans(inputs@), indent as nat),
    decreases parent, 0nat,
{
    let ghost es = view_plans(inputs@);
    proof {
        lemma_view_plans(inputs@);
    }
    let mut i: usize = 0;
    while i < inputs.len()
        invariant
            i <= inputs.len(),
            *parent == Expr::Union(*inputs) || *parent == Expr::Intersection(*inputs),
            es == view_plans(inputs@),
            es.len() == inputs@.len(),
            forall|k: int| 0 <= k < inputs@.len() ==> #[trigger] es[k] == view_plan(inputs@[k]),
            indent + nesting_all(es) < usize::MAX,
            out@ == old(out)@ + args(es.subrange(0, i as int), indent as nat),
        decreases inputs.len() - i,
    {
        proof {
            if *parent == Expr::Union(*inputs) {
                assert(decreases_to!(*parent => parent->Union_0));
            } else {
                assert(decreases_to!(*parent => parent->Intersection_0));
            }
            assert(decreases_to!(*inputs => inputs[i as int]));
            lemma_nesting_all(es, i as int);
            let pre1 = es.subrange(0, i + 1);
            assert(pre1.subrange(0, i as int) =~= es.subrange(0, i as int));
            assert(pre1[i as int] == es[i as int]);
        }
        write_body(&inputs[i], out, indent);
        out.append(",\n");
        i = i + 1;
    }
    proof {
        assert(es.subrange(0, i as int) =~= es);
    }
}

proof fn lemma_nesting_all(es: Seq<PlanV>, i: int)
    requires
        0 <= i < es.len(),
    ensures
        nesting(es[i]) <= nesting_all(es),
    decreases es.len(),
{
    if i < es.len() - 1 {
        lemma_nesting_all(es.subrange(0, es.len() - 1), i);
        assert(es.subrange(0, es.len() - 1)[i] == es[i]);
    }
}


// ----- what the text shows -----

/// The word that the text of `e` opens with after its indentation: a walk's
/// or a filter's is its input's, a call's is its name.
pub open spec fn opening(e: PlanV) -> Seq<char>
    decreases e,
{
    match e {
        PlanV::Nothing => "none()"@,
        PlanV::All => "all()"@,
        PlanV::Constant(_) => "constant("@,
        PlanV::Up { input, .. } => opening(*input),
        PlanV::Down { input, .. } => opening(*input),
        PlanV::Filter { input, .. } => opening(*input),
        PlanV::Range { .. } => "range(\n"@,
        PlanV::Union(_) => "union(\n"@,
        PlanV::Intersection(_) => "intersection(\n"@,
    }
}

/// The method that the last line of a walk's or a filter's text shows.
pub open spec fn method(e: PlanV) -> Seq<char> {
    match e {
        PlanV::Up { .. } => ".up("@,
        PlanV::Down { .. } => ".down("@,
        PlanV::Filter { .. } => ".filter("@,
        _ => Seq::empty(),
    }
}

/// The input of a walk or a filter (the plan itself otherwise).
pub open spec fn chained_input(e: PlanV) -> PlanV {
    match e {
        PlanV::Up { input, .. } => *input,
        PlanV::Down { input, .. } => *input,
        PlanV::Filter { input, .. } => *input,
        _ => e,
    }
}

proof fn lemma_prefix_extends(a: Seq<char>, b: Seq<char>, c: Seq<char>)
    requires
        a.is_prefix_of(b),
    ensures
        a.is_prefix_of(b + c),
{
    assert(a =~= (b + c).subrange(0, a.len() as int));
}

/// The text of every query opens, after its indentation, with the name of
/// the call at the root of its chain (`union(`, `intersection(`, `range(`,
/// `constant(`, `all()`), so queries of different kinds print differently.
pub proof fn law_text_opening(e: PlanV, indent: nat)
    ensures
        (pad(indent) + opening(e)).is_prefix_of(body(e, indent)),
    decreases e,
{
    let o = pad(indent) + opening(e);
    match e {
        PlanV::Up { input, .. } => {
            law_text_opening(*input, indent);
            let b = body(*input, indent);
            assert(body(e, indent) == b + (body(e, indent).subrange(b.len() as int, body(e, indent).len() as int)));
            lemma_prefix_extends(o, b, body(e, indent).subrange(b.len() as int, body(e, indent).len() as int));
        },
        PlanV::Down { input, .. } => {
            law_text_opening(*input, indent);
            let b = body(*input, indent);
            assert(body(e, indent) == b + (body(e, indent).subrange(b.len() as int, body(e, indent).len() as int)));
            lemma_prefix_extends(o, b, body(e, indent).subrange(b.len() as int, body(e, indent).len() as int));
        },
        PlanV::Filter { input, .. } => {
            law_text_opening(*input, indent);
            let b = body(*input, indent);
            assert(body(e, indent) == b + (body(e, indent).subrange(b.len() as int, body(e, indent).len() as int)));
            lemma_prefix_extends(o, b, body(e, indent).subrange(b.len() as int, body(e, indent).len() as int));
        },
        _ => {
            assert(o =~= body(e, indent).subrange(0, o.len() as int));
        },
    }
}

/// The text of a walk or a filter is its input's text followed by a line,
/// one level deeper, that opens with its own method (`.up(`, `.down(`,
/// `.filter(`).
pub proof fn law_text_method(e: PlanV, indent: nat)
    requires
        e is Up || e is Down || e is Filter,
    ensures
        (body(chained_input(e), indent) + "\n"@ + pad(indent + 1) + method(e)).is_prefix_of(body(e, indent)),
{
    let b = body(chained_input(e), indent);
    let head = b + "\n"@ + pad(indent + 1) + method(e);
    assert(head =~= body(e, indent).subrange(0, head.len() as int));
}

} // verus!
