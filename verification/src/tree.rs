//! The indented, chained text form of a query.
use vstd::prelude::*;

use crate::logical::{lemma_view_exprs, view_expr, view_exprs, Expr, ExprV};
use crate::text::{dec, debug_str, pad, str_debug, vx_list, write_dec, write_pad, write_vx_list};

verus! {

/// An upper bound as printed: the number, or `*` when there is none.
pub open spec fn hi_text(hi: Option<nat>) -> Seq<char> {
    match hi {
        Some(h) => dec(h),
        None => "*"@,
    }
}

/// How deeply the query nests calls (each argument list adds a level).
pub open spec fn nesting(e: ExprV) -> nat
    decreases e,
{
    match e {
        ExprV::All => 0,
        ExprV::Constant(_) => 0,
        ExprV::Up { input, lo, hi } => nesting(*input),
        ExprV::Down { input, lo, hi } => nesting(*input),
        ExprV::Filter { input, label, value } => nesting(*input),
        ExprV::Range { lo, hi } => 1 + if nesting(*lo) >= nesting(*hi) { nesting(*lo) } else { nesting(*hi) },
        ExprV::Union(es) => 1 + nesting_all(es),
        ExprV::Intersection(es) => 1 + nesting_all(es),
    }
}

pub open spec fn nesting_all(es: Seq<ExprV>) -> nat
    decreases es,
{
    if es.len() == 0 {
        0
    } else {
        let a = nesting_all(es.subrange(0, es.len() - 1));
        let b = nesting(es[es.len() - 1]);
        if a >= b { a } else { b }
    }
}

/// The text of `e` at `indent`, without its final line break: the input of
/// a walk or filter first, then the method on its own line one level
/// deeper; calls open a line, list each argument one level deeper followed
/// by a comma, and close at the call's own level.
pub open spec fn body(e: ExprV, indent: nat) -> Seq<char>
    decreases e,
{
    match e {
        ExprV::All => pad(indent) + "all()"@,
        ExprV::Constant(v) => pad(indent) + "constant("@ + vx_list(v) + ")"@,
        ExprV::Up { input, lo, hi } => body(*input, indent) + "\n"@ + pad(indent + 1) + ".up("@ + dec(lo) + ", "@ + hi_text(hi) + ")"@,
        ExprV::Down { input, lo, hi } => body(*input, indent) + "\n"@ + pad(indent + 1) + ".down("@ + dec(lo) + ", "@ + hi_text(hi) + ")"@,
        ExprV::Filter { input, label, value } => body(*input, indent) + "\n"@ + pad((indent + 1) as nat) + ".filter("@ + str_debug(label) + ", "@ + str_debug(value) + ")"@,
        ExprV::Range { lo, hi } => pad(indent) + "range(\n"@ + body(*lo, indent + 1) + ",\n"@ + body(*hi, indent + 1) + ",\n"@ + pad(indent) + ")"@,
        ExprV::Union(es) => pad(indent) + "union(\n"@ + args(es, indent + 1) + pad(indent) + ")"@,
        ExprV::Intersection(es) => pad(indent) + "intersection(\n"@ + args(es, indent + 1) + pad(indent) + ")"@,
    }
}

/// Each argument's text followed by `,` and a line break.
pub open spec fn args(es: Seq<ExprV>, indent: nat) -> Seq<char>
    decreases es,
{
    if es.len() == 0 {
        Seq::empty()
    } else {
        args(es.subrange(0, es.len() - 1), indent) + body(es[es.len() - 1], indent) + ",\n"@
    }
}

/// The printed form of a query: its text and a final line break.
pub open spec fn tree_text(e: ExprV) -> Seq<char> {
    body(e, 0) + "\n"@
}

/// A query to be printed as a tree.
pub struct ExprTree<'a>(pub &'a Expr);

impl Expr {
    /// The query as a printable tree.
    pub fn tree(&self) -> (t: ExprTree<'_>)
        ensures
            t.0 == self,
    {
        ExprTree(self)
    }
}

impl<'a> ExprTree<'a> {
    /// The tree's text (see `body`).
    pub fn to_string(&self) -> (s: String)
        requires
            nesting(self.0@) < usize::MAX,
        ensures
            s@ == tree_text(self.0@),
    {
        let mut out = String::new();
        write_body(self.0, &mut out, 0);
        out.append("\n");
        out
    }
}

fn write_hi(out: &mut String, hi: Option<usize>)
    ensures
        final(out)@ == old(out)@ + hi_text(crate::logical::opt_nat(hi)),
{
    match hi {
        Some(h) => write_dec(out, h),
        None => out.append("*"),
    }
}

/// Appends a walk's method line (after a line break): `.up(lo, hi)` when
/// `up`, else `.down(lo, hi)`.
pub(crate) fn write_walk(out: &mut String, indent: usize, up: bool, lo: usize, hi: Option<usize>)
    requires
        indent < usize::MAX,
    ensures
        final(out)@ == old(out)@ + "\n"@ + pad((indent + 1) as nat) + (if up { ".up("@ } else { ".down("@ }) + dec(lo as nat) + ", "@
            + hi_text(crate::logical::opt_nat(hi)) + ")"@,
{
    let ghost o = out@;
    out.append("\n");
    write_pad(out, indent + 1);
    if up {
        out.append(".up(");
    } else {
        out.append(".down(");
    }
    write_dec(out, lo);
    out.append(", ");
    write_hi(out, hi);
    out.append(")");
    proof {
        assert(out@ =~= o + "\n"@ + pad((indent + 1) as nat) + (if up { ".up("@ } else { ".down("@ }) + dec(lo as nat) + ", "@
            + hi_text(crate::logical::opt_nat(hi)) + ")"@);
    }
}

/// Appends a filter's method line (after a line break).
fn write_filter(out: &mut String, indent: usize, label: &String, value: &String)
    requires
        indent < usize::MAX,
    ensures
        final(out)@ == old(out)@ + "\n"@ + pad((indent + 1) as nat) + ".filter("@ + str_debug(label@) + ", "@ + str_debug(value@) + ")"@,
{
    let ghost o = out@;
    out.append("\n");
    write_pad(out, indent + 1);
    out.append(".filter(");
    let l = debug_str(label);
    out.append(l.as_str());
    out.append(", ");
    let v = debug_str(value);
    out.append(v.as_str());
    out.append(")");
    proof {
        assert(out@ =~= o + "\n"@ + pad((indent + 1) as nat) + ".filter("@ + str_debug(label@) + ", "@ + str_debug(value@) + ")"@);
    }
}

/// Appends the opening line of a call: `name(` and a line break.
pub(crate) fn write_open(out: &mut String, indent: usize, name: &str)
    ensures
        final(out)@ == old(out)@ + pad(indent as nat) + name@,
{
    write_pad(out, indent);
    out.append(name);
}

/// Appends the closing of a call at its own level.
pub(crate) fn write_close(out: &mut String, indent: usize)
    ensures
        final(out)@ == old(out)@ + pad(indent as nat) + ")"@,
{
    write_pad(out, indent);
    out.append(")");
}

#[verifier::spinoff_prover]
#[verifier::rlimit(50)]
fn write_body(e: &Expr, out: &mut String, indent: usize)
    requires
        indent + nesting(e@) < usize::MAX,
    ensures
        final(out)@ == old(out)@ + body(e@, indent as nat),
    decreases e,
{
    let ghost o = out@;
    match e {
        Expr::All => {
            write_open(out, indent, "all()");
            proof {
                assert(out@ =~= o + body(e@, indent as nat));
            }
        },
        Expr::Constant(vxs) => {
            write_open(out, indent, "constant(");
            write_vx_list(out, vxs);
            out.append(")");
            proof {
                assert(out@ =~= o + body(e@, indent as nat));
            }
        },
        Expr::Up { input, lo, hi } => {
            write_body(input, out, indent);
            write_walk(out, indent, true, *lo, *hi);
            proof {
                assert(out@ =~= o + body(e@, indent as nat));
            }
        },
        Expr::Down { input, lo, hi } => {
            write_body(input, out, indent);
            write_walk(out, indent, false, *lo, *hi);
            proof {
                assert(out@ =~= o + body(e@, indent as nat));
            }
        },
        Expr::Filter { input, label, value } => {
            write_body(input, out, indent);
            write_filter(out, indent, label, value);
            proof {
                assert(out@ =~= o + body(e@, indent as nat));
            }
        },
        Expr::Range { lo, hi } => {
            write_open(out, indent, "range(\n");
            write_body(lo, out, indent + 1);
            out.append(",\n");
            write_body(hi, out, indent + 1);
            out.append(",\n");
            write_close(out, indent);
            proof {
                assert(out@ =~= o + body(e@, indent as nat));
            }
        },
        Expr::Union(inputs) => {
            write_open(out, indent, "union(\n");
            write_args(e, inputs, out, indent + 1);
            write_close(out, indent);
            proof {
                assert(out@ =~= o + body(e@, indent as nat));
            }
        },
        Expr::Intersection(inputs) => {
            write_open(out, indent, "intersection(\n");
            write_args(e, inputs, out, indent + 1);
            write_close(out, indent);
            proof {
                assert(out@ =~= o + body(e@, indent as nat));
            }
        },
    }
}

fn write_args(parent: &Expr, inputs: &Vec<Expr>, out: &mut String, indent: usize)
    requires
        *parent == Expr::Union(*inputs) || *parent == Expr::Intersection(*inputs),
        indent + nesting_all(view_exprs(inputs@)) < usize::MAX,
    ensures
        final(out)@ == old(out)@ + args(view_exprs(inputs@), indent as nat),
    decreases parent, 0nat,
{
    let ghost es = view_exprs(inputs@);
    proof {
        lemma_view_exprs(inputs@);
    }
    let mut i: usize = 0;
    while i < inputs.len()
        invariant
            i <= inputs.len(),
            *parent == Expr::Union(*inputs) || *parent == Expr::Intersection(*inputs),
            es == view_exprs(inputs@),
            es.len() == inputs@.len(),
            forall|k: int| 0 <= k < inputs@.len() ==> #[trigger] es[k] == view_expr(inputs@[k]),
            indent + nesting_all(es) < usize::MAX,
            out@ == old(out)@ + args(es.subrange(0, i as int), indent as nat),
        decreases inputs.len() - i,
    {
        proof {
            if *parent == Expr::Union(*inputs) {
                assert(decreases_to!(*parent => parent->Union_0));
            } else {
                assert(decreases_to!(*parent => parent->Intersection_0));
            }
            assert(decreases_to!(*inputs => inputs[i as int]));
            lemma_nesting_all(es, i as int);
            let pre1 = es.subrange(0, i + 1);
            assert(pre1.subrange(0, i as int) =~= es.subrange(0, i as int));
            assert(pre1[i as int] == es[i as int]);
        }
        write_body(&inputs[i], out, indent);
        out.append(",\n");
        i = i + 1;
    }
    proof {
        assert(es.subrange(0, i as int) =~= es);
    }
}

proof fn lemma_nesting_all(es: Seq<ExprV>, i: int)
    requires
        0 <= i < es.len(),
    ensures
        nesting(es[i]) <= nesting_all(es),
    decreases es.len(),
{
    if i < es.len() - 1 {
        lemma_nesting_all(es.subrange(0, es.len() - 1), i);
        assert(es.subrange(0, es.len() - 1)[i] == es[i]);
    }
}


// ----- what the text shows -----

/// The word that the text of `e` opens with after its indentation: a walk's
/// or a filter's is its input's, a call's is its name.
pub open spec fn opening(e: ExprV) -> Seq<char>
    decreases e,
{
    match e {
        ExprV::All => "all()"@,
        ExprV::Constant(_) => "constant("@,
        ExprV::Up { input, .. } => opening(*input),
        ExprV::Down { input, .. } => opening(*input),
        ExprV::Filter { input, .. } => opening(*input),
        ExprV::Range { .. } => "range(\n"@,
        ExprV::Union(_) => "union(\n"@,
        ExprV::Intersection(_) => "intersection(\n"@,
    }
}

/// The method that the last line of a walk's or a filter's text shows.
pub open spec fn method(e: ExprV) -> Seq<char> {
    match e {
        ExprV::Up { .. } => ".up("@,
        ExprV::Down { .. } => ".down("@,
        ExprV::Filter { .. } => ".filter("@,
        _ => Seq::empty(),
    }
}

/// The input of a walk or a filter (the plan itself otherwise).
pub open spec fn chained_input(e: ExprV) -> ExprV {
    match e {
        ExprV::Up { input, .. } => *input,
        ExprV::Down { input, .. } => *input,
        ExprV::Filter { input, .. } => *input,
        _ => e,
    }
}

proof fn lemma_prefix_extends(a: Seq<char>, b: Seq<char>, c: Seq<char>)
    requires
        a.is_prefix_of(b),
    ensures
        a.is_prefix_of(b + c),
{
    assert(a =~= (b + c).subrange(0, a.len() as int));
}

/// The text of every query opens, after its indentation, with the name of
/// the call at the root of its chain (`union(`, `intersection(`, `range(`,
/// `constant(`, `all()`), so queries of different kinds print differently.
pub proof fn law_text_opening(e: ExprV, indent: nat)
    ensures
        (pad(indent) + opening(e)).is_prefix_of(body(e, indent)),
    decreases e,
{
    let o = pad(indent) + opening(e);
    match e {
        ExprV::Up { input, .. } => {
            law_text_opening(*input, indent);
            let b = body(*input, indent);
            assert(body(e, indent) == b + (body(e, indent).subrange(b.len() as int, body(e, indent).len() as int)));
            lemma_prefix_extends(o, b, body(e, indent).subrange(b.len() as int, body(e, indent).len() as int));
        },
        ExprV::Down { input, .. } => {
            law_text_opening(*input, indent);
            let b = body(*input, indent);
            assert(body(e, indent) == b + (body(e, indent).subrange(b.len() as int, body(e, indent).len() as int)));
            lemma_prefix_extends(o, b, body(e, indent).subrange(b.len() as int, body(e, indent).len() as int));
        },
        ExprV::Filter { input, .. } => {
            law_text_opening(*input, indent);
            let b = body(*input, indent);
            assert(body(e, indent) == b + (body(e, indent).subrange(b.len() as int, body(e, indent).len() as int)));
            lemma_prefix_extends(o, b, body(e, indent).subrange(b.len() as int, body(e, indent).len() as int));
        },
        _ => {
            assert(o =~= body(e, indent).subrange(0, o.len() as int));
        },
    }
}

/// The text of a walk or a filter is its input's text followed by a line,
/// one level deeper, that opens with its own method (`.up(`, `.down(`,
/// `.filter(`).
pub proof fn law_text_method(e: ExprV, indent: nat)
    requires
        e is Up || e is Down || e is Filter,
    ensures
        (body(chained_input(e), indent) + "\n"@ + pad(indent + 1) + method(e)).is_prefix_of(body(e, indent)),
{
    let b = body(chained_input(e), indent);
    let head = b + "\n"@ + pad(indent + 1) + method(e);
    assert(head =~= body(e, indent).subrange(0, head.len() as int));
}

} // verus!
