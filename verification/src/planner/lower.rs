//! Building plans from parsed revsets: the parts of a revset that plans are
//! made of, and the verified lowering of those parts.
use std::ops::Range;
use vstd::prelude::*;

use crate::dag::Vx;
use crate::planner::expr::{view_preds, Expr, PlanV, PredV, Predicate};
use crate::planner::vecs::lemma_view_preds_push;

verus! {

/// The kinds of revset expression that have no plan.
#[derive(Debug, Clone, Copy, PartialEq, Eq, Structural)]
pub enum ExprKind {
    VisibleHeads,
    VisibleHeadsOrReferenced,
    Root,
    Reachable,
    Heads,
    HeadsRange,
    Roots,
    ForkPoint,
    MergePoint,
    Forks,
    Bisect,
    HasSize,
    Latest,
    AsFilter,
    Divergent,
    AtOperation,
    WithinReference,
    WithinVisibility,
    Coalesce,
    Present,
    NotIn,
}

/// The kinds of revset filter that have no predicate.
#[derive(Debug, Clone, Copy, PartialEq, Eq, Structural)]
pub enum FilterKind {
    ParentCount,
    Subject,
    AuthorDate,
    CommitterName,
    CommitterEmail,
    CommitterDate,
    File,
    DiffLines,
    HasConflict,
    Signed,
    Extension,
}

/// A string matcher of a revset.
pub enum StringTree {
    Exact(String),
    ExactI(String),
    Substring(String),
    SubstringI(String),
    /// Another pattern, as its debug text.
    OtherPattern(String),
    /// A combination of patterns, as its debug text.
    OtherExpression(String),
}

/// A filter of a revset.
pub enum FilterTree {
    Description(StringTree),
    AuthorName(StringTree),
    AuthorEmail(StringTree),
    Other(FilterKind),
}

/// A reference to commits in a revset.
pub enum CommitRefTree {
    Symbol(String),
    /// Another reference, as its debug text.
    Other(String),
}

/// A parsed revset expression, as far as plans are concerned.
pub enum RevsetTree {
    Empty,
    All,
    /// Commit ids, in hexadecimal.
    Commits(Vec<String>),
    CommitRef(CommitRefTree),
    Ancestors { heads: Box<RevsetTree>, generation: Range<u64> },
    Descendants { roots: Box<RevsetTree>, generation: Range<u64> },
    DagRange { roots: Box<RevsetTree>, heads: Box<RevsetTree> },
    Range { roots: Box<RevsetTree>, heads: Box<RevsetTree> },
    Union(Box<RevsetTree>, Box<RevsetTree>),
    Intersection(Box<RevsetTree>, Box<RevsetTree>),
    Difference(Box<RevsetTree>, Box<RevsetTree>),
    Filter(FilterTree),
    Other(ExprKind),
}

/// Why a revset has no plan.
#[derive(Debug, PartialEq, Eq)]
pub enum LowerRevsetError {
    InvalidLiteral(String),
    UnsupportedExpression(&'static str),
    UnsupportedCommitRef(String),
    UnsupportedFilter(&'static str),
    UnsupportedStringPattern(String),
    GenerationOutOfRange(Range<u64>),
}

/// The mathematical form of a lowering error.
pub enum LowerErrV {
    InvalidLiteral(Seq<char>),
    UnsupportedExpression(Seq<char>),
    UnsupportedCommitRef(Seq<char>),
    UnsupportedFilter(Seq<char>),
    UnsupportedStringPattern(Seq<char>),
    GenerationOutOfRange(u64, u64),
}

impl View for LowerRevsetError {
    type V = LowerErrV;

    open spec fn view(&self) -> LowerErrV {
        match self {
            LowerRevsetError::InvalidLiteral(s) => LowerErrV::InvalidLiteral(s@),
            LowerRevsetError::UnsupportedExpression(s) => LowerErrV::UnsupportedExpression(s@),
            LowerRevsetError::UnsupportedCommitRef(s) => LowerErrV::UnsupportedCommitRef(s@),
            LowerRevsetError::UnsupportedFilter(s) => LowerErrV::UnsupportedFilter(s@),
            LowerRevsetError::UnsupportedStringPattern(s) => LowerErrV::UnsupportedStringPattern(s@),
            LowerRevsetError::GenerationOutOfRange(r) => LowerErrV::GenerationOutOfRange(r.start, r.end),
        }
    }
}

// ----- decimal numbers -----

/// The value of the decimal digits `s` (none unless every character is one).
pub open spec fn digits_value(s: Seq<char>) -> Option<nat>
    decreases s.len(),
{
    if s.len() == 0 {
        Some(0)
    } else {
        let c = s.last();
        if '0' <= c && c <= '9' {
            match digits_value(s.drop_last()) {
                Some(v) => Some(v * 10 + (c as u32 - '0' as u32) as nat),
                None => None,
            }
        } else {
            None
        }
    }
}

/// The `usize` that `s` spells in decimal, as `str::parse` reads it: an
/// optional `+`, then one or more digits; none when it does not fit.
pub open spec fn usize_of(s: Seq<char>) -> Option<usize> {
    let d = if s.len() > 0 && s[0] == '+' { s.drop_first() } else { s };
    if d.len() == 0 {
        None
    } else {
        match digits_value(d) {
            Some(v) => if v <= usize::MAX { Some(v as usize) } else { None },
            None => None,
        }
    }
}

proof fn lemma_digits_grow(s: Seq<char>, c: char)
    requires
        '0' <= c <= '9',
        digits_value(s) is Some,
    ensures
        digits_value(s.push(c)) == Some(digits_value(s)->0 * 10 + (c as u32 - '0' as u32) as nat),
        digits_value(s.push(c))->0 >= digits_value(s)->0,
{
    assert(s.push(c).drop_last() =~= s);
}

/// Reads `s` as a decimal `usize` (see `usize_of`).
pub fn parse_usize(s: &str) -> (r: Option<usize>)
    ensures
        r == usize_of(s@),
{
    let n = s.unicode_len();
    let mut i: usize = 0;
    if n > 0 && s.get_char(0) == '+' {
        i = 1;
    }
    let ghost d = if s@.len() > 0 && s@[0] == '+' { s@.drop_first() } else { s@ };
    let ghost start = i as int;
    proof {
        assert(d =~= s@.skip(start));
    }
    if i == n {
        return None;
    }
    let mut value: usize = 0;
    proof {
        assert(s@.subrange(start, start) =~= Seq::<char>::empty());
    }
    while i < n
        invariant
            n == s@.len(),
            0 <= start <= i <= n,
            d == s@.skip(start),
            d == (if s@.len() > 0 && s@[0] == '+' { s@.drop_first() } else { s@ }),
            d.len() > 0,
            digits_value(s@.subrange(start, i as int)) == Some(value as nat),
        decreases n - i,
    {
        let c = s.get_char(i);
        let ghost pre = s@.subrange(start, i as int);
        proof {
            assert(s@.subrange(start, i + 1) =~= pre.push(c));
        }
        if c < '0' || c > '9' {
            proof {
                assert(digits_value(s@.subrange(start, i + 1)) is None);
                lemma_digits_none_extends(s@, start, i + 1);
                assert(s@.subrange(start, n as int) =~= d);
            }
            return None;
        }
        let digit = (c as u32 - '0' as u32) as usize;
        proof {
            lemma_digits_grow(pre, c);
        }
        if value > (usize::MAX - digit) / 10 {
            proof {
                assert(value * 10 + digit > usize::MAX) by (nonlinear_arith)
                    requires value > (usize::MAX - digit) / 10, digit <= 9;
                lemma_digits_big_extends(s@, start, i + 1);
                assert(s@.subrange(start, n as int) =~= d);
            }
            return None;
        }
        proof {
            assert(value * 10 + digit <= usize::MAX) by (nonlinear_arith)
                requires value <= (usize::MAX - digit) / 10, digit <= 9;
        }
        value = value * 10 + digit;
        i = i + 1;
    }
    proof {
        assert(s@.subrange(start, n as int) =~= d);
    }
    Some(value)
}

proof fn lemma_digits_none_extends(s: Seq<char>, start: int, i: int)
    requires
        0 <= start <= i <= s.len(),
        digits_value(s.subrange(start, i)) is None,
    ensures
        digits_value(s.subrange(start, s.len() as int)) is None,
    decreases s.len() - i,
{
    if i < s.len() {
        assert(s.subrange(start, i + 1).drop_last() =~= s.subrange(start, i));
        lemma_digits_none_extends(s, start, i + 1);
    }
}

proof fn lemma_digits_big_extends(s: Seq<char>, start: int, i: int)
    requires
        0 <= start <= i <= s.len(),
        digits_value(s.subrange(start, i)) matches Some(v) && v > usize::MAX,
    ensures
        !(digits_value(s.subrange(start, s.len() as int)) matches Some(v) && v <= usize::MAX),
    decreases s.len() - i,
{
    if i < s.len() {
        let p = s.subrange(start, i);
        assert(s.subrange(start, i + 1) =~= p.push(s[i]));
        if '0' <= s[i] <= '9' {
            lemma_digits_grow(p, s[i]);
            lemma_digits_big_extends(s, start, i + 1);
        } else {
            assert(digits_value(s.subrange(start, i + 1)) is None);
            lemma_digits_none_extends(s, start, i + 1);
        }
    }
}

// ----- the lowering -----

/// The name of an unsupported expression kind.
pub open spec fn kind_name(k: ExprKind) -> Seq<char> {
    match k {
        ExprKind::VisibleHeads => "visible_heads"@,
        ExprKind::VisibleHeadsOrReferenced => "visible_heads_or_referenced"@,
        ExprKind::Root => "root"@,
        ExprKind::Reachable => "reachable"@,
        ExprKind::Heads => "heads"@,
        ExprKind::HeadsRange => "heads_range"@,
        ExprKind::Roots => "roots"@,
        ExprKind::ForkPoint => "fork_point"@,
        ExprKind::MergePoint => "merge_point"@,
        ExprKind::Forks => "forks"@,
        ExprKind::Bisect => "bisect"@,
        ExprKind::HasSize => "has_size"@,
        ExprKind::Latest => "latest"@,
        ExprKind::AsFilter => "as_filter"@,
        ExprKind::Divergent => "divergent"@,
        ExprKind::AtOperation => "at_operation"@,
        ExprKind::WithinReference => "within_reference"@,
        ExprKind::WithinVisibility => "within_visibility"@,
        ExprKind::Coalesce => "coalesce"@,
        ExprKind::Present => "present"@,
        ExprKind::NotIn => "not_in"@,
    }
}

/// The name of an expression kind that has no plan.
pub fn expr_kind(k: ExprKind) -> (r: &'static str)
    ensures
        r@ == kind_name(k),
{
    match k {
        ExprKind::VisibleHeads => "visible_heads",
        ExprKind::VisibleHeadsOrReferenced => "visible_heads_or_referenced",
        ExprKind::Root => "root",
        ExprKind::Reachable => "reachable",
        ExprKind::Heads => "heads",
        ExprKind::HeadsRange => "heads_range",
        ExprKind::Roots => "roots",
        ExprKind::ForkPoint => "fork_point",
        ExprKind::MergePoint => "merge_point",
        ExprKind::Forks => "forks",
        ExprKind::Bisect => "bisect",
        ExprKind::HasSize => "has_size",
        ExprKind::Latest => "latest",
        ExprKind::AsFilter => "as_filter",
        ExprKind::Divergent => "divergent",
        ExprKind::AtOperation => "at_operation",
        ExprKind::WithinReference => "within_reference",
        ExprKind::WithinVisibility => "within_visibility",
        ExprKind::Coalesce => "coalesce",
        ExprKind::Present => "present",
        ExprKind::NotIn => "not_in",
    }
}

/// The name of an unsupported filter kind.
pub open spec fn filter_name(k: FilterKind) -> Seq<char> {
    match k {
        FilterKind::ParentCount => "parent_count"@,
        FilterKind::Subject => "subject"@,
        FilterKind::AuthorDate => "author_date"@,
        FilterKind::CommitterName => "committer_name"@,
        FilterKind::CommitterEmail => "committer_email"@,
        FilterKind::CommitterDate => "committer_date"@,
        FilterKind::File => "file"@,
        FilterKind::DiffLines => "diff_lines"@,
        FilterKind::HasConflict => "has_conflict"@,
        FilterKind::Signed => "signed"@,
        FilterKind::Extension => "extension"@,
    }
}

/// The name of a filter kind that has no predicate.
pub fn filter_kind(k: FilterKind) -> (r: &'static str)
    ensures
        r@ == filter_name(k),
{
    match k {
        FilterKind::ParentCount => "parent_count",
        FilterKind::Subject => "subject",
        FilterKind::AuthorDate => "author_date",
        FilterKind::CommitterName => "committer_name",
        FilterKind::CommitterEmail => "committer_email",
        FilterKind::CommitterDate => "committer_date",
        FilterKind::File => "file",
        FilterKind::DiffLines => "diff_lines",
        FilterKind::HasConflict => "has_conflict",
        FilterKind::Signed => "signed",
        FilterKind::Extension => "extension",
    }
}

/// The text a string matcher matches on: that of a plain pattern; an error
/// naming any other matcher.
pub open spec fn string_of(s: StringTree) -> Result<Seq<char>, LowerErrV> {
    match s {
        StringTree::Exact(t) => Ok(t@),
        StringTree::ExactI(t) => Ok(t@),
        StringTree::Substring(t) => Ok(t@),
        StringTree::SubstringI(t) => Ok(t@),
        StringTree::OtherPattern(d) => Err(LowerErrV::UnsupportedStringPattern(d@)),
        StringTree::OtherExpression(d) => Err(LowerErrV::UnsupportedStringPattern(d@)),
    }
}

/// The text a string matcher matches on (see `string_of`).
pub fn lower_string(s: &StringTree) -> (r: Result<String, LowerRevsetError>)
    ensures
        match (r, string_of(*s)) {
            (Ok(a), Ok(b)) => a@ == b,
            (Err(a), Err(b)) => a@ == b,
            _ => false,
        },
{
    match s {
        StringTree::Exact(t) => Ok(t.clone()),
        StringTree::ExactI(t) => Ok(t.clone()),
        StringTree::Substring(t) => Ok(t.clone()),
        StringTree::SubstringI(t) => Ok(t.clone()),
        StringTree::OtherPattern(d) => Err(LowerRevsetError::UnsupportedStringPattern(d.clone())),
        StringTree::OtherExpression(d) => Err(LowerRevsetError::UnsupportedStringPattern(d.clone())),
    }
}

/// The predicate of a filter: the description's, or the author's for a
/// name or an email; an error for any other filter.
pub open spec fn pred_of_filter(f: FilterTree) -> Result<PredV, LowerErrV> {
    match f {
        FilterTree::Description(s) => match string_of(s) {
            Ok(t) => Ok(PredV::Description(t)),
            Err(e) => Err(e),
        },
        FilterTree::AuthorName(s) => match string_of(s) {
            Ok(t) => Ok(PredV::Author(t)),
            Err(e) => Err(e),
        },
        FilterTree::AuthorEmail(s) => match string_of(s) {
            Ok(t) => Ok(PredV::Author(t)),
            Err(e) => Err(e),
        },
        FilterTree::Other(k) => Err(LowerErrV::UnsupportedFilter(filter_name(k))),
    }
}

/// The predicate of a filter (see `pred_of_filter`).
pub fn lower_filter(f: &FilterTree) -> (r: Result<Predicate, LowerRevsetError>)
    ensures
        match (r, pred_of_filter(*f)) {
            (Ok(a), Ok(b)) => a@ == b,
            (Err(a), Err(b)) => a@ == b,
            _ => false,
        },
{
    match f {
        FilterTree::Description(s) => match lower_string(s) {
            Ok(t) => Ok(Predicate::Description(t)),
            Err(e) => Err(e),
        },
        FilterTree::AuthorName(s) => match lower_string(s) {
            Ok(t) => Ok(Predicate::Author(t)),
            Err(e) => Err(e),
        },
        FilterTree::AuthorEmail(s) => match lower_string(s) {
            Ok(t) => Ok(Predicate::Author(t)),
            Err(e) => Err(e),
        },
        FilterTree::Other(k) => Err(LowerRevsetError::UnsupportedFilter(filter_kind(*k))),
    }
}

/// The round bounds of a generation range: its start, and its last round
/// (none when the range is open, `end == u64::MAX`); an error when a bound
/// does not fit in `usize` or the range ends at 0.
pub open spec fn bounds_of(g: Range<u64>) -> Result<(usize, Option<usize>), LowerErrV> {
    if g.start > usize::MAX {
        Err(LowerErrV::GenerationOutOfRange(g.start, g.end))
    } else if g.end == u64::MAX {
        Ok((g.start as usize, None))
    } else if g.end == 0 || g.end - 1 > usize::MAX {
        Err(LowerErrV::GenerationOutOfRange(g.start, g.end))
    } else {
        Ok((g.start as usize, Some((g.end - 1) as usize)))
    }
}

/// The round bounds of a generation range (see `bounds_of`).
pub fn lower_generation_range(g: &Range<u64>) -> (r: Result<(usize, Option<usize>), LowerRevsetError>)
    ensures
        match (r, bounds_of(*g)) {
            (Ok(a), Ok(b)) => a == b,
            (Err(a), Err(b)) => a@ == b,
            _ => false,
        },
{
    let start = g.start;
    let end = g.end;
    if start as u128 > usize::MAX as u128 {
        return Err(LowerRevsetError::GenerationOutOfRange(Range { start, end }));
    }
    let lo = start as usize;
    if end == u64::MAX {
        return Ok((lo, None));
    }
    if end == 0 || (end - 1) as u128 > usize::MAX as u128 {
        return Err(LowerRevsetError::GenerationOutOfRange(Range { start, end }));
    }
    Ok((lo, Some((end - 1) as usize)))
}

/// The author predicate of a filter on an author name or email (none for
/// any other expression); an error when its matcher has no text.
pub open spec fn author_of(t: RevsetTree) -> Result<Option<PredV>, LowerErrV> {
    match t {
        RevsetTree::Filter(FilterTree::AuthorName(s)) => match string_of(s) {
            Ok(v) => Ok(Some(PredV::Author(v))),
            Err(e) => Err(e),
        },
        RevsetTree::Filter(FilterTree::AuthorEmail(s)) => match string_of(s) {
            Ok(v) => Ok(Some(PredV::Author(v))),
            Err(e) => Err(e),
        },
        _ => Ok(None),
    }
}

/// The author predicate of a filter (see `author_of`).
pub fn author_filter(t: &RevsetTree) -> (r: Result<Option<Predicate>, LowerRevsetError>)
    ensures
        match (r, author_of(*t)) {
            (Ok(Some(a)), Ok(Some(b))) => a@ == b,
            (Ok(None), Ok(None)) => true,
            (Err(a), Err(b)) => a@ == b,
            _ => false,
        },
{
    match t {
        RevsetTree::Filter(FilterTree::AuthorName(s)) => match lower_string(s) {
            Ok(v) => Ok(Some(Predicate::Author(v))),
            Err(e) => Err(e),
        },
        RevsetTree::Filter(FilterTree::AuthorEmail(s)) => match lower_string(s) {
            Ok(v) => Ok(Some(Predicate::Author(v))),
            Err(e) => Err(e),
        },
        _ => Ok(None),
    }
}

/// For a union of two filters on one author, that author's predicate
/// (none otherwise); an error from either side, the left first.
pub open spec fn author_union_of(t: RevsetTree) -> Result<Option<PredV>, LowerErrV> {
    match t {
        RevsetTree::Union(l, r) => match author_of(*l) {
            Err(e) => Err(e),
            Ok(a) => match author_of(*r) {
                Err(e) => Err(e),
                Ok(b) => match (a, b) {
                    (Some(x), Some(y)) => if x == y { Ok(Some(x)) } else { Ok(None) },
                    _ => Ok(None),
                },
            },
        },
        _ => Ok(None),
    }
}

fn same_author(a: &Predicate, b: &Predicate) -> (r: bool)
    ensures
        r == (a@ == b@),
{
    match (a, b) {
        (Predicate::Author(x), Predicate::Author(y)) => *x == *y,
        (Predicate::Description(x), Predicate::Description(y)) => *x == *y,
        _ => false,
    }
}

/// The shared author of a union of two author filters (see
/// `author_union_of`).
pub fn author_union_predicate(t: &RevsetTree) -> (r: Result<Option<Predicate>, LowerRevsetError>)
    ensures
        match (r, author_union_of(*t)) {
            (Ok(Some(a)), Ok(Some(b))) => a@ == b,
            (Ok(None), Ok(None)) => true,
            (Err(a), Err(b)) => a@ == b,
            _ => false,
        },
{
    match t {
        RevsetTree::Union(l, r) => {
            let a = match author_filter(l) {
                Ok(a) => a,
                Err(e) => return Err(e),
            };
            let b = match author_filter(r) {
                Ok(b) => b,
                Err(e) => return Err(e),
            };
            match (a, b) {
                (Some(x), Some(y)) => if same_author(&x, &y) {
                    Ok(Some(x))
                } else {
                    Ok(None)
                },
                _ => Ok(None),
            }
        },
        _ => Ok(None),
    }
}

/// The vertices that commit ids spell in decimal; an error naming the first
/// id that does not.
pub open spec fn vxs_of(ids: Seq<String>) -> Result<Seq<Vx>, LowerErrV>
    decreases ids.len(),
{
    if ids.len() == 0 {
        Ok(Seq::empty())
    } else {
        match vxs_of(ids.drop_last()) {
            Err(e) => Err(e),
            Ok(v) => match usize_of(ids.last()@) {
                Some(n) => Ok(v.push(Vx(n))),
                None => Err(LowerErrV::InvalidLiteral(ids.last()@)),
            },
        }
    }
}

/// The plan of a commit reference: a symbol spelling a decimal number is
/// that vertex.
pub open spec fn ref_plan(c: CommitRefTree) -> Result<PlanV, LowerErrV> {
    match c {
        CommitRefTree::Symbol(s) => match usize_of(s@) {
            Some(n) => Ok(PlanV::Constant(seq![Vx(n)])),
            None => Err(LowerErrV::InvalidLiteral(s@)),
        },
        CommitRefTree::Other(d) => Err(LowerErrV::UnsupportedCommitRef(d@)),
    }
}

/// The plan of a revset: a union of filters on one author is a filter of
/// every revision on that author; otherwise each part maps to its plan
/// (ancestors walk down, descendants walk up, both ranges to a range), and
/// a difference, an unsupported kind or part is an error. Operands are
/// lowered left first; the first error wins.
pub open spec fn lowered(t: RevsetTree) -> Result<PlanV, LowerErrV>
    decreases t,
{
    match author_union_of(t) {
        Err(e) => Err(e),
        Ok(Some(p)) => Ok(PlanV::Filter { input: Box::new(PlanV::All), preds: seq![p] }),
        Ok(None) => match t {
            RevsetTree::Empty => Ok(PlanV::Nothing),
            RevsetTree::All => Ok(PlanV::All),
            RevsetTree::Commits(ids) => match vxs_of(ids@) {
                Ok(v) => Ok(PlanV::Constant(v)),
                Err(e) => Err(e),
            },
            RevsetTree::CommitRef(c) => ref_plan(c),
            RevsetTree::Ancestors { heads, generation } => match bounds_of(generation) {
                Err(e) => Err(e),
                Ok((lo, hi)) => match lowered(*heads) {
                    Err(e) => Err(e),
                    Ok(h) => Ok(PlanV::Down { input: Box::new(h), lo: lo as nat, hi: crate::logical::opt_nat(hi) }),
                },
            },
            RevsetTree::Descendants { roots, generation } => match bounds_of(generation) {
                Err(e) => Err(e),
                Ok((lo, hi)) => match lowered(*roots) {
                    Err(e) => Err(e),
                    Ok(r) => Ok(PlanV::Up { input: Box::new(r), lo: lo as nat, hi: crate::logical::opt_nat(hi) }),
                },
            },
            RevsetTree::DagRange { roots, heads } => match (lowered(*roots), lowered(*heads)) {
                (Err(e), _) => Err(e),
                (Ok(_), Err(e)) => Err(e),
                (Ok(a), Ok(b)) => Ok(PlanV::Range { lo: Box::new(a), hi: Box::new(b) }),
            },
            RevsetTree::Range { roots, heads } => match (lowered(*roots), lowered(*heads)) {
                (Err(e), _) => Err(e),
                (Ok(_), Err(e)) => Err(e),
                (Ok(a), Ok(b)) => Ok(PlanV::Range { lo: Box::new(a), hi: Box::new(b) }),
            },
            RevsetTree::Union(l, r) => match (lowered(*l), lowered(*r)) {
                (Err(e), _) => Err(e),
                (Ok(_), Err(e)) => Err(e),
                (Ok(a), Ok(b)) => Ok(PlanV::Union(seq![a, b])),
            },
            RevsetTree::Intersection(l, r) => match (lowered(*l), lowered(*r)) {
                (Err(e), _) => Err(e),
                (Ok(_), Err(e)) => Err(e),
                (Ok(a), Ok(b)) => Ok(PlanV::Intersection(seq![a, b])),
            },
            RevsetTree::Difference(_, _) => Err(LowerErrV::UnsupportedExpression("difference"@)),
            RevsetTree::Filter(f) => match pred_of_filter(f) {
                Ok(p) => Ok(PlanV::Filter { input: Box::new(PlanV::All), preds: seq![p] }),
                Err(e) => Err(e),
            },
            RevsetTree::Other(k) => Err(LowerErrV::UnsupportedExpression(kind_name(k))),
        },
    }
}

proof fn lemma_vxs_err_extends(ids: Seq<String>, i: int)
    requires
        0 <= i <= ids.len(),
        vxs_of(ids.subrange(0, i)) is Err,
    ensures
        vxs_of(ids) == vxs_of(ids.subrange(0, i)),
    decreases ids.len() - i,
{
    if i < ids.len() {
        assert(ids.subrange(0, i + 1).drop_last() =~= ids.subrange(0, i));
        lemma_vxs_err_extends(ids, i + 1);
    } else {
        assert(ids.subrange(0, i) =~= ids);
    }
}

/// The vertices that commit ids spell (see `vxs_of`).
fn lower_commits(ids: &Vec<String>) -> (r: Result<Vec<Vx>, LowerRevsetError>)
    ensures
        match (r, vxs_of(ids@)) {
            (Ok(a), Ok(b)) => a@ == b,
            (Err(a), Err(b)) => a@ == b,
            _ => false,
        },
{
    let mut out: Vec<Vx> = Vec::new();
    let mut i: usize = 0;
    proof {
        assert(ids@.subrange(0, 0) =~= Seq::<String>::empty());
    }
    while i < ids.len()
        invariant
            i <= ids.len(),
            vxs_of(ids@.subrange(0, i as int)) == Ok::<Seq<Vx>, LowerErrV>(out@),
        decreases ids.len() - i,
    {
        proof {
            assert(ids@.subrange(0, i + 1).drop_last() =~= ids@.subrange(0, i as int));
            assert(ids@.subrange(0, i + 1).last() == ids@[i as int]);
        }
        match parse_usize(ids[i].as_str()) {
            Some(n) => {
                out.push(Vx(n));
            },
            None => {
                proof {
                    lemma_vxs_err_extends(ids@, i + 1);
                }
                return Err(LowerRevsetError::InvalidLiteral(ids[i].clone()));
            },
        }
        i = i + 1;
    }
    proof {
        assert(ids@.subrange(0, ids.len() as int) =~= ids@);
    }
    Ok(out)
}

/// The plan of a commit reference (see `ref_plan`).
fn lower_commit_ref(c: &CommitRefTree) -> (r: Result<Expr, LowerRevsetError>)
    ensures
        match (r, ref_plan(*c)) {
            (Ok(a), Ok(b)) => a@ == b,
            (Err(a), Err(b)) => a@ == b,
            _ => false,
        },
{
    match c {
        CommitRefTree::Symbol(s) => match parse_usize(s.as_str()) {
            Some(n) => {
                let mut v: Vec<Vx> = Vec::new();
                v.push(Vx(n));
                proof {
                    assert(v@ =~= seq![Vx(n)]);
                }
                Ok(Expr::constant(v))
            },
            None => Err(LowerRevsetError::InvalidLiteral(s.clone())),
        },
        CommitRefTree::Other(d) => Err(LowerRevsetError::UnsupportedCommitRef(d.clone())),
    }
}

/// A filter of every revision on one predicate.
fn filter_all(p: Predicate) -> (r: Expr)
    ensures
        r@ == (PlanV::Filter { input: Box::new(PlanV::All), preds: seq![p@] }),
{
    let mut v: Vec<Predicate> = Vec::new();
    v.push(p);
    proof {
        assert(view_preds(v@) =~= seq![p@]);
    }
    Expr::All.filter(v)
}

fn lower_jj_expr(t: &RevsetTree) -> (r: Result<Expr, LowerRevsetError>)
    ensures
        match (r, lowered(*t)) {
            (Ok(a), Ok(b)) => a@ == b,
            (Err(a), Err(b)) => a@ == b,
            _ => false,
        },
    decreases t,
{
    match author_union_predicate(t) {
        Err(e) => {
            return Err(e);
        },
        Ok(Some(p)) => {
            return Ok(filter_all(p));
        },
        Ok(None) => {},
    }
    match t {
        RevsetTree::Empty => Ok(Expr::Nothing),
        RevsetTree::All => Ok(Expr::All),
        RevsetTree::Commits(ids) => match lower_commits(ids) {
            Ok(v) => Ok(Expr::constant(v)),
            Err(e) => Err(e),
        },
        RevsetTree::CommitRef(c) => lower_commit_ref(c),
        RevsetTree::Ancestors { heads, generation } => {
            let (lo, hi) = match lower_generation_range(generation) {
                Ok(b) => b,
                Err(e) => return Err(e),
            };
            match lower_jj_expr(heads) {
                Ok(h) => Ok(h.down(lo, hi)),
                Err(e) => Err(e),
            }
        },
        RevsetTree::Descendants { roots, generation } => {
            let (lo, hi) = match lower_generation_range(generation) {
                Ok(b) => b,
                Err(e) => return Err(e),
            };
            match lower_jj_expr(roots) {
                Ok(h) => Ok(h.up(lo, hi)),
                Err(e) => Err(e),
            }
        },
        RevsetTree::DagRange { roots, heads } => {
            let a = match lower_jj_expr(roots) {
                Ok(a) => a,
                Err(e) => return Err(e),
            };
            let b = match lower_jj_expr(heads) {
                Ok(b) => b,
                Err(e) => return Err(e),
            };
            Ok(Expr::range(a, b))
        },
        RevsetTree::Range { roots, heads } => {
            let a = match lower_jj_expr(roots) {
                Ok(a) => a,
                Err(e) => return Err(e),
            };
            let b = match lower_jj_expr(heads) {
                Ok(b) => b,
                Err(e) => return Err(e),
            };
            Ok(Expr::range(a, b))
        },
        RevsetTree::Union(l, r) => {
            let a = match lower_jj_expr(l) {
                Ok(a) => a,
                Err(e) => return Err(e),
            };
            let b = match lower_jj_expr(r) {
                Ok(b) => b,
                Err(e) => return Err(e),
            };
            Ok(a.union(b))
        },
        RevsetTree::Intersection(l, r) => {
            let a = match lower_jj_expr(l) {
                Ok(a) => a,
                Err(e) => return Err(e),
            };
            let b = match lower_jj_expr(r) {
                Ok(b) => b,
                Err(e) => return Err(e),
            };
            Ok(a.intersection(b))
        },
        RevsetTree::Difference(_, _) => Err(LowerRevsetError::UnsupportedExpression("difference")),
        RevsetTree::Filter(f) => match lower_filter(f) {
            Ok(p) => Ok(filter_all(p)),
            Err(e) => Err(e),
        },
        RevsetTree::Other(k) => Err(LowerRevsetError::UnsupportedExpression(expr_kind(*k))),
    }
}

/// The plan of a parsed revset (see `lowered`): the plan when every part
/// has one, else the first error met, operands left first.
pub fn lower_jj_revset(t: &RevsetTree) -> (r: Result<Expr, LowerRevsetError>)
    ensures
        match (r, lowered(*t)) {
            (Ok(a), Ok(b)) => a@ == b,
            (Err(a), Err(b)) => a@ == b,
            _ => false,
        },
{
    lower_jj_expr(t)
}

} // verus!
