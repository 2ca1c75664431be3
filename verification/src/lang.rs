//! The revset language: a recursive-descent parser into a syntax tree, and
//! the tree's text form.
//!
//! Grammar, loosest binding first (operators of one level associate to the
//! left; blanks between tokens are skipped):
//!
//! ```text
//! union   := inter ('|' inter)*
//! inter   := range (('&' | '~') range)*
//! range   := '::' primary | primary '::' primary | primary '::' | primary
//! primary := '(' union ')' | name | name '(' [union (',' union)*] ')'
//! name    := one or more of A-Z a-z 0-9 _ . @ /
//! ```
use vstd::prelude::*;

pub mod round_trip;

verus! {

/// A revset expression.
#[derive(Debug)]
pub enum RevsetExpr {
    /// A revision named by a symbol.
    Literal(String),
    /// `::x`: the proper ancestors of `x`.
    Ancestors(Box<RevsetExpr>),
    /// `x::`: the proper descendants of `x`.
    Descendants(Box<RevsetExpr>),
    /// `x::y`: descendants of `x` that are ancestors of `y`.
    Range(Box<RevsetExpr>, Box<RevsetExpr>),
    /// `x | y`.
    Union(Box<RevsetExpr>, Box<RevsetExpr>),
    /// `x & y`.
    Intersection(Box<RevsetExpr>, Box<RevsetExpr>),
    /// `x ~ y`.
    Difference(Box<RevsetExpr>, Box<RevsetExpr>),
    /// `name(args, ...)`.
    Function { name: String, args: Vec<RevsetExpr> },
}

/// The mathematical form of a revset expression.
pub enum RevsetV {
    Literal(Seq<char>),
    Ancestors(Box<RevsetV>),
    Descendants(Box<RevsetV>),
    Range(Box<RevsetV>, Box<RevsetV>),
    Union(Box<RevsetV>, Box<RevsetV>),
    Intersection(Box<RevsetV>, Box<RevsetV>),
    Difference(Box<RevsetV>, Box<RevsetV>),
    Function { name: Seq<char>, args: Seq<RevsetV> },
}

pub open spec fn view_revset(e: RevsetExpr) -> RevsetV
    decreases e,
{
    match e {
        RevsetExpr::Literal(n) => RevsetV::Literal(n@),
        RevsetExpr::Ancestors(x) => RevsetV::Ancestors(Box::new(view_revset(*x))),
        RevsetExpr::Descendants(x) => RevsetV::Descendants(Box::new(view_revset(*x))),
        RevsetExpr::Range(x, y) => RevsetV::Range(Box::new(view_revset(*x)), Box::new(view_revset(*y))),
        RevsetExpr::Union(x, y) => RevsetV::Union(Box::new(view_revset(*x)), Box::new(view_revset(*y))),
        RevsetExpr::Intersection(x, y) => RevsetV::Intersection(Box::new(view_revset(*x)), Box::new(view_revset(*y))),
        RevsetExpr::Difference(x, y) => RevsetV::Difference(Box::new(view_revset(*x)), Box::new(view_revset(*y))),
        RevsetExpr::Function { name, args } => RevsetV::Function { name: name@, args: view_revsets(args@) },
    }
}

pub open spec fn view_revsets(s: Seq<RevsetExpr>) -> Seq<RevsetV>
    decreases s,
{
    if s.len() == 0 {
        Seq::empty()
    } else {
        view_revsets(s.subrange(0, s.len() - 1)).push(view_revset(s[s.len() - 1]))
    }
}

impl View for RevsetExpr {
    type V = RevsetV;

    open spec fn view(&self) -> RevsetV {
        view_revset(*self)
    }
}

proof fn lemma_view_revsets_push(s: Seq<RevsetExpr>, x: RevsetExpr)
    ensures
        view_revsets(s.push(x)) == view_revsets(s).push(view_revset(x)),
{
    assert(s.push(x).subrange(0, s.len() as int) =~= s);
}

// ----- characters -----

/// A blank between tokens.
pub open spec fn is_blank(c: char) -> bool {
    c == ' ' || c == '\t' || c == '\n' || c == '\r'
}

/// A character of a name.
pub open spec fn is_name_char(c: char) -> bool {
    let u = c as u32;
    (97 <= u <= 122) || (65 <= u <= 90) || (48 <= u <= 57) || c == '_' || c == '.' || c == '@' || c == '/'
}

/// How many blanks start at `i`.
pub open spec fn blanks(cs: Seq<char>, i: int) -> nat
    decreases cs.len() - i,
{
    if 0 <= i < cs.len() && is_blank(cs[i]) {
        1 + blanks(cs, i + 1)
    } else {
        0
    }
}

/// How many name characters start at `i`.
pub open spec fn name_len(cs: Seq<char>, i: int) -> nat
    decreases cs.len() - i,
{
    if 0 <= i < cs.len() && is_name_char(cs[i]) {
        1 + name_len(cs, i + 1)
    } else {
        0
    }
}

/// `cs[i]` is `c`.
pub open spec fn at(cs: Seq<char>, i: int, c: char) -> bool {
    0 <= i < cs.len() && cs[i] == c
}

// ----- the grammar, as functions of the text -----

/// How many characters remain from `i`.
pub open spec fn left(cs: Seq<char>, i: int) -> nat {
    if i < cs.len() {
        (cs.len() - i) as nat
    } else {
        0
    }
}

/// A parse from position `i`: the tree and how many characters it took, or
/// the position of the first error.
pub type PRes = Result<(RevsetV, nat), nat>;

/// `union` at `i`.
pub open spec fn p_union(cs: Seq<char>, i: int) -> PRes
    decreases left(cs, i), 6int,
{
    match p_inter(cs, i) {
        Ok((e, n)) => match p_union_tail(cs, i + n, e) {
            Ok((t, m)) => Ok((t, n + m)),
            Err(p) => Err(p),
        },
        Err(p) => Err(p),
    }
}

/// The `('|' inter)*` part after `acc`, at `i`.
pub open spec fn p_union_tail(cs: Seq<char>, i: int, acc: RevsetV) -> PRes
    decreases left(cs, i), 5int,
{
    let j = i + blanks(cs, i);
    if at(cs, j, '|') {
        match p_inter(cs, j + 1) {
            Ok((e, n)) => match p_union_tail(cs, j + 1 + n, RevsetV::Union(Box::new(acc), Box::new(e))) {
                Ok((t, m)) => Ok((t, (j + 1 + n + m - i) as nat)),
                Err(p) => Err(p),
            },
            Err(p) => Err(p),
        }
    } else {
        Ok((acc, 0))
    }
}

/// `inter` at `i`.
pub open spec fn p_inter(cs: Seq<char>, i: int) -> PRes
    decreases left(cs, i), 4int,
{
    match p_range(cs, i) {
        Ok((e, n)) => match p_inter_tail(cs, i + n, e) {
            Ok((t, m)) => Ok((t, n + m)),
            Err(p) => Err(p),
        },
        Err(p) => Err(p),
    }
}

/// The `(('&' | '~') range)*` part after `acc`, at `i`.
pub open spec fn p_inter_tail(cs: Seq<char>, i: int, acc: RevsetV) -> PRes
    decreases left(cs, i), 3int,
{
    let j = i + blanks(cs, i);
    if at(cs, j, '&') || at(cs, j, '~') {
        match p_range(cs, j + 1) {
            Ok((e, n)) => {
                let combined = if at(cs, j, '&') {
                    RevsetV::Intersection(Box::new(acc), Box::new(e))
                } else {
                    RevsetV::Difference(Box::new(acc), Box::new(e))
                };
                match p_inter_tail(cs, j + 1 + n, combined) {
                    Ok((t, m)) => Ok((t, (j + 1 + n + m - i) as nat)),
                    Err(p) => Err(p),
                }
            },
            Err(p) => Err(p),
        }
    } else {
        Ok((acc, 0))
    }
}

/// A primary can start at `i` (after blanks).
pub open spec fn starts_primary(cs: Seq<char>, i: int) -> bool {
    let j = i + blanks(cs, i);
    at(cs, j, '(') || (0 <= j < cs.len() && is_name_char(cs[j]))
}

/// `range` at `i`.
pub open spec fn p_range(cs: Seq<char>, i: int) -> PRes
    decreases left(cs, i), 2int,
{
    let j = i + blanks(cs, i);
    if at(cs, j, ':') && at(cs, j + 1, ':') {
        match p_primary(cs, j + 2) {
            Ok((e, n)) => Ok((RevsetV::Ancestors(Box::new(e)), (j + 2 + n - i) as nat)),
            Err(p) => Err(p),
        }
    } else {
        match p_primary(cs, i) {
            Ok((x, n)) => {
                let k = i + n + blanks(cs, i + n);
                if at(cs, k, ':') && at(cs, k + 1, ':') {
                    if starts_primary(cs, k + 2) {
                        match p_primary(cs, k + 2) {
                            Ok((y, m)) => Ok((RevsetV::Range(Box::new(x), Box::new(y)), (k + 2 + m - i) as nat)),
                            Err(p) => Err(p),
                        }
                    } else {
                        Ok((RevsetV::Descendants(Box::new(x)), (k + 2 - i) as nat))
                    }
                } else {
                    Ok((x, n))
                }
            },
            Err(p) => Err(p),
        }
    }
}

/// `primary` at `i`.
pub open spec fn p_primary(cs: Seq<char>, i: int) -> PRes
    decreases left(cs, i), 1int,
{
    let j = i + blanks(cs, i);
    if at(cs, j, '(') {
        match p_union(cs, j + 1) {
            Ok((e, n)) => {
                let k = j + 1 + n + blanks(cs, j + 1 + n);
                if at(cs, k, ')') {
                    Ok((e, (k + 1 - i) as nat))
                } else {
                    Err(k as nat)
                }
            },
            Err(p) => Err(p),
        }
    } else {
        let l = name_len(cs, j);
        if l == 0 {
            Err(j as nat)
        } else {
            let name = cs.subrange(j, j + l);
            let k = j + l + blanks(cs, j + l);
            if at(cs, k, '(') {
                match p_args(cs, k + 1, name, Seq::empty()) {
                    Ok((f, m)) => Ok((f, (k + 1 + m - i) as nat)),
                    Err(p) => Err(p),
                }
            } else {
                Ok((RevsetV::Literal(name), (j + l - i) as nat))
            }
        }
    }
}

/// The arguments of function `name` at `i`, after those in `acc`, up to and
/// including the closing parenthesis.
pub open spec fn p_args(cs: Seq<char>, i: int, name: Seq<char>, acc: Seq<RevsetV>) -> PRes
    decreases left(cs, i), 7int,
{
    let j = i + blanks(cs, i);
    if acc.len() == 0 && at(cs, j, ')') {
        Ok((RevsetV::Function { name, args: acc }, (j + 1 - i) as nat))
    } else {
        match p_union(cs, j) {
            Ok((e, n)) => {
                let k = j + n + blanks(cs, j + n);
                if at(cs, k, ',') {
                    match p_args(cs, k + 1, name, acc.push(e)) {
                        Ok((f, m)) => Ok((f, (k + 1 + m - i) as nat)),
                        Err(p) => Err(p),
                    }
                } else if at(cs, k, ')') {
                    Ok((RevsetV::Function { name, args: acc.push(e) }, (k + 1 - i) as nat))
                } else {
                    Err(k as nat)
                }
            },
            Err(p) => Err(p),
        }
    }
}

/// The tree that the whole text `cs` denotes, or the position of the first
/// error (text left over after a complete expression is an error there).
pub open spec fn parse_text(cs: Seq<char>) -> Result<RevsetV, nat> {
    match p_union(cs, 0) {
        Ok((e, n)) => {
            let j = n + blanks(cs, n as int);
            if j == cs.len() {
                Ok(e)
            } else {
                Err(j)
            }
        },
        Err(p) => Err(p),
    }
}

// ----- the parser -----

/// The exec result `r` is the parse `s`.
pub open spec fn same_res(r: Result<(RevsetExpr, usize), usize>, s: PRes) -> bool {
    match (r, s) {
        (Ok((e, n)), Ok((v, m))) => e@ == v && n == m,
        (Err(p), Err(q)) => p == q,
        _ => false,
    }
}

/// The exec result stays within `cs` from `i`.
pub open spec fn in_text(r: Result<(RevsetExpr, usize), usize>, cs: Seq<char>, i: int) -> bool {
    match r {
        Ok((_, n)) => i + n <= cs.len(),
        Err(p) => p <= cs.len(),
    }
}

/// A syntax error: the position (in characters) where it was found.
#[derive(Debug, Clone, Copy, PartialEq, Eq, Structural)]
pub struct ParseError {
    pub pos: usize,
}

fn skip_blanks(cs: &Vec<char>, i: usize) -> (j: usize)
    requires
        i <= cs.len(),
    ensures
        j == i + blanks(cs@, i as int),
        j <= cs.len(),
{
    let mut j = i;
    while j < cs.len() && (cs[j] == ' ' || cs[j] == '\t' || cs[j] == '\n' || cs[j] == '\r')
        invariant
            i <= j <= cs.len(),
            blanks(cs@, i as int) == (j - i) + blanks(cs@, j as int),
        decreases cs.len() - j,
    {
        j = j + 1;
    }
    j
}

fn name_char(c: char) -> (b: bool)
    ensures
        b == is_name_char(c),
{
    let u = c as u32;
    (97 <= u && u <= 122) || (65 <= u && u <= 90) || (48 <= u && u <= 57) || c == '_' || c == '.' || c == '@' || c == '/'
}

fn name_end(cs: &Vec<char>, i: usize) -> (j: usize)
    requires
        i <= cs.len(),
    ensures
        j == i + name_len(cs@, i as int),
        j <= cs.len(),
{
    let mut j = i;
    while j < cs.len() && name_char(cs[j])
        invariant
            i <= j <= cs.len(),
            name_len(cs@, i as int) == (j - i) + name_len(cs@, j as int),
        decreases cs.len() - j,
    {
        j = j + 1;
    }
    j
}

fn is_at(cs: &Vec<char>, i: usize, c: char) -> (b: bool)
    ensures
        b == at(cs@, i as int, c),
{
    i < cs.len() && cs[i] == c
}

fn parse_union(cs: &Vec<char>, src: &str, i: usize) -> (r: Result<(RevsetExpr, usize), usize>)
    requires
        i <= cs.len(),
        cs@ == src@,
    ensures
        same_res(r, p_union(cs@, i as int)),
        in_text(r, cs@, i as int),
    decreases left(cs@, i as int), 6int,
{
    match parse_inter(cs, src, i) {
        Ok((e, n)) => match parse_union_tail(cs, src, i + n, e) {
            Ok((t, m)) => Ok((t, n + m)),
            Err(p) => Err(p),
        },
        Err(p) => Err(p),
    }
}

fn parse_union_tail(cs: &Vec<char>, src: &str, i: usize, acc: RevsetExpr) -> (r: Result<(RevsetExpr, usize), usize>)
    requires
        i <= cs.len(),
        cs@ == src@,
    ensures
        same_res(r, p_union_tail(cs@, i as int, acc@)),
        in_text(r, cs@, i as int),
    decreases left(cs@, i as int), 5int,
{
    let j = skip_blanks(cs, i);
    if is_at(cs, j, '|') {
        match parse_inter(cs, src, j + 1) {
            Ok((e, n)) => {
                let combined = RevsetExpr::Union(Box::new(acc), Box::new(e));
                match parse_union_tail(cs, src, j + 1 + n, combined) {
                    Ok((t, m)) => Ok((t, j + 1 + n + m - i)),
                    Err(p) => Err(p),
                }
            },
            Err(p) => Err(p),
        }
    } else {
        Ok((acc, 0))
    }
}

fn parse_inter(cs: &Vec<char>, src: &str, i: usize) -> (r: Result<(RevsetExpr, usize), usize>)
    requires
        i <= cs.len(),
        cs@ == src@,
    ensures
        same_res(r, p_inter(cs@, i as int)),
        in_text(r, cs@, i as int),
    decreases left(cs@, i as int), 4int,
{
    match parse_range(cs, src, i) {
        Ok((e, n)) => match parse_inter_tail(cs, src, i + n, e) {
            Ok((t, m)) => Ok((t, n + m)),
            Err(p) => Err(p),
        },
        Err(p) => Err(p),
    }
}

fn parse_inter_tail(cs: &Vec<char>, src: &str, i: usize, acc: RevsetExpr) -> (r: Result<(RevsetExpr, usize), usize>)
    requires
        i <= cs.len(),
        cs@ == src@,
    ensures
        same_res(r, p_inter_tail(cs@, i as int, acc@)),
        in_text(r, cs@, i as int),
    decreases left(cs@, i as int), 3int,
{
    let j = skip_blanks(cs, i);
    let and = is_at(cs, j, '&');
    if and || is_at(cs, j, '~') {
        match parse_range(cs, src, j + 1) {
            Ok((e, n)) => {
                let combined = if and {
                    RevsetExpr::Intersection(Box::new(acc), Box::new(e))
                } else {
                    RevsetExpr::Difference(Box::new(acc), Box::new(e))
                };
                match parse_inter_tail(cs, src, j + 1 + n, combined) {
                    Ok((t, m)) => Ok((t, j + 1 + n + m - i)),
                    Err(p) => Err(p),
                }
            },
            Err(p) => Err(p),
        }
    } else {
        Ok((acc, 0))
    }
}

fn parse_range(cs: &Vec<char>, src: &str, i: usize) -> (r: Result<(RevsetExpr, usize), usize>)
    requires
        i <= cs.len(),
        cs@ == src@,
    ensures
        same_res(r, p_range(cs@, i as int)),
        in_text(r, cs@, i as int),
    decreases left(cs@, i as int), 2int,
{
    let j = skip_blanks(cs, i);
    if is_at(cs, j, ':') && is_at(cs, j + 1, ':') {
        match parse_primary(cs, src, j + 2) {
            Ok((e, n)) => Ok((RevsetExpr::Ancestors(Box::new(e)), j + 2 + n - i)),
            Err(p) => Err(p),
        }
    } else {
        match parse_primary(cs, src, i) {
            Ok((x, n)) => {
                let k = skip_blanks(cs, i + n);
                if is_at(cs, k, ':') && is_at(cs, k + 1, ':') {
                    let s = skip_blanks(cs, k + 2);
                    if is_at(cs, s, '(') || (s < cs.len() && name_char(cs[s])) {
                        match parse_primary(cs, src, k + 2) {
                            Ok((y, m)) => Ok((RevsetExpr::Range(Box::new(x), Box::new(y)), k + 2 + m - i)),
                            Err(p) => Err(p),
                        }
                    } else {
                        Ok((RevsetExpr::Descendants(Box::new(x)), k + 2 - i))
                    }
                } else {
                    Ok((x, n))
                }
            },
            Err(p) => Err(p),
        }
    }
}

fn parse_primary(cs: &Vec<char>, src: &str, i: usize) -> (r: Result<(RevsetExpr, usize), usize>)
    requires
        i <= cs.len(),
        cs@ == src@,
    ensures
        same_res(r, p_primary(cs@, i as int)),
        in_text(r, cs@, i as int),
    decreases left(cs@, i as int), 1int,
{
    let j = skip_blanks(cs, i);
    if is_at(cs, j, '(') {
        match parse_union(cs, src, j + 1) {
            Ok((e, n)) => {
                let k = skip_blanks(cs, j + 1 + n);
                if is_at(cs, k, ')') {
                    Ok((e, k + 1 - i))
                } else {
                    Err(k)
                }
            },
            Err(p) => Err(p),
        }
    } else {
        let e = name_end(cs, j);
        if e == j {
            Err(j)
        } else {
            let name = src.substring_char(j, e).to_owned();
            let k = skip_blanks(cs, e);
            if is_at(cs, k, '(') {
                match parse_args(cs, src, k + 1, name, Vec::new()) {
                    Ok((f, m)) => Ok((f, k + 1 + m - i)),
                    Err(p) => Err(p),
                }
            } else {
                Ok((RevsetExpr::Literal(name), e - i))
            }
        }
    }
}

fn parse_args(cs: &Vec<char>, src: &str, i: usize, name: String, acc: Vec<RevsetExpr>) -> (r: Result<(RevsetExpr, usize), usize>)
    requires
        i <= cs.len(),
        cs@ == src@,
    ensures
        same_res(r, p_args(cs@, i as int, name@, view_revsets(acc@))),
        in_text(r, cs@, i as int),
    decreases left(cs@, i as int), 7int,
{
    let j = skip_blanks(cs, i);
    if acc.len() == 0 && is_at(cs, j, ')') {
        proof {
            assert(view_revsets(acc@).len() == 0);
        }
        return Ok((RevsetExpr::Function { name, args: acc }, j + 1 - i));
    }
    proof {
        if acc.len() > 0 {
            assert(view_revsets(acc@).len() > 0);
        }
    }
    match parse_union(cs, src, j) {
        Ok((e, n)) => {
            let k = skip_blanks(cs, j + n);
            let mut args = acc;
            let ghost before = args@;
            proof {
                lemma_view_revsets_push(before, e);
            }
            if is_at(cs, k, ',') {
                args.push(e);
                match parse_args(cs, src, k + 1, name, args) {
                    Ok((f, m)) => Ok((f, k + 1 + m - i)),
                    Err(p) => Err(p),
                }
            } else if is_at(cs, k, ')') {
                args.push(e);
                Ok((RevsetExpr::Function { name, args }, k + 1 - i))
            } else {
                Err(k)
            }
        },
        Err(p) => Err(p),
    }
}

/// Parses a revset expression (see the grammar above); an error gives the
/// position of the first character that does not fit.
pub fn parse(input: &str) -> (r: Result<RevsetExpr, ParseError>)
    ensures
        match (r, parse_text(input@)) {
            (Ok(e), Ok(v)) => e@ == v,
            (Err(err), Err(p)) => err.pos == p,
            _ => false,
        },
{
    let n = input.unicode_len();
    let mut cs: Vec<char> = Vec::new();
    let mut i: usize = 0;
    while i < n
        invariant
            n == input@.len(),
            i <= n,
            cs@ == input@.take(i as int),
        decreases n - i,
    {
        cs.push(input.get_char(i));
        proof {
            assert(input@.take(i + 1) =~= input@.take(i as int).push(input@[i as int]));
        }
        i = i + 1;
    }
    proof {
        assert(input@.take(i as int) =~= input@);
    }
    match parse_union(&cs, input, 0) {
        Ok((e, m)) => {
            let j = skip_blanks(&cs, m);
            if j == cs.len() {
                Ok(e)
            } else {
                Err(ParseError { pos: j })
            }
        },
        Err(p) => Err(ParseError { pos: p }),
    }
}

// ----- the text form -----

/// The text of `e`: operands that are not names or calls go in parentheses,
/// binary operators are spaced, arguments are separated by `, `.
pub open spec fn print(e: RevsetV) -> Seq<char>
    decreases e, 1int,
{
    match e {
        RevsetV::Literal(n) => n,
        RevsetV::Function { name, args } => name + "("@ + print_args(args) + ")"@,
        RevsetV::Ancestors(x) => "::"@ + atom(*x),
        RevsetV::Descendants(x) => atom(*x) + "::"@,
        RevsetV::Range(x, y) => atom(*x) + "::"@ + atom(*y),
        RevsetV::Union(x, y) => atom(*x) + " | "@ + atom(*y),
        RevsetV::Intersection(x, y) => atom(*x) + " & "@ + atom(*y),
        RevsetV::Difference(x, y) => atom(*x) + " ~ "@ + atom(*y),
    }
}

/// `e` as an operand: names and calls as they are, the rest in parentheses.
pub open spec fn atom(e: RevsetV) -> Seq<char>
    decreases e, 2int,
{
    match e {
        RevsetV::Literal(_) => print(e),
        RevsetV::Function { .. } => print(e),
        _ => "("@ + print(e) + ")"@,
    }
}

/// The arguments separated by `, `.
pub open spec fn print_args(args: Seq<RevsetV>) -> Seq<char>
    decreases args, 0int,
{
    if args.len() == 0 {
        Seq::empty()
    } else if args.len() == 1 {
        print(args[0])
    } else {
        print_args(args.subrange(0, args.len() - 1)) + ", "@ + print(args[args.len() - 1])
    }
}

impl RevsetExpr {
    /// The expression's text (see `print`).
    pub fn to_text(&self) -> (s: String)
        ensures
            s@ == print(self@),
    {
        let mut out = String::new();
        write_expr(self, &mut out);
        out
    }
}

fn write_expr(e: &RevsetExpr, out: &mut String)
    ensures
        final(out)@ == old(out)@ + print(e@),
    decreases e, 1int,
{
    let ghost o = out@;
    match e {
        RevsetExpr::Literal(n) => {
            out.append(n.as_str());
        },
        RevsetExpr::Function { name, args } => {
            out.append(name.as_str());
            out.append("(");
            write_args(e, args, out);
            out.append(")");
        },
        RevsetExpr::Ancestors(x) => {
            out.append("::");
            write_atom(x, out);
        },
        RevsetExpr::Descendants(x) => {
            write_atom(x, out);
            out.append("::");
        },
        RevsetExpr::Range(x, y) => {
            write_atom(x, out);
            out.append("::");
            write_atom(y, out);
        },
        RevsetExpr::Union(x, y) => {
            write_atom(x, out);
            out.append(" | ");
            write_atom(y, out);
        },
        RevsetExpr::Intersection(x, y) => {
            write_atom(x, out);
            out.append(" & ");
            write_atom(y, out);
        },
        RevsetExpr::Difference(x, y) => {
            write_atom(x, out);
            out.append(" ~ ");
            write_atom(y, out);
        },
    }
    proof {
        assert(out@ =~= o + print(e@));
    }
}

fn write_atom(e: &RevsetExpr, out: &mut String)
    ensures
        final(out)@ == old(out)@ + atom(e@),
    decreases e, 2int,
{
    let ghost o = out@;
    match e {
        RevsetExpr::Literal(_) => write_expr(e, out),
        RevsetExpr::Function { .. } => write_expr(e, out),
        _ => {
            out.append("(");
            write_expr(e, out);
            out.append(")");
            proof {
                assert(out@ =~= o + atom(e@));
            }
        },
    }
}

fn write_args(parent: &RevsetExpr, args: &Vec<RevsetExpr>, out: &mut String)
    requires
        parent matches RevsetExpr::Function { args: a, .. } && a == *args,
    ensures
        final(out)@ == old(out)@ + print_args(view_revsets(args@)),
    decreases parent, 0int,
{
    let mut i: usize = 0;
    proof {
        assert(view_revsets(args@.subrange(0, 0)) =~= Seq::<RevsetV>::empty());
    }
    while i < args.len()
        invariant
            i <= args.len(),
            parent matches RevsetExpr::Function { args: a, .. } && a == *args,
            out@ == old(out)@ + print_args(view_revsets(args@.subrange(0, i as int))),
        decreases args.len() - i,
    {
        let ghost o = out@;
        proof {
            assert(decreases_to!(*parent => parent->args));
            assert(decreases_to!(*args => args[i as int]));
            let pre = args@.subrange(0, i as int);
            let pre1 = args@.subrange(0, i + 1);
            assert(pre1 =~= pre.push(args@[i as int]));
            lemma_view_revsets_push(pre, args@[i as int]);
            lemma_view_revsets_len(pre);
            assert(view_revsets(pre1).subrange(0, i as int) =~= view_revsets(pre));
        }
        if i > 0 {
            out.append(", ");
        }
        write_expr(&args[i], out);
        proof {
            let pre = args@.subrange(0, i as int);
            let pre1 = args@.subrange(0, i + 1);
            lemma_view_revsets_len(pre1);
            if i == 0 {
                assert(view_revsets(pre1).len() == 1);
                assert(out@ =~= old(out)@ + print_args(view_revsets(pre1)));
            } else {
                assert(out@ =~= old(out)@ + print_args(view_revsets(pre1)));
            }
        }
        i = i + 1;
    }
    proof {
        assert(args@.subrange(0, i as int) =~= args@);
    }
}

proof fn lemma_view_revsets_len(s: Seq<RevsetExpr>)
    ensures
        view_revsets(s).len() == s.len(),
    decreases s.len(),
{
    if s.len() > 0 {
        lemma_view_revsets_len(s.subrange(0, s.len() - 1));
    }
}

} // verus!
