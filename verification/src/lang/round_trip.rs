//! The text form of an expression reads back as the same expression.
use vstd::prelude::*;

use crate::lang::{
    at, atom, blanks, is_blank, is_name_char, name_len, p_args, p_inter, p_inter_tail, p_primary, p_range,
    p_union, p_union_tail, parse_text, print, print_args, starts_primary, RevsetV,
};

verus! {

/// A name the parser reads back: one or more name characters.
pub open spec fn is_name(n: Seq<char>) -> bool {
    n.len() > 0 && forall|k: int| 0 <= k < n.len() ==> #[trigger] is_name_char(n[k])
}

/// Every literal and function name in `e` is a name.
pub open spec fn well_named(e: RevsetV) -> bool
    decreases e,
{
    match e {
        RevsetV::Literal(n) => is_name(n),
        RevsetV::Function { name, args } => is_name(name) && forall|k: int|
            0 <= k < args.len() ==> well_named(#[trigger] args[k]),
        RevsetV::Ancestors(x) => well_named(*x),
        RevsetV::Descendants(x) => well_named(*x),
        RevsetV::Range(x, y) => well_named(*x) && well_named(*y),
        RevsetV::Union(x, y) => well_named(*x) && well_named(*y),
        RevsetV::Intersection(x, y) => well_named(*x) && well_named(*y),
        RevsetV::Difference(x, y) => well_named(*x) && well_named(*y),
    }
}

/// `t` stands in `cs` from position `p`.
spec fn has(cs: Seq<char>, p: int, t: Seq<char>) -> bool {
    0 <= p && p + t.len() <= cs.len() && forall|k: int| 0 <= k < t.len() ==> cs[p + k] == #[trigger] t[k]
}

/// A name ending at `k` ends there: no name character follows, nor (after
/// blanks) an opening parenthesis.
spec fn name_ends(cs: Seq<char>, k: int) -> bool {
    &&& !(0 <= k < cs.len() && is_name_char(cs[k]))
    &&& !at(cs, k + blanks(cs, k), '(')
}

/// Nothing after `k` (past blanks) continues a range: no `:`, `(` or name
/// character.
spec fn ends_range(cs: Seq<char>, k: int) -> bool {
    let j = k + blanks(cs, k);
    !at(cs, j, ':') && !at(cs, j, '(') && !(0 <= j < cs.len() && is_name_char(cs[j]))
}

/// Nor an intersection or difference.
spec fn ends_inter(cs: Seq<char>, k: int) -> bool {
    let j = k + blanks(cs, k);
    ends_range(cs, k) && !at(cs, j, '&') && !at(cs, j, '~')
}

/// Nor a union.
spec fn ends_union(cs: Seq<char>, k: int) -> bool {
    ends_inter(cs, k) && !at(cs, k + blanks(cs, k), '|')
}

spec fn starter(c: char) -> bool {
    c == '(' || is_name_char(c)
}

proof fn lemma_chars()
    ensures
        !is_name_char('('),
        !is_name_char(')'),
        !is_name_char(':'),
        !is_name_char(' '),
        !is_name_char(','),
        !is_name_char('|'),
        !is_name_char('&'),
        !is_name_char('~'),
        forall|c: char| is_name_char(c) ==> !is_blank(c),
{
}

/// What the texts begin with.
proof fn lemma_starts(e: RevsetV)
    requires
        well_named(e),
    ensures
        atom(e).len() > 0,
        starter(atom(e)[0]),
        print(e).len() > 0,
        starter(print(e)[0]) || print(e)[0] == ':',
    decreases e,
{
    lemma_chars();
    reveal_strlit("(");
    match e {
        RevsetV::Literal(n) => {
            assert(is_name_char(n[0]));
            assert(print(e) == n);
            assert(atom(e) == n);
            assert(starter(atom(e)[0]));
        },
        RevsetV::Function { name, args } => {
            assert(is_name_char(name[0]));
            assert(atom(e) == print(e));
            assert(print(e) == name + "("@ + print_args(args) + ")"@);
        },
        RevsetV::Ancestors(x) => {
            reveal_strlit("::");
        },
        RevsetV::Descendants(x) => {
            lemma_starts(*x);
        },
        RevsetV::Range(x, y) => {
            lemma_starts(*x);
        },
        RevsetV::Union(x, y) => {
            lemma_starts(*x);
        },
        RevsetV::Intersection(x, y) => {
            lemma_starts(*x);
        },
        RevsetV::Difference(x, y) => {
            lemma_starts(*x);
        },
    }
}

proof fn lemma_name_len(cs: Seq<char>, p: int, n: Seq<char>, k: int)
    requires
        has(cs, p, n),
        forall|m: int| 0 <= m < n.len() ==> #[trigger] is_name_char(n[m]),
        !(0 <= p + n.len() < cs.len() && is_name_char(cs[p + n.len()])),
        0 <= k <= n.len(),
    ensures
        name_len(cs, p + k) == n.len() - k,
    decreases n.len() - k,
{
    if k < n.len() {
        lemma_name_len(cs, p, n, k + 1);
        assert(cs[p + k] == n[k]);
    }
}

proof fn lemma_one_blank(cs: Seq<char>, k: int)
    requires
        0 <= k,
        k + 1 < cs.len(),
        cs[k] == ' ',
        !is_blank(cs[k + 1]),
    ensures
        blanks(cs, k) == 1,
{
    assert(blanks(cs, k + 1) == 0);
}

proof fn lemma_print_args_front(args: Seq<RevsetV>)
    requires
        args.len() >= 2,
    ensures
        print_args(args) == print(args[0]) + ", "@ + print_args(args.drop_first()),
    decreases args.len(),
{
    let n = args.len();
    let init = args.subrange(0, n - 1);
    if n == 2 {
        assert(init.len() == 1);
        assert(init[0] == args[0]);
        assert(print_args(init) == print(args[0]));
        assert(args.drop_first().len() == 1);
        assert(args.drop_first()[0] == args[1]);
        assert(print_args(args.drop_first()) == print(args[1]));
        assert(print_args(args) == print_args(init) + ", "@ + print(args[1]));
    } else {
        lemma_print_args_front(init);
        let d = args.drop_first();
        assert(init.drop_first() =~= d.subrange(0, d.len() - 1));
        assert(d[d.len() - 1] == args[n - 1]);
        assert(init[0] == args[0]);
        assert(print_args(d) == print_args(d.subrange(0, d.len() - 1)) + ", "@ + print(args[n - 1]));
        assert(print_args(args) == print_args(init) + ", "@ + print(args[n - 1]));
        assert(print_args(args) =~= print(args[0]) + ", "@ + print_args(args.drop_first()));
    }
}

#[verifier::spinoff_prover]
#[verifier::rlimit(60)]
proof fn lemma_primary(cs: Seq<char>, i: int, e: RevsetV)
    requires
        0 <= i,
        well_named(e),
        has(cs, i + blanks(cs, i), atom(e)),
        name_ends(cs, i + blanks(cs, i) + atom(e).len()),
    ensures
        p_primary(cs, i) == Ok::<(RevsetV, nat), nat>((e, (blanks(cs, i) + atom(e).len()) as nat)),
    decreases e, if e is Literal || e is Function { 2int } else { 8int },
{
    let p = i + blanks(cs, i);
    lemma_starts(e);
    lemma_chars();
    assert(cs[p] == atom(e)[0]);
    match e {
        RevsetV::Literal(n) => {
            assert(atom(e) == n);
            lemma_name_len(cs, p, n, 0);
            assert(cs.subrange(p, p + n.len()) =~= n);
        },
        RevsetV::Function { .. } => {
            lemma_primary_call(cs, i, e);
        },
        _ => {
            lemma_primary_paren(cs, i, e);
        },
    }
}

/// The first character of the arguments' text.
proof fn lemma_args_start(args: Seq<RevsetV>)
    requires
        args.len() > 0,
        forall|k: int| 0 <= k < args.len() ==> well_named(#[trigger] args[k]),
    ensures
        print_args(args).len() > 0,
        !is_blank(print_args(args)[0]),
        print_args(args)[0] != ')',
{
    lemma_chars();
    assert(well_named(args[0]));
    lemma_starts(args[0]);
    if args.len() >= 2 {
        lemma_print_args_front(args);
    }
    assert(print_args(args)[0] == print(args[0])[0]);
}

#[verifier::spinoff_prover]
#[verifier::rlimit(60)]
proof fn lemma_primary_call(cs: Seq<char>, i: int, e: RevsetV)
    requires
        0 <= i,
        well_named(e),
        e is Function,
        has(cs, i + blanks(cs, i), atom(e)),
    ensures
        p_primary(cs, i) == Ok::<(RevsetV, nat), nat>((e, (blanks(cs, i) + atom(e).len()) as nat)),
    decreases e, 1int,
{
    let p = i + blanks(cs, i);
    lemma_chars();
    reveal_strlit("(");
    reveal_strlit(")");
    if let RevsetV::Function { name, args } = e {
        let t = atom(e);
        let inner = print_args(args) + ")"@;
        assert(t == print(e));
        assert(t =~= name + ("("@ + inner));
        assert(has(cs, p, name)) by {
            assert forall|k: int| 0 <= k < name.len() implies cs[p + k] == #[trigger] name[k] by {
                assert(t[k] == name[k]);
            }
        }
        let q = p + name.len();
        assert(cs[q] == t[name.len() as int]);
        lemma_name_len(cs, p, name, 0);
        assert(cs.subrange(p, q) =~= name);
        assert(blanks(cs, q) == 0);
        assert(has(cs, q + 1, inner)) by {
            assert forall|k: int| 0 <= k < inner.len() implies cs[q + 1 + k] == #[trigger] inner[k] by {
                assert(t[name.len() + 1 + k] == inner[k]);
            }
        }
        if args.len() > 0 {
            lemma_args_start(args);
        }
        assert(cs[q + 1] == inner[0]);
        assert(blanks(cs, q + 1) == 0);
        assert(decreases_to!(e => args));
        lemma_args(cs, q + 1, name, Seq::empty(), args);
        assert(Seq::<RevsetV>::empty() + args =~= args);
    }
}

#[verifier::spinoff_prover]
#[verifier::rlimit(60)]
proof fn lemma_primary_paren(cs: Seq<char>, i: int, e: RevsetV)
    requires
        0 <= i,
        well_named(e),
        !(e is Literal || e is Function),
        has(cs, i + blanks(cs, i), atom(e)),
    ensures
        p_primary(cs, i) == Ok::<(RevsetV, nat), nat>((e, (blanks(cs, i) + atom(e).len()) as nat)),
    decreases e, 7int,
{
    let p = i + blanks(cs, i);
    lemma_starts(e);
    lemma_chars();
    reveal_strlit("(");
    reveal_strlit(")");
    let t = atom(e);
    let body = print(e);
    assert(t =~= "("@ + body + ")"@);
    assert(cs[p] == t[0]);
    assert(has(cs, p + 1, body)) by {
        assert forall|k: int| 0 <= k < body.len() implies cs[p + 1 + k] == #[trigger] body[k] by {
            assert(t[1 + k] == body[k]);
        }
    }
    assert(cs[p + 1] == body[0]);
    assert(blanks(cs, p + 1) == 0);
    let c = p + 1 + body.len();
    assert(cs[c] == t[body.len() + 1int]);
    assert(blanks(cs, c) == 0);
    lemma_union(cs, p + 1, e);
}

#[verifier::spinoff_prover]
#[verifier::rlimit(60)]
proof fn lemma_args(cs: Seq<char>, i: int, name: Seq<char>, acc: Seq<RevsetV>, rest: Seq<RevsetV>)
    requires
        0 <= i,
        rest.len() > 0 || acc.len() == 0,
        forall|k: int| 0 <= k < rest.len() ==> well_named(#[trigger] rest[k]),
        has(cs, i + blanks(cs, i), print_args(rest) + ")"@),
    ensures
        p_args(cs, i, name, acc) == Ok::<(RevsetV, nat), nat>(
            (RevsetV::Function { name, args: acc + rest }, (blanks(cs, i) + print_args(rest).len() + 1) as nat),
        ),
    decreases rest, 0int,
{
    let p = i + blanks(cs, i);
    let t = print_args(rest) + ")"@;
    reveal_strlit(")");
    reveal_strlit(", ");
    lemma_chars();
    if rest.len() == 0 {
        assert(t[0] == ')');
        assert(acc + rest =~= acc);
    } else {
        let r0 = rest[0];
        let b0 = print(r0);
        lemma_starts(r0);
        let tail = if rest.len() == 1 { ")"@ } else { ", "@ + print_args(rest.drop_first()) + ")"@ };
        if rest.len() >= 2 {
            lemma_print_args_front(rest);
        }
        assert(t =~= b0 + tail);
        assert(has(cs, p, b0)) by {
            assert forall|k: int| 0 <= k < b0.len() implies cs[p + k] == #[trigger] b0[k] by {
                assert(t[k] == b0[k]);
            }
        }
        assert(cs[p] == b0[0]);
        assert(blanks(cs, p) == 0);
        let q = p + b0.len();
        assert(cs[q] == t[b0.len() as int]);
        assert(cs[q] == tail[0]);
        assert(blanks(cs, q) == 0);
        lemma_union(cs, p, r0);
        if rest.len() == 1 {
            assert(acc.push(r0) =~= acc + rest);
        } else {
            let d = rest.drop_first();
            let t2 = print_args(d) + ")"@;
            assert(tail =~= ", "@ + t2);
            assert(cs[q + 1] == t[b0.len() + 1int]);
            assert(t[b0.len() + 1int] == tail[1]);
            assert(has(cs, q + 2, t2)) by {
                assert forall|k: int| 0 <= k < t2.len() implies cs[q + 2 + k] == #[trigger] t2[k] by {
                    assert(t[b0.len() + 2 + k] == tail[2 + k]);
                    assert(tail[2 + k] == t2[k]);
                }
            }
            assert(d.len() >= 1);
            lemma_starts(d[0]);
            if d.len() >= 2 {
                lemma_print_args_front(d);
            }
            assert(cs[q + 2] == t2[0]);
            lemma_one_blank(cs, q + 1);
            assert forall|k: int| 0 <= k < d.len() implies well_named(#[trigger] d[k]) by {
                assert(d[k] == rest[k + 1]);
            }
            lemma_args(cs, q + 1, name, acc.push(r0), d);
            assert(acc.push(r0) + d =~= acc + rest);
        }
    }
}

proof fn lemma_range_atom(cs: Seq<char>, i: int, e: RevsetV)
    requires
        0 <= i,
        well_named(e),
        has(cs, i + blanks(cs, i), atom(e)),
        ends_range(cs, i + blanks(cs, i) + atom(e).len()),
    ensures
        p_range(cs, i) == Ok::<(RevsetV, nat), nat>((e, (blanks(cs, i) + atom(e).len()) as nat)),
    decreases e, if e is Literal || e is Function { 3int } else { 9int },
{
    let p = i + blanks(cs, i);
    lemma_starts(e);
    lemma_chars();
    assert(cs[p] == atom(e)[0]);
    let k = p + atom(e).len();
    if 0 <= k < cs.len() && is_name_char(cs[k]) {
        assert(blanks(cs, k) == 0);
    }
    lemma_primary(cs, i, e);
}

#[verifier::spinoff_prover]
#[verifier::rlimit(60)]
proof fn lemma_range_print(cs: Seq<char>, i: int, e: RevsetV)
    requires
        0 <= i,
        well_named(e),
        e is Ancestors || e is Descendants || e is Range,
        has(cs, i + blanks(cs, i), print(e)),
        ends_range(cs, i + blanks(cs, i) + print(e).len()),
    ensures
        p_range(cs, i) == Ok::<(RevsetV, nat), nat>((e, (blanks(cs, i) + print(e).len()) as nat)),
    decreases e, 3int,
{
    let p = i + blanks(cs, i);
    let t = print(e);
    lemma_chars();
    reveal_strlit("::");
    let end = p + t.len();
    if 0 <= end < cs.len() && is_name_char(cs[end]) {
        assert(blanks(cs, end) == 0);
    }
    match e {
        RevsetV::Ancestors(x) => {
            let a = atom(*x);
            assert(t =~= "::"@ + a);
            lemma_starts(*x);
            assert(cs[p] == t[0]);
            assert(cs[p + 1] == t[1]);
            assert(has(cs, p + 2, a)) by {
                assert forall|k: int| 0 <= k < a.len() implies cs[p + 2 + k] == #[trigger] a[k] by {
                    assert(t[2 + k] == a[k]);
                }
            }
            assert(cs[p + 2] == a[0]);
            assert(blanks(cs, p + 2) == 0);
            lemma_primary(cs, p + 2, *x);
        },
        RevsetV::Descendants(x) => {
            let a = atom(*x);
            assert(t =~= a + "::"@);
            lemma_starts(*x);
            assert(cs[p] == t[0]);
            assert(has(cs, p, a)) by {
                assert forall|k: int| 0 <= k < a.len() implies cs[p + k] == #[trigger] a[k] by {
                    assert(t[k] == a[k]);
                }
            }
            let q = p + a.len();
            assert(cs[q] == t[a.len() as int]);
            assert(cs[q + 1] == t[a.len() + 1int]);
            assert(blanks(cs, q) == 0);
            lemma_primary(cs, i, *x);
            assert(!starts_primary(cs, q + 2));
        },
        RevsetV::Range(x, y) => {
            let a = atom(*x);
            let b = atom(*y);
            assert(t =~= a + "::"@ + b);
            lemma_starts(*x);
            lemma_starts(*y);
            assert(cs[p] == t[0]);
            assert(has(cs, p, a)) by {
                assert forall|k: int| 0 <= k < a.len() implies cs[p + k] == #[trigger] a[k] by {
                    assert(t[k] == a[k]);
                }
            }
            let q = p + a.len();
            assert(cs[q] == t[a.len() as int]);
            assert(cs[q + 1] == t[a.len() + 1int]);
            assert(blanks(cs, q) == 0);
            lemma_primary(cs, i, *x);
            assert(has(cs, q + 2, b)) by {
                assert forall|k: int| 0 <= k < b.len() implies cs[q + 2 + k] == #[trigger] b[k] by {
                    assert(t[a.len() + 2 + k] == b[k]);
                }
            }
            assert(cs[q + 2] == b[0]);
            assert(blanks(cs, q + 2) == 0);
            assert(starts_primary(cs, q + 2));
            lemma_primary(cs, q + 2, *y);
        },
        _ => {},
    }
}

proof fn lemma_inter_atom(cs: Seq<char>, i: int, e: RevsetV)
    requires
        0 <= i,
        well_named(e),
        has(cs, i + blanks(cs, i), atom(e)),
        ends_inter(cs, i + blanks(cs, i) + atom(e).len()),
    ensures
        p_inter(cs, i) == Ok::<(RevsetV, nat), nat>((e, (blanks(cs, i) + atom(e).len()) as nat)),
    decreases e, if e is Literal || e is Function { 4int } else { 10int },
{
    lemma_range_atom(cs, i, e);
}

/// The pieces of a binary operator's text `atom(x) + " o " + atom(y)` at `p`.
#[verifier::spinoff_prover]
#[verifier::rlimit(60)]
proof fn lemma_binary(cs: Seq<char>, p: int, x: RevsetV, y: RevsetV, op: Seq<char>, o: char)
    requires
        well_named(x),
        well_named(y),
        op.len() == 3,
        op[0] == ' ',
        op[1] == o,
        !is_blank(o),
        op[2] == ' ',
        has(cs, p, atom(x) + op + atom(y)),
    ensures
        has(cs, p, atom(x)),
        cs[p + atom(x).len()] == ' ',
        cs[p + atom(x).len() + 1] == o,
        blanks(cs, p + atom(x).len()) == 1,
        blanks(cs, p + atom(x).len() + 2) == 1,
        has(cs, p + atom(x).len() + 3, atom(y)),
{
    let a = atom(x);
    let b = atom(y);
    let t = a + op + b;
    lemma_starts(y);
    assert forall|k: int| 0 <= k < a.len() implies cs[p + k] == #[trigger] a[k] by {
        assert(t[k] == a[k]);
    }
    assert forall|k: int| 0 <= k < b.len() implies cs[p + a.len() + 3 + k] == #[trigger] b[k] by {
        assert(t[a.len() + 3 + k] == b[k]);
    }
    assert(cs[p + a.len()] == t[a.len() as int]);
    assert(cs[p + a.len() + 1] == t[a.len() + 1int]);
    assert(cs[p + a.len() + 2] == t[a.len() + 2int]);
    assert(cs[p + a.len() + 3] == b[0]);
    assert(blanks(cs, p + a.len() + 3) == 0);
    assert(blanks(cs, p + a.len() + 2) == 1);
    assert(blanks(cs, p + a.len() + 1) == 0);
    assert(blanks(cs, p + a.len()) == 1);
}

#[verifier::spinoff_prover]
#[verifier::rlimit(60)]
proof fn lemma_inter_pair(cs: Seq<char>, i: int, e: RevsetV)
    requires
        0 <= i,
        well_named(e),
        e is Intersection || e is Difference,
        has(cs, i + blanks(cs, i), print(e)),
        ends_inter(cs, i + blanks(cs, i) + print(e).len()),
    ensures
        p_inter(cs, i) == Ok::<(RevsetV, nat), nat>((e, (blanks(cs, i) + print(e).len()) as nat)),
    decreases e, 3int,
{
    let p = i + blanks(cs, i);
    lemma_chars();
    reveal_strlit(" & ");
    reveal_strlit(" ~ ");
    match e {
        RevsetV::Intersection(x, y) => {
            lemma_binary(cs, p, *x, *y, " & "@, '&');
            let q = p + atom(*x).len();
            lemma_range_atom(cs, i, *x);
            lemma_range_atom(cs, q + 2, *y);
        },
        RevsetV::Difference(x, y) => {
            lemma_binary(cs, p, *x, *y, " ~ "@, '~');
            let q = p + atom(*x).len();
            lemma_range_atom(cs, i, *x);
            lemma_range_atom(cs, q + 2, *y);
        },
        _ => {},
    }
}

#[verifier::spinoff_prover]
#[verifier::rlimit(60)]
proof fn lemma_inter(cs: Seq<char>, i: int, e: RevsetV)
    requires
        0 <= i,
        well_named(e),
        !(e is Union),
        has(cs, i + blanks(cs, i), print(e)),
        ends_inter(cs, i + blanks(cs, i) + print(e).len()),
    ensures
        p_inter(cs, i) == Ok::<(RevsetV, nat), nat>((e, (blanks(cs, i) + print(e).len()) as nat)),
    decreases e, 4int,
{
    let p = i + blanks(cs, i);
    lemma_chars();
    reveal_strlit(" & ");
    reveal_strlit(" ~ ");
    match e {
        RevsetV::Intersection(..) => {
            lemma_inter_pair(cs, i, e);
        },
        RevsetV::Difference(..) => {
            lemma_inter_pair(cs, i, e);
        },
        RevsetV::Literal(_) => {
            lemma_range_atom(cs, i, e);
        },
        RevsetV::Function { .. } => {
            lemma_range_atom(cs, i, e);
        },
        _ => {
            lemma_range_print(cs, i, e);
        },
    }
}

#[verifier::spinoff_prover]
#[verifier::rlimit(60)]
proof fn lemma_union(cs: Seq<char>, i: int, e: RevsetV)
    requires
        0 <= i,
        well_named(e),
        has(cs, i + blanks(cs, i), print(e)),
        ends_union(cs, i + blanks(cs, i) + print(e).len()),
    ensures
        p_union(cs, i) == Ok::<(RevsetV, nat), nat>((e, (blanks(cs, i) + print(e).len()) as nat)),
    decreases e, 5int,
{
    let p = i + blanks(cs, i);
    lemma_chars();
    reveal_strlit(" | ");
    match e {
        RevsetV::Union(x, y) => {
            lemma_binary(cs, p, *x, *y, " | "@, '|');
            let q = p + atom(*x).len();
            lemma_inter_atom(cs, i, *x);
            lemma_inter_atom(cs, q + 2, *y);
        },
        _ => {
            lemma_inter(cs, i, e);
        },
    }
}

/// The text of an expression whose names are all names reads back as that
/// expression.
pub proof fn law_print_parses_back(e: RevsetV)
    requires
        well_named(e),
    ensures
        parse_text(print(e)) == Ok::<RevsetV, nat>(e),
{
    let cs = print(e);
    lemma_starts(e);
    lemma_chars();
    assert(blanks(cs, 0) == 0);
    assert(blanks(cs, cs.len() as int) == 0);
    assert(has(cs, 0, cs));
    lemma_union(cs, 0, e);
}

} // verus!
