//! Verified list operations on plan operands, used by the rewrite.
use vstd::prelude::*;

use crate::dag::Vx;
use crate::planner::expr::{lemma_view_plans, view_plan, view_plans, view_preds, Expr, PlanV, PredV, Predicate};
use crate::planner::rewrite::{
    concat_consts, const_vxs, count_open, drop_preds, drop_trivial, filter_input, first_yank, flatten,
    keep_preds, keep_vxs, key, key_sorted, lead_consts, meet_consts, open_walk, preds_of, shared_preds,
    strip_preds, unwrap_filters, walks, with_key,
};

verus! {

pub proof fn lemma_view_plans_push(s: Seq<Expr>, x: Expr)
    ensures
        view_plans(s.push(x)) == view_plans(s).push(view_plan(x)),
{
    assert(s.push(x).subrange(0, s.len() as int) =~= s);
}

pub proof fn lemma_view_plans_append(a: Seq<Expr>, b: Seq<Expr>)
    ensures
        view_plans(a + b) == view_plans(a) + view_plans(b),
    decreases b.len(),
{
    if b.len() == 0 {
        assert(a + b =~= a);
        assert(view_plans(b) =~= Seq::<PlanV>::empty());
        assert(view_plans(a) + view_plans(b) =~= view_plans(a));
    } else {
        let b1 = b.drop_last();
        lemma_view_plans_append(a, b1);
        assert(a + b =~= (a + b1).push(b.last()));
        lemma_view_plans_push(a + b1, b.last());
        assert(b =~= b1.push(b.last()));
        lemma_view_plans_push(b1, b.last());
        assert(view_plans(a) + view_plans(b) =~= (view_plans(a) + view_plans(b1)).push(view_plan(b.last())));
    }
}

/// Some operand is of the kind `k`: 0 a union, 1 an intersection, 2
/// `Nothing`, 3 `All`, 4 a constant.
pub open spec fn kind_is(e: PlanV, k: nat) -> bool {
    match e {
        PlanV::Union(_) => k == 0,
        PlanV::Intersection(_) => k == 1,
        PlanV::Nothing => k == 2,
        PlanV::All => k == 3,
        PlanV::Constant(_) => k == 4,
        _ => false,
    }
}

fn is_kind(e: &Expr, k: usize) -> (r: bool)
    ensures
        r == kind_is(e@, k as nat),
{
    match e {
        Expr::Union(_) => k == 0,
        Expr::Intersection(_) => k == 1,
        Expr::Nothing => k == 2,
        Expr::All => k == 3,
        Expr::Constant(_) => k == 4,
        _ => false,
    }
}

/// Whether the operand is of kind `k` (see `kind_is`).
pub fn is_kind_pub(e: &Expr, k: usize) -> (r: bool)
    ensures
        r == kind_is(e@, k as nat),
{
    is_kind(e, k)
}

/// Whether some operand is of kind `k` (see `kind_is`).
pub fn has_kind(os: &Vec<Expr>, k: usize) -> (r: bool)
    ensures
        r == exists|i: int| 0 <= i < view_plans(os@).len() && kind_is(#[trigger] view_plans(os@)[i], k as nat),
{
    proof {
        lemma_view_plans(os@);
    }
    let mut i: usize = 0;
    while i < os.len()
        invariant
            i <= os.len(),
            view_plans(os@).len() == os@.len(),
            forall|j: int| 0 <= j < os@.len() ==> #[trigger] view_plans(os@)[j] == view_plan(os@[j]),
            forall|j: int| 0 <= j < i ==> !kind_is(#[trigger] view_plans(os@)[j], k as nat),
        decreases os.len() - i,
    {
        if is_kind(&os[i], k) {
            proof {
                assert(kind_is(view_plans(os@)[i as int], k as nat));
            }
            return true;
        }
        i = i + 1;
    }
    false
}

/// The operands with nested unions (`union`) or intersections spliced in.
pub fn flatten_vec(os: Vec<Expr>, union: bool) -> (r: Vec<Expr>)
    ensures
        view_plans(r@) == flatten(view_plans(os@), union),
{
    let ghost es = view_plans(os@);
    proof {
        lemma_view_plans(os@);
    }
    let mut rest = os;
    let mut out: Vec<Expr> = Vec::new();
    let ghost n = es.len();
    proof {
        assert(es.take(0) =~= Seq::<PlanV>::empty());
        assert(view_plans(out@) =~= Seq::<PlanV>::empty());
    }
    while rest.len() > 0
        invariant
            n == es.len(),
            rest@.len() <= n,
            forall|j: int| 0 <= j < rest@.len() ==> view_plan(#[trigger] rest@[j]) == es[n - rest@.len() + j],
            view_plans(out@) == flatten(es.take(n - rest@.len()), union),
        decreases rest@.len(),
    {
        let ghost before = rest@;
        let ghost k = n - rest@.len();
        let x = rest.remove(0);
        let ghost vx = view_plan(x);
        proof {
            assert(vx == es[k]);
            assert forall|j: int| 0 <= j < rest@.len() implies view_plan(#[trigger] rest@[j]) == es[n - rest@.len() + j] by {
                assert(rest@[j] == before[j + 1]);
            }
            assert(es.take(k + 1).drop_last() =~= es.take(k));
            assert(es.take(k + 1).last() == es[k]);
        }
        let ghost o = out@;
        match x {
            Expr::Union(mut inner) if union => {
                proof {
                    lemma_view_plans_append(o, inner@);
                }
                out.append(&mut inner);
            },
            Expr::Intersection(mut inner) if !union => {
                proof {
                    lemma_view_plans_append(o, inner@);
                }
                out.append(&mut inner);
            },
            x => {
                out.push(x);
                proof {
                    lemma_view_plans_push(o, x);
                    assert(flatten(es.take(k + 1), union) =~= flatten(es.take(k), union) + seq![vx]);
                }
            },
        }
    }
    proof {
        assert(es.take(n as int) =~= es);
    }
    out
}

/// The operands without `Nothing` (`nothing`) or without `All`.
pub fn drop_trivial_vec(os: Vec<Expr>, nothing: bool) -> (r: Vec<Expr>)
    ensures
        view_plans(r@) == drop_trivial(view_plans(os@), nothing),
{
    let ghost es = view_plans(os@);
    proof {
        lemma_view_plans(os@);
    }
    let mut rest = os;
    let mut out: Vec<Expr> = Vec::new();
    let ghost n = es.len();
    proof {
        assert(es.take(0) =~= Seq::<PlanV>::empty());
        assert(view_plans(out@) =~= Seq::<PlanV>::empty());
    }
    while rest.len() > 0
        invariant
            n == es.len(),
            rest@.len() <= n,
            forall|j: int| 0 <= j < rest@.len() ==> view_plan(#[trigger] rest@[j]) == es[n - rest@.len() + j],
            view_plans(out@) == drop_trivial(es.take(n - rest@.len()), nothing),
        decreases rest@.len(),
    {
        let ghost before = rest@;
        let ghost k = n - rest@.len();
        let x = rest.remove(0);
        proof {
            assert(view_plan(x) == es[k]);
            assert forall|j: int| 0 <= j < rest@.len() implies view_plan(#[trigger] rest@[j]) == es[n - rest@.len() + j] by {
                assert(rest@[j] == before[j + 1]);
            }
            assert(es.take(k + 1).drop_last() =~= es.take(k));
            assert(es.take(k + 1).last() == es[k]);
        }
        let skip = if nothing { is_kind(&x, 2) } else { is_kind(&x, 3) };
        if !skip {
            let ghost o = out@;
            out.push(x);
            proof {
                lemma_view_plans_push(o, x);
            }
        }
    }
    proof {
        assert(es.take(n as int) =~= es);
    }
    out
}

fn key_of(e: &Expr, union: bool) -> (r: usize)
    ensures
        r == key(e@, union),
{
    match e {
        Expr::Constant(_) => 0,
        Expr::Up { .. } => if union { 1 } else { 1 },
        Expr::Down { .. } => if union { 1 } else { 2 },
        _ => if union { 1 } else { 3 },
    }
}

/// Whether the operands' keys never decrease.
pub fn is_key_sorted(os: &Vec<Expr>, union: bool) -> (r: bool)
    ensures
        r == key_sorted(view_plans(os@), union),
{
    proof {
        lemma_view_plans(os@);
    }
    let ghost es = view_plans(os@);
    if os.len() == 0 {
        return true;
    }
    let mut i: usize = 1;
    while i < os.len()
        invariant
            1 <= i <= os.len(),
            es == view_plans(os@),
            es.len() == os@.len(),
            forall|j: int| 0 <= j < os@.len() ==> #[trigger] es[j] == view_plan(os@[j]),
            key_sorted(es.take(i as int), union),
        decreases os.len() - i,
    {
        let a = key_of(&os[i - 1], union);
        let b = key_of(&os[i], union);
        if a > b {
            proof {
                assert(key(es[i - 1], union) > key(es[i as int], union));
            }
            return false;
        }
        proof {
            assert forall|x: int, y: int| 0 <= x <= y < i + 1 implies key(#[trigger] es.take(i + 1)[x], union) <= key(#[trigger] es.take(i + 1)[y], union) by {
                if y == i && x < i {
                    assert(es.take(i as int)[x] == es[x]);
                    assert(es.take(i as int)[i - 1] == es[i - 1]);
                }
                if y < i {
                    assert(es.take(i as int)[x] == es[x]);
                    assert(es.take(i as int)[y] == es[y]);
                }
            }
        }
        i = i + 1;
    }
    proof {
        assert(es.take(i as int) =~= es);
    }
    true
}

/// The operands stably sorted by key.
pub fn sort_by_key_vec(os: Vec<Expr>, union: bool) -> (r: Vec<Expr>)
    ensures
        view_plans(r@) == crate::planner::rewrite::sort_by_key(view_plans(os@), union),
{
    let ghost es = view_plans(os@);
    proof {
        lemma_view_plans(os@);
    }
    let mut rest = os;
    let mut b0: Vec<Expr> = Vec::new();
    let mut b1: Vec<Expr> = Vec::new();
    let mut b2: Vec<Expr> = Vec::new();
    let mut b3: Vec<Expr> = Vec::new();
    let ghost n = es.len();
    proof {
        assert(es.take(0) =~= Seq::<PlanV>::empty());
        assert(view_plans(b0@) =~= Seq::<PlanV>::empty());
    }
    while rest.len() > 0
        invariant
            n == es.len(),
            rest@.len() <= n,
            forall|j: int| 0 <= j < rest@.len() ==> view_plan(#[trigger] rest@[j]) == es[n - rest@.len() + j],
            view_plans(b0@) == with_key(es.take(n - rest@.len()), union, 0),
            view_plans(b1@) == with_key(es.take(n - rest@.len()), union, 1),
            view_plans(b2@) == with_key(es.take(n - rest@.len()), union, 2),
            view_plans(b3@) == with_key(es.take(n - rest@.len()), union, 3),
        decreases rest@.len(),
    {
        let ghost before = rest@;
        let ghost k = n - rest@.len();
        let x = rest.remove(0);
        proof {
            assert(view_plan(x) == es[k]);
            assert forall|j: int| 0 <= j < rest@.len() implies view_plan(#[trigger] rest@[j]) == es[n - rest@.len() + j] by {
                assert(rest@[j] == before[j + 1]);
            }
            assert(es.take(k + 1).drop_last() =~= es.take(k));
            assert(es.take(k + 1).last() == es[k]);
        }
        let kx = key_of(&x, union);
        let ghost (o0, o1, o2, o3) = (b0@, b1@, b2@, b3@);
        if kx == 0 {
            b0.push(x);
            proof {
                lemma_view_plans_push(o0, x);
            }
        } else if kx == 1 {
            b1.push(x);
            proof {
                lemma_view_plans_push(o1, x);
            }
        } else if kx == 2 {
            b2.push(x);
            proof {
                lemma_view_plans_push(o2, x);
            }
        } else {
            b3.push(x);
            proof {
                lemma_view_plans_push(o3, x);
            }
        }
    }
    proof {
        assert(es.take(n as int) =~= es);
        lemma_view_plans_append(b0@, b1@);
        lemma_view_plans_append(b0@ + b1@, b2@);
        lemma_view_plans_append(b0@ + b1@ + b2@, b3@);
        if union {
            lemma_no_key(es, 2);
            lemma_no_key(es, 3);
        }
    }
    b0.append(&mut b1);
    b0.append(&mut b2);
    b0.append(&mut b3);
    b0
}

proof fn lemma_no_key(es: Seq<PlanV>, k: nat)
    requires
        k >= 2,
    ensures
        with_key(es, true, k) == Seq::<PlanV>::empty(),
    decreases es.len(),
{
    if es.len() > 0 {
        lemma_no_key(es.drop_last(), k);
    }
}

/// How many operands at the front are constants.
pub fn lead_consts_vec(os: &Vec<Expr>) -> (n: usize)
    ensures
        n == lead_consts(view_plans(os@)),
        n <= os@.len(),
{
    proof {
        lemma_view_plans(os@);
    }
    let ghost es = view_plans(os@);
    let mut i: usize = 0;
    proof {
        assert(es.skip(0) =~= es);
    }
    while i < os.len() && is_kind(&os[i], 4)
        invariant
            i <= os.len(),
            es == view_plans(os@),
            es.len() == os@.len(),
            forall|j: int| 0 <= j < os@.len() ==> #[trigger] es[j] == view_plan(os@[j]),
            lead_consts(es) == i + lead_consts(es.skip(i as int)),
        decreases os.len() - i,
    {
        proof {
            assert(es.skip(i as int)[0] == es[i as int]);
            assert(es.skip(i as int).drop_first() =~= es.skip(i + 1));
        }
        i = i + 1;
    }
    proof {
        if i < os.len() {
            assert(es.skip(i as int)[0] == es[i as int]);
        }
    }
    i
}

fn has_vx(v: &Vec<Vx>, x: Vx) -> (r: bool)
    ensures
        r == v@.contains(x),
{
    let mut i: usize = 0;
    while i < v.len()
        invariant
            i <= v.len(),
            forall|j: int| 0 <= j < i ==> v@[j] != x,
        decreases v.len() - i,
    {
        if v[i].0 == x.0 {
            proof {
                assert(v@[i as int] == x);
            }
            return true;
        }
        i = i + 1;
    }
    false
}

fn keep_vxs_vec(a: &Vec<Vx>, b: &Vec<Vx>) -> (r: Vec<Vx>)
    ensures
        r@ == keep_vxs(a@, b@),
{
    let mut r: Vec<Vx> = Vec::new();
    let mut i: usize = 0;
    proof {
        assert(a@.take(0) =~= Seq::<Vx>::empty());
    }
    while i < a.len()
        invariant
            i <= a.len(),
            r@ == keep_vxs(a@.take(i as int), b@),
        decreases a.len() - i,
    {
        proof {
            assert(a@.take(i + 1).drop_last() =~= a@.take(i as int));
        }
        if has_vx(b, a[i]) {
            r.push(a[i]);
        }
        i = i + 1;
    }
    proof {
        assert(a@.take(i as int) =~= a@);
    }
    r
}

/// The first `n` operands (constants) merged into one constant in front of
/// the rest: their vertices one after the other (`union`), or those of the
/// first kept by each of the others.
pub fn merge_consts(os: Vec<Expr>, n: usize, union: bool) -> (r: Vec<Expr>)
    requires
        2 <= n <= os@.len(),
        n == lead_consts(view_plans(os@)),
    ensures
        view_plans(r@) == seq![PlanV::Constant(if union { concat_consts(view_plans(os@), n as nat) } else { meet_consts(view_plans(os@), n as nat) })]
            + view_plans(os@).skip(n as int),
{
    let ghost es = view_plans(os@);
    proof {
        lemma_view_plans(os@);
        lemma_lead_consts(es, n as nat);
    }
    let mut rest = os;
    let first = rest.remove(0);
    let mut result: Vec<Vx> = match first {
        Expr::Constant(v) => v,
        _ => Vec::new(),
    };
    proof {
        assert(result@ == const_vxs(es[0]));
        if union {
            reveal_with_fuel(concat_consts, 2);
            assert(concat_consts(es, 0) =~= Seq::<Vx>::empty());
            assert(concat_consts(es, 1) =~= const_vxs(es[0]));
        }
    }
    let mut i: usize = 1;
    while i < n
        invariant
            1 <= i <= n <= es.len(),
            rest@.len() == es.len() - i,
            forall|j: int| 0 <= j < rest@.len() ==> view_plan(#[trigger] rest@[j]) == es[i + j],
            forall|j: int| 0 <= j < n ==> (#[trigger] es[j]) is Constant,
            union ==> result@ == concat_consts(es, i as nat),
            !union ==> result@ == meet_consts(es, i as nat),
        decreases n - i,
    {
        let ghost before = rest@;
        let x = rest.remove(0);
        proof {
            assert(view_plan(x) == es[i as int]);
            assert forall|j: int| 0 <= j < rest@.len() implies view_plan(#[trigger] rest@[j]) == es[i + 1 + j] by {
                assert(rest@[j] == before[j + 1]);
            }
        }
        match x {
            Expr::Constant(mut v) => {
                proof {
                    assert(v@ == const_vxs(es[i as int]));
                }
                if union {
                    result.append(&mut v);
                } else {
                    result = keep_vxs_vec(&result, &v);
                }
            },
            _ => {},
        }
        i = i + 1;
    }
    let mut out: Vec<Expr> = Vec::new();
    let ghost rv = result@;
    out.push(Expr::Constant(result));
    let ghost o = out@;
    let ghost r0 = rest@;
    out.append(&mut rest);
    proof {
        lemma_view_plans_append(o, r0);
        lemma_view_plans(r0);
        assert(view_plans(r0) =~= es.skip(n as int));
        lemma_view_plans(o);
        assert(view_plans(o) =~= seq![PlanV::Constant(rv)]);
    }
    out
}

proof fn lemma_lead_consts(es: Seq<PlanV>, n: nat)
    requires
        n == lead_consts(es),
    ensures
        n <= es.len(),
        forall|j: int| 0 <= j < n ==> (#[trigger] es[j]) is Constant,
    decreases es.len(),
{
    if es.len() > 0 && es[0] is Constant {
        lemma_lead_consts(es.drop_first(), (n - 1) as nat);
        assert forall|j: int| 0 <= j < n implies (#[trigger] es[j]) is Constant by {
            if j > 0 {
                assert(es.drop_first()[j - 1] == es[j]);
            }
        }
    }
}

// ----- predicates -----

pub proof fn lemma_view_preds_push(s: Seq<Predicate>, p: Predicate)
    ensures
        view_preds(s.push(p)) == view_preds(s).push(p@),
{
    assert(view_preds(s.push(p)) =~= view_preds(s).push(p@));
}

fn same_pred(a: &Predicate, b: &Predicate) -> (r: bool)
    ensures
        r == (a@ == b@),
{
    match (a, b) {
        (Predicate::Author(x), Predicate::Author(y)) => *x == *y,
        (Predicate::Description(x), Predicate::Description(y)) => *x == *y,
        _ => false,
    }
}

fn copy_pred(p: &Predicate) -> (q: Predicate)
    ensures
        q@ == p@,
{
    match p {
        Predicate::Author(s) => Predicate::Author(s.clone()),
        Predicate::Description(s) => Predicate::Description(s.clone()),
    }
}

fn has_pred(v: &Vec<Predicate>, p: &Predicate) -> (r: bool)
    ensures
        r == view_preds(v@).contains(p@),
{
    let mut i: usize = 0;
    while i < v.len()
        invariant
            i <= v.len(),
            forall|j: int| 0 <= j < i ==> v@[j]@ != p@,
        decreases v.len() - i,
    {
        if same_pred(&v[i], p) {
            proof {
                assert(view_preds(v@)[i as int] == p@);
            }
            return true;
        }
        i = i + 1;
    }
    proof {
        if view_preds(v@).contains(p@) {
            let j = choose|j: int| 0 <= j < view_preds(v@).len() && view_preds(v@)[j] == p@;
            assert(v@[j]@ == p@);
        }
    }
    false
}

/// A copy of the predicates.
pub fn copy_preds(v: &Vec<Predicate>) -> (r: Vec<Predicate>)
    ensures
        view_preds(r@) == view_preds(v@),
{
    let mut r: Vec<Predicate> = Vec::new();
    let mut i: usize = 0;
    while i < v.len()
        invariant
            i <= v.len(),
            view_preds(r@) == view_preds(v@.take(i as int)),
        decreases v.len() - i,
    {
        let ghost o = r@;
        r.push(copy_pred(&v[i]));
        proof {
            lemma_view_preds_push(o, r@.last());
            assert(v@.take(i + 1) =~= v@.take(i as int).push(v@[i as int]));
            lemma_view_preds_push(v@.take(i as int), v@[i as int]);
        }
        i = i + 1;
    }
    proof {
        assert(v@.take(i as int) =~= v@);
    }
    r
}

/// The predicates of `a` that occur in `b` (`keep`) or that do not.
fn select_preds(a: Vec<Predicate>, b: &Vec<Predicate>, keep: bool) -> (r: Vec<Predicate>)
    ensures
        keep ==> view_preds(r@) == keep_preds(view_preds(a@), view_preds(b@)),
        !keep ==> view_preds(r@) == drop_preds(view_preds(a@), view_preds(b@)),
{
    let ghost av = view_preds(a@);
    let ghost n = a@.len();
    let mut rest = a;
    let mut r: Vec<Predicate> = Vec::new();
    proof {
        assert(av.take(0) =~= Seq::<PredV>::empty());
        assert(view_preds(r@) =~= Seq::<PredV>::empty());
    }
    while rest.len() > 0
        invariant
            n == av.len(),
            rest@.len() <= n,
            forall|j: int| 0 <= j < rest@.len() ==> (#[trigger] rest@[j])@ == av[n - rest@.len() + j],
            keep ==> view_preds(r@) == keep_preds(av.take(n - rest@.len()), view_preds(b@)),
            !keep ==> view_preds(r@) == drop_preds(av.take(n - rest@.len()), view_preds(b@)),
        decreases rest@.len(),
    {
        let ghost before = rest@;
        let ghost k = n - rest@.len();
        let x = rest.remove(0);
        proof {
            assert(x@ == av[k]);
            assert forall|j: int| 0 <= j < rest@.len() implies (#[trigger] rest@[j])@ == av[n - rest@.len() + j] by {
                assert(rest@[j] == before[j + 1]);
            }
            assert(av.take(k + 1).drop_last() =~= av.take(k));
            assert(av.take(k + 1).last() == av[k]);
        }
        let found = has_pred(b, &x);
        if found == keep {
            let ghost o = r@;
            r.push(x);
            proof {
                lemma_view_preds_push(o, x);
            }
        }
    }
    proof {
        assert(av.take(n as int) =~= av);
    }
    r
}

/// The predicates that every operand filters on (see `shared_preds`).
pub fn shared_preds_vec(os: &Vec<Expr>) -> (r: Option<Vec<Predicate>>)
    ensures
        match (r, shared_preds(view_plans(os@))) {
            (Some(v), Some(c)) => view_preds(v@) == c,
            (None, None) => true,
            _ => false,
        },
{
    proof {
        lemma_view_plans(os@);
    }
    let ghost es = view_plans(os@);
    let mut acc: Option<Vec<Predicate>> = None;
    let mut i: usize = 0;
    proof {
        assert(es.take(0) =~= Seq::<PlanV>::empty());
    }
    while i < os.len()
        invariant
            i <= os.len(),
            es == view_plans(os@),
            es.len() == os@.len(),
            forall|j: int| 0 <= j < os@.len() ==> #[trigger] es[j] == view_plan(os@[j]),
            match (acc, shared_preds(es.take(i as int))) {
                (Some(v), Some(c)) => view_preds(v@) == c,
                (None, None) => true,
                _ => false,
            },
        decreases os.len() - i,
    {
        proof {
            assert(es.take(i + 1).drop_last() =~= es.take(i as int));
            assert(es.take(i + 1).last() == es[i as int]);
        }
        match &os[i] {
            Expr::Filter { input: _, preds } => {
                acc = match acc {
                    Some(a) => Some(select_preds(a, preds, true)),
                    None => Some(copy_preds(preds)),
                };
            },
            _ => {
                acc = Some(Vec::new());
                proof {
                    assert(view_preds(Seq::<Predicate>::empty()) =~= Seq::<PredV>::empty());
                }
            },
        }
        i = i + 1;
    }
    proof {
        assert(es.take(i as int) =~= es);
    }
    acc
}

/// Each filter operand without the predicates of `c`.
pub fn strip_vec(os: Vec<Expr>, c: &Vec<Predicate>) -> (r: Vec<Expr>)
    ensures
        view_plans(r@) == strip_preds(view_plans(os@), view_preds(c@)),
{
    let ghost es = view_plans(os@);
    proof {
        lemma_view_plans(os@);
    }
    let ghost cv = view_preds(c@);
    let ghost n = es.len();
    let mut rest = os;
    let mut out: Vec<Expr> = Vec::new();
    proof {
        assert(strip_preds(es.take(0), cv) =~= Seq::<PlanV>::empty());
        assert(view_plans(out@) =~= Seq::<PlanV>::empty());
    }
    while rest.len() > 0
        invariant
            n == es.len(),
            cv == view_preds(c@),
            rest@.len() <= n,
            forall|j: int| 0 <= j < rest@.len() ==> view_plan(#[trigger] rest@[j]) == es[n - rest@.len() + j],
            view_plans(out@) == strip_preds(es.take(n - rest@.len()), cv),
        decreases rest@.len(),
    {
        let ghost before = rest@;
        let ghost k = n - rest@.len();
        let x = rest.remove(0);
        proof {
            assert(view_plan(x) == es[k]);
            assert forall|j: int| 0 <= j < rest@.len() implies view_plan(#[trigger] rest@[j]) == es[n - rest@.len() + j] by {
                assert(rest@[j] == before[j + 1]);
            }
            assert(strip_preds(es.take(k + 1), cv) =~= strip_preds(es.take(k), cv).push(strip_preds(es, cv)[k]));
        }
        let y = match x {
            Expr::Filter { input, preds } => Expr::Filter { input, preds: select_preds(preds, c, false) },
            x => x,
        };
        let ghost o = out@;
        out.push(y);
        proof {
            lemma_view_plans_push(o, y);
        }
    }
    proof {
        assert(es.take(n as int) =~= es);
    }
    out
}

// ----- walks -----

fn is_open_walk(e: &Expr, up: bool) -> (r: bool)
    ensures
        r == open_walk(e@, up),
{
    match e {
        Expr::Up { input: _, lo, hi } => up && *lo == 0 && hi.is_none(),
        Expr::Down { input: _, lo, hi } => !up && *lo == 0 && hi.is_none(),
        _ => false,
    }
}

/// How many operands are open walks up (`up`) or down.
pub fn count_open_vec(os: &Vec<Expr>, up: bool) -> (r: usize)
    ensures
        r == count_open(view_plans(os@), up),
{
    proof {
        lemma_view_plans(os@);
    }
    let ghost es = view_plans(os@);
    let mut c: usize = 0;
    let mut i: usize = 0;
    proof {
        assert(es.take(0) =~= Seq::<PlanV>::empty());
    }
    while i < os.len()
        invariant
            i <= os.len(),
            c <= i,
            es == view_plans(os@),
            es.len() == os@.len(),
            forall|j: int| 0 <= j < os@.len() ==> #[trigger] es[j] == view_plan(os@[j]),
            c == count_open(es.take(i as int), up),
        decreases os.len() - i,
    {
        proof {
            assert(es.take(i + 1).drop_last() =~= es.take(i as int));
            assert(es.take(i + 1).last() == es[i as int]);
        }
        if is_open_walk(&os[i], up) {
            c = c + 1;
        }
        i = i + 1;
    }
    proof {
        assert(es.take(i as int) =~= es);
    }
    c
}

/// The operands that are walks, and the others, each in order.
pub fn partition_walks(os: Vec<Expr>) -> (r: (Vec<Expr>, Vec<Expr>))
    ensures
        view_plans(r.0@) == walks(view_plans(os@), true),
        view_plans(r.1@) == walks(view_plans(os@), false),
{
    let ghost es = view_plans(os@);
    proof {
        lemma_view_plans(os@);
    }
    let ghost n = es.len();
    let mut rest = os;
    let mut yes: Vec<Expr> = Vec::new();
    let mut no: Vec<Expr> = Vec::new();
    proof {
        assert(es.take(0) =~= Seq::<PlanV>::empty());
        assert(view_plans(yes@) =~= Seq::<PlanV>::empty());
    }
    while rest.len() > 0
        invariant
            n == es.len(),
            rest@.len() <= n,
            forall|j: int| 0 <= j < rest@.len() ==> view_plan(#[trigger] rest@[j]) == es[n - rest@.len() + j],
            view_plans(yes@) == walks(es.take(n - rest@.len()), true),
            view_plans(no@) == walks(es.take(n - rest@.len()), false),
        decreases rest@.len(),
    {
        let ghost before = rest@;
        let ghost k = n - rest@.len();
        let x = rest.remove(0);
        proof {
            assert(view_plan(x) == es[k]);
            assert forall|j: int| 0 <= j < rest@.len() implies view_plan(#[trigger] rest@[j]) == es[n - rest@.len() + j] by {
                assert(rest@[j] == before[j + 1]);
            }
            assert(es.take(k + 1).drop_last() =~= es.take(k));
            assert(es.take(k + 1).last() == es[k]);
        }
        let w = match &x {
            Expr::Up { lo, hi, .. } => *lo == 0 && hi.is_none(),
            Expr::Down { lo, hi, .. } => *lo == 0 && hi.is_none(),
            _ => false,
        };
        let ghost (oy, on) = (yes@, no@);
        if w {
            yes.push(x);
            proof {
                lemma_view_plans_push(oy, x);
            }
        } else {
            no.push(x);
            proof {
                lemma_view_plans_push(on, x);
            }
        }
    }
    proof {
        assert(es.take(n as int) =~= es);
    }
    (yes, no)
}

// ----- filters -----

/// The operands with every filter up to the first with predicates replaced
/// by its input, and that filter's predicates (every filter replaced, and
/// none, when no filter has predicates).
pub fn yank_filters(os: Vec<Expr>) -> (r: (Vec<Expr>, Option<Vec<Predicate>>))
    ensures
        match first_yank(view_plans(os@)) {
            Some(y) => r.1 is Some && view_plans(r.0@) == unwrap_filters(view_plans(os@), y + 1)
                && view_preds(r.1->0@) == preds_of(view_plans(os@)[y]),
            None => r.1 is None && view_plans(r.0@) == unwrap_filters(view_plans(os@), view_plans(os@).len() as int),
        },
{
    let ghost es = view_plans(os@);
    proof {
        lemma_view_plans(os@);
    }
    let ghost n = es.len();
    let mut rest = os;
    let mut out: Vec<Expr> = Vec::new();
    let mut yanked: Option<Vec<Predicate>> = None;
    let ghost mut y: int = 0;
    proof {
        assert(view_plans(out@) =~= Seq::<PlanV>::empty());
    }
    while rest.len() > 0
        invariant
            n == es.len(),
            rest@.len() <= n,
            forall|j: int| 0 <= j < rest@.len() ==> view_plan(#[trigger] rest@[j]) == es[n - rest@.len() + j],
            yanked is None ==> first_yank(es.take(n - rest@.len())) is None
                && view_plans(out@) == unwrap_filters(es, n as int).take(n - rest@.len()),
            yanked is Some ==> first_yank(es) == Some(y) && 0 <= y < n - rest@.len()
                && view_plans(out@) == unwrap_filters(es, y + 1).take(n - rest@.len())
                && view_preds(yanked->0@) == preds_of(es[y]),
        decreases rest@.len(),
    {
        let ghost before = rest@;
        let ghost k = n - rest@.len();
        let x = rest.remove(0);
        proof {
            assert(view_plan(x) == es[k]);
            assert forall|j: int| 0 <= j < rest@.len() implies view_plan(#[trigger] rest@[j]) == es[n - rest@.len() + j] by {
                assert(rest@[j] == before[j + 1]);
            }
        }
        let ghost o = out@;
        if yanked.is_none() {
            match x {
                Expr::Filter { input, preds } => {
                    out.push(*input);
                    proof {
                        lemma_view_plans_push(o, *input);
                        lemma_first_yank_step(es, k);
                    }
                    if preds.len() > 0 {
                        proof {
                            y = k;
                            assert(unwrap_filters(es, y + 1).take(k + 1) =~= unwrap_filters(es, n as int).take(k).push(view_plan(*input)));
                        }
                        yanked = Some(preds);
                    } else {
                        proof {
                            assert(unwrap_filters(es, n as int).take(k + 1) =~= unwrap_filters(es, n as int).take(k).push(view_plan(*input)));
                        }
                    }
                },
                x => {
                    out.push(x);
                    proof {
                        lemma_view_plans_push(o, x);
                        lemma_first_yank_step(es, k);
                        assert(unwrap_filters(es, n as int).take(k + 1) =~= unwrap_filters(es, n as int).take(k).push(view_plan(x)));
                    }
                },
            }
        } else {
            out.push(x);
            proof {
                lemma_view_plans_push(o, x);
                assert(unwrap_filters(es, y + 1).take(k + 1) =~= unwrap_filters(es, y + 1).take(k).push(view_plan(x)));
            }
        }
    }
    proof {
        assert(es.take(n as int) =~= es);
        assert(unwrap_filters(es, n as int).take(n as int) =~= unwrap_filters(es, n as int));
        assert(unwrap_filters(es, y + 1).take(n as int) =~= unwrap_filters(es, y + 1));
    }
    (out, yanked)
}

/// `first_yank` over one more operand.
proof fn lemma_first_yank_step(es: Seq<PlanV>, k: int)
    requires
        0 <= k < es.len(),
        first_yank(es.take(k)) is None,
    ensures
        (es[k] is Filter && preds_of(es[k]).len() > 0) ==> first_yank(es) == Some(k),
        !(es[k] is Filter && preds_of(es[k]).len() > 0) ==> first_yank(es.take(k + 1)) is None,
    decreases k,
{
    if k == 0 {
        assert(es.take(1)[0] == es[0]);
        let t1 = es.take(1);
        assert(t1[0] == es[0]);
        if !(es[0] is Filter && preds_of(es[0]).len() > 0) {
            assert(t1.drop_first() =~= Seq::<PlanV>::empty());
            assert(first_yank(t1.drop_first()) is None);
            assert(!(t1[0] matches PlanV::Filter { input, preds } && preds.len() > 0));
            assert(first_yank(t1) is None);
        }
    } else {
        let t = es.take(k);
        assert(t[0] == es[0]);
        assert(t.drop_first() =~= es.drop_first().take(k - 1));
        assert(!(t[0] matches PlanV::Filter { input, preds } && preds.len() > 0));
        assert(first_yank(t.drop_first()) is None);
        lemma_first_yank_step(es.drop_first(), k - 1);
        assert(es.drop_first()[k - 1] == es[k]);
        let t1 = es.take(k + 1);
        assert(t1.drop_first() =~= es.drop_first().take(k));
        assert(t1[0] == es[0]);
        if !(es[k] is Filter && preds_of(es[k]).len() > 0) {
            assert(first_yank(t1.drop_first()) is None);
            assert(first_yank(t1) is None);
        }
    }
}

} // verus!
