//! Running a revset syntax tree on the streaming operators.
use vstd::prelude::*;

use crate::lang::{RevsetExpr, RevsetV};
use crate::physical::chain::{BackwardExt, ForwardExt, OperatorExt, RangeExt};
use crate::physical::closure::{
    closure_stream, contains, edges_in_order, law_closure_complete, law_closure_sound, lemma_push_contains, lemma_seen_has,
    reachable, seen_has,
};
use crate::physical::merge::lemma_rev_equal_is_same;
use crate::physical::range::meaning::{between, child_newer, law_dag_range, lemma_arranged, lemma_window_in_order};
use crate::physical::merge::{diff_stream, inter_stream, union_stream};
use crate::physical::operator::Operator;
use crate::physical::order::{order_compare, order_le, ordered, sort_in, Backwards, Comparison, Forwards, Item, Order, Rev, Sense};
use crate::physical::range::{arranged, dag_range_stream};
use crate::physical::source::{Index, Replay};

verus! {

/// What a revset runs against: the revision of each name, and the
/// (child, parent) edges indexed both ways.
pub struct Indexes {
    names: Vec<(String, Rev)>,
    ancestors: Index<(Rev, Rev), Forwards>,
    descendants: Index<(Rev, Rev), Backwards>,
}

/// The revision of the last entry named `n`, if any.
pub open spec fn named(names: Seq<(Seq<char>, Rev)>, n: Seq<char>) -> Option<Rev>
    decreases names.len(),
{
    if names.len() == 0 {
        None
    } else if names.last().0 == n {
        Some(names.last().1)
    } else {
        named(names.drop_last(), n)
    }
}

/// The names as character sequences.
pub open spec fn name_view(names: Seq<(String, Rev)>) -> Seq<(Seq<char>, Rev)> {
    names.map_values(|p: (String, Rev)| (p.0@, p.1))
}

/// Every name of `e` is known and `e` calls no function.
pub open spec fn runnable(e: RevsetV, names: Seq<(Seq<char>, Rev)>) -> bool
    decreases e,
{
    match e {
        RevsetV::Literal(n) => named(names, n) is Some,
        RevsetV::Ancestors(x) => runnable(*x, names),
        RevsetV::Descendants(x) => runnable(*x, names),
        RevsetV::Range(x, y) => runnable(*x, names) && runnable(*y, names),
        RevsetV::Union(x, y) => runnable(*x, names) && runnable(*y, names),
        RevsetV::Intersection(x, y) => runnable(*x, names) && runnable(*y, names),
        RevsetV::Difference(x, y) => runnable(*x, names) && runnable(*y, names),
        RevsetV::Function { .. } => false,
    }
}

/// The second part of each edge whose first part is in `s`, each once, in
/// the order first met, after those of `acc`.
pub open spec fn neighbour_list(s: Seq<Rev>, edges: Seq<(Rev, Rev)>, acc: Seq<Rev>) -> Seq<Rev>
    decreases edges.len(),
{
    if edges.len() == 0 {
        acc
    } else if seen_has(s, edges[0].0) && !seen_has(acc, edges[0].1) {
        neighbour_list(s, edges.drop_first(), acc.push(edges[0].1))
    } else {
        neighbour_list(s, edges.drop_first(), acc)
    }
}

/// The revisions one edge away from `s`, each once, in sense `sense`.
pub open spec fn neighbours(sense: Sense, s: Seq<Rev>, edges: Seq<(Rev, Rev)>) -> Seq<Rev> {
    arranged(sense, neighbour_list(s, edges, Seq::empty()))
}

/// What running `e` gives, newest first: a name's revision; `::x` the
/// parents of `x`'s revisions and everything reached from them along
/// child-to-parent edges (the ancestors of `x`, without `x` itself unless
/// it is an ancestor of another of its revisions); `x::` likewise the
/// descendants, reached oldest first along parent-to-child edges, then
/// reversed; `x::y` the range, newest first; and the set operators merging their
/// operands.
pub open spec fn run_stream(
    e: RevsetV,
    names: Seq<(Seq<char>, Rev)>,
    anc: Seq<(Rev, Rev)>,
    desc: Seq<(Rev, Rev)>,
) -> Seq<Rev>
    decreases e,
{
    match e {
        RevsetV::Literal(n) => seq![named(names, n)->0],
        RevsetV::Ancestors(x) => {
            let s = neighbours(Sense::Natural, run_stream(*x, names, anc, desc), anc);
            closure_stream(Sense::Natural, s, None, anc, s)
        },
        RevsetV::Descendants(x) => {
            let s = neighbours(Sense::Reversed, run_stream(*x, names, anc, desc), desc);
            closure_stream(Sense::Reversed, s, None, desc, s).reverse()
        },
        RevsetV::Range(x, y) => dag_range_stream(run_stream(*x, names, anc, desc), run_stream(*y, names, anc, desc), anc).reverse(),
        RevsetV::Union(x, y) => union_stream(Sense::Natural, run_stream(*x, names, anc, desc), run_stream(*y, names, anc, desc), None),
        RevsetV::Intersection(x, y) => inter_stream(Sense::Natural, run_stream(*x, names, anc, desc), run_stream(*y, names, anc, desc), None),
        RevsetV::Difference(x, y) => diff_stream(Sense::Natural, run_stream(*x, names, anc, desc), run_stream(*y, names, anc, desc), None),
        RevsetV::Function { .. } => Seq::empty(),
    }
}

impl Indexes {
    /// The names as character sequences.
    pub closed spec fn names(&self) -> Seq<(Seq<char>, Rev)> {
        name_view(self.names@)
    }

    /// The (child, parent) edges, newest child first.
    pub closed spec fn up_edges(&self) -> Seq<(Rev, Rev)> {
        self.ancestors.items()
    }

    /// The (parent, child) edges, oldest parent first.
    pub closed spec fn down_edges(&self) -> Seq<(Rev, Rev)> {
        self.descendants.items()
    }

    /// Indexes the (child, parent) edges, and the same edges turned around.
    pub fn new(names: Vec<(String, Rev)>, child_parent_edges: Vec<(Rev, Rev)>) -> (r: Self)
        ensures
            r.names() == name_view(names@),
            r.up_edges().to_multiset() == child_parent_edges@.to_multiset(),
            crate::physical::order::ordered(Sense::Natural, r.up_edges()),
            r.down_edges().to_multiset() == crate::physical::range::turned(child_parent_edges@).to_multiset(),
            crate::physical::order::ordered(Sense::Reversed, r.down_edges()),
    {
        let mut parent_child_edges: Vec<(Rev, Rev)> = Vec::new();
        let mut i: usize = 0;
        while i < child_parent_edges.len()
            invariant
                i <= child_parent_edges.len(),
                parent_child_edges@ == crate::physical::range::turned(child_parent_edges@.take(i as int)),
            decreases child_parent_edges.len() - i,
        {
            let (child, parent) = child_parent_edges[i];
            parent_child_edges.push((parent, child));
            proof {
                assert(crate::physical::range::turned(child_parent_edges@.take(i + 1))
                    =~= crate::physical::range::turned(child_parent_edges@.take(i as int)).push((parent, child)));
            }
            i = i + 1;
        }
        proof {
            assert(child_parent_edges@.take(i as int) =~= child_parent_edges@);
        }
        Indexes {
            names,
            ancestors: Index::new(child_parent_edges),
            descendants: Index::new(parent_child_edges),
        }
    }

    /// The revision of the last entry named `n`.
    fn lookup(&self, n: &String) -> (r: Option<Rev>)
        ensures
            r == named(self.names(), n@),
    {
        let mut i = self.names.len();
        proof {
            assert(self.names@.take(i as int) =~= self.names@);
        }
        while i > 0
            invariant
                i <= self.names@.len(),
                named(self.names(), n@) == named(name_view(self.names@.take(i as int)), n@),
            decreases i,
        {
            proof {
                assert(name_view(self.names@.take(i as int)).drop_last() =~= name_view(self.names@.take(i - 1)));
            }
            if self.names[i - 1].0 == *n {
                return Some(self.names[i - 1].1);
            }
            i = i - 1;
        }
        proof {
            assert(name_view(self.names@.take(0)) =~= Seq::<(Seq<char>, Rev)>::empty());
        }
        None
    }
}

/// The operators that `ast` describes, run, their output replayed in
/// forward order.
pub fn render(ast: &RevsetExpr, indexes: &Indexes) -> (r: Replay<Rev, Forwards>)
    requires
        runnable(ast@, indexes.names()),
    ensures
        r.inv(),
        r.rest() == run_stream(ast@, indexes.names(), indexes.up_edges(), indexes.down_edges()),
{
    Replay::new(run_ast(ast, indexes))
}

/// The revisions that `ast` gives (see `run_stream`).
pub fn run(ast: &RevsetExpr, indexes: &Indexes) -> (r: Vec<Rev>)
    requires
        runnable(ast@, indexes.names()),
    ensures
        r@ == run_stream(ast@, indexes.names(), indexes.up_edges(), indexes.down_edges()),
{
    let mut plan = render(ast, indexes);
    plan.collect_all()
}

/// The revisions one edge of `index` away from `s` (see `neighbours`).
fn neighbours_in<O: Order>(s: &Vec<Rev>, index: &Index<(Rev, Rev), O>) -> (r: Vec<Rev>)
    requires
        O::sense() != Sense::Unsorted,
    ensures
        r@ == neighbours(O::sense(), s@, index.items()),
{
    let mut scan = index.scan();
    let edges = scan.collect_all();
    let mut out: Vec<Rev> = Vec::new();
    let mut i: usize = 0;
    proof {
        assert(edges@.skip(0) =~= edges@);
    }
    while i < edges.len()
        invariant
            i <= edges.len(),
            neighbour_list(s@, edges@, Seq::empty()) == neighbour_list(s@, edges@.skip(i as int), out@),
        decreases edges.len() - i,
    {
        let (c, p) = edges[i];
        proof {
            assert(edges@.skip(i as int)[0] == (c, p));
            assert(edges@.skip(i as int).drop_first() =~= edges@.skip(i + 1));
        }
        if contains(s, &c) && !contains(&out, &p) {
            out.push(p);
        }
        i = i + 1;
    }
    proof {
        assert(edges@.skip(i as int) =~= Seq::<(Rev, Rev)>::empty());
    }
    let ghost list = out@;
    let sorted = sort_in::<Rev, O>(out);
    proof {
        assert forall|x: Rev, y: Rev| x.spec_compare(y) == Comparison::Equal implies x == y by {
        }
        crate::physical::range::lemma_arranged(O::sense(), list, sorted@);
    }
    sorted
}

fn run_ast(ast: &RevsetExpr, indexes: &Indexes) -> (r: Vec<Rev>)
    requires
        runnable(ast@, indexes.names()),
    ensures
        r@ == run_stream(ast@, indexes.names(), indexes.up_edges(), indexes.down_edges()),
    decreases ast,
{
    match ast {
        RevsetExpr::Literal(name) => {
            let rev = indexes.lookup(name).unwrap();
            let mut v: Vec<Rev> = Vec::new();
            v.push(rev);
            proof {
                assert(v@ =~= seq![rev]);
            }
            v
        },
        RevsetExpr::Ancestors(input) => {
            let s = run_ast(input, indexes);
            let parents = neighbours_in(&s, &indexes.ancestors);
            let mut op = Replay::<Rev, Forwards>::new(parents).ancestors(&indexes.ancestors);
            op.collect_all()
        },
        RevsetExpr::Descendants(input) => {
            let s = run_ast(input, indexes);
            let children = neighbours_in(&s, &indexes.descendants);
            let mut op = Replay::<Rev, Backwards>::new(children).descendants(&indexes.descendants).reverse::<Forwards>();
            op.collect_all()
        },
        RevsetExpr::Range(x, y) => {
            let xs = run_ast(x, indexes);
            let ys = run_ast(y, indexes);
            let mut op = Replay::<Rev, Forwards>::new(xs).range(
                Replay::<Rev, Forwards>::new(ys),
                &indexes.descendants,
                &indexes.ancestors,
            ).reverse::<Forwards>();
            let v = op.collect_all();
            v
        },
        RevsetExpr::Union(x, y) => {
            let xs = run_ast(x, indexes);
            let ys = run_ast(y, indexes);
            let mut op = Replay::<Rev, Forwards>::new(xs).union(Replay::<Rev, Forwards>::new(ys));
            op.collect_all()
        },
        RevsetExpr::Intersection(x, y) => {
            let xs = run_ast(x, indexes);
            let ys = run_ast(y, indexes);
            let mut op = Replay::<Rev, Forwards>::new(xs).intersection(Replay::<Rev, Forwards>::new(ys));
            op.collect_all()
        },
        RevsetExpr::Difference(x, y) => {
            let xs = run_ast(x, indexes);
            let ys = run_ast(y, indexes);
            let mut op = Replay::<Rev, Forwards>::new(xs).difference(Replay::<Rev, Forwards>::new(ys));
            op.collect_all()
        },
        RevsetExpr::Function { .. } => Vec::new(),
    }
}

// ----- what running a walk means -----

/// The revisions one edge away from those of `s`.
pub open spec fn one_step(s: Seq<Rev>, edges: Seq<(Rev, Rev)>) -> Set<Rev> {
    Set::new(|t: Rev| exists|i: int| 0 <= i < edges.len() && s.contains(edges[i].0) && edges[i].1 == t)
}

proof fn lemma_neighbour_list(s: Seq<Rev>, edges: Seq<(Rev, Rev)>, acc: Seq<Rev>)
    ensures
        forall|t: Rev| #[trigger] neighbour_list(s, edges, acc).contains(t) == (acc.contains(t) || one_step(s, edges).contains(t)),
    decreases edges.len(),
{
    lemma_rev_equal_is_same();
    if edges.len() > 0 {
        let d = edges.drop_first();
        let e = edges[0];
        lemma_seen_has(s, e.0);
        lemma_seen_has(acc, e.1);
        let acc2 = if seen_has(s, e.0) && !seen_has(acc, e.1) { acc.push(e.1) } else { acc };
        lemma_neighbour_list(s, d, acc2);
        lemma_push_contains(acc, e.1);
        assert forall|t: Rev| #[trigger] neighbour_list(s, edges, acc).contains(t) == (acc.contains(t) || one_step(s, edges).contains(t)) by {
            assert(neighbour_list(s, edges, acc) == neighbour_list(s, d, acc2));
            assert(neighbour_list(s, d, acc2).contains(t) == (acc2.contains(t) || one_step(s, d).contains(t)));
            if one_step(s, d).contains(t) {
                let i = choose|i: int| 0 <= i < d.len() && s.contains(d[i].0) && d[i].1 == t;
                assert(d[i] == edges[i + 1]);
                assert(one_step(s, edges).contains(t));
            }
            if one_step(s, edges).contains(t) {
                let i = choose|i: int| 0 <= i < edges.len() && s.contains(edges[i].0) && edges[i].1 == t;
                if i > 0 {
                    assert(d[i - 1] == edges[i]);
                    assert(one_step(s, d).contains(t));
                }
            }
        }
    } else {
        assert forall|t: Rev| #[trigger] neighbour_list(s, edges, acc).contains(t) == (acc.contains(t) || one_step(s, edges).contains(t)) by {
            if one_step(s, edges).contains(t) {
                let i = choose|i: int| 0 <= i < edges.len() && s.contains(edges[i].0) && edges[i].1 == t;
            }
        }
    }
}

proof fn lemma_neighbours(sense: Sense, s: Seq<Rev>, edges: Seq<(Rev, Rev)>)
    requires
        sense != Sense::Unsorted,
    ensures
        forall|t: Rev| #[trigger] neighbours(sense, s, edges).contains(t) == one_step(s, edges).contains(t),
{
    lemma_rev_equal_is_same();
    lemma_neighbour_list(s, edges, Seq::empty());
    lemma_arranged(sense, neighbour_list(s, edges, Seq::empty()));
    assert forall|t: Rev| #[trigger] neighbours(sense, s, edges).contains(t) == one_step(s, edges).contains(t) by {
        assert(neighbour_list(s, edges, Seq::empty()).contains(t) == (Seq::<Rev>::empty().contains(t) || one_step(s, edges).contains(t)));
    }
}

/// Running `::x` on child-to-parent edges that lead to older parents, in
/// index order, hands out exactly the revisions reachable from the parents
/// of `x`'s revisions: `x`'s proper ancestors.
pub proof fn law_run_ancestors(x: RevsetV, names: Seq<(Seq<char>, Rev)>, anc: Seq<(Rev, Rev)>, desc: Seq<(Rev, Rev)>)
    requires
        ordered(Sense::Natural, anc),
        child_newer(anc),
    ensures
        forall|v: Rev| #[trigger] run_stream(RevsetV::Ancestors(Box::new(x)), names, anc, desc).contains(v)
            == reachable(anc, one_step(run_stream(x, names, anc, desc), anc), v),
{
    lemma_rev_equal_is_same();
    let s = neighbours(Sense::Natural, run_stream(x, names, anc, desc), anc);
    lemma_neighbours(Sense::Natural, run_stream(x, names, anc, desc), anc);
    lemma_window_in_order(anc, 0, anc.len() as int);
    assert(anc.subrange(0, anc.len() as int) =~= anc);
    law_closure_sound(Sense::Natural, s, anc);
    law_closure_complete(Sense::Natural, s, anc);
    let start = one_step(run_stream(x, names, anc, desc), anc);
    assert(s.to_set() =~= start) by {
        assert forall|t: Rev| s.to_set().contains(t) == start.contains(t) by {
            assert(s.contains(t) == start.contains(t));
        }
    }
    assert(run_stream(RevsetV::Ancestors(Box::new(x)), names, anc, desc) == closure_stream(Sense::Natural, s, None, anc, s));
}

/// Running `x::` on parent-to-child edges that lead to newer children, in
/// index order, hands out exactly the revisions reachable from the children
/// of `x`'s revisions: `x`'s proper descendants.
pub proof fn law_run_descendants(x: RevsetV, names: Seq<(Seq<char>, Rev)>, anc: Seq<(Rev, Rev)>, desc: Seq<(Rev, Rev)>)
    requires
        ordered(Sense::Reversed, desc),
        forall|i: int| 0 <= i < desc.len() ==> (#[trigger] desc[i]).0.0 < desc[i].1.0,
    ensures
        forall|v: Rev| #[trigger] run_stream(RevsetV::Descendants(Box::new(x)), names, anc, desc).contains(v)
            == reachable(desc, one_step(run_stream(x, names, anc, desc), desc), v),
{
    lemma_rev_equal_is_same();
    let s = neighbours(Sense::Reversed, run_stream(x, names, anc, desc), desc);
    lemma_neighbours(Sense::Reversed, run_stream(x, names, anc, desc), desc);
    assert(edges_in_order(Sense::Reversed, desc)) by {
        assert forall|a: int, b: int| 0 <= a <= b < desc.len() implies #[trigger] order_le(Sense::Reversed, (#[trigger] desc[a]).0, desc[b].0) by {
            assert(order_le(Sense::Reversed, desc[a], desc[b]));
        }
        assert forall|a: int| 0 <= a < desc.len() implies order_compare(Sense::Reversed, (#[trigger] desc[a]).0, desc[a].1) == Comparison::Less by {
        }
    }
    law_closure_sound(Sense::Reversed, s, desc);
    law_closure_complete(Sense::Reversed, s, desc);
    let start = one_step(run_stream(x, names, anc, desc), desc);
    assert(s.to_set() =~= start) by {
        assert forall|t: Rev| s.to_set().contains(t) == start.contains(t) by {
            assert(s.contains(t) == start.contains(t));
        }
    }
    let c = closure_stream(Sense::Reversed, s, None, desc, s);
    assert(run_stream(RevsetV::Descendants(Box::new(x)), names, anc, desc) == c.reverse());
    assert forall|v: Rev| #[trigger] c.reverse().contains(v) == c.contains(v) by {
        if c.contains(v) {
            let i = choose|i: int| 0 <= i < c.len() && c[i] == v;
            assert(c.reverse()[c.len() - 1 - i] == v);
        }
        if c.reverse().contains(v) {
            let i = choose|i: int| 0 <= i < c.len() && c.reverse()[i] == v;
            assert(c[c.len() - 1 - i] == v);
        }
    }
}

/// Running `x::y` on child-to-parent edges that lead to older parents, in
/// index order, hands out exactly the revisions that descend from one of
/// `x`'s revisions and lead to one of `y`'s.
pub proof fn law_run_range(
    x: RevsetV,
    y: RevsetV,
    names: Seq<(Seq<char>, Rev)>,
    anc: Seq<(Rev, Rev)>,
    desc: Seq<(Rev, Rev)>,
)
    requires
        ordered(Sense::Natural, anc),
        child_newer(anc),
    ensures
        forall|v: Rev| #[trigger] run_stream(RevsetV::Range(Box::new(x), Box::new(y)), names, anc, desc).contains(v)
            == between(anc, run_stream(x, names, anc, desc), run_stream(y, names, anc, desc), v),
{
    let xs = run_stream(x, names, anc, desc);
    let ys = run_stream(y, names, anc, desc);
    law_dag_range(xs, ys, anc);
    let d = dag_range_stream(xs, ys, anc);
    assert(run_stream(RevsetV::Range(Box::new(x), Box::new(y)), names, anc, desc) == d.reverse());
    assert forall|v: Rev| #[trigger] d.reverse().contains(v) == d.contains(v) by {
        if d.contains(v) {
            let i = choose|i: int| 0 <= i < d.len() && d[i] == v;
            assert(d.reverse()[d.len() - 1 - i] == v);
        }
        if d.reverse().contains(v) {
            let i = choose|i: int| 0 <= i < d.len() && d.reverse()[i] == v;
            assert(d[d.len() - 1 - i] == v);
        }
    }
}

} // verus!
