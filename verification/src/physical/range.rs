//! `x::y`: the items of the graph that descend from `x` and lead to `y`,
//! read from an index of (child, parent) edges ordered newest first.
use std::marker::PhantomData;
use vstd::prelude::*;

pub mod meaning;

use crate::physical::closure::{contains, lemma_seen_has, seen_has};
use crate::physical::merge::lemma_rev_equal_is_same;
use crate::physical::operator::{Batch, Operator};
use crate::physical::order::{
    compare_in, order_compare, ordered, sort_in, Backwards, Comparison, Forwards, Item, Order, Rev,
    Sense,
};
use crate::physical::source::{before_count, scan_rest, Index};

verus! {

/// The later of two revisions in sense `s` (the second on a tie).
pub open spec fn later(s: Sense, a: Rev, b: Rev) -> Rev {
    if order_compare(s, a, b) == Comparison::Greater {
        a
    } else {
        b
    }
}

/// The earlier of two revisions in sense `s` (the first on a tie).
pub open spec fn earlier(s: Sense, a: Rev, b: Rev) -> Rev {
    if order_compare(s, a, b) == Comparison::Greater {
        b
    } else {
        a
    }
}

fn later_in<O: Order>(a: Rev, b: Rev) -> (r: Rev)
    ensures
        r == later(O::sense(), a, b),
{
    if compare_in::<Rev, O>(&a, &b) == Comparison::Greater {
        a
    } else {
        b
    }
}

fn earlier_in<O: Order>(a: Rev, b: Rev) -> (r: Rev)
    ensures
        r == earlier(O::sense(), a, b),
{
    if compare_in::<Rev, O>(&a, &b) == Comparison::Greater {
        b
    } else {
        a
    }
}

/// The revisions from `lower` to `upper` in order `O`, both included.
pub struct RevRange<O: Order> {
    pub lower: Rev,
    pub upper: Rev,
    pub order: PhantomData<O>,
}

impl<O: Order> Default for RevRange<O> {
    /// The range of every revision.
    fn default() -> (r: Self)
        ensures
            r.lower == earlier(O::sense(), Rev::lowest_spec(), Rev::highest_spec()),
            r.upper == later(O::sense(), Rev::lowest_spec(), Rev::highest_spec()),
    {
        RevRange {
            lower: earlier_in::<O>(Rev::lowest(), Rev::highest()),
            upper: later_in::<O>(Rev::lowest(), Rev::highest()),
            order: PhantomData,
        }
    }
}

impl<O: Order> RevRange<O> {
    /// A range with no revision.
    pub fn empty() -> (r: Self)
        ensures
            r.lower == later(O::sense(), Rev::lowest_spec(), Rev::highest_spec()),
            r.upper == earlier(O::sense(), Rev::lowest_spec(), Rev::highest_spec()),
    {
        RevRange {
            lower: later_in::<O>(Rev::lowest(), Rev::highest()),
            upper: earlier_in::<O>(Rev::lowest(), Rev::highest()),
            order: PhantomData,
        }
    }

    /// The smallest range that holds both.
    pub fn union(self, other: Self) -> (r: Self)
        ensures
            r.lower == earlier(O::sense(), self.lower, other.lower),
            r.upper == later(O::sense(), self.upper, other.upper),
    {
        RevRange {
            lower: earlier_in::<O>(self.lower, other.lower),
            upper: later_in::<O>(self.upper, other.upper),
            order: PhantomData,
        }
    }

    /// The revisions in both.
    pub fn intersect(self, other: Self) -> (r: Self)
        ensures
            r.lower == later(O::sense(), self.lower, other.lower),
            r.upper == earlier(O::sense(), self.upper, other.upper),
    {
        RevRange {
            lower: later_in::<O>(self.lower, other.lower),
            upper: earlier_in::<O>(self.upper, other.upper),
            order: PhantomData,
        }
    }

    /// The range holds nothing: its lower end comes after its upper end.
    pub fn is_empty(&self) -> (r: bool)
        ensures
            r == (order_compare(O::sense(), self.lower, self.upper) == Comparison::Greater),
    {
        compare_in::<Rev, O>(&self.lower, &self.upper) == Comparison::Greater
    }

    /// From `r` to the end of the order.
    pub fn open_upper(r: Rev) -> (g: Self)
        ensures
            g.lower == r,
            g.upper == later(O::sense(), Rev::lowest_spec(), Rev::highest_spec()),
    {
        RevRange { lower: r, upper: later_in::<O>(Rev::lowest(), Rev::highest()), order: PhantomData }
    }

    /// From the start of the order to `r`.
    pub fn open_lower(r: Rev) -> (g: Self)
        ensures
            g.lower == earlier(O::sense(), Rev::lowest_spec(), Rev::highest_spec()),
            g.upper == r,
    {
        RevRange { lower: earlier_in::<O>(Rev::lowest(), Rev::highest()), upper: r, order: PhantomData }
    }
}

/// The range `RevRange::<Forwards>::empty()` widened by `open_upper(h)` for
/// each head `h`, as (lower, upper).
pub open spec fn head_window(hs: Seq<Rev>) -> (Rev, Rev)
    decreases hs.len(),
{
    if hs.len() == 0 {
        (later(Sense::Natural, Rev::lowest(), Rev::highest()), earlier(Sense::Natural, Rev::lowest(), Rev::highest()))
    } else {
        let w = head_window(hs.drop_last());
        (earlier(Sense::Natural, w.0, hs.last()), later(Sense::Natural, w.1, later(Sense::Natural, Rev::lowest(), Rev::highest())))
    }
}

/// The range `RevRange::<Forwards>::empty()` widened by `open_lower(r)` for
/// each root `r`, as (lower, upper).
pub open spec fn root_window(rs: Seq<Rev>) -> (Rev, Rev)
    decreases rs.len(),
{
    if rs.len() == 0 {
        (later(Sense::Natural, Rev::lowest(), Rev::highest()), earlier(Sense::Natural, Rev::lowest(), Rev::highest()))
    } else {
        let w = root_window(rs.drop_last());
        (earlier(Sense::Natural, w.0, earlier(Sense::Natural, Rev::lowest(), Rev::highest())), later(Sense::Natural, w.1, rs.last()))
    }
}

/// The (child, parent) edges of the index whose child lies in the window of
/// the heads and of the roots, in index order.
pub open spec fn window_edges(edges: Seq<(Rev, Rev)>, xs: Seq<Rev>, ys: Seq<Rev>) -> Seq<(Rev, Rev)> {
    let h = head_window(ys);
    let r = root_window(xs);
    let lower = later(Sense::Natural, h.0, r.0);
    let upper = earlier(Sense::Natural, h.1, r.1);
    scan_rest(
        Sense::Natural,
        edges,
        before_count(Sense::Natural, edges, (lower, Rev::lowest())) as int,
        Some((upper, Rev::highest())),
    )
}

/// `anc` grown by reading the edges in order: the parent of each edge whose
/// child it holds joins it.
pub open spec fn ancestry(edges: Seq<(Rev, Rev)>, anc: Seq<Rev>) -> Seq<Rev>
    decreases edges.len(),
{
    if edges.len() == 0 {
        anc
    } else {
        ancestry(edges.drop_first(), if seen_has(anc, edges[0].0) { anc.push(edges[0].1) } else { anc })
    }
}

/// The roots that `anc` holds, in order.
pub open spec fn kept_roots(rs: Seq<Rev>, anc: Seq<Rev>) -> Seq<Rev>
    decreases rs.len(),
{
    if rs.len() == 0 {
        rs
    } else if seen_has(anc, rs.last()) {
        kept_roots(rs.drop_last(), anc).push(rs.last())
    } else {
        kept_roots(rs.drop_last(), anc)
    }
}

/// The items of `q` in sense `s`.
pub open spec fn arranged<T: Item>(s: Sense, q: Seq<T>) -> Seq<T> {
    choose|r: Seq<T>| ordered(s, r) && r.to_multiset() == q.to_multiset()
}

/// Each edge turned around.
pub open spec fn turned(edges: Seq<(Rev, Rev)>) -> Seq<(Rev, Rev)> {
    edges.map_values(|e: (Rev, Rev)| (e.1, e.0))
}

/// The children reached, in order, by reading (parent, child) pairs: a child
/// in `anc` of a parent in `roots`, not yet in `roots`, is reached and joins
/// `roots`.
pub open spec fn descend(pairs: Seq<(Rev, Rev)>, anc: Seq<Rev>, roots: Seq<Rev>) -> Seq<Rev>
    decreases pairs.len(),
{
    if pairs.len() == 0 {
        Seq::empty()
    } else {
        let (p, c) = pairs[0];
        if seen_has(anc, c) && seen_has(roots, p) && !seen_has(roots, c) {
            seq![c] + descend(pairs.drop_first(), anc, roots.push(c))
        } else {
            descend(pairs.drop_first(), anc, roots)
        }
    }
}

/// How many items at the front of `rv` do not come after `c`, oldest first.
pub open spec fn lead(rv: Seq<Rev>, c: Rev) -> nat
    decreases rv.len(),
{
    if rv.len() > 0 && order_compare(Sense::Reversed, rv[0], c) != Comparison::Greater {
        1 + lead(rv.drop_first(), c)
    } else {
        0
    }
}

/// Each reached child, preceded by the roots of `rv` not after it.
pub open spec fn interleave(rv: Seq<Rev>, found: Seq<Rev>) -> Seq<Rev>
    decreases found.len(),
{
    if found.len() == 0 {
        rv
    } else {
        let k = lead(rv, found[0]) as int;
        rv.take(k) + seq![found[0]] + interleave(rv.skip(k), found.drop_first())
    }
}

/// The revisions of `x::y` in the order the scan meets them: nothing without
/// roots or heads; else the roots that lead to a head, oldest first, with
/// the children reached from them interleaved.
pub open spec fn range_scan_order(xs: Seq<Rev>, ys: Seq<Rev>, edges: Seq<(Rev, Rev)>) -> Seq<Rev> {
    if xs.len() == 0 || ys.len() == 0 {
        Seq::empty()
    } else {
        let scanned = window_edges(edges, xs, ys);
        let anc = ancestry(scanned, ys);
        let rv = arranged(Sense::Reversed, kept_roots(xs, anc));
        if rv.len() == 0 {
            Seq::empty()
        } else {
            interleave(rv, descend(arranged(Sense::Reversed, turned(scanned)), anc, xs))
        }
    }
}

/// What `x::y` hands out: the revisions that the scan meets, oldest first.
pub open spec fn dag_range_stream(xs: Seq<Rev>, ys: Seq<Rev>, edges: Seq<(Rev, Rev)>) -> Seq<Rev> {
    arranged(Sense::Reversed, range_scan_order(xs, ys, edges))
}

pub proof fn lemma_arranged<T: Item>(s: Sense, q: Seq<T>, r: Seq<T>)
    requires
        s != Sense::Unsorted,
        ordered(s, r),
        r.to_multiset() == q.to_multiset(),
        forall|x: T, y: T| x.spec_compare(y) == Comparison::Equal ==> x == y,
    ensures
        arranged(s, q) == r,
{
    let a = arranged(s, q);
    assert(ordered(s, a) && a.to_multiset() == q.to_multiset());
    crate::physical::order::lemma_ordered_unique(s, a, r);
}

pub(crate) proof fn lemma_lead_bound(rv: Seq<Rev>, c: Rev)
    ensures
        lead(rv, c) <= rv.len(),
    decreases rv.len(),
{
    if rv.len() > 0 {
        lemma_lead_bound(rv.drop_first(), c);
    }
}

// ----- the order of the inputs does not matter -----

/// The same revisions occur in both.
spec fn same_items(a: Seq<Rev>, b: Seq<Rev>) -> bool {
    forall|v: Rev| #[trigger] a.contains(v) == b.contains(v)
}

proof fn lemma_same_seen(a: Seq<Rev>, b: Seq<Rev>, v: Rev)
    requires
        same_items(a, b),
    ensures
        seen_has(a, v) == seen_has(b, v),
{
    lemma_rev_equal_is_same();
    lemma_seen_has(a, v);
    lemma_seen_has(b, v);
    assert(a.contains(v) == b.contains(v));
}

proof fn lemma_same_push(a: Seq<Rev>, b: Seq<Rev>, x: Rev)
    requires
        same_items(a, b),
    ensures
        same_items(a.push(x), b.push(x)),
{
    assert forall|v: Rev| #[trigger] a.push(x).contains(v) == b.push(x).contains(v) by {
        if a.push(x).contains(v) {
            let i = choose|i: int| 0 <= i < a.push(x).len() && a.push(x)[i] == v;
            if i < a.len() {
                assert(a[i] == v);
                assert(a.contains(v));
                assert(b.contains(v));
                let j = choose|j: int| 0 <= j < b.len() && b[j] == v;
                assert(b.push(x)[j] == v);
            } else {
                assert(b.push(x)[b.len() as int] == v);
            }
        }
        if b.push(x).contains(v) {
            let i = choose|i: int| 0 <= i < b.push(x).len() && b.push(x)[i] == v;
            if i < b.len() {
                assert(b[i] == v);
                assert(b.contains(v));
                assert(a.contains(v));
                let j = choose|j: int| 0 <= j < a.len() && a[j] == v;
                assert(a.push(x)[j] == v);
            } else {
                assert(a.push(x)[a.len() as int] == v);
            }
        }
    }
}

/// The heads' window: the newest head (or the oldest revision) down to the
/// oldest revision, or the empty window without heads.
pub(crate) proof fn lemma_head_window(ys: Seq<Rev>)
    ensures
        ys.len() == 0 ==> head_window(ys) == (Rev(0), Rev(u32::MAX)),
        ys.len() > 0 ==> head_window(ys).1 == Rev(0),
        forall|i: int| 0 <= i < ys.len() ==> (#[trigger] ys[i]).0 <= head_window(ys).0.0,
        head_window(ys).0.0 == 0 || ys.contains(head_window(ys).0),
    decreases ys.len(),
{
    if ys.len() > 0 {
        let d = ys.drop_last();
        lemma_head_window(d);
        assert forall|i: int| 0 <= i < ys.len() implies (#[trigger] ys[i]).0 <= head_window(ys).0.0 by {
            if i < ys.len() - 1 {
                assert(d[i] == ys[i]);
            }
        }
        if head_window(d).0.0 != 0 && head_window(ys).0 == head_window(d).0 {
            let j = choose|j: int| 0 <= j < d.len() && d[j] == head_window(d).0;
            assert(ys[j] == d[j]);
        }
        if head_window(ys).0 == ys.last() {
            assert(ys[ys.len() - 1] == ys.last());
        }
    }
}

/// The roots' window: the newest revision down to the oldest root, or the
/// empty window without roots.
pub(crate) proof fn lemma_root_window(xs: Seq<Rev>)
    ensures
        xs.len() == 0 ==> root_window(xs) == (Rev(0), Rev(u32::MAX)),
        xs.len() > 0 ==> root_window(xs).0 == Rev(u32::MAX),
        forall|i: int| 0 <= i < xs.len() ==> root_window(xs).1.0 <= (#[trigger] xs[i]).0,
        root_window(xs).1.0 == u32::MAX || xs.contains(root_window(xs).1),
    decreases xs.len(),
{
    if xs.len() > 0 {
        let d = xs.drop_last();
        lemma_root_window(d);
        assert forall|i: int| 0 <= i < xs.len() implies root_window(xs).1.0 <= (#[trigger] xs[i]).0 by {
            if i < xs.len() - 1 {
                assert(d[i] == xs[i]);
            }
        }
        if root_window(d).1.0 != u32::MAX && root_window(xs).1 == root_window(d).1 {
            let j = choose|j: int| 0 <= j < d.len() && d[j] == root_window(d).1;
            assert(xs[j] == d[j]);
        }
        if root_window(xs).1 == xs.last() {
            assert(xs[xs.len() - 1] == xs.last());
        }
    }
}

proof fn lemma_windows_same(xs1: Seq<Rev>, ys1: Seq<Rev>, xs2: Seq<Rev>, ys2: Seq<Rev>)
    requires
        xs1.to_multiset() == xs2.to_multiset(),
        ys1.to_multiset() == ys2.to_multiset(),
    ensures
        head_window(ys1) == head_window(ys2),
        root_window(xs1) == root_window(xs2),
{
    broadcast use vstd::seq_lib::group_to_multiset_ensures;

    assert(xs1.len() == xs1.to_multiset().len());
    assert(xs2.len() == xs2.to_multiset().len());
    assert(ys1.len() == ys1.to_multiset().len());
    assert(ys2.len() == ys2.to_multiset().len());
    lemma_head_window(ys1);
    lemma_head_window(ys2);
    lemma_root_window(xs1);
    lemma_root_window(xs2);
    let h1 = head_window(ys1).0;
    let h2 = head_window(ys2).0;
    if h1.0 != 0 {
        assert(ys1.to_multiset().count(h1) > 0);
        assert(ys2.contains(h1));
        let j = choose|j: int| 0 <= j < ys2.len() && ys2[j] == h1;
    }
    if h2.0 != 0 {
        assert(ys2.to_multiset().count(h2) > 0);
        assert(ys1.contains(h2));
        let j = choose|j: int| 0 <= j < ys1.len() && ys1[j] == h2;
    }
    let r1 = root_window(xs1).1;
    let r2 = root_window(xs2).1;
    if r1.0 != u32::MAX {
        assert(xs1.to_multiset().count(r1) > 0);
        assert(xs2.contains(r1));
        let j = choose|j: int| 0 <= j < xs2.len() && xs2[j] == r1;
    }
    if r2.0 != u32::MAX {
        assert(xs2.to_multiset().count(r2) > 0);
        assert(xs1.contains(r2));
        let j = choose|j: int| 0 <= j < xs1.len() && xs1[j] == r2;
    }
}

proof fn lemma_ancestry_same(edges: Seq<(Rev, Rev)>, a: Seq<Rev>, b: Seq<Rev>)
    requires
        same_items(a, b),
    ensures
        same_items(ancestry(edges, a), ancestry(edges, b)),
    decreases edges.len(),
{
    if edges.len() > 0 {
        lemma_same_seen(a, b, edges[0].0);
        if seen_has(a, edges[0].0) {
            lemma_same_push(a, b, edges[0].1);
            lemma_ancestry_same(edges.drop_first(), a.push(edges[0].1), b.push(edges[0].1));
        } else {
            lemma_ancestry_same(edges.drop_first(), a, b);
        }
    }
}

proof fn lemma_kept_roots_count(rs: Seq<Rev>, anc: Seq<Rev>, v: Rev)
    ensures
        kept_roots(rs, anc).to_multiset().count(v) == if seen_has(anc, v) { rs.to_multiset().count(v) } else { 0 },
    decreases rs.len(),
{
    broadcast use vstd::seq_lib::group_to_multiset_ensures;

    if rs.len() > 0 {
        let d = rs.drop_last();
        lemma_kept_roots_count(d, anc, v);
        assert(rs =~= d.push(rs.last()));
    }
}

proof fn lemma_kept_roots_same(xs1: Seq<Rev>, xs2: Seq<Rev>, a1: Seq<Rev>, a2: Seq<Rev>)
    requires
        xs1.to_multiset() == xs2.to_multiset(),
        same_items(a1, a2),
    ensures
        kept_roots(xs1, a1).to_multiset() == kept_roots(xs2, a2).to_multiset(),
{
    assert forall|v: Rev| #[trigger] kept_roots(xs1, a1).to_multiset().count(v) == kept_roots(xs2, a2).to_multiset().count(v) by {
        lemma_kept_roots_count(xs1, a1, v);
        lemma_kept_roots_count(xs2, a2, v);
        lemma_same_seen(a1, a2, v);
    }
    assert(kept_roots(xs1, a1).to_multiset() =~= kept_roots(xs2, a2).to_multiset());
}

proof fn lemma_descend_same(pairs: Seq<(Rev, Rev)>, a1: Seq<Rev>, a2: Seq<Rev>, r1: Seq<Rev>, r2: Seq<Rev>)
    requires
        same_items(a1, a2),
        same_items(r1, r2),
    ensures
        descend(pairs, a1, r1) == descend(pairs, a2, r2),
    decreases pairs.len(),
{
    if pairs.len() > 0 {
        let (p, c) = pairs[0];
        lemma_same_seen(a1, a2, c);
        lemma_same_seen(r1, r2, p);
        lemma_same_seen(r1, r2, c);
        if seen_has(a1, c) && seen_has(r1, p) && !seen_has(r1, c) {
            lemma_same_push(r1, r2, c);
            lemma_descend_same(pairs.drop_first(), a1, a2, r1.push(c), r2.push(c));
        } else {
            lemma_descend_same(pairs.drop_first(), a1, a2, r1, r2);
        }
    }
}

/// `x::y` hands out the same revisions in the same order however its two
/// inputs are ordered: only which revisions each holds, and how often,
/// matters.
pub proof fn law_dag_range_input_order(xs1: Seq<Rev>, ys1: Seq<Rev>, xs2: Seq<Rev>, ys2: Seq<Rev>, edges: Seq<(Rev, Rev)>)
    requires
        xs1.to_multiset() == xs2.to_multiset(),
        ys1.to_multiset() == ys2.to_multiset(),
    ensures
        dag_range_stream(xs1, ys1, edges) == dag_range_stream(xs2, ys2, edges),
{
    broadcast use vstd::seq_lib::group_to_multiset_ensures;

    assert(xs1.len() == xs1.to_multiset().len());
    assert(xs2.len() == xs2.to_multiset().len());
    assert(ys1.len() == ys1.to_multiset().len());
    assert(ys2.len() == ys2.to_multiset().len());
    if xs1.len() > 0 && ys1.len() > 0 {
        lemma_windows_same(xs1, ys1, xs2, ys2);
        let scanned = window_edges(edges, xs1, ys1);
        assert(scanned == window_edges(edges, xs2, ys2));
        assert(same_items(ys1, ys2)) by {
            assert forall|v: Rev| #[trigger] ys1.contains(v) == ys2.contains(v) by {
                assert(ys1.contains(v) == (ys1.to_multiset().count(v) > 0));
                assert(ys2.contains(v) == (ys2.to_multiset().count(v) > 0));
            }
        }
        assert(same_items(xs1, xs2)) by {
            assert forall|v: Rev| #[trigger] xs1.contains(v) == xs2.contains(v) by {
                assert(xs1.contains(v) == (xs1.to_multiset().count(v) > 0));
                assert(xs2.contains(v) == (xs2.to_multiset().count(v) > 0));
            }
        }
        let a1 = ancestry(scanned, ys1);
        let a2 = ancestry(scanned, ys2);
        lemma_ancestry_same(scanned, ys1, ys2);
        lemma_kept_roots_same(xs1, xs2, a1, a2);
        assert(arranged(Sense::Reversed, kept_roots(xs1, a1)) == arranged(Sense::Reversed, kept_roots(xs2, a2)));
        lemma_descend_same(arranged(Sense::Reversed, turned(scanned)), a1, a2, xs1, xs2);
    }
}

/// The descendants of `x` that are ancestors of `y`, oldest first.
pub struct DagRange<'a, X: Operator<Rev, XO>, Y: Operator<Rev, YO>, XO: Order, YO: Order> {
    x: Option<X>,
    y: Option<Y>,
    descendants: &'a Index<(Rev, Rev), Backwards>,
    ancestors: &'a Index<(Rev, Rev), Forwards>,
    orders: PhantomData<(XO, YO)>,
}

impl<'a, X: Operator<Rev, XO>, Y: Operator<Rev, YO>, XO: Order, YO: Order> DagRange<'a, X, Y, XO, YO> {
    /// `descendants` holds the (parent, child) edges, `ancestors` the
    /// (child, parent) ones.
    pub fn new(
        x: X,
        y: Y,
        descendants: &'a Index<(Rev, Rev), Backwards>,
        ancestors: &'a Index<(Rev, Rev), Forwards>,
    ) -> (r: Self)
        requires
            x.inv(),
            y.inv(),
        ensures
            r.inv(),
            r.rest() == dag_range_stream(x.rest(), y.rest(), ancestors.items()),
    {
        DagRange { x: Some(x), y: Some(y), descendants, ancestors, orders: PhantomData }
    }

    fn compute(&mut self) -> (r: Vec<Rev>)
        requires
            old(self).inv(),
        ensures
            r@ == old(self).rest(),
            final(self).x is None,
            final(self).y is None,
    {
        let taken_x = self.x.take();
        let taken_y = self.y.take();
        let (mut x, mut y) = match (taken_x, taken_y) {
            (Some(x), Some(y)) => (x, y),
            _ => {
                return Vec::new();
            },
        };
        let root_vec = x.collect_all();
        let heads = y.collect_all();
        let ghost xs = root_vec@;
        let ghost ys = heads@;
        proof {
            lemma_rev_equal_is_same();
            lemma_arranged(Sense::Reversed, Seq::<Rev>::empty(), Seq::<Rev>::empty());
        }
        if root_vec.len() == 0 || heads.len() == 0 {
            return Vec::new();
        }
        let mut head_range = RevRange::<Forwards>::empty();
        let mut i: usize = 0;
        while i < heads.len()
            invariant
                i <= heads.len(),
                (head_range.lower, head_range.upper) == head_window(ys.take(i as int)),
                ys == heads@,
            decreases heads.len() - i,
        {
            proof {
                assert(ys.take(i + 1).drop_last() =~= ys.take(i as int));
            }
            head_range = head_range.union(RevRange::open_upper(heads[i]));
            i = i + 1;
        }
        let mut root_range = RevRange::<Forwards>::empty();
        let mut i: usize = 0;
        while i < root_vec.len()
            invariant
                i <= root_vec.len(),
                (root_range.lower, root_range.upper) == root_window(xs.take(i as int)),
                xs == root_vec@,
            decreases root_vec.len() - i,
        {
            proof {
                assert(xs.take(i + 1).drop_last() =~= xs.take(i as int));
            }
            root_range = root_range.union(RevRange::open_lower(root_vec[i]));
            i = i + 1;
        }
        proof {
            assert(ys.take(ys.len() as int) =~= ys);
            assert(xs.take(xs.len() as int) =~= xs);
        }
        let scan_range = head_range.intersect(root_range);
        let mut scan = self.ancestors.scan().with_start((scan_range.lower, Rev::lowest())).with_end(
            (scan_range.upper, Rev::highest()),
        );
        let scanned = scan.collect_all();
        let ghost sc = scanned@;
        proof {
            assert(sc == window_edges(self.ancestors.items(), xs, ys));
        }
        let mut anc: Vec<Rev> = Vec::new();
        let mut i: usize = 0;
        while i < heads.len()
            invariant
                i <= heads.len(),
                anc@ == heads@.take(i as int),
            decreases heads.len() - i,
        {
            anc.push(heads[i]);
            proof {
                assert(heads@.take(i + 1) =~= heads@.take(i as int).push(heads@[i as int]));
            }
            i = i + 1;
        }
        proof {
            assert(heads@.take(i as int) =~= heads@);
        }
        let mut rev_index: Vec<(Rev, Rev)> = Vec::new();
        let mut i: usize = 0;
        proof {
            assert(sc.skip(0) =~= sc);
            assert(anc@ == ys);
            assert(turned(sc.take(0)) =~= rev_index@);
        }
        while i < scanned.len()
            invariant
                i <= scanned.len(),
                sc == scanned@,
                ancestry(sc, ys) == ancestry(sc.skip(i as int), anc@),
                rev_index@ == turned(sc.take(i as int)),
            decreases scanned.len() - i,
        {
            let (child, parent) = scanned[i];
            rev_index.push((parent, child));
            let ghost a0 = anc@;
            if contains(&anc, &child) {
                anc.push(parent);
            }
            proof {
                assert(sc.skip(i as int).drop_first() =~= sc.skip(i + 1));
                assert(sc.skip(i as int)[0] == (child, parent));
                assert(turned(sc.take(i + 1)) =~= turned(sc.take(i as int)).push((parent, child)));
            }
            i = i + 1;
        }
        proof {
            assert(sc.skip(i as int) =~= Seq::<(Rev, Rev)>::empty());
            assert(sc.take(i as int) =~= sc);
        }
        let ghost ancv = anc@;
        let mut kept: Vec<Rev> = Vec::new();
        let mut i: usize = 0;
        while i < root_vec.len()
            invariant
                i <= root_vec.len(),
                xs == root_vec@,
                ancv == anc@,
                kept@ == kept_roots(xs.take(i as int), ancv),
            decreases root_vec.len() - i,
        {
            let r = root_vec[i];
            if contains(&anc, &r) {
                kept.push(r);
            }
            proof {
                assert(xs.take(i + 1).drop_last() =~= xs.take(i as int));
            }
            i = i + 1;
        }
        proof {
            assert(xs.take(i as int) =~= xs);
        }
        let ghost kv = kept@;
        let rv = sort_in::<Rev, Backwards>(kept);
        proof {
            lemma_arranged(Sense::Reversed, kv, rv@);
        }
        if rv.len() == 0 {
            return Vec::new();
        }
        let ghost rvv = rv@;
        let pairs = sort_in::<(Rev, Rev), Backwards>(rev_index);
        proof {
            assert forall|a: (Rev, Rev), b: (Rev, Rev)| a.spec_compare(b) == Comparison::Equal implies a == b by {
            }
            lemma_arranged(Sense::Reversed, turned(sc), pairs@);
        }
        let mut roots: Vec<Rev> = Vec::new();
        let mut i: usize = 0;
        while i < root_vec.len()
            invariant
                i <= root_vec.len(),
                roots@ == root_vec@.take(i as int),
            decreases root_vec.len() - i,
        {
            roots.push(root_vec[i]);
            proof {
                assert(root_vec@.take(i + 1) =~= root_vec@.take(i as int).push(root_vec@[i as int]));
            }
            i = i + 1;
        }
        proof {
            assert(root_vec@.take(i as int) =~= root_vec@);
        }
        let ghost target = range_scan_order(xs, ys, self.ancestors.items());
        assert(target == interleave(rvv, descend(pairs@, ancv, xs)));
        let mut result: Vec<Rev> = Vec::new();
        let mut xi: usize = 0;
        let mut i: usize = 0;
        proof {
            assert(rvv.skip(0) =~= rvv);
            assert(pairs@.skip(0) =~= pairs@);
            assert(roots@ == xs);
            assert(result@ + interleave(rvv.skip(0), descend(pairs@.skip(0), ancv, roots@)) =~= target);
        }
        while i < pairs.len()
            invariant
                i <= pairs.len(),
                xi <= rv.len(),
                rvv == rv@,
                ancv == anc@,
                target == result@ + interleave(rvv.skip(xi as int), descend(pairs@.skip(i as int), ancv, roots@)),
            decreases pairs.len() - i,
        {
            let (parent, child) = pairs[i];
            let ghost pre = pairs@.skip(i as int);
            proof {
                assert(pre[0] == (parent, child));
                assert(pre.drop_first() =~= pairs@.skip(i + 1));
            }
            if contains(&anc, &child) && contains(&roots, &parent) && !contains(&roots, &child) {
                let ghost roots0 = roots@;
                roots.push(child);
                let ghost x0 = xi as int;
                let ghost r0 = result@;
                proof {
                    lemma_lead_bound(rvv.skip(x0), child);
                    assert(rvv.skip(x0).skip(0) =~= rvv.skip(x0));
                }
                while xi < rv.len() && compare_in::<Rev, Backwards>(&rv[xi], &child) != Comparison::Greater
                    invariant
                        0 <= x0 <= xi <= rv.len(),
                        rvv == rv@,
                        lead(rvv.skip(x0), child) == (xi - x0) + lead(rvv.skip(xi as int), child),
                        result@ == r0 + rvv.subrange(x0, xi as int),
                    decreases rv.len() - xi,
                {
                    proof {
                        assert(xi < rvv.len());
                        assert(rvv.skip(xi as int)[0] == rvv[xi as int]);
                        assert(rvv.skip(xi as int).drop_first() =~= rvv.skip(xi + 1));
                        assert(rvv.subrange(x0, xi + 1) =~= rvv.subrange(x0, xi as int).push(rvv[xi as int]));
                    }
                    result.push(rv[xi]);
                    xi = xi + 1;
                }
                proof {
                    if xi < rv.len() {
                        assert(rvv.skip(xi as int)[0] == rvv[xi as int]);
                    }
                    let k = lead(rvv.skip(x0), child) as int;
                    assert(k == xi - x0);
                    assert(rvv.skip(x0).take(k) =~= rvv.subrange(x0, xi as int));
                    assert(rvv.skip(x0).skip(k) =~= rvv.skip(xi as int));
                    assert(descend(pre, ancv, roots0) == seq![child] + descend(pre.drop_first(), ancv, roots@));
                    let d = descend(pairs@.skip(i + 1), ancv, roots@);
                    let f = seq![child] + d;
                    assert(f[0] == child);
                    assert(f.drop_first() =~= d);
                    assert(interleave(rvv.skip(x0), f) == rvv.skip(x0).take(k) + seq![child] + interleave(rvv.skip(x0).skip(k), d));
                }
                result.push(child);
                proof {
                    assert(target =~= result@ + interleave(rvv.skip(xi as int), descend(pairs@.skip(i + 1), ancv, roots@)));
                }
            }
            i = i + 1;
        }
        proof {
            assert(pairs@.skip(i as int) =~= Seq::<(Rev, Rev)>::empty());
            assert(target == result@ + rvv.skip(xi as int));
        }
        while xi < rv.len()
            invariant
                xi <= rv.len(),
                rvv == rv@,
                target == result@ + rvv.skip(xi as int),
            decreases rv.len() - xi,
        {
            let ghost r0 = result@;
            proof {
                assert(rvv.skip(xi as int) =~= seq![rvv[xi as int]] + rvv.skip(xi + 1));
            }
            result.push(rv[xi]);
            xi = xi + 1;
            proof {
                assert(target =~= result@ + rvv.skip(xi as int));
            }
        }
        proof {
            assert(rvv.skip(xi as int) =~= Seq::<Rev>::empty());
            assert(result@ =~= target);
        }
        let sorted = sort_in::<Rev, Backwards>(result);
        proof {
            lemma_arranged(Sense::Reversed, target, sorted@);
        }
        sorted
    }
}

impl<'a, X: Operator<Rev, XO>, Y: Operator<Rev, YO>, XO: Order, YO: Order> Operator<Rev, Backwards> for DagRange<'a, X, Y, XO, YO> {
    closed spec fn inv(&self) -> bool {
        &&& self.x matches Some(x) ==> x.inv()
        &&& self.y matches Some(y) ==> y.inv()
        &&& (self.x is Some <==> self.y is Some)
    }

    closed spec fn rest(&self) -> Seq<Rev> {
        match (self.x, self.y) {
            (Some(x), Some(y)) => dag_range_stream(x.rest(), y.rest(), self.ancestors.items()),
            _ => Seq::empty(),
        }
    }

    /// Hands out everything at once.
    fn next(&mut self, batch: &mut Batch<Rev, Backwards>)
        ensures
            final(batch).data@ == old(self).rest(),
    {
        if self.x.is_none() {
            return;
        }
        let result = self.compute();
        batch.data = result;
    }
}

} // verus!
