//! Set operators over two inputs of one order: union, intersection and
//! difference, each dropping an item equal to the one it handed out last.
use vstd::prelude::*;

pub mod repeated;

use crate::physical::operator::{Batch, Buffered, Operator, SET_BATCH_SIZE};
use crate::physical::order::{compare_in, lemma_order_laws, order_compare, Comparison, Item, Order, Rev, Sense};

verus! {

/// The held item, if any, then the rest.
pub open spec fn with_held<T>(held: Option<T>, rest: Seq<T>) -> Seq<T> {
    match held {
        Some(x) => seq![x] + rest,
        None => rest,
    }
}

/// `x` equals the item handed out last.
pub open spec fn repeats<T: Item>(last: Option<T>, x: T) -> bool {
    last matches Some(p) && p.spec_compare(x) == Comparison::Equal
}

/// `x` handed out unless it repeats the last one, then `tail` from the new
/// last item.
pub open spec fn emit<T: Item>(last: Option<T>, x: T) -> Seq<T> {
    if repeats(last, x) {
        Seq::empty()
    } else {
        seq![x]
    }
}

/// The item handed out last after `x` comes.
pub open spec fn after<T: Item>(last: Option<T>, x: T) -> Option<T> {
    if repeats(last, x) {
        last
    } else {
        Some(x)
    }
}

/// The merge of `l` and `r` in sense `s`: the earlier head first, one of two
/// equal heads, repeats of the last item dropped.
pub open spec fn union_stream<T: Item>(s: Sense, l: Seq<T>, r: Seq<T>, last: Option<T>) -> Seq<T>
    decreases l.len() + r.len(),
{
    if l.len() == 0 && r.len() == 0 {
        Seq::empty()
    } else if l.len() > 0 && r.len() > 0 {
        match order_compare(s, l[0], r[0]) {
            Comparison::Less => emit(last, l[0]) + union_stream(s, l.drop_first(), r, after(last, l[0])),
            Comparison::Equal => emit(last, l[0]) + union_stream(s, l.drop_first(), r.drop_first(), after(last, l[0])),
            Comparison::Greater => emit(last, r[0]) + union_stream(s, l, r.drop_first(), after(last, r[0])),
        }
    } else if l.len() > 0 {
        emit(last, l[0]) + union_stream(s, l.drop_first(), r, after(last, l[0]))
    } else {
        emit(last, r[0]) + union_stream(s, l, r.drop_first(), after(last, r[0]))
    }
}

/// The items of `l` matched by an equal head of `r` in sense `s`, each
/// matched pair consuming both heads, repeats dropped.
pub open spec fn inter_stream<T: Item>(s: Sense, l: Seq<T>, r: Seq<T>, last: Option<T>) -> Seq<T>
    decreases l.len() + r.len(),
{
    if l.len() == 0 || r.len() == 0 {
        Seq::empty()
    } else {
        match order_compare(s, l[0], r[0]) {
            Comparison::Less => inter_stream(s, l.drop_first(), r, last),
            Comparison::Equal => emit(last, l[0]) + inter_stream(s, l.drop_first(), r.drop_first(), after(last, l[0])),
            Comparison::Greater => inter_stream(s, l, r.drop_first(), last),
        }
    }
}

/// The items of `l` not matched by an equal head of `r` in sense `s`, each
/// match consuming both heads, repeats dropped.
pub open spec fn diff_stream<T: Item>(s: Sense, l: Seq<T>, r: Seq<T>, last: Option<T>) -> Seq<T>
    decreases l.len() + r.len(),
{
    if l.len() == 0 {
        Seq::empty()
    } else if r.len() == 0 {
        emit(last, l[0]) + diff_stream(s, l.drop_first(), r, after(last, l[0]))
    } else {
        match order_compare(s, l[0], r[0]) {
            Comparison::Less => emit(last, l[0]) + diff_stream(s, l.drop_first(), r, after(last, l[0])),
            Comparison::Equal => diff_stream(s, l.drop_first(), r.drop_first(), last),
            Comparison::Greater => diff_stream(s, l, r.drop_first(), last),
        }
    }
}

// ----- what the set operators compute -----

/// Each item comes strictly before the next in sense `s` (so no item
/// repeats).
pub open spec fn strictly_ordered<T: Item>(s: Sense, q: Seq<T>) -> bool {
    forall|i: int, j: int| #![trigger q[i], q[j]] 0 <= i < j < q.len() ==> order_compare(s, q[i], q[j]) == Comparison::Less
}

/// Items that compare equal are the same item.
pub open spec fn equal_is_same<T: Item>() -> bool {
    forall|x: T, y: T| #[trigger] x.spec_compare(y) == Comparison::Equal ==> x == y
}

/// Revisions that compare equal are the same revision.
pub proof fn lemma_rev_equal_is_same()
    ensures
        equal_is_same::<Rev>(),
{
}

/// Every item of `q` comes strictly after `last`, if there is one.
pub open spec fn all_after<T: Item>(s: Sense, last: Option<T>, q: Seq<T>) -> bool {
    last matches Some(p) ==> forall|i: int| 0 <= i < q.len() ==> order_compare(s, p, #[trigger] q[i]) == Comparison::Less
}

proof fn lemma_fresh<T: Item>(s: Sense, last: Option<T>, x: T)
    requires
        s != Sense::Unsorted,
        last matches Some(p) ==> order_compare(s, p, x) == Comparison::Less,
    ensures
        emit(last, x) == seq![x],
        after(last, x) == Some(x),
{
    if let Some(p) = last {
        T::lemma_compare_laws(p, x, x);
        T::lemma_compare_laws(x, p, p);
    }
}

proof fn lemma_tail_after<T: Item>(s: Sense, q: Seq<T>)
    requires
        strictly_ordered(s, q),
        q.len() > 0,
    ensures
        strictly_ordered(s, q.drop_first()),
        all_after(s, Some(q[0]), q.drop_first()),
        q.to_set() == q.drop_first().to_set().insert(q[0]),
{
    assert forall|i: int| 0 <= i < q.drop_first().len() implies order_compare(s, q[0], #[trigger] q.drop_first()[i]) == Comparison::Less by {
        assert(q.drop_first()[i] == q[i + 1]);
    }
    assert forall|i: int, j: int| 0 <= i < j < q.drop_first().len() implies order_compare(s, #[trigger] q.drop_first()[i], #[trigger] q.drop_first()[j]) == Comparison::Less by {
        assert(q.drop_first()[i] == q[i + 1]);
        assert(q.drop_first()[j] == q[j + 1]);
    }
    assert(q =~= seq![q[0]] + q.drop_first());
    assert(q.to_set() =~= q.drop_first().to_set().insert(q[0])) by {
        assert forall|x: T| q.to_set().contains(x) implies q.drop_first().to_set().insert(q[0]).contains(x) by {
            let i = choose|i: int| 0 <= i < q.len() && q[i] == x;
            if i > 0 {
                assert(q.drop_first()[i - 1] == x);
            }
        }
        assert forall|x: T| q.drop_first().to_set().insert(q[0]).contains(x) implies q.to_set().contains(x) by {
            if x != q[0] {
                let i = choose|i: int| 0 <= i < q.drop_first().len() && q.drop_first()[i] == x;
                assert(q[i + 1] == x);
            } else {
                assert(q[0] == x);
            }
        }
    }
}

/// Everything in a strictly ordered `q` comes after anything strictly
/// before its first item; in particular, no such item is in `q`.
proof fn lemma_before_all<T: Item>(s: Sense, q: Seq<T>, x: T)
    requires
        strictly_ordered(s, q),
        q.len() > 0,
        order_compare(s, x, q[0]) == Comparison::Less,
    ensures
        all_after(s, Some(x), q),
        !q.to_set().contains(x),
{
    assert forall|i: int| 0 <= i < q.len() implies order_compare(s, x, #[trigger] q[i]) == Comparison::Less by {
        if i > 0 {
            assert(order_compare(s, q[0], q[i]) == Comparison::Less);
            lemma_order_laws(s, x, q[0], q[i]);
        }
    }
    if q.to_set().contains(x) {
        let i = choose|i: int| 0 <= i < q.len() && q[i] == x;
        lemma_order_laws(s, x, x, x);
    }
}

proof fn lemma_after_set<T: Item>(s: Sense, last: Option<T>, l: Seq<T>, r: Seq<T>, out: Seq<T>)
    requires
        all_after(s, last, l),
        all_after(s, last, r),
        out.to_set().subset_of(l.to_set().union(r.to_set())),
    ensures
        all_after(s, last, out),
{
    if let Some(p) = last {
        assert forall|i: int| 0 <= i < out.len() implies order_compare(s, p, #[trigger] out[i]) == Comparison::Less by {
            assert(out.to_set().contains(out[i]));
            if l.to_set().contains(out[i]) {
                let k = choose|k: int| 0 <= k < l.len() && l[k] == out[i];
            } else {
                let k = choose|k: int| 0 <= k < r.len() && r[k] == out[i];
            }
        }
    }
}

pub(crate) proof fn lemma_cons_strict<T: Item>(s: Sense, x: T, rest: Seq<T>)
    requires
        strictly_ordered(s, rest),
        all_after(s, Some(x), rest),
    ensures
        strictly_ordered(s, seq![x] + rest),
        (seq![x] + rest).to_set() == rest.to_set().insert(x),
{
    let o = seq![x] + rest;
    assert forall|i: int, j: int| 0 <= i < j < o.len() implies order_compare(s, #[trigger] o[i], #[trigger] o[j]) == Comparison::Less by {
        assert(o[j] == rest[j - 1]);
        if i > 0 {
            assert(o[i] == rest[i - 1]);
        }
    }
    assert(o.drop_first() =~= rest);
    assert(o.to_set() =~= rest.to_set().insert(x)) by {
        assert forall|y: T| o.to_set().contains(y) implies rest.to_set().insert(x).contains(y) by {
            let i = choose|i: int| 0 <= i < o.len() && o[i] == y;
            if i > 0 {
                assert(rest[i - 1] == y);
            }
        }
        assert forall|y: T| rest.to_set().insert(x).contains(y) implies o.to_set().contains(y) by {
            if y == x {
                assert(o[0] == y);
            } else {
                let i = choose|i: int| 0 <= i < rest.len() && rest[i] == y;
                assert(o[i + 1] == y);
            }
        }
    }
}

proof fn lemma_same_heads<T: Item>(s: Sense, a: T, b: T)
    requires
        s != Sense::Unsorted,
        equal_is_same::<T>(),
        order_compare(s, a, b) == Comparison::Equal,
    ensures
        a == b,
{
    T::lemma_compare_laws(a, b, b);
    assert(a.spec_compare(b) == Comparison::Equal);
}

proof fn lemma_union_rec<T: Item>(s: Sense, l: Seq<T>, r: Seq<T>, last: Option<T>)
    requires
        s != Sense::Unsorted,
        equal_is_same::<T>(),
        strictly_ordered(s, l),
        strictly_ordered(s, r),
        all_after(s, last, l),
        all_after(s, last, r),
    ensures
        strictly_ordered(s, union_stream(s, l, r, last)),
        union_stream(s, l, r, last).to_set() == l.to_set().union(r.to_set()),
        all_after(s, last, union_stream(s, l, r, last)),
    decreases l.len() + r.len(),
{
    let out = union_stream(s, l, r, last);
    if l.len() == 0 && r.len() == 0 {
        assert(out.to_set() =~= l.to_set().union(r.to_set()));
    } else {
        let take_left = l.len() > 0 && (r.len() == 0 || order_compare(s, l[0], r[0]) != Comparison::Greater);
        if take_left {
            let x = l[0];
            lemma_fresh(s, last, x);
            lemma_tail_after(s, l);
            let both = r.len() > 0 && order_compare(s, l[0], r[0]) == Comparison::Equal;
            let r2 = if both { r.drop_first() } else { r };
            if both {
                lemma_same_heads(s, l[0], r[0]);
                lemma_tail_after(s, r);
            } else if r.len() > 0 {
                lemma_before_all(s, r, x);
            }
            lemma_union_rec(s, l.drop_first(), r2, Some(x));
            let rest = union_stream(s, l.drop_first(), r2, Some(x));
            assert(out == seq![x] + rest);
            lemma_cons_strict(s, x, rest);
            assert(out.to_set() =~= l.to_set().union(r.to_set()));
        } else {
            let x = r[0];
            lemma_fresh(s, last, x);
            lemma_tail_after(s, r);
            if l.len() > 0 {
                lemma_order_laws(s, l[0], r[0], r[0]);
                lemma_before_all(s, l, x);
            }
            lemma_union_rec(s, l, r.drop_first(), Some(x));
            let rest = union_stream(s, l, r.drop_first(), Some(x));
            assert(out == seq![x] + rest);
            lemma_cons_strict(s, x, rest);
            assert(out.to_set() =~= l.to_set().union(r.to_set()));
        }
    }
    lemma_after_set(s, last, l, r, out);
}

proof fn lemma_inter_rec<T: Item>(s: Sense, l: Seq<T>, r: Seq<T>, last: Option<T>)
    requires
        s != Sense::Unsorted,
        equal_is_same::<T>(),
        strictly_ordered(s, l),
        strictly_ordered(s, r),
        all_after(s, last, l),
        all_after(s, last, r),
    ensures
        strictly_ordered(s, inter_stream(s, l, r, last)),
        inter_stream(s, l, r, last).to_set() == l.to_set().intersect(r.to_set()),
        all_after(s, last, inter_stream(s, l, r, last)),
    decreases l.len() + r.len(),
{
    let out = inter_stream(s, l, r, last);
    if l.len() == 0 || r.len() == 0 {
        assert(out.to_set() =~= l.to_set().intersect(r.to_set()));
    } else {
        lemma_tail_after(s, l);
        lemma_tail_after(s, r);
        match order_compare(s, l[0], r[0]) {
            Comparison::Less => {
                lemma_before_all(s, r, l[0]);
                lemma_inter_rec(s, l.drop_first(), r, last);
                assert(out.to_set() =~= l.to_set().intersect(r.to_set()));
            },
            Comparison::Equal => {
                let x = l[0];
                lemma_same_heads(s, l[0], r[0]);
                lemma_fresh(s, last, x);
                lemma_inter_rec(s, l.drop_first(), r.drop_first(), Some(x));
                let rest = inter_stream(s, l.drop_first(), r.drop_first(), Some(x));
                assert(out == seq![x] + rest);
                lemma_cons_strict(s, x, rest);
                assert(!l.drop_first().to_set().contains(x)) by {
                    if l.drop_first().to_set().contains(x) {
                        let i = choose|i: int| 0 <= i < l.drop_first().len() && l.drop_first()[i] == x;
                        lemma_order_laws(s, x, x, x);
                    }
                }
                assert(!r.drop_first().to_set().contains(x)) by {
                    if r.drop_first().to_set().contains(x) {
                        let i = choose|i: int| 0 <= i < r.drop_first().len() && r.drop_first()[i] == x;
                        lemma_order_laws(s, x, x, x);
                    }
                }
                assert(out.to_set() =~= l.to_set().intersect(r.to_set()));
            },
            Comparison::Greater => {
                lemma_order_laws(s, l[0], r[0], r[0]);
                lemma_before_all(s, l, r[0]);
                lemma_inter_rec(s, l, r.drop_first(), last);
                assert(out.to_set() =~= l.to_set().intersect(r.to_set()));
            },
        }
    }
    lemma_after_set(s, last, l, r, out);
}

proof fn lemma_diff_rec<T: Item>(s: Sense, l: Seq<T>, r: Seq<T>, last: Option<T>)
    requires
        s != Sense::Unsorted,
        equal_is_same::<T>(),
        strictly_ordered(s, l),
        strictly_ordered(s, r),
        all_after(s, last, l),
    ensures
        strictly_ordered(s, diff_stream(s, l, r, last)),
        diff_stream(s, l, r, last).to_set() == l.to_set().difference(r.to_set()),
        all_after(s, last, diff_stream(s, l, r, last)),
    decreases l.len() + r.len(),
{
    let out = diff_stream(s, l, r, last);
    if l.len() == 0 {
        assert(out.to_set() =~= l.to_set().difference(r.to_set()));
    } else {
        lemma_tail_after(s, l);
        let x = l[0];
        if r.len() == 0 || order_compare(s, l[0], r[0]) == Comparison::Less {
            lemma_fresh(s, last, x);
            if r.len() > 0 {
                lemma_before_all(s, r, x);
            }
            lemma_diff_rec(s, l.drop_first(), r, Some(x));
            let rest = diff_stream(s, l.drop_first(), r, Some(x));
            assert(out == seq![x] + rest);
            lemma_cons_strict(s, x, rest);
            assert(out.to_set() =~= l.to_set().difference(r.to_set()));
        } else {
            lemma_tail_after(s, r);
            if order_compare(s, l[0], r[0]) == Comparison::Equal {
                lemma_same_heads(s, l[0], r[0]);
                assert(!l.drop_first().to_set().contains(x)) by {
                    if l.drop_first().to_set().contains(x) {
                        let i = choose|i: int| 0 <= i < l.drop_first().len() && l.drop_first()[i] == x;
                        lemma_order_laws(s, x, x, x);
                    }
                }
                lemma_diff_rec(s, l.drop_first(), r.drop_first(), last);
                assert(out.to_set() =~= l.to_set().difference(r.to_set()));
            } else {
                lemma_order_laws(s, l[0], r[0], r[0]);
                lemma_before_all(s, l, r[0]);
                lemma_diff_rec(s, l, r.drop_first(), last);
                assert(out.to_set() =~= l.to_set().difference(r.to_set()));
            }
        }
    }
    lemma_after_set(s, last, l, l, out);
}

/// A union of two inputs that each hand out distinct items in order hands
/// out, in that order and each once, the items of either input.
pub proof fn law_union_stream<T: Item>(s: Sense, l: Seq<T>, r: Seq<T>)
    requires
        s != Sense::Unsorted,
        equal_is_same::<T>(),
        strictly_ordered(s, l),
        strictly_ordered(s, r),
    ensures
        strictly_ordered(s, union_stream(s, l, r, None)),
        union_stream(s, l, r, None).to_set() == l.to_set().union(r.to_set()),
{
    lemma_union_rec(s, l, r, None);
}

/// An intersection of two inputs that each hand out distinct items in order
/// hands out, in that order and each once, the items of both.
pub proof fn law_inter_stream<T: Item>(s: Sense, l: Seq<T>, r: Seq<T>)
    requires
        s != Sense::Unsorted,
        equal_is_same::<T>(),
        strictly_ordered(s, l),
        strictly_ordered(s, r),
    ensures
        strictly_ordered(s, inter_stream(s, l, r, None)),
        inter_stream(s, l, r, None).to_set() == l.to_set().intersect(r.to_set()),
{
    lemma_inter_rec(s, l, r, None);
}

/// A difference of two inputs that each hand out distinct items in order
/// hands out, in that order and each once, the items of the left input that
/// the right one lacks.
pub proof fn law_diff_stream<T: Item>(s: Sense, l: Seq<T>, r: Seq<T>)
    requires
        s != Sense::Unsorted,
        equal_is_same::<T>(),
        strictly_ordered(s, l),
        strictly_ordered(s, r),
    ensures
        strictly_ordered(s, diff_stream(s, l, r, None)),
        diff_stream(s, l, r, None).to_set() == l.to_set().difference(r.to_set()),
{
    lemma_diff_rec(s, l, r, None);
}

/// Which set operation a `Merge` performs.
pub enum SetOp {
    Union,
    Intersection,
    Difference,
}

/// What the set operation `op` hands out.
pub open spec fn set_stream<T: Item>(op: SetOp, s: Sense, l: Seq<T>, r: Seq<T>, last: Option<T>) -> Seq<T> {
    match op {
        SetOp::Union => union_stream(s, l, r, last),
        SetOp::Intersection => inter_stream(s, l, r, last),
        SetOp::Difference => diff_stream(s, l, r, last),
    }
}

/// Two inputs read in step.
struct Merge<T, U: Operator<T, O>, V: Operator<T, O>, O: Order> {
    left: Buffered<T, U, O>,
    right: Buffered<T, V, O>,
    left_item: Option<T>,
    right_item: Option<T>,
    last: Option<T>,
}

impl<T: Item + Copy, U: Operator<T, O>, V: Operator<T, O>, O: Order> Merge<T, U, V, O> {
    spec fn inv(&self) -> bool {
        self.left.inv() && self.right.inv()
    }

    spec fn l(&self) -> Seq<T> {
        with_held(self.left_item, self.left.rest())
    }

    spec fn r(&self) -> Seq<T> {
        with_held(self.right_item, self.right.rest())
    }

    spec fn stream(&self, op: SetOp) -> Seq<T> {
        set_stream(op, O::sense(), self.l(), self.r(), self.last)
    }

    fn new(left: U, right: V) -> (m: Self)
        requires
            left.inv(),
            right.inv(),
        ensures
            m.inv(),
            m.l() == left.rest(),
            m.r() == right.rest(),
            m.last is None,
    {
        Merge {
            left: Buffered::new(left),
            right: Buffered::new(right),
            left_item: None,
            right_item: None,
            last: None,
        }
    }

    /// Holds the next item of each input, where there is one.
    fn fill(&mut self)
        requires
            old(self).inv(),
        ensures
            final(self).inv(),
            final(self).l() == old(self).l(),
            final(self).r() == old(self).r(),
            final(self).last == old(self).last,
            final(self).left_item is None ==> final(self).l().len() == 0,
            final(self).right_item is None ==> final(self).r().len() == 0,
    {
        if self.left_item.is_none() {
            self.left_item = self.left.next_item();
        }
        if self.right_item.is_none() {
            self.right_item = self.right.next_item();
        }
    }

    /// Hands `x` out unless it repeats the last item.
    fn push_new(&mut self, batch: &mut Batch<T, O>, x: T)
        ensures
            final(batch).data@ == old(batch).data@ + emit(old(self).last, x),
            final(self).last == after(old(self).last, x),
            final(self).left == old(self).left,
            final(self).right == old(self).right,
            final(self).left_item == old(self).left_item,
            final(self).right_item == old(self).right_item,
    {
        let repeat = match &self.last {
            Some(p) => p.compare(&x) == Comparison::Equal,
            None => false,
        };
        if !repeat {
            self.last = Some(x);
            batch.data.push(x);
        }
        proof {
            if repeat {
                assert(batch.data@ =~= old(batch).data@ + emit(old(self).last, x));
            }
        }
    }

    /// Hands out up to `SET_BATCH_SIZE` items of `op`.
    fn run(&mut self, op: SetOp, batch: &mut Batch<T, O>)
        requires
            old(self).inv(),
            old(batch).data@.len() == 0,
        ensures
            final(self).inv(),
            old(self).stream(op) == final(batch).data@ + final(self).stream(op),
            final(batch).data@.len() <= SET_BATCH_SIZE,
            final(batch).data@.len() < SET_BATCH_SIZE ==> final(self).stream(op).len() == 0,
    {
        let ghost start = self.stream(op);
        let mut done = false;
        while batch.data.len() < SET_BATCH_SIZE && !done
            invariant
                self.inv(),
                batch.data@.len() <= SET_BATCH_SIZE,
                start == batch.data@ + self.stream(op),
                done ==> self.stream(op).len() == 0,
            decreases self.l().len() + self.r().len() + if done { 0int } else { 1int },
        {
            self.fill();
            let ghost l = self.l();
            let ghost r = self.r();
            let ghost b = batch.data@;
            let ghost last = self.last;
            proof {
                reveal_with_fuel(union_stream, 1);
            }
            match (self.left_item, self.right_item) {
                (Some(x), Some(y)) => {
                    proof {
                        assert(l[0] == x);
                        assert(r[0] == y);
                        assert(l.drop_first() =~= self.left.rest());
                        assert(r.drop_first() =~= self.right.rest());
                    }
                    let c = compare_in::<T, O>(&x, &y);
                    match c {
                        Comparison::Less => {
                            self.left_item = None;
                            match op {
                                SetOp::Union => self.push_new(batch, x),
                                SetOp::Intersection => {},
                                SetOp::Difference => self.push_new(batch, x),
                            }
                        },
                        Comparison::Equal => {
                            self.left_item = None;
                            self.right_item = None;
                            match op {
                                SetOp::Union => self.push_new(batch, x),
                                SetOp::Intersection => self.push_new(batch, x),
                                SetOp::Difference => {},
                            }
                        },
                        Comparison::Greater => {
                            self.right_item = None;
                            match op {
                                SetOp::Union => self.push_new(batch, y),
                                SetOp::Intersection => {},
                                SetOp::Difference => {},
                            }
                        },
                    }
                    proof {
                        assert(start =~= batch.data@ + self.stream(op));
                    }
                },
                (Some(x), None) => {
                    proof {
                        assert(l[0] == x);
                        assert(l.drop_first() =~= self.left.rest());
                        assert(r.len() == 0);
                    }
                    match op {
                        SetOp::Union => {
                            self.left_item = None;
                            self.push_new(batch, x);
                        },
                        SetOp::Intersection => {
                            done = true;
                        },
                        SetOp::Difference => {
                            self.left_item = None;
                            self.push_new(batch, x);
                        },
                    }
                    proof {
                        assert(start =~= batch.data@ + self.stream(op));
                    }
                },
                (None, Some(y)) => {
                    proof {
                        assert(r[0] == y);
                        assert(r.drop_first() =~= self.right.rest());
                        assert(l.len() == 0);
                    }
                    match op {
                        SetOp::Union => {
                            self.right_item = None;
                            self.push_new(batch, y);
                        },
                        SetOp::Intersection => {
                            done = true;
                        },
                        SetOp::Difference => {
                            done = true;
                        },
                    }
                    proof {
                        assert(start =~= batch.data@ + self.stream(op));
                    }
                },
                (None, None) => {
                    done = true;
                    proof {
                        assert(start =~= batch.data@ + self.stream(op));
                    }
                },
            }
        }
    }
}

/// The items of either input, merged in order, each repeat of the last item dropped.
pub struct Union<T, U: Operator<T, O>, V: Operator<T, O>, O: Order> {
    merge: Merge<T, U, V, O>,
}

impl<T: Item + Copy, U: Operator<T, O>, V: Operator<T, O>, O: Order> Union<T, U, V, O> {
    pub fn new(left: U, right: V) -> (r: Self)
        requires
            left.inv(),
            right.inv(),
        ensures
            r.inv(),
            r.rest() == union_stream(O::sense(), left.rest(), right.rest(), None),
    {
        Union { merge: Merge::new(left, right) }
    }
}

impl<T: Item + Copy, U: Operator<T, O>, V: Operator<T, O>, O: Order> Operator<T, O> for Union<T, U, V, O> {
    closed spec fn inv(&self) -> bool {
        self.merge.inv()
    }

    closed spec fn rest(&self) -> Seq<T> {
        self.merge.stream(SetOp::Union)
    }

    /// Hands out up to `SET_BATCH_SIZE` items.
    fn next(&mut self, batch: &mut Batch<T, O>)
        ensures
            final(batch).data@.len() <= SET_BATCH_SIZE,
            final(batch).data@.len() < SET_BATCH_SIZE ==> final(self).rest().len() == 0,
    {
        self.merge.run(SetOp::Union, batch);
    }
}

/// The items of the left input matched by an equal item of the right, in order, repeats dropped.
pub struct Intersection<T, U: Operator<T, O>, V: Operator<T, O>, O: Order> {
    merge: Merge<T, U, V, O>,
}

impl<T: Item + Copy, U: Operator<T, O>, V: Operator<T, O>, O: Order> Intersection<T, U, V, O> {
    pub fn new(left: U, right: V) -> (r: Self)
        requires
            left.inv(),
            right.inv(),
        ensures
            r.inv(),
            r.rest() == inter_stream(O::sense(), left.rest(), right.rest(), None),
    {
        Intersection { merge: Merge::new(left, right) }
    }
}

impl<T: Item + Copy, U: Operator<T, O>, V: Operator<T, O>, O: Order> Operator<T, O> for Intersection<T, U, V, O> {
    closed spec fn inv(&self) -> bool {
        self.merge.inv()
    }

    closed spec fn rest(&self) -> Seq<T> {
        self.merge.stream(SetOp::Intersection)
    }

    /// Hands out up to `SET_BATCH_SIZE` items.
    fn next(&mut self, batch: &mut Batch<T, O>)
        ensures
            final(batch).data@.len() <= SET_BATCH_SIZE,
            final(batch).data@.len() < SET_BATCH_SIZE ==> final(self).rest().len() == 0,
    {
        self.merge.run(SetOp::Intersection, batch);
    }
}

/// The items of the left input not matched by an equal item of the right, in order, repeats dropped.
pub struct Difference<T, U: Operator<T, O>, V: Operator<T, O>, O: Order> {
    merge: Merge<T, U, V, O>,
}

impl<T: Item + Copy, U: Operator<T, O>, V: Operator<T, O>, O: Order> Difference<T, U, V, O> {
    pub fn new(left: U, right: V) -> (r: Self)
        requires
            left.inv(),
            right.inv(),
        ensures
            r.inv(),
            r.rest() == diff_stream(O::sense(), left.rest(), right.rest(), None),
    {
        Difference { merge: Merge::new(left, right) }
    }
}

impl<T: Item + Copy, U: Operator<T, O>, V: Operator<T, O>, O: Order> Operator<T, O> for Difference<T, U, V, O> {
    closed spec fn inv(&self) -> bool {
        self.merge.inv()
    }

    closed spec fn rest(&self) -> Seq<T> {
        self.merge.stream(SetOp::Difference)
    }

    /// Hands out up to `SET_BATCH_SIZE` items.
    fn next(&mut self, batch: &mut Batch<T, O>)
        ensures
            final(batch).data@.len() <= SET_BATCH_SIZE,
            final(batch).data@.len() < SET_BATCH_SIZE ==> final(self).rest().len() == 0,
    {
        self.merge.run(SetOp::Difference, batch);
    }
}

} // verus!
