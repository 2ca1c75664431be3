//! The merge join of two streams of keyed pairs.
use vstd::prelude::*;

use crate::physical::merge::{equal_is_same, with_held};
use crate::physical::operator::{Batch, Buffered, Operator, SET_BATCH_SIZE};
use crate::physical::order::{compare_in, lemma_order_laws, order_compare, order_le, ordered, Comparison, Item, Order, Sense};

verus! {

/// How many pairs at the front of `l` have a key equal to `key`.
pub open spec fn run_len<T: Item, U>(l: Seq<(T, U)>, key: T) -> nat
    decreases l.len(),
{
    if l.len() > 0 && l[0].0.spec_compare(key) == Comparison::Equal {
        1 + run_len(l.drop_first(), key)
    } else {
        0
    }
}

/// The second parts of the pairs.
pub open spec fn values<T, U>(l: Seq<(T, U)>) -> Seq<U> {
    l.map_values(|p: (T, U)| p.1)
}

/// Every left value with every right value, under `key`, left values outer.
pub open spec fn cross<T, U, V>(key: T, lv: Seq<U>, rv: Seq<V>) -> Seq<(T, U, V)>
    decreases lv.len(),
{
    if lv.len() == 0 {
        Seq::empty()
    } else {
        rv.map_values(|v: V| (key, lv[0], v)) + cross(key, lv.drop_first(), rv)
    }
}

/// The join of `l` and `r`, both ordered by key in sense `s`: for each run of
/// equal keys met in both, every pairing of their values.
pub open spec fn join_stream<T: Item, U, V>(s: Sense, l: Seq<(T, U)>, r: Seq<(T, V)>) -> Seq<(T, U, V)>
    decreases l.len() + r.len(),
{
    if l.len() == 0 || r.len() == 0 {
        Seq::empty()
    } else {
        match order_compare(s, l[0].0, r[0].0) {
            Comparison::Less => join_stream(s, l.drop_first(), r),
            Comparison::Greater => join_stream(s, l, r.drop_first()),
            Comparison::Equal => {
                let key = l[0].0;
                proof {
                    lemma_run_len_bound(l.drop_first(), key);
                    lemma_run_len_bound(r, key);
                }
                let nl: int = 1 + run_len(l.drop_first(), key) as int;
                let nr: int = run_len(r, key) as int;
                cross(key, values(l.take(nl)), values(r.take(nr))) + join_stream(s, l.skip(nl), r.skip(nr))
            },
        }
    }
}

proof fn lemma_cross_push<T, U, V>(key: T, lv: Seq<U>, u: U, rv: Seq<V>)
    ensures
        cross(key, lv.push(u), rv) == cross(key, lv, rv) + rv.map_values(|v: V| (key, u, v)),
    decreases lv.len(),
{
    if lv.len() == 0 {
        let w = lv.push(u);
        assert(w[0] == u);
        assert(w.drop_first() =~= Seq::<U>::empty());
        assert(cross(key, w.drop_first(), rv) =~= Seq::<(T, U, V)>::empty());
        assert(cross(key, w, rv) =~= rv.map_values(|v: V| (key, u, v)));
        assert(cross(key, lv, rv) =~= Seq::<(T, U, V)>::empty());
    } else {
        lemma_cross_push(key, lv.drop_first(), u, rv);
        assert(lv.push(u).drop_first() =~= lv.drop_first().push(u));
        assert(cross(key, lv.push(u), rv) =~= cross(key, lv, rv) + rv.map_values(|v: V| (key, u, v)));
    }
}

pub proof fn lemma_run_len_bound<T: Item, U>(l: Seq<(T, U)>, key: T)
    ensures
        run_len(l, key) <= l.len(),
    decreases l.len(),
{
    if l.len() > 0 {
        lemma_run_len_bound(l.drop_first(), key);
    }
}

// ----- what a join matches -----

/// The pairs come ordered by key in sense `s`.
pub open spec fn keys_ordered<T: Item, U>(s: Sense, l: Seq<(T, U)>) -> bool {
    forall|i: int, j: int| #![trigger l[i], l[j]] 0 <= i <= j < l.len() ==> order_le(s, l[i].0, l[j].0)
}

proof fn lemma_keys_ordered_tail<T: Item, U>(s: Sense, l: Seq<(T, U)>, n: int)
    requires
        keys_ordered(s, l),
        0 <= n <= l.len(),
    ensures
        keys_ordered(s, l.skip(n)),
{
    assert forall|i: int, j: int| 0 <= i <= j < l.skip(n).len() implies #[trigger] order_le(s, (#[trigger] l.skip(n)[i]).0, l.skip(n)[j].0) by {
        assert(l.skip(n)[i] == l[i + n] && l.skip(n)[j] == l[j + n]);
    }
}

proof fn lemma_run<T: Item, U>(l: Seq<(T, U)>, key: T)
    ensures
        run_len(l, key) <= l.len(),
        forall|i: int| 0 <= i < run_len(l, key) ==> (#[trigger] l[i]).0.spec_compare(key) == Comparison::Equal,
        run_len(l, key) < l.len() ==> l[run_len(l, key) as int].0.spec_compare(key) != Comparison::Equal,
    decreases l.len(),
{
    if l.len() > 0 && l[0].0.spec_compare(key) == Comparison::Equal {
        lemma_run(l.drop_first(), key);
        assert forall|i: int| 0 <= i < run_len(l, key) implies (#[trigger] l[i]).0.spec_compare(key) == Comparison::Equal by {
            if i > 0 {
                assert(l[i] == l.drop_first()[i - 1]);
            }
        }
        if run_len(l, key) < l.len() {
            assert(l[run_len(l, key) as int] == l.drop_first()[run_len(l.drop_first(), key) as int]);
        }
    }
}

proof fn lemma_cross_contains<T, U, V>(key: T, lv: Seq<U>, rv: Seq<V>)
    ensures
        forall|t: (T, U, V)| #[trigger] cross(key, lv, rv).contains(t) == (t.0 == key && lv.contains(t.1) && rv.contains(t.2)),
    decreases lv.len(),
{
    if lv.len() > 0 {
        lemma_cross_contains(key, lv.drop_first(), rv);
        let head = rv.map_values(|v: V| (key, lv[0], v));
        let rest = cross(key, lv.drop_first(), rv);
        assert(cross(key, lv, rv) == head + rest);
        assert forall|t: (T, U, V)| #[trigger] cross(key, lv, rv).contains(t) == (t.0 == key && lv.contains(t.1) && rv.contains(t.2)) by {
            let c = cross(key, lv, rv);
            if c.contains(t) {
                let i = choose|i: int| 0 <= i < c.len() && c[i] == t;
                if i < head.len() {
                    assert(head[i] == (key, lv[0], rv[i]));
                    assert(lv[0] == t.1);
                    assert(rv[i] == t.2);
                } else {
                    assert(rest[i - head.len()] == t);
                    assert(rest.contains(t));
                    let k = choose|k: int| 0 <= k < lv.drop_first().len() && lv.drop_first()[k] == t.1;
                    assert(lv[k + 1] == t.1);
                }
            }
            if t.0 == key && lv.contains(t.1) && rv.contains(t.2) {
                let k = choose|k: int| 0 <= k < lv.len() && lv[k] == t.1;
                let m = choose|m: int| 0 <= m < rv.len() && rv[m] == t.2;
                if k == 0 {
                    assert(head[m] == t);
                    assert(c[m] == t);
                } else {
                    assert(lv.drop_first()[k - 1] == t.1);
                    assert(rest.contains(t));
                    let q = choose|q: int| 0 <= q < rest.len() && rest[q] == t;
                    assert(c[head.len() + q] == t);
                }
            }
        }
    }
}

proof fn lemma_values_contains<T, U>(l: Seq<(T, U)>, key: T, u: U)
    requires
        forall|i: int| 0 <= i < l.len() ==> (#[trigger] l[i]).0 == key,
    ensures
        values(l).contains(u) == l.contains((key, u)),
{
    if values(l).contains(u) {
        let i = choose|i: int| 0 <= i < values(l).len() && values(l)[i] == u;
        assert(l[i] == (key, u));
    }
    if l.contains((key, u)) {
        let i = choose|i: int| 0 <= i < l.len() && l[i] == (key, u);
        assert(values(l)[i] == u);
    }
}

/// Splits `l` at `n` for membership.
proof fn lemma_split_contains<A>(l: Seq<A>, n: int, a: A)
    requires
        0 <= n <= l.len(),
    ensures
        l.contains(a) == (l.take(n).contains(a) || l.skip(n).contains(a)),
{
    if l.contains(a) {
        let i = choose|i: int| 0 <= i < l.len() && l[i] == a;
        if i < n {
            assert(l.take(n)[i] == a);
        } else {
            assert(l.skip(n)[i - n] == a);
        }
    }
    if l.take(n).contains(a) {
        let i = choose|i: int| 0 <= i < l.take(n).len() && l.take(n)[i] == a;
        assert(l[i] == a);
    }
    if l.skip(n).contains(a) {
        let i = choose|i: int| 0 <= i < l.skip(n).len() && l.skip(n)[i] == a;
        assert(l[i + n] == a);
    }
}

/// Keys from position `n` on come strictly after `key` when the key at `n`
/// differs from it and `key` does not come after the key at `n`.
proof fn lemma_after_run<T: Item, U>(s: Sense, l: Seq<(T, U)>, n: int, key: T)
    requires
        s != Sense::Unsorted,
        keys_ordered(s, l),
        0 <= n < l.len(),
        order_le(s, key, l[n].0),
        l[n].0.spec_compare(key) != Comparison::Equal,
    ensures
        forall|i: int| n <= i < l.len() ==> order_compare(s, key, (#[trigger] l[i]).0) == Comparison::Less,
{
    T::lemma_compare_laws(l[n].0, key, key);
    lemma_order_laws(s, key, l[n].0, l[n].0);
    assert(order_compare(s, key, l[n].0) != Comparison::Equal) by {
        T::lemma_compare_laws(key, l[n].0, l[n].0);
    }
    assert forall|i: int| n <= i < l.len() implies order_compare(s, key, (#[trigger] l[i]).0) == Comparison::Less by {
        assert(order_le(s, l[n].0, l[i].0));
        lemma_order_laws(s, key, l[n].0, l[i].0);
    }
}

proof fn lemma_join_rec<T: Item, U, V>(s: Sense, l: Seq<(T, U)>, r: Seq<(T, V)>)
    requires
        s != Sense::Unsorted,
        equal_is_same::<T>(),
        keys_ordered(s, l),
        keys_ordered(s, r),
    ensures
        forall|t: (T, U, V)| #[trigger] join_stream(s, l, r).contains(t) == (l.contains((t.0, t.1)) && r.contains((t.0, t.2))),
    decreases l.len() + r.len(),
{
    let out = join_stream(s, l, r);
    if l.len() == 0 || r.len() == 0 {
        assert(out =~= Seq::<(T, U, V)>::empty());
    } else {
        let a = l[0].0;
        let b = r[0].0;
        lemma_order_laws(s, a, b, b);
        match order_compare(s, a, b) {
            Comparison::Less => {
                lemma_keys_ordered_tail(s, l, 1);
                assert(l.skip(1) =~= l.drop_first());
                lemma_join_rec(s, l.drop_first(), r);
                assert(out == join_stream(s, l.drop_first(), r));
                assert forall|t: (T, U, V)| #[trigger] out.contains(t) == (l.contains((t.0, t.1)) && r.contains((t.0, t.2))) by {
                    lemma_split_contains(l, 1, (t.0, t.1));
                    assert(l.take(1) =~= seq![l[0]]);
                    assert(join_stream(s, l.drop_first(), r).contains(t) == (l.drop_first().contains((t.0, t.1)) && r.contains((t.0, t.2))));
                    if r.contains((t.0, t.2)) && t.0 == a {
                        let i = choose|i: int| 0 <= i < r.len() && r[i] == (t.0, t.2);
                        assert(order_le(s, r[0].0, r[i].0));
                        lemma_order_laws(s, a, b, r[i].0);
                        lemma_order_laws(s, a, a, a);
                    }
                    if l.take(1).contains((t.0, t.1)) {
                        assert(l[0] == (t.0, t.1));
                    }
                }
            },
            Comparison::Greater => {
                lemma_keys_ordered_tail(s, r, 1);
                assert(r.skip(1) =~= r.drop_first());
                lemma_join_rec(s, l, r.drop_first());
                assert(out == join_stream(s, l, r.drop_first()));
                assert forall|t: (T, U, V)| #[trigger] out.contains(t) == (l.contains((t.0, t.1)) && r.contains((t.0, t.2))) by {
                    lemma_split_contains(r, 1, (t.0, t.2));
                    assert(r.take(1) =~= seq![r[0]]);
                    assert(join_stream(s, l, r.drop_first()).contains(t) == (l.contains((t.0, t.1)) && r.drop_first().contains((t.0, t.2))));
                    if l.contains((t.0, t.1)) && t.0 == b {
                        let i = choose|i: int| 0 <= i < l.len() && l[i] == (t.0, t.1);
                        assert(order_le(s, l[0].0, l[i].0));
                        lemma_order_laws(s, b, a, l[i].0);
                        lemma_order_laws(s, b, b, b);
                    }
                    if r.take(1).contains((t.0, t.2)) {
                        assert(r[0] == (t.0, t.2));
                    }
                }
            },
            Comparison::Equal => {
                let key = a;
                T::lemma_compare_laws(a, b, b);
                assert(a == b) by {
                    if s == Sense::Reversed {
                        assert(b.spec_compare(a) == Comparison::Equal);
                    } else {
                        assert(a.spec_compare(b) == Comparison::Equal);
                    }
                }
                lemma_run_len_bound(l.drop_first(), key);
                lemma_run_len_bound(r, key);
                let nl: int = 1 + run_len(l.drop_first(), key) as int;
                let nr: int = run_len(r, key) as int;
                lemma_run(l.drop_first(), key);
                lemma_run(r, key);
                let lt = l.take(nl);
                let rt = r.take(nr);
                T::lemma_compare_laws(key, key, key);
                assert(nr >= 1) by {
                    assert(r[0].0.spec_compare(key) == Comparison::Equal);
                }
                assert forall|i: int| 0 <= i < lt.len() implies (#[trigger] lt[i]).0 == key by {
                    if i > 0 {
                        assert(lt[i] == l.drop_first()[i - 1]);
                        assert(l.drop_first()[i - 1].0.spec_compare(key) == Comparison::Equal);
                    }
                }
                assert forall|i: int| 0 <= i < rt.len() implies (#[trigger] rt[i]).0 == key by {
                    assert(r[i].0.spec_compare(key) == Comparison::Equal);
                }
                if nl < l.len() {
                    assert(l[nl] == l.drop_first()[nl - 1]);
                    assert(order_le(s, l[0].0, l[nl].0));
                    lemma_after_run(s, l, nl, key);
                }
                if nr < r.len() {
                    assert(order_le(s, r[0].0, r[nr].0));
                    lemma_after_run(s, r, nr, key);
                }
                lemma_keys_ordered_tail(s, l, nl);
                lemma_keys_ordered_tail(s, r, nr);
                lemma_join_rec(s, l.skip(nl), r.skip(nr));
                let c = cross(key, values(lt), values(rt));
                let rest = join_stream(s, l.skip(nl), r.skip(nr));
                assert(out == c + rest);
                lemma_cross_contains(key, values(lt), values(rt));
                assert forall|t: (T, U, V)| #[trigger] out.contains(t) == (l.contains((t.0, t.1)) && r.contains((t.0, t.2))) by {
                    lemma_split_contains(l, nl, (t.0, t.1));
                    lemma_split_contains(r, nr, (t.0, t.2));
                    lemma_values_contains(lt, key, t.1);
                    lemma_values_contains(rt, key, t.2);
                    lemma_order_laws(s, key, key, key);
                    if l.skip(nl).contains((t.0, t.1)) {
                        let i = choose|i: int| 0 <= i < l.skip(nl).len() && l.skip(nl)[i] == (t.0, t.1);
                        assert(l[i + nl] == (t.0, t.1));
                        assert(t.0 != key);
                    }
                    if r.skip(nr).contains((t.0, t.2)) {
                        let i = choose|i: int| 0 <= i < r.skip(nr).len() && r.skip(nr)[i] == (t.0, t.2);
                        assert(r[i + nr] == (t.0, t.2));
                        assert(t.0 != key);
                    }
                    if lt.contains((t.0, t.1)) {
                        let i = choose|i: int| 0 <= i < lt.len() && lt[i] == (t.0, t.1);
                    }
                    if rt.contains((t.0, t.2)) {
                        let i = choose|i: int| 0 <= i < rt.len() && rt[i] == (t.0, t.2);
                    }
                    if out.contains(t) {
                        let i = choose|i: int| 0 <= i < out.len() && out[i] == t;
                        if i < c.len() {
                            assert(c[i] == t);
                            assert(c.contains(t));
                        } else {
                            assert(rest[i - c.len()] == t);
                            assert(rest.contains(t));
                        }
                    }
                    if c.contains(t) {
                        let i = choose|i: int| 0 <= i < c.len() && c[i] == t;
                        assert(out[i] == t);
                    }
                    if rest.contains(t) {
                        let i = choose|i: int| 0 <= i < rest.len() && rest[i] == t;
                        assert(out[c.len() + i] == t);
                    }
                }
            },
        }
    }
}

/// Joining two streams ordered by key pairs each left value with each right
/// value under an equal key, and hands out nothing else.
pub proof fn law_join_stream<T: Item, U, V>(s: Sense, l: Seq<(T, U)>, r: Seq<(T, V)>)
    requires
        s != Sense::Unsorted,
        equal_is_same::<T>(),
        keys_ordered(s, l),
        keys_ordered(s, r),
    ensures
        forall|k: T, u: U, v: V| #[trigger] join_stream(s, l, r).contains((k, u, v)) == (l.contains((k, u)) && r.contains((k, v))),
{
    lemma_join_rec(s, l, r);
    assert forall|k: T, u: U, v: V| #[trigger] join_stream(s, l, r).contains((k, u, v)) == (l.contains((k, u)) && r.contains((k, v))) by {
        let t = (k, u, v);
        assert(join_stream(s, l, r).contains(t) == (l.contains((t.0, t.1)) && r.contains((t.0, t.2))));
    }
}

/// Joins two streams of keyed pairs ordered by key.
pub struct MergeJoin<T, U, V, L: Operator<(T, U), O>, R: Operator<(T, V), O>, O: Order> {
    left: Buffered<(T, U), L, O>,
    right: Buffered<(T, V), R, O>,
    left_item: Option<(T, U)>,
    right_item: Option<(T, V)>,
    pending: Vec<(T, U, V)>,
    pending_i: usize,
}

impl<T: Item + Copy, U: Copy, V: Copy, L: Operator<(T, U), O>, R: Operator<(T, V), O>, O: Order> MergeJoin<T, U, V, L, R, O> {
    spec fn l(&self) -> Seq<(T, U)> {
        with_held(self.left_item, self.left.rest())
    }

    spec fn r(&self) -> Seq<(T, V)> {
        with_held(self.right_item, self.right.rest())
    }

    pub fn new(left: L, right: R) -> (j: Self)
        requires
            left.inv(),
            right.inv(),
        ensures
            j.inv(),
            j.rest() == join_stream(O::sense(), left.rest(), right.rest()),
    {
        let j = MergeJoin {
            left: Buffered::new(left),
            right: Buffered::new(right),
            left_item: None,
            right_item: None,
            pending: Vec::new(),
            pending_i: 0,
        };
        proof {
            assert(j.pending@.skip(0) =~= Seq::<(T, U, V)>::empty());
            assert(j.rest() =~= join_stream(O::sense(), left.rest(), right.rest()));
        }
        j
    }

    /// Moves to the next run of keys met in both inputs and lays out its
    /// pairings; false once one input is used up.
    fn fill_pending(&mut self) -> (found: bool)
        requires
            old(self).inv(),
            old(self).pending_i == old(self).pending@.len(),
        ensures
            final(self).inv(),
            found ==> final(self).pending_i == 0 && final(self).pending@.len() > 0,
            found ==> final(self).l().len() + final(self).r().len() < old(self).l().len() + old(self).r().len(),
            final(self).l().len() + final(self).r().len() <= old(self).l().len() + old(self).r().len(),
            !found ==> final(self).pending_i == final(self).pending@.len() && final(self).rest().len() == 0,
            join_stream(O::sense(), old(self).l(), old(self).r())
                == final(self).pending@.skip(final(self).pending_i as int) + join_stream(O::sense(), final(self).l(), final(self).r()),
    {
        let ghost target = join_stream(O::sense(), self.l(), self.r());
        let ghost n0 = self.l().len() + self.r().len();
        proof {
            assert(target == join_stream(O::sense(), old(self).l(), old(self).r()));
            assert(n0 == old(self).l().len() + old(self).r().len());
        }
        loop
            invariant
                self.inv(),
                target == join_stream(O::sense(), old(self).l(), old(self).r()),
                n0 == old(self).l().len() + old(self).r().len(),
                self.l().len() + self.r().len() <= n0,
                self.pending_i == self.pending@.len(),
                target == join_stream(O::sense(), self.l(), self.r()),
            decreases self.l().len() + self.r().len(),
        {
            if self.left_item.is_none() {
                self.left_item = self.left.next_item();
            }
            if self.right_item.is_none() {
                self.right_item = self.right.next_item();
            }
            let ghost l = self.l();
            let ghost r = self.r();
            match (self.left_item, self.right_item) {
                (Some(x), Some(y)) => {
                    proof {
                        assert(l[0] == x);
                        assert(r[0] == y);
                        assert(l.drop_first() =~= self.left.rest());
                        assert(r.drop_first() =~= self.right.rest());
                    }
                    match compare_in::<T, O>(&x.0, &y.0) {
                        Comparison::Less => {
                            self.left_item = None;
                        },
                        Comparison::Greater => {
                            self.right_item = None;
                        },
                        Comparison::Equal => {
                            let key = x.0;
                            let ghost l1 = l.drop_first();
                            let mut lg: Vec<U> = Vec::new();
                            lg.push(x.1);
                            self.left_item = self.left.next_item();
                            let ghost mut c: int = 1;
                            let mut stop = false;
                            proof {
                                assert(l1 =~= self.l());
                                assert(lg@ =~= values(l.take(1)));
                                assert(l.skip(1) =~= l1);
                            }
                            while !stop
                                invariant
                                    self.inv(),
                                    l1 == l.drop_first(),
                                    1 <= c <= l.len(),
                                    self.l() == l.skip(c),
                                    lg@ == values(l.take(c)),
                                    self.left_item is None ==> self.left.rest().len() == 0,
                                    run_len(l1, key) == (c - 1) + run_len(self.l(), key),
                                    stop ==> run_len(self.l(), key) == 0,
                                    self.right_item == Some(y),
                                    r == with_held(self.right_item, self.right.rest()),
                                decreases self.l().len() + if stop { 0int } else { 1int },
                            {
                                match self.left_item {
                                    Some(p) => {
                                        if p.0.compare(&key) == Comparison::Equal {
                                            let ghost cur = self.l();
                                            lg.push(p.1);
                                            self.left_item = self.left.next_item();
                                            proof {
                                                assert(cur[0] == p);
                                                assert(cur.drop_first() =~= self.l());
                                                assert(l.skip(c + 1) =~= l.skip(c).drop_first());
                                                assert(l.take(c + 1) =~= l.take(c).push(p));
                                                assert(values(l.take(c + 1)) =~= values(l.take(c)).push(p.1));
                                                c = c + 1;
                                            }
                                        } else {
                                            stop = true;
                                            proof {
                                                assert(self.l()[0] == p);
                                            }
                                        }
                                    },
                                    None => {
                                        stop = true;
                                    },
                                }
                            }
                            let mut rg: Vec<V> = Vec::new();
                            let ghost mut d: int = 0;
                            stop = false;
                            proof {
                                assert(rg@ =~= values(r.take(0)));
                                assert(r.skip(0) =~= r);
                            }
                            while !stop
                                invariant
                                    self.inv(),
                                    0 <= d <= r.len(),
                                    self.r() == r.skip(d),
                                    rg@ == values(r.take(d)),
                                    run_len(r, key) == d + run_len(self.r(), key),
                                    stop ==> run_len(self.r(), key) == 0,
                                    self.right_item is None ==> self.right.rest().len() == 0,
                                    1 <= c <= l.len(),
                                    self.l() == l.skip(c),
                                    run_len(l1, key) == c - 1,
                                    lg@ == values(l.take(c)),
                                decreases self.r().len() + if stop { 0int } else { 1int },
                            {
                                match self.right_item {
                                    Some(q) => {
                                        if q.0.compare(&key) == Comparison::Equal {
                                            let ghost cur = self.r();
                                            rg.push(q.1);
                                            self.right_item = self.right.next_item();
                                            proof {
                                                assert(cur[0] == q);
                                                assert(cur.drop_first() =~= self.r());
                                                assert(r.skip(d + 1) =~= r.skip(d).drop_first());
                                                assert(r.take(d + 1) =~= r.take(d).push(q));
                                                assert(values(r.take(d + 1)) =~= values(r.take(d)).push(q.1));
                                                d = d + 1;
                                            }
                                        } else {
                                            stop = true;
                                            proof {
                                                assert(self.r()[0] == q);
                                            }
                                        }
                                    },
                                    None => {
                                        stop = true;
                                    },
                                }
                            }
                            let mut out: Vec<(T, U, V)> = Vec::new();
                            let mut i: usize = 0;
                            proof {
                                assert(out@ =~= cross(key, lg@.take(0), rg@));
                            }
                            while i < lg.len()
                                invariant
                                    i <= lg@.len(),
                                    out@ == cross(key, lg@.take(i as int), rg@),
                                decreases lg@.len() - i,
                            {
                                let u = lg[i];
                                let mut k: usize = 0;
                                let ghost base = out@;
                                proof {
                                    assert(base + rg@.take(0).map_values(|v: V| (key, u, v)) =~= base);
                                }
                                while k < rg.len()
                                    invariant
                                        k <= rg@.len(),
                                        out@ == base + rg@.take(k as int).map_values(|v: V| (key, u, v)),
                                    decreases rg@.len() - k,
                                {
                                    out.push((key, u, rg[k]));
                                    proof {
                                        assert(rg@.take(k + 1) =~= rg@.take(k as int).push(rg@[k as int]));
                                        assert(out@ =~= base + rg@.take(k + 1).map_values(|v: V| (key, u, v)));
                                    }
                                    k = k + 1;
                                }
                                proof {
                                    assert(rg@.take(k as int) =~= rg@);
                                    lemma_cross_push(key, lg@.take(i as int), u, rg@);
                                    assert(lg@.take(i + 1) =~= lg@.take(i as int).push(u));
                                }
                                i = i + 1;
                            }
                            proof {
                                assert(lg@.take(i as int) =~= lg@);
                                assert(l[0].0 == key);
                                assert(join_stream(O::sense(), l, r) == cross(key, values(l.take(c)), values(r.take(d)))
                                    + join_stream(O::sense(), l.skip(c), r.skip(d)));
                            }
                            self.pending = out;
                            self.pending_i = 0;
                            if self.pending.len() > 0 {
                                proof {
                                    assert(self.pending@.skip(0) =~= self.pending@);
                                    assert(target =~= self.pending@.skip(self.pending_i as int) + join_stream(O::sense(), self.l(), self.r()));
                                }
                                return true;
                            }
                        },
                    }
                },
                _ => {
                    proof {
                        assert(join_stream(O::sense(), self.l(), self.r()) =~= Seq::<(T, U, V)>::empty());
                        assert(self.pending@.skip(self.pending_i as int) =~= Seq::<(T, U, V)>::empty());
                        assert(target =~= self.pending@.skip(self.pending_i as int) + join_stream(O::sense(), self.l(), self.r()));
                    }
                    return false;
                },
            }
        }
    }
}

impl<T: Item + Copy, U: Copy, V: Copy, L: Operator<(T, U), O>, R: Operator<(T, V), O>, O: Order> Operator<(T, U, V), O> for MergeJoin<T, U, V, L, R, O> {
    closed spec fn inv(&self) -> bool {
        self.left.inv() && self.right.inv() && self.pending_i <= self.pending@.len()
    }

    closed spec fn rest(&self) -> Seq<(T, U, V)> {
        self.pending@.skip(self.pending_i as int) + join_stream(O::sense(), self.l(), self.r())
    }

    /// Hands out up to `SET_BATCH_SIZE` triples.
    fn next(&mut self, batch: &mut Batch<(T, U, V), O>)
        ensures
            final(batch).data@.len() <= SET_BATCH_SIZE,
            final(batch).data@.len() < SET_BATCH_SIZE ==> final(self).rest().len() == 0,
    {
        let ghost start = self.rest();
        let mut done = false;
        while batch.data.len() < SET_BATCH_SIZE && !done
            invariant
                self.inv(),
                batch.data@.len() <= SET_BATCH_SIZE,
                start == batch.data@ + self.rest(),
                done ==> self.rest().len() == 0,
            decreases self.l().len() + self.r().len(), self.pending@.len() - self.pending_i, if done { 0int } else { 1int },
        {
            if self.pending_i == self.pending.len() {
                if !self.fill_pending() {
                    done = true;
                    proof {
                        assert(start =~= batch.data@ + self.rest());
                    }
                }
            }
            if !done {
                let ghost p = self.pending@.skip(self.pending_i as int);
                let t = self.pending[self.pending_i];
                batch.data.push(t);
                self.pending_i = self.pending_i + 1;
                proof {
                    assert(p =~= seq![t] + self.pending@.skip(self.pending_i as int));
                    assert(start =~= batch.data@ + self.rest());
                }
            }
        }
    }
}

} // verus!
