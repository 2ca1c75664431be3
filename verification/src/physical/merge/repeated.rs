//! The set operators on inputs that may repeat items: what they hand out
//! never repeats.
use vstd::prelude::*;

use crate::physical::merge::{
    after, all_after, diff_stream, emit, equal_is_same, inter_stream, lemma_cons_strict, repeats, strictly_ordered,
    union_stream,
};
use crate::physical::order::{lemma_order_laws, order_compare, order_le, ordered, Comparison, Item, Sense};

verus! {

/// No item of `q` comes before `last`, if there is one.
pub open spec fn none_before<T: Item>(s: Sense, last: Option<T>, q: Seq<T>) -> bool {
    last matches Some(p) ==> forall|i: int| 0 <= i < q.len() ==> order_le(s, p, #[trigger] q[i])
}

/// `set` without `last`, if there is one.
pub open spec fn without<T>(last: Option<T>, set: Set<T>) -> Set<T> {
    match last {
        Some(p) => set.remove(p),
        None => set,
    }
}

proof fn lemma_head<T: Item>(s: Sense, q: Seq<T>)
    requires
        ordered(s, q),
        q.len() > 0,
    ensures
        ordered(s, q.drop_first()),
        none_before(s, Some(q[0]), q),
        none_before(s, Some(q[0]), q.drop_first()),
        q.to_set() == q.drop_first().to_set().insert(q[0]),
{
    assert forall|i: int, j: int| 0 <= i <= j < q.drop_first().len() implies order_le(s, #[trigger] q.drop_first()[i], #[trigger] q.drop_first()[j]) by {
        assert(q.drop_first()[i] == q[i + 1]);
        assert(q.drop_first()[j] == q[j + 1]);
    }
    assert forall|i: int| 0 <= i < q.len() implies order_le(s, q[0], #[trigger] q[i]) by {
        assert(order_le(s, q[0], q[i]));
    }
    assert forall|i: int| 0 <= i < q.drop_first().len() implies order_le(s, q[0], #[trigger] q.drop_first()[i]) by {
        assert(q.drop_first()[i] == q[i + 1]);
        assert(order_le(s, q[0], q[i + 1]));
    }
    assert(q.to_set() =~= q.drop_first().to_set().insert(q[0])) by {
        assert forall|x: T| q.to_set().contains(x) implies q.drop_first().to_set().insert(q[0]).contains(x) by {
            let i = choose|i: int| 0 <= i < q.len() && q[i] == x;
            if i > 0 {
                assert(q.drop_first()[i - 1] == x);
            }
        }
        assert forall|x: T| q.drop_first().to_set().insert(q[0]).contains(x) implies q.to_set().contains(x) by {
            if x != q[0] {
                let i = choose|i: int| 0 <= i < q.drop_first().len() && q.drop_first()[i] == x;
                assert(q[i + 1] == x);
            } else {
                assert(q[0] == x);
            }
        }
    }
}

/// Everything of `q` comes no earlier than `x`, and `x` no earlier than `p`.
proof fn lemma_none_before_trans<T: Item>(s: Sense, p: T, x: T, q: Seq<T>)
    requires
        order_le(s, p, x),
        none_before(s, Some(x), q),
    ensures
        none_before(s, Some(p), q),
{
    assert forall|i: int| 0 <= i < q.len() implies order_le(s, p, #[trigger] q[i]) by {
        lemma_order_laws(s, p, x, q[i]);
    }
}

/// An item no earlier than `x` is in `q`'s set only as such an item.
proof fn lemma_set_after<T: Item>(s: Sense, x: T, q: Seq<T>, y: T)
    requires
        none_before(s, Some(x), q),
        q.to_set().contains(y),
    ensures
        order_le(s, x, y),
{
    let i = choose|i: int| 0 <= i < q.len() && q[i] == y;
}

/// Handing out `x` (unless it repeats the last item) before `rest`.
proof fn lemma_step<T: Item>(s: Sense, last: Option<T>, x: T, rest: Seq<T>, up: Set<T>, low: Set<T>)
    requires
        s != Sense::Unsorted,
        equal_is_same::<T>(),
        last matches Some(p) ==> order_le(s, p, x),
        strictly_ordered(s, rest),
        all_after(s, after(last, x), rest),
        rest.to_set().subset_of(without(after(last, x), up)),
        without(after(last, x), low).subset_of(rest.to_set()),
    ensures
        strictly_ordered(s, emit(last, x) + rest),
        all_after(s, last, emit(last, x) + rest),
        (emit(last, x) + rest).to_set().subset_of(without(last, up.insert(x))),
        without(last, low.insert(x)).subset_of((emit(last, x) + rest).to_set()),
{
    let out = emit(last, x) + rest;
    if repeats(last, x) {
        let p = last->0;
        T::lemma_compare_laws(p, x, x);
        assert(p == x);
        assert(out =~= rest);
        assert forall|y: T| without(last, low.insert(x)).contains(y) implies out.to_set().contains(y) by {
            assert(without(last, low).contains(y));
        }
        assert forall|y: T| out.to_set().contains(y) implies without(last, up.insert(x)).contains(y) by {
            assert(without(last, up).contains(y));
        }
    } else {
        assert(after(last, x) == Some(x));
        assert(emit(last, x) == seq![x]);
        lemma_cons_strict(s, x, rest);
        if let Some(p) = last {
            T::lemma_compare_laws(p, x, x);
            lemma_order_laws(s, p, x, x);
            assert(order_compare(s, p, x) == Comparison::Less);
            assert forall|i: int| 0 <= i < out.len() implies order_compare(s, p, #[trigger] out[i]) == Comparison::Less by {
                if i > 0 {
                    assert(out[i] == rest[i - 1]);
                    lemma_order_laws(s, p, x, rest[i - 1]);
                }
            }
            assert forall|y: T| out.to_set().contains(y) implies y != p by {
                let i = choose|i: int| 0 <= i < out.len() && out[i] == y;
                lemma_order_laws(s, p, p, p);
            }
        }
        assert forall|y: T| out.to_set().contains(y) implies without(last, up.insert(x)).contains(y) by {
            if y != x {
                assert(rest.to_set().contains(y));
            }
        }
        assert forall|y: T| without(last, low.insert(x)).contains(y) implies out.to_set().contains(y) by {
            if y == x {
                assert(out[0] == x);
            } else {
                assert(without(Some(x), low).contains(y));
                assert(rest.to_set().contains(y));
            }
        }
    }
}

proof fn lemma_union_rep<T: Item>(s: Sense, l: Seq<T>, r: Seq<T>, last: Option<T>)
    requires
        s != Sense::Unsorted,
        equal_is_same::<T>(),
        ordered(s, l),
        ordered(s, r),
        none_before(s, last, l),
        none_before(s, last, r),
    ensures
        strictly_ordered(s, union_stream(s, l, r, last)),
        all_after(s, last, union_stream(s, l, r, last)),
        union_stream(s, l, r, last).to_set() == without(last, l.to_set().union(r.to_set())),
    decreases l.len() + r.len(),
{
    let out = union_stream(s, l, r, last);
    if l.len() == 0 && r.len() == 0 {
        assert(out.to_set() =~= without(last, l.to_set().union(r.to_set())));
    } else {
        let take_left = l.len() > 0 && (r.len() == 0 || order_compare(s, l[0], r[0]) != Comparison::Greater);
        let both = take_left && r.len() > 0 && order_compare(s, l[0], r[0]) == Comparison::Equal;
        let x = if take_left { l[0] } else { r[0] };
        let l2 = if take_left { l.drop_first() } else { l };
        let r2 = if take_left { if both { r.drop_first() } else { r } } else { r.drop_first() };
        if l.len() > 0 {
            lemma_head(s, l);
        }
        if r.len() > 0 {
            lemma_head(s, r);
        }
        if both {
            T::lemma_compare_laws(l[0], r[0], r[0]);
            lemma_order_laws(s, l[0], r[0], r[0]);
            assert(l[0].spec_compare(r[0]) == Comparison::Equal);
            assert(l[0] == r[0]);
        }
        // everything left comes no earlier than x
        assert(none_before(s, Some(x), l2) && none_before(s, Some(x), r2)) by {
            if take_left {
                if r.len() > 0 && !both {
                    lemma_none_before_trans(s, x, r[0], r);
                }
                if both {
                    lemma_none_before_trans(s, x, r[0], r.drop_first());
                }
            } else {
                lemma_order_laws(s, l[0], r[0], r[0]);
                if l.len() > 0 {
                    lemma_none_before_trans(s, x, l[0], l);
                }
            }
        }
        assert(last matches Some(p) ==> order_le(s, p, x)) by {
            if let Some(p) = last {
                if take_left {
                    assert(order_le(s, p, l[0]));
                } else {
                    assert(order_le(s, p, r[0]));
                }
            }
        }
        let last2 = after(last, x);
        if let Some(p) = last {
            if repeats(last, x) {
                assert(last2 == last);
            }
        }
        assert(none_before(s, last2, l2) && none_before(s, last2, r2));
        lemma_union_rep(s, l2, r2, last2);
        let rest = union_stream(s, l2, r2, last2);
        assert(out == emit(last, x) + rest);
        let t = l2.to_set().union(r2.to_set());
        lemma_step(s, last, x, rest, t, t);
        assert(t.insert(x) =~= l.to_set().union(r.to_set()));
        assert(out.to_set() =~= without(last, l.to_set().union(r.to_set())));
    }
}

proof fn lemma_inter_rep<T: Item>(s: Sense, l: Seq<T>, r: Seq<T>, last: Option<T>)
    requires
        s != Sense::Unsorted,
        equal_is_same::<T>(),
        ordered(s, l),
        ordered(s, r),
        none_before(s, last, l),
        none_before(s, last, r),
    ensures
        strictly_ordered(s, inter_stream(s, l, r, last)),
        all_after(s, last, inter_stream(s, l, r, last)),
        inter_stream(s, l, r, last).to_set() == without(last, l.to_set().intersect(r.to_set())),
    decreases l.len() + r.len(),
{
    let out = inter_stream(s, l, r, last);
    if l.len() == 0 || r.len() == 0 {
        assert(out.to_set() =~= without(last, l.to_set().intersect(r.to_set())));
    } else {
        lemma_head(s, l);
        lemma_head(s, r);
        match order_compare(s, l[0], r[0]) {
            Comparison::Less => {
                lemma_inter_rep(s, l.drop_first(), r, last);
                assert(!r.to_set().contains(l[0])) by {
                    if r.to_set().contains(l[0]) {
                        lemma_set_after(s, r[0], r, l[0]);
                        lemma_order_laws(s, l[0], r[0], l[0]);
                    }
                }
                assert(out.to_set() =~= without(last, l.to_set().intersect(r.to_set())));
            },
            Comparison::Greater => {
                lemma_inter_rep(s, l, r.drop_first(), last);
                assert(!l.to_set().contains(r[0])) by {
                    if l.to_set().contains(r[0]) {
                        lemma_set_after(s, l[0], l, r[0]);
                        lemma_order_laws(s, r[0], l[0], r[0]);
                    }
                }
                assert(out.to_set() =~= without(last, l.to_set().intersect(r.to_set())));
            },
            Comparison::Equal => {
                let x = l[0];
                T::lemma_compare_laws(l[0], r[0], r[0]);
                lemma_order_laws(s, l[0], r[0], r[0]);
                assert(l[0].spec_compare(r[0]) == Comparison::Equal);
                assert(l[0] == r[0]);
                let last2 = after(last, x);
                assert(last matches Some(p) ==> order_le(s, p, x));
                assert(none_before(s, last2, l.drop_first()) && none_before(s, last2, r.drop_first()));
                lemma_inter_rep(s, l.drop_first(), r.drop_first(), last2);
                let rest = inter_stream(s, l.drop_first(), r.drop_first(), last2);
                assert(out == emit(last, x) + rest);
                let t = l.drop_first().to_set().intersect(r.drop_first().to_set());
                lemma_step(s, last, x, rest, t, t);
                assert(t.insert(x) =~= l.to_set().intersect(r.to_set()));
                assert(out.to_set() =~= without(last, l.to_set().intersect(r.to_set())));
            },
        }
    }
}

proof fn lemma_diff_rep<T: Item>(s: Sense, l: Seq<T>, r: Seq<T>, last: Option<T>)
    requires
        s != Sense::Unsorted,
        equal_is_same::<T>(),
        ordered(s, l),
        ordered(s, r),
        none_before(s, last, l),
    ensures
        strictly_ordered(s, diff_stream(s, l, r, last)),
        all_after(s, last, diff_stream(s, l, r, last)),
        diff_stream(s, l, r, last).to_set().subset_of(without(last, l.to_set())),
        without(last, l.to_set().difference(r.to_set())).subset_of(diff_stream(s, l, r, last).to_set()),
    decreases l.len() + r.len(),
{
    let out = diff_stream(s, l, r, last);
    if l.len() == 0 {
        assert(out.to_set() =~= Set::<T>::empty());
        assert(without(last, l.to_set().difference(r.to_set())) =~= Set::<T>::empty());
    } else {
        lemma_head(s, l);
        let x = l[0];
        if r.len() == 0 || order_compare(s, l[0], r[0]) == Comparison::Less {
            let last2 = after(last, x);
            assert(last matches Some(p) ==> order_le(s, p, x));
            assert(none_before(s, last2, l.drop_first()));
            lemma_diff_rep(s, l.drop_first(), r, last2);
            let rest = diff_stream(s, l.drop_first(), r, last2);
            assert(out == emit(last, x) + rest);
            lemma_step(s, last, x, rest, l.drop_first().to_set(), l.drop_first().to_set().difference(r.to_set()));
            assert(l.drop_first().to_set().insert(x) =~= l.to_set());
            assert forall|y: T| without(last, l.to_set().difference(r.to_set())).contains(y) implies out.to_set().contains(y) by {
                assert(without(last, l.drop_first().to_set().difference(r.to_set()).insert(x)).contains(y));
            }
        } else {
            lemma_head(s, r);
            if order_compare(s, l[0], r[0]) == Comparison::Equal {
                T::lemma_compare_laws(l[0], r[0], r[0]);
                lemma_order_laws(s, l[0], r[0], r[0]);
                assert(l[0].spec_compare(r[0]) == Comparison::Equal);
                assert(l[0] == r[0]);
                assert(none_before(s, last, l.drop_first())) by {
                    if let Some(p) = last {
                        lemma_none_before_trans(s, p, x, l.drop_first());
                    }
                }
                lemma_diff_rep(s, l.drop_first(), r.drop_first(), last);
                assert forall|y: T| out.to_set().contains(y) implies without(last, l.to_set()).contains(y) by {
                    assert(without(last, l.drop_first().to_set()).contains(y));
                }
                assert forall|y: T| without(last, l.to_set().difference(r.to_set())).contains(y) implies out.to_set().contains(y) by {
                    assert(y != x);
                    assert(without(last, l.drop_first().to_set().difference(r.drop_first().to_set())).contains(y));
                }
            } else {
                lemma_diff_rep(s, l, r.drop_first(), last);
                assert forall|y: T| without(last, l.to_set().difference(r.to_set())).contains(y) implies out.to_set().contains(y) by {
                    assert(without(last, l.to_set().difference(r.drop_first().to_set())).contains(y));
                }
            }
        }
    }
}

/// A union of two inputs in order, which may repeat items, hands out each
/// item of either input exactly once, strictly in order.
pub proof fn law_union_stream_repeated<T: Item>(s: Sense, l: Seq<T>, r: Seq<T>)
    requires
        s != Sense::Unsorted,
        equal_is_same::<T>(),
        ordered(s, l),
        ordered(s, r),
    ensures
        strictly_ordered(s, union_stream(s, l, r, None)),
        union_stream(s, l, r, None).to_set() == l.to_set().union(r.to_set()),
{
    lemma_union_rep(s, l, r, None);
}

/// An intersection of two inputs in order, which may repeat items, hands
/// out each item of both inputs exactly once, strictly in order.
pub proof fn law_inter_stream_repeated<T: Item>(s: Sense, l: Seq<T>, r: Seq<T>)
    requires
        s != Sense::Unsorted,
        equal_is_same::<T>(),
        ordered(s, l),
        ordered(s, r),
    ensures
        strictly_ordered(s, inter_stream(s, l, r, None)),
        inter_stream(s, l, r, None).to_set() == l.to_set().intersect(r.to_set()),
{
    lemma_inter_rep(s, l, r, None);
}

/// A difference of two inputs in order, which may repeat items, hands out
/// items of the left input, strictly in order (never one twice), among them
/// every one that the right input lacks.
pub proof fn law_diff_stream_repeated<T: Item>(s: Sense, l: Seq<T>, r: Seq<T>)
    requires
        s != Sense::Unsorted,
        equal_is_same::<T>(),
        ordered(s, l),
        ordered(s, r),
    ensures
        strictly_ordered(s, diff_stream(s, l, r, None)),
        diff_stream(s, l, r, None).to_set().subset_of(l.to_set()),
        l.to_set().difference(r.to_set()).subset_of(diff_stream(s, l, r, None).to_set()),
{
    lemma_diff_rep(s, l, r, None);
}

} // verus!
