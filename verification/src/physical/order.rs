//! Revisions, the orders that streams of items follow, and sorting by them.
use vstd::prelude::*;

verus! {

/// A revision. Newer revisions carry higher numbers and come first in the
/// natural order.
#[derive(Clone, Copy, Debug, PartialEq, Eq, Structural, Hash)]
pub struct Rev(pub u32);

impl Rev {
    pub open spec fn lowest_spec() -> Rev {
        Rev(u32::MAX)
    }

    pub open spec fn highest_spec() -> Rev {
        Rev(0)
    }

    /// The revision that comes first in the natural order (the oldest
    /// possible one comes last).
    #[verifier::when_used_as_spec(lowest_spec)]
    pub fn lowest() -> (r: Rev)
        ensures
            r == Rev::lowest_spec(),
    {
        Rev(u32::MAX)
    }

    /// The revision that comes last in the natural order.
    #[verifier::when_used_as_spec(highest_spec)]
    pub fn highest() -> (r: Rev)
        ensures
            r == Rev::highest_spec(),
    {
        Rev(0)
    }
}

/// The outcome of comparing two items.
#[derive(Clone, Copy, Debug, PartialEq, Eq, Structural)]
pub enum Comparison {
    Less,
    Equal,
    Greater,
}

/// The comparison seen from the other side.
pub open spec fn flip(c: Comparison) -> Comparison {
    match c {
        Comparison::Less => Comparison::Greater,
        Comparison::Equal => Comparison::Equal,
        Comparison::Greater => Comparison::Less,
    }
}

/// Items that operators order: a total preorder, decided by `compare`.
pub trait Item: Sized {
    /// The natural order of items.
    spec fn spec_compare(self, other: Self) -> Comparison;

    /// The natural order is a total preorder.
    proof fn lemma_compare_laws(a: Self, b: Self, c: Self)
        ensures
            a.spec_compare(a) == Comparison::Equal,
            b.spec_compare(a) == flip(a.spec_compare(b)),
            a.spec_compare(b) != Comparison::Greater && b.spec_compare(c) != Comparison::Greater
                ==> a.spec_compare(c) != Comparison::Greater,
            a.spec_compare(b) == Comparison::Less && b.spec_compare(c) != Comparison::Greater
                ==> a.spec_compare(c) == Comparison::Less,
            a.spec_compare(b) != Comparison::Greater && b.spec_compare(c) == Comparison::Less
                ==> a.spec_compare(c) == Comparison::Less,
            a.spec_compare(b) == Comparison::Equal && b.spec_compare(c) == Comparison::Equal
                ==> a.spec_compare(c) == Comparison::Equal,
    ;

    /// Compares by the natural order.
    fn compare(&self, other: &Self) -> (c: Comparison)
        ensures
            c == self.spec_compare(*other),
    ;
}

/// Revisions order newest first: a higher number comes before a lower one.
impl Item for Rev {
    open spec fn spec_compare(self, other: Self) -> Comparison {
        if self.0 > other.0 {
            Comparison::Less
        } else if self.0 == other.0 {
            Comparison::Equal
        } else {
            Comparison::Greater
        }
    }

    proof fn lemma_compare_laws(a: Self, b: Self, c: Self) {
    }

    fn compare(&self, other: &Self) -> (c: Comparison) {
        if self.0 > other.0 {
            Comparison::Less
        } else if self.0 == other.0 {
            Comparison::Equal
        } else {
            Comparison::Greater
        }
    }
}

impl Item for i32 {
    open spec fn spec_compare(self, other: Self) -> Comparison {
        if self < other {
            Comparison::Less
        } else if self == other {
            Comparison::Equal
        } else {
            Comparison::Greater
        }
    }

    proof fn lemma_compare_laws(a: Self, b: Self, c: Self) {
    }

    fn compare(&self, other: &Self) -> (c: Comparison) {
        if *self < *other {
            Comparison::Less
        } else if *self == *other {
            Comparison::Equal
        } else {
            Comparison::Greater
        }
    }
}

/// Lexicographic order of character sequences, by code point.
pub open spec fn chars_compare(a: Seq<char>, b: Seq<char>) -> Comparison
    decreases a.len(),
{
    if a.len() == 0 {
        if b.len() == 0 {
            Comparison::Equal
        } else {
            Comparison::Less
        }
    } else if b.len() == 0 {
        Comparison::Greater
    } else if (a[0] as u32) < (b[0] as u32) {
        Comparison::Less
    } else if (a[0] as u32) > (b[0] as u32) {
        Comparison::Greater
    } else {
        chars_compare(a.drop_first(), b.drop_first())
    }
}

proof fn lemma_chars_compare(a: Seq<char>, b: Seq<char>, c: Seq<char>)
    ensures
        chars_compare(a, a) == Comparison::Equal,
        chars_compare(b, a) == flip(chars_compare(a, b)),
        chars_compare(a, b) != Comparison::Greater && chars_compare(b, c) != Comparison::Greater
            ==> chars_compare(a, c) != Comparison::Greater,
        chars_compare(a, b) == Comparison::Less && chars_compare(b, c) != Comparison::Greater
            ==> chars_compare(a, c) == Comparison::Less,
        chars_compare(a, b) != Comparison::Greater && chars_compare(b, c) == Comparison::Less
            ==> chars_compare(a, c) == Comparison::Less,
        chars_compare(a, b) == Comparison::Equal && chars_compare(b, c) == Comparison::Equal
            ==> chars_compare(a, c) == Comparison::Equal,
    decreases a.len(),
{
    if a.len() > 0 && b.len() > 0 && c.len() > 0 {
        lemma_chars_compare(a.drop_first(), b.drop_first(), c.drop_first());
    } else if a.len() > 0 && b.len() > 0 {
        lemma_chars_compare(a.drop_first(), b.drop_first(), b.drop_first());
    } else if a.len() > 0 {
        lemma_chars_compare(a.drop_first(), a.drop_first(), a.drop_first());
    }
}

/// Strings order lexicographically by code point, as `str` does.
impl<'a> Item for &'a str {
    open spec fn spec_compare(self, other: Self) -> Comparison {
        chars_compare(self@, other@)
    }

    proof fn lemma_compare_laws(a: Self, b: Self, c: Self) {
        lemma_chars_compare(a@, b@, c@);
    }

    fn compare(&self, other: &Self) -> (c: Comparison) {
        let n = self.unicode_len();
        let m = other.unicode_len();
        let mut i: usize = 0;
        proof {
            assert(self@.skip(0) =~= self@);
            assert(other@.skip(0) =~= other@);
        }
        while i < n && i < m
            invariant
                n == self@.len(),
                m == other@.len(),
                i <= n,
                i <= m,
                chars_compare(self@, other@) == chars_compare(self@.skip(i as int), other@.skip(i as int)),
            decreases n - i,
        {
            let x = self.get_char(i);
            let y = other.get_char(i);
            let xu = x as u32;
            let yu = y as u32;
            proof {
                assert(self@.skip(i as int)[0] == x);
                assert(other@.skip(i as int)[0] == y);
                assert(self@.skip(i as int).drop_first() =~= self@.skip(i + 1));
                assert(other@.skip(i as int).drop_first() =~= other@.skip(i + 1));
            }
            if xu < yu {
                return Comparison::Less;
            } else if xu > yu {
                return Comparison::Greater;
            }
            i = i + 1;
        }
        if i < n {
            Comparison::Greater
        } else if i < m {
            Comparison::Less
        } else {
            Comparison::Equal
        }
    }
}

/// Pairs order by their first part, then by their second.
impl<A: Item, B: Item> Item for (A, B) {
    open spec fn spec_compare(self, other: Self) -> Comparison {
        match self.0.spec_compare(other.0) {
            Comparison::Equal => self.1.spec_compare(other.1),
            c => c,
        }
    }

    proof fn lemma_compare_laws(a: Self, b: Self, c: Self) {
        A::lemma_compare_laws(a.0, b.0, c.0);
        B::lemma_compare_laws(a.1, b.1, c.1);
    }

    fn compare(&self, other: &Self) -> (c: Comparison) {
        match self.0.compare(&other.0) {
            Comparison::Equal => self.1.compare(&other.1),
            c => c,
        }
    }
}

/// The order of a stream: the natural order of its items, its reverse, or
/// none.
#[derive(Clone, Copy, Debug, PartialEq, Eq, Structural)]
pub enum Sense {
    Natural,
    Reversed,
    Unsorted,
}

/// A type that names the order of a stream.
pub trait Order {
    spec fn sense() -> Sense;

    fn get_sense() -> (s: Sense)
        ensures
            s == Self::sense(),
    ;
}

/// Children before parents: the natural order of revisions, newest first.
#[derive(Debug)]
pub struct Forwards;

/// Parents before children: oldest first.
#[derive(Debug)]
pub struct Backwards;

/// No order.
#[derive(Debug)]
pub struct Unordered;

impl Order for Forwards {
    open spec fn sense() -> Sense {
        Sense::Natural
    }

    fn get_sense() -> (s: Sense) {
        Sense::Natural
    }
}

impl Order for Backwards {
    open spec fn sense() -> Sense {
        Sense::Reversed
    }

    fn get_sense() -> (s: Sense) {
        Sense::Reversed
    }
}

impl Order for Unordered {
    open spec fn sense() -> Sense {
        Sense::Unsorted
    }

    fn get_sense() -> (s: Sense) {
        Sense::Unsorted
    }
}

/// `R` is the order that reversing a stream of order `Self` gives.
pub trait Opposite<R: Order>: Order {
}

impl Opposite<Backwards> for Forwards {
}

impl Opposite<Forwards> for Backwards {
}

impl Opposite<Unordered> for Unordered {
}

/// How two items compare in a stream of the given sense (always equal when
/// the stream has no order).
pub open spec fn order_compare<T: Item>(s: Sense, a: T, b: T) -> Comparison {
    match s {
        Sense::Natural => a.spec_compare(b),
        Sense::Reversed => b.spec_compare(a),
        Sense::Unsorted => Comparison::Equal,
    }
}

/// `a` does not come after `b` in a stream of the given sense.
pub open spec fn order_le<T: Item>(s: Sense, a: T, b: T) -> bool {
    order_compare(s, a, b) != Comparison::Greater
}

/// The sequence follows the sense.
pub open spec fn ordered<T: Item>(s: Sense, q: Seq<T>) -> bool {
    forall|i: int, j: int| #![trigger q[i], q[j]] 0 <= i <= j < q.len() ==> order_le(s, q[i], q[j])
}

/// The comparison laws, for a stream of any sense.
pub proof fn lemma_order_laws<T: Item>(s: Sense, a: T, b: T, c: T)
    ensures
        order_compare(s, a, a) == Comparison::Equal,
        order_compare(s, b, a) == flip(order_compare(s, a, b)),
        order_le(s, a, b) && order_le(s, b, c) ==> order_le(s, a, c),
        order_compare(s, a, b) == Comparison::Less && order_le(s, b, c) ==> order_compare(s, a, c) == Comparison::Less,
        order_le(s, a, b) && order_compare(s, b, c) == Comparison::Less ==> order_compare(s, a, c) == Comparison::Less,
{
    T::lemma_compare_laws(a, b, c);
    T::lemma_compare_laws(c, b, a);
    T::lemma_compare_laws(b, a, c);
}

/// Two ordered arrangements of the same items are the same sequence, for
/// items that compare equal only to themselves.
pub proof fn lemma_ordered_unique<T: Item>(s: Sense, a: Seq<T>, b: Seq<T>)
    requires
        s != Sense::Unsorted,
        ordered(s, a),
        ordered(s, b),
        a.to_multiset() == b.to_multiset(),
        forall|x: T, y: T| x.spec_compare(y) == Comparison::Equal ==> x == y,
    ensures
        a == b,
    decreases a.len(),
{
    broadcast use vstd::seq_lib::group_to_multiset_ensures;

    assert(a.len() == a.to_multiset().len());
    assert(b.len() == b.to_multiset().len());
    if a.len() == 0 {
        assert(b.len() == 0);
        assert(a =~= b);
    } else {
        let x = a.last();
        let y = b.last();
        assert(a.to_multiset().count(y) > 0);
        assert(b.to_multiset().count(x) > 0);
        assert(a.contains(y));
        assert(b.contains(x));
        let i = choose|i: int| 0 <= i < a.len() && a[i] == y;
        let j = choose|j: int| 0 <= j < b.len() && b[j] == x;
        assert(order_le(s, a[i], a[a.len() - 1]));
        assert(order_le(s, b[j], b[b.len() - 1]));
        lemma_order_laws(s, x, y, x);
        T::lemma_compare_laws(x, y, x);
        assert(x == y);
        let a1 = a.drop_last();
        let b1 = b.drop_last();
        assert(a =~= a1.push(x));
        assert(b =~= b1.push(x));
        assert(a1.to_multiset() =~= b1.to_multiset()) by {
            assert forall|z: T| a1.to_multiset().count(z) == b1.to_multiset().count(z) by {
                assert(a1.push(x).to_multiset().count(z) == b1.push(x).to_multiset().count(z));
            }
        }
        assert(ordered(s, a1));
        assert(ordered(s, b1));
        lemma_ordered_unique(s, a1, b1);
    }
}

/// Compares two items as a stream of order `O` does.
pub fn compare_in<T: Item, O: Order>(a: &T, b: &T) -> (c: Comparison)
    ensures
        c == order_compare(O::sense(), *a, *b),
{
    match O::get_sense() {
        Sense::Natural => a.compare(b),
        Sense::Reversed => b.compare(a),
        Sense::Unsorted => Comparison::Equal,
    }
}

/// The first position in `v` (ordered by `O`) whose item does not come after
/// `x`'s successors: every item before it is not after `x`, none from it on
/// is.
fn upper_bound_in<T: Item + Copy, O: Order>(v: &Vec<T>, x: &T) -> (p: usize)
    requires
        ordered(O::sense(), v@),
    ensures
        p <= v.len(),
        forall|i: int| 0 <= i < p ==> order_le(O::sense(), #[trigger] v@[i], *x),
        forall|i: int| p <= i < v.len() ==> order_compare(O::sense(), *x, #[trigger] v@[i]) == Comparison::Less,
{
    let mut lo: usize = 0;
    let mut hi: usize = v.len();
    while lo < hi
        invariant
            lo <= hi <= v.len(),
            ordered(O::sense(), v@),
            forall|i: int| 0 <= i < lo ==> order_le(O::sense(), #[trigger] v@[i], *x),
            forall|i: int| hi <= i < v.len() ==> order_compare(O::sense(), *x, #[trigger] v@[i]) == Comparison::Less,
        decreases hi - lo,
    {
        let mid = lo + (hi - lo) / 2;
        let c = compare_in::<T, O>(&v[mid], x);
        if c != Comparison::Greater {
            proof {
                assert forall|i: int| 0 <= i < mid + 1 implies order_le(O::sense(), #[trigger] v@[i], *x) by {
                    lemma_order_laws(O::sense(), v@[i], v@[mid as int], *x);
                }
            }
            lo = mid + 1;
        } else {
            proof {
                assert forall|i: int| mid <= i < v.len() implies order_compare(O::sense(), *x, #[trigger] v@[i]) == Comparison::Less by {
                    lemma_order_laws(O::sense(), *x, v@[mid as int], v@[i]);
                    lemma_order_laws(O::sense(), v@[mid as int], *x, v@[i]);
                }
            }
            hi = mid;
        }
    }
    lo
}

/// The items of `data` in order `O`: a sorted permutation when `O` orders,
/// `data` unchanged when it does not. Items that compare equal keep their
/// relative order.
pub fn sort_in<T: Item + Copy, O: Order>(data: Vec<T>) -> (r: Vec<T>)
    ensures
        O::sense() == Sense::Unsorted ==> r@ == data@,
        r@.to_multiset() == data@.to_multiset(),
        ordered(O::sense(), r@),
{
    if O::get_sense() == Sense::Unsorted {
        return data;
    }
    broadcast use vstd::seq_lib::to_multiset_insert, vstd::seq_lib::to_multiset_build;

    let mut r: Vec<T> = Vec::new();
    let mut i: usize = 0;
    proof {
        assert(data@.subrange(0, 0) =~= Seq::<T>::empty());
        assert(r@ =~= Seq::<T>::empty());
    }
    while i < data.len()
        invariant
            i <= data.len(),
            ordered(O::sense(), r@),
            r@.to_multiset() == data@.subrange(0, i as int).to_multiset(),
        decreases data.len() - i,
    {
        let x = data[i];
        let p = upper_bound_in::<T, O>(&r, &x);
        let ghost old_r = r@;
        r.insert(p, x);
        proof {
            old_r.insert_ensures(p as int, x);
            assert forall|a: int, b: int| 0 <= a <= b < r@.len() implies order_le(O::sense(), #[trigger] r@[a], #[trigger] r@[b]) by {
                lemma_order_laws(O::sense(), r@[a], r@[a], r@[b]);
                if b < p {
                } else if b == p {
                    if a < p {
                    }
                } else if a < p {
                    assert(r@[b] == old_r[b - 1]);
                    lemma_order_laws(O::sense(), r@[a], x, r@[b]);
                } else if a == p {
                    assert(r@[b] == old_r[b - 1]);
                    lemma_order_laws(O::sense(), x, r@[b], r@[b]);
                } else {
                    assert(r@[a] == old_r[a - 1]);
                    assert(r@[b] == old_r[b - 1]);
                }
            }
            assert(data@.subrange(0, i + 1) =~= data@.subrange(0, i as int).push(x));
            vstd::seq_lib::to_multiset_insert(old_r, p as int, x);
            vstd::seq_lib::to_multiset_build(data@.subrange(0, i as int), x);
        }
        i = i + 1;
    }
    proof {
        assert(data@.subrange(0, data.len() as int) =~= data@);
    }
    r
}

} // verus!
