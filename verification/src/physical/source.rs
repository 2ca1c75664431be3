//! Operators that read stored items: constants, index scans, and the
//! reversal of a whole stream.
use std::marker::PhantomData;
use vstd::prelude::*;

use crate::physical::operator::{Batch, Operator, SCAN_BATCH_SIZE};
use crate::physical::order::{
    compare_in, lemma_order_laws, order_compare, ordered, sort_in, Comparison, Item, Opposite,
    Order, Sense,
};

verus! {

/// The given items, handed out in order `O` in a single batch.
pub struct Constant<T, O: Order> {
    data: Vec<T>,
    order: PhantomData<O>,
}

impl<T: Item + Copy, O: Order> Constant<T, O> {
    /// Sorts `data` into order `O` (keeps it as given when `O` has no order).
    pub fn new(data: Vec<T>) -> (r: Self)
        ensures
            r.inv(),
            O::sense() == Sense::Unsorted ==> r.rest() == data@,
            r.rest().to_multiset() == data@.to_multiset(),
            ordered(O::sense(), r.rest()),
    {
        Constant { data: sort_in::<T, O>(data), order: PhantomData }
    }
}

impl<T: Item + Copy, O: Order> Operator<T, O> for Constant<T, O> {
    closed spec fn inv(&self) -> bool {
        true
    }

    closed spec fn rest(&self) -> Seq<T> {
        self.data@
    }

    /// Hands out every item at once.
    fn next(&mut self, batch: &mut Batch<T, O>)
        ensures
            final(batch).data@ == old(self).rest(),
    {
        std::mem::swap(&mut self.data, &mut batch.data);
    }
}

/// Items already in order `O`, handed out as given in a single batch.
pub struct Replay<T, O: Order> {
    data: Vec<T>,
    order: PhantomData<O>,
}

impl<T, O: Order> Replay<T, O> {
    pub fn new(data: Vec<T>) -> (r: Self)
        ensures
            r.inv(),
            r.rest() == data@,
    {
        Replay { data, order: PhantomData }
    }
}

impl<T, O: Order> Operator<T, O> for Replay<T, O> {
    closed spec fn inv(&self) -> bool {
        true
    }

    closed spec fn rest(&self) -> Seq<T> {
        self.data@
    }

    /// Hands out every item at once.
    fn next(&mut self, batch: &mut Batch<T, O>)
        ensures
            final(batch).data@ == old(self).rest(),
    {
        std::mem::swap(&mut self.data, &mut batch.data);
    }
}

/// Stored items in order `O`, to be scanned.
pub struct Index<T: Item, O: Order> {
    data: Vec<T>,
    order: PhantomData<O>,
}

impl<T: Item, O: Order> Index<T, O> {
    #[verifier::type_invariant]
    spec fn index_inv(self) -> bool {
        ordered(O::sense(), self.data@)
    }
}

impl<T: Item + Copy, O: Order> Index<T, O> {
    /// The stored items.
    pub closed spec fn items(&self) -> Seq<T> {
        self.data@
    }

    /// Sorts `data` into order `O` (keeps it as given when `O` has no order).
    pub fn new(data: Vec<T>) -> (r: Self)
        ensures
            O::sense() == Sense::Unsorted ==> r.items() == data@,
            r.items().to_multiset() == data@.to_multiset(),
            ordered(O::sense(), r.items()),
    {
        Index { data: sort_in::<T, O>(data), order: PhantomData }
    }

    /// A scan of every item.
    pub fn scan(&self) -> (r: Scan<'_, T, O>)
        ensures
            r.inv(),
            r.source() == self.items(),
            r.position() == 0,
            r.end() is None,
            r.rest() == self.items(),
    {
        proof {
            use_type_invariant(self);
            lemma_scan_all(O::sense(), self.data@, 0);
            assert(self.data@.skip(0) =~= self.data@);
        }
        Scan { index: self, i: 0, end: None }
    }
}

/// The items of `items` from position `i` on, up to the first that comes
/// after `end`.
pub open spec fn scan_rest<T: Item>(s: Sense, items: Seq<T>, i: int, end: Option<T>) -> Seq<T>
    decreases items.len() - i,
{
    if i < 0 || i >= items.len() {
        Seq::empty()
    } else if end matches Some(e) && order_compare(s, items[i], e) == Comparison::Greater {
        Seq::empty()
    } else {
        seq![items[i]] + scan_rest(s, items, i + 1, end)
    }
}

/// How many of `items` come before `x`.
pub open spec fn before_count<T: Item>(s: Sense, items: Seq<T>, x: T) -> nat
    decreases items.len(),
{
    if items.len() == 0 {
        0
    } else {
        before_count(s, items.drop_last(), x) + if order_compare(s, items.last(), x) == Comparison::Less {
            1nat
        } else {
            0nat
        }
    }
}

proof fn lemma_scan_all<T: Item>(s: Sense, items: Seq<T>, i: int)
    requires
        0 <= i <= items.len(),
    ensures
        scan_rest(s, items, i, None) == items.skip(i),
    decreases items.len() - i,
{
    if i < items.len() {
        lemma_scan_all(s, items, i + 1);
        assert(items.skip(i) =~= seq![items[i]] + items.skip(i + 1));
    } else {
        assert(items.skip(i) =~= Seq::<T>::empty());
    }
}

proof fn lemma_before_count<T: Item>(s: Sense, items: Seq<T>, x: T, p: int)
    requires
        0 <= p <= items.len(),
        forall|j: int| 0 <= j < p ==> order_compare(s, #[trigger] items[j], x) == Comparison::Less,
        forall|j: int| p <= j < items.len() ==> order_compare(s, #[trigger] items[j], x) != Comparison::Less,
    ensures
        before_count(s, items, x) == p,
    decreases items.len(),
{
    if items.len() > 0 {
        if p == items.len() {
            lemma_before_count(s, items.drop_last(), x, p - 1);
        } else {
            lemma_before_count(s, items.drop_last(), x, p);
        }
    }
}

/// Reads an index from a position, up to an optional end.
pub struct Scan<'a, T: Item, O: Order> {
    index: &'a Index<T, O>,
    i: usize,
    end: Option<T>,
}

impl<'a, T: Item + Copy, O: Order> Scan<'a, T, O> {
    /// The items of the index scanned.
    pub closed spec fn source(&self) -> Seq<T> {
        self.index.items()
    }

    /// Where the scan stands.
    pub closed spec fn position(&self) -> int {
        self.i as int
    }

    /// The last item the scan may reach, if any.
    pub closed spec fn end(&self) -> Option<T> {
        self.end
    }

    /// Starts the scan at the first item that does not come before `start`.
    pub fn with_start(self, start: T) -> (r: Self)
        requires
            self.inv(),
        ensures
            r.inv(),
            r.source() == self.source(),
            r.end() == self.end(),
            r.position() == before_count(O::sense(), self.source(), start),
            r.rest() == scan_rest(O::sense(), r.source(), r.position(), r.end()),
    {
        proof {
            use_type_invariant(self.index);
        }
        let data = &self.index.data;
        let mut lo: usize = 0;
        let mut hi: usize = data.len();
        while lo < hi
            invariant
                lo <= hi <= data.len(),
                ordered(O::sense(), data@),
                forall|j: int| 0 <= j < lo ==> order_compare(O::sense(), #[trigger] data@[j], start) == Comparison::Less,
                forall|j: int| hi <= j < data.len() ==> order_compare(O::sense(), #[trigger] data@[j], start) != Comparison::Less,
            decreases hi - lo,
        {
            let mid = lo + (hi - lo) / 2;
            let c = compare_in::<T, O>(&data[mid], &start);
            if c == Comparison::Less {
                proof {
                    assert forall|j: int| 0 <= j < mid + 1 implies order_compare(O::sense(), #[trigger] data@[j], start) == Comparison::Less by {
                        lemma_order_laws(O::sense(), data@[j], data@[mid as int], start);
                    }
                }
                lo = mid + 1;
            } else {
                proof {
                    assert forall|j: int| mid <= j < data.len() implies order_compare(O::sense(), #[trigger] data@[j], start) != Comparison::Less by {
                        lemma_order_laws(O::sense(), data@[mid as int], data@[j], start);
                        lemma_order_laws(O::sense(), start, data@[mid as int], data@[j]);
                    }
                }
                hi = mid;
            }
        }
        proof {
            lemma_before_count(O::sense(), data@, start, lo as int);
        }
        Scan { index: self.index, i: lo, end: self.end }
    }

    /// Stops the scan before the first item that comes after `end`.
    pub fn with_end(self, end: T) -> (r: Self)
        requires
            self.inv(),
        ensures
            r.inv(),
            r.source() == self.source(),
            r.position() == self.position(),
            r.end() == Some(end),
            r.rest() == scan_rest(O::sense(), r.source(), r.position(), r.end()),
    {
        Scan { index: self.index, i: self.i, end: Some(end) }
    }
}

impl<'a, T: Item + Copy, O: Order> Operator<T, O> for Scan<'a, T, O> {
    closed spec fn inv(&self) -> bool {
        self.i <= self.index.items().len()
    }

    closed spec fn rest(&self) -> Seq<T> {
        scan_rest(O::sense(), self.index.items(), self.i as int, self.end)
    }

    /// Hands out up to `SCAN_BATCH_SIZE` items.
    fn next(&mut self, batch: &mut Batch<T, O>)
        ensures
            final(batch).data@.len() <= SCAN_BATCH_SIZE,
            final(batch).data@.len() < SCAN_BATCH_SIZE ==> final(self).rest().len() == 0,
    {
        let ghost items = self.index.items();
        let ghost start = self.rest();
        let mut done = false;
        while batch.data.len() < SCAN_BATCH_SIZE && self.i < self.index.data.len() && !done
            invariant
                items == self.index.items(),
                self.i <= items.len(),
                batch.data@.len() <= SCAN_BATCH_SIZE,
                start == batch.data@ + self.rest(),
                done ==> self.rest().len() == 0,
            decreases items.len() - self.i + if done { 0int } else { 1int },
        {
            let x = self.index.data[self.i];
            let stop = match &self.end {
                Some(e) => compare_in::<T, O>(&x, e) == Comparison::Greater,
                None => false,
            };
            if stop {
                done = true;
                proof {
                    assert(self.rest() =~= Seq::<T>::empty());
                    assert(start =~= batch.data@ + self.rest());
                }
            } else {
                batch.data.push(x);
                self.i = self.i + 1;
                proof {
                    assert(start =~= batch.data@ + self.rest());
                }
            }
        }
        proof {
            if self.i >= items.len() {
                assert(self.rest() =~= Seq::<T>::empty());
            }
        }
    }
}

/// The whole stream of an operator, reversed when its order is a real
/// order, handed out at once.
pub struct Reverse<T, Op: Operator<T, O>, O: Order, R: Order> {
    input: Option<Op>,
    order: PhantomData<(T, O, R)>,
}

impl<T, Op: Operator<T, O>, O: Opposite<R>, R: Order> Reverse<T, Op, O, R> {
    pub fn new(input: Op) -> (r: Self)
        requires
            input.inv(),
        ensures
            r.inv(),
            r.rest() == if O::sense() == Sense::Unsorted {
                input.rest()
            } else {
                input.rest().reverse()
            },
    {
        Reverse { input: Some(input), order: PhantomData }
    }
}

impl<T, Op: Operator<T, O>, O: Opposite<R>, R: Order> Operator<T, R> for Reverse<T, Op, O, R> {
    closed spec fn inv(&self) -> bool {
        match self.input {
            Some(op) => op.inv(),
            None => true,
        }
    }

    closed spec fn rest(&self) -> Seq<T> {
        match self.input {
            Some(op) => if O::sense() == Sense::Unsorted {
                op.rest()
            } else {
                op.rest().reverse()
            },
            None => Seq::empty(),
        }
    }

    /// Hands out every item at once.
    fn next(&mut self, batch: &mut Batch<T, R>)
        ensures
            final(batch).data@ == old(self).rest(),
    {
        let taken = self.input.take();
        match taken {
            Some(mut op) => {
                let mut data = op.collect_all();
                if O::get_sense() != Sense::Unsorted {
                    let mut out: Vec<T> = Vec::new();
                    let ghost all = data@;
                    while data.len() > 0
                        invariant
                            all.reverse() == out@ + data@.reverse(),
                        decreases data.len(),
                    {
                        let ghost d = data@;
                        let x = data.pop().unwrap();
                        out.push(x);
                        proof {
                            assert(d =~= data@.push(x));
                            assert(d.reverse() =~= seq![x] + data@.reverse());
                            assert(all.reverse() =~= out@ + data@.reverse());
                        }
                    }
                    proof {
                        assert(out@ + data@.reverse() =~= out@);
                    }
                    data = out;
                }
                batch.data = data;
            },
            None => {},
        }
    }
}

} // verus!
