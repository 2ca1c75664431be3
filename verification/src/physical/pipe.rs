//! Operators that change items one at a time: `Map` and `Filter`.
use std::marker::PhantomData;
use vstd::prelude::*;

use crate::physical::operator::{Batch, Buffered, Operator, SET_BATCH_SIZE};
use crate::physical::order::Order;

verus! {

/// `f` can be called on every item and gives one result for each.
pub open spec fn functional<T, U, F: Fn(T) -> U>(f: F) -> bool {
    &&& forall|x: T| call_requires(f, (x,))
    &&& forall|x: T, y: U, z: U| call_ensures(f, (x,), y) && call_ensures(f, (x,), z) ==> y == z
}

/// What `f` gives for `x`.
pub open spec fn image<T, U, F: Fn(T) -> U>(f: F, x: T) -> U {
    choose|y: U| call_ensures(f, (x,), y)
}

/// `p` can be called on every item and gives one answer for each.
pub open spec fn decisive<T, F: Fn(&T) -> bool>(p: F) -> bool {
    &&& forall|x: T| call_requires(p, (&x,))
    &&& forall|x: T, a: bool, b: bool| call_ensures(p, (&x,), a) && call_ensures(p, (&x,), b) ==> a == b
}

/// What `p` answers for `x`.
pub open spec fn verdict<T, F: Fn(&T) -> bool>(p: F, x: T) -> bool {
    choose|a: bool| call_ensures(p, (&x,), a)
}

/// Each item mapped by `f`.
pub open spec fn mapped<T, U, F: Fn(T) -> U>(f: F, s: Seq<T>) -> Seq<U> {
    s.map_values(|x: T| image(f, x))
}

/// The items for which `p` holds, in order.
pub open spec fn kept<T, F: Fn(&T) -> bool>(p: F, s: Seq<T>) -> Seq<T>
    decreases s.len(),
{
    if s.len() == 0 {
        Seq::empty()
    } else {
        (if verdict(p, s[0]) {
            seq![s[0]]
        } else {
            Seq::empty()
        }) + kept(p, s.drop_first())
    }
}

/// Applies `f` to each item of its input.
pub struct MapEach<T, U, Op: Operator<T, O>, F, O: Order> {
    input: Buffered<T, Op, O>,
    f: F,
    output: PhantomData<U>,
}

impl<T: Copy, U, Op: Operator<T, O>, F: Fn(T) -> U, O: Order> MapEach<T, U, Op, F, O> {
    pub fn new(input: Op, f: F) -> (r: Self)
        requires
            input.inv(),
            functional(f),
        ensures
            r.inv(),
            r.rest() == mapped(f, input.rest()),
    {
        MapEach { input: Buffered::new(input), f, output: PhantomData }
    }
}

impl<T: Copy, U, Op: Operator<T, O>, F: Fn(T) -> U, O: Order> Operator<U, O> for MapEach<T, U, Op, F, O> {
    closed spec fn inv(&self) -> bool {
        self.input.inv() && functional(self.f)
    }

    closed spec fn rest(&self) -> Seq<U> {
        mapped(self.f, self.input.rest())
    }

    /// Hands out up to `SET_BATCH_SIZE` items.
    fn next(&mut self, batch: &mut Batch<U, O>)
        ensures
            final(batch).data@.len() <= SET_BATCH_SIZE,
            final(batch).data@.len() < SET_BATCH_SIZE ==> final(self).rest().len() == 0,
    {
        let ghost start = self.rest();
        let mut done = false;
        while batch.data.len() < SET_BATCH_SIZE && !done
            invariant
                self.inv(),
                batch.data@.len() <= SET_BATCH_SIZE,
                start == batch.data@ + self.rest(),
                done ==> self.rest().len() == 0,
            decreases self.input.rest().len() + if done { 0int } else { 1int },
        {
            let ghost before = self.input.rest();
            match self.input.next_item() {
                None => {
                    done = true;
                    proof {
                        assert(self.rest() =~= Seq::<U>::empty());
                        assert(start =~= batch.data@ + self.rest());
                    }
                },
                Some(x) => {
                    let y = (self.f)(x);
                    proof {
                        assert(image(self.f, x) == y);
                        assert(mapped(self.f, before) =~= seq![y] + mapped(self.f, self.input.rest()));
                    }
                    batch.data.push(y);
                    proof {
                        assert(start =~= batch.data@ + self.rest());
                    }
                },
            }
        }
    }
}

/// Keeps the items of its input for which `predicate` holds.
pub struct Filter<T, Op: Operator<T, O>, F, O: Order> {
    input: Buffered<T, Op, O>,
    predicate: F,
}

impl<T: Copy, Op: Operator<T, O>, F: Fn(&T) -> bool, O: Order> Filter<T, Op, F, O> {
    pub fn new(input: Op, predicate: F) -> (r: Self)
        requires
            input.inv(),
            decisive(predicate),
        ensures
            r.inv(),
            r.rest() == kept(predicate, input.rest()),
    {
        Filter { input: Buffered::new(input), predicate }
    }
}

impl<T: Copy, Op: Operator<T, O>, F: Fn(&T) -> bool, O: Order> Operator<T, O> for Filter<T, Op, F, O> {
    closed spec fn inv(&self) -> bool {
        self.input.inv() && decisive(self.predicate)
    }

    closed spec fn rest(&self) -> Seq<T> {
        kept(self.predicate, self.input.rest())
    }

    /// Reads up to `SET_BATCH_SIZE` items of its input; hands out those kept.
    fn next(&mut self, batch: &mut Batch<T, O>) {
        let ghost start = self.rest();
        let mut done = false;
        let mut found = false;
        while batch.data.len() < SET_BATCH_SIZE && !done
            invariant
                self.inv(),
                batch.data@.len() <= SET_BATCH_SIZE,
                start == batch.data@ + self.rest(),
                done ==> self.rest().len() == 0,
            decreases self.input.rest().len() + if done { 0int } else { 1int },
        {
            let ghost before = self.input.rest();
            match self.input.next_item() {
                None => {
                    done = true;
                    proof {
                        assert(self.rest() =~= Seq::<T>::empty());
                        assert(start =~= batch.data@ + self.rest());
                    }
                },
                Some(x) => {
                    let keep = (self.predicate)(&x);
                    proof {
                        assert(verdict(self.predicate, x) == keep);
                        assert(before[0] == x);
                        assert(before.drop_first() =~= self.input.rest());
                    }
                    if keep {
                        batch.data.push(x);
                    }
                    proof {
                        assert(start =~= batch.data@ + self.rest());
                    }
                },
            }
        }
    }
}

} // verus!
