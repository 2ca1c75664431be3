//! Batches, the operator interface, and the buffer that reads an operator
//! one item at a time.
use std::marker::PhantomData;
use vstd::prelude::*;
use vstd::std_specs::iter::IteratorSpec;

use crate::physical::order::Order;

verus! {

/// The most items that a scan adds to a batch.
pub const SCAN_BATCH_SIZE: usize = 1024;

/// The most items that a closure adds to a batch.
pub const CLOSURE_BATCH_SIZE: usize = 1024;

/// The most items that a set operator, map, filter or join adds to a batch.
pub const SET_BATCH_SIZE: usize = 1024;

/// Items handed out together by an operator tagged with order `O`.
pub struct Batch<T, O: Order> {
    pub data: Vec<T>,
    pub order: PhantomData<O>,
}

impl<T, O: Order> Batch<T, O> {
    pub fn new(data: Vec<T>) -> (r: Self)
        ensures
            r.data@ == data@,
    {
        Batch { data, order: PhantomData }
    }
}

/// A source of items, handed out in batches and tagged with order `O`.
/// `rest` is what the later calls of `next` hand out, in turn, and each
/// operator states it: constants, scans, the set operations, joins and
/// ranges hand out their items in order `O`; a closure hands out the items
/// it reaches in the order it meets them along the edges (`closure_stream`).
pub trait Operator<T, O: Order>: Sized {
    /// The operator's state is well formed.
    spec fn inv(&self) -> bool;

    /// The items still to come.
    spec fn rest(&self) -> Seq<T>;

    /// Fills the empty `batch` with the next items: a prefix of what is left,
    /// and not empty while anything is left.
    fn next(&mut self, batch: &mut Batch<T, O>)
        requires
            old(self).inv(),
            old(batch).data@.len() == 0,
        ensures
            final(self).inv(),
            old(self).rest() == final(batch).data@ + final(self).rest(),
            old(self).rest().len() > 0 ==> final(batch).data@.len() > 0,
    ;

    /// Every item still to come, in turn.
    fn collect_all(&mut self) -> (r: Vec<T>)
        requires
            old(self).inv(),
        ensures
            final(self).inv(),
            final(self).rest().len() == 0,
            r@ == old(self).rest(),
    {
        let mut out: Vec<T> = Vec::new();
        let mut done = false;
        while !done
            invariant
                self.inv(),
                old(self).rest() == out@ + self.rest(),
                done ==> self.rest().len() == 0,
            decreases self.rest().len() + if done { 0int } else { 1int },
        {
            let mut batch: Batch<T, O> = Batch::new(Vec::new());
            let ghost before = self.rest();
            let ghost o = out@;
            self.next(&mut batch);
            if batch.data.len() == 0 {
                done = true;
                proof {
                    assert(batch.data@ + self.rest() =~= self.rest());
                }
            } else {
                out.append(&mut batch.data);
                proof {
                    assert(o + before =~= out@ + self.rest());
                }
            }
        }
        proof {
            assert(out@ + self.rest() =~= out@);
        }
        out
    }

    /// An iterator over every item still to come, in turn.
    fn iter(&mut self) -> (r: std::vec::IntoIter<T>)
        requires
            old(self).inv(),
        ensures
            final(self).inv(),
            final(self).rest().len() == 0,
            r.remaining() == old(self).rest(),
    {
        let out = self.collect_all();
        proof {
            broadcast use vstd::std_specs::vec::axiom_spec_into_iter;
        }
        out.into_iter()
    }
}

/// An operator read one item at a time.
pub struct Buffered<T, Op: Operator<T, O>, O: Order> {
    operator: Op,
    buf: Vec<T>,
    pos: usize,
    order: PhantomData<O>,
}

impl<T: Copy, Op: Operator<T, O>, O: Order> Buffered<T, Op, O> {
    pub closed spec fn inv(&self) -> bool {
        self.operator.inv() && self.pos <= self.buf@.len()
    }

    /// The items still to come: the rest of the current batch, then the
    /// operator's.
    pub closed spec fn rest(&self) -> Seq<T> {
        self.buf@.skip(self.pos as int) + self.operator.rest()
    }

    pub fn new(operator: Op) -> (r: Self)
        requires
            operator.inv(),
        ensures
            r.inv(),
            r.rest() == operator.rest(),
    {
        let r = Buffered { operator, buf: Vec::new(), pos: 0, order: PhantomData };
        proof {
            assert(r.buf@.skip(0) =~= Seq::<T>::empty());
            assert(r.rest() =~= r.operator.rest());
        }
        r
    }

    /// The next item, if any is left.
    pub fn next_item(&mut self) -> (r: Option<T>)
        requires
            old(self).inv(),
        ensures
            final(self).inv(),
            match r {
                Some(x) => old(self).rest() == seq![x] + final(self).rest(),
                None => old(self).rest().len() == 0 && final(self).rest().len() == 0,
            },
    {
        if self.pos < self.buf.len() {
            let x = self.buf[self.pos];
            let ghost before = self.buf@.skip(self.pos as int);
            self.pos = self.pos + 1;
            proof {
                assert(before =~= seq![x] + self.buf@.skip(self.pos as int));
                assert(old(self).rest() =~= seq![x] + self.rest());
            }
            return Some(x);
        }
        let mut batch: Batch<T, O> = Batch::new(Vec::new());
        proof {
            assert(self.buf@.skip(self.pos as int) =~= Seq::<T>::empty());
            assert(old(self).rest() =~= self.operator.rest());
        }
        self.operator.next(&mut batch);
        if batch.data.len() == 0 {
            self.buf = batch.data;
            self.pos = 0;
            proof {
                assert(self.buf@.skip(0) =~= Seq::<T>::empty());
                assert(self.rest() =~= self.operator.rest());
            }
            None
        } else {
            let x = batch.data[0];
            self.buf = batch.data;
            self.pos = 1;
            proof {
                assert(self.buf@ =~= seq![x] + self.buf@.skip(1));
                assert(old(self).rest() =~= seq![x] + self.rest());
            }
            Some(x)
        }
    }
}

} // verus!
