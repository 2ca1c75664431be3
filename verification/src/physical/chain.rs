//! Chaining operators: every operator can be wrapped by the others.
use vstd::prelude::*;

use crate::physical::closure::{closure_stream, Closure};
use crate::physical::merge::{diff_stream, inter_stream, union_stream, Difference, Intersection, Union};
use crate::physical::operator::Operator;
use crate::physical::order::{Backwards, Forwards, Item, Opposite, Order, Rev, Sense};
use crate::physical::pipe::{decisive, functional, kept, mapped, Filter, MapEach};
use crate::physical::range::{dag_range_stream, DagRange};
use crate::physical::source::{Index, Reverse, Scan};

verus! {

/// The operators that can be built on top of any operator.
pub trait OperatorExt<T, O: Order>: Operator<T, O> {
    /// This operator's items, then those reached from them along `edges`.
    fn closure<V: Operator<(T, T), O>>(self, edges: V) -> (r: Closure<T, Self, V, O>)
        where T: Item + Copy
        requires
            self.inv(),
            edges.inv(),
        ensures
            r.inv(),
            r.rest() == closure_stream(O::sense(), self.rest(), None, edges.rest(), self.rest()),
    ;

    /// Each item mapped by `f`.
    fn map<U, F: Fn(T) -> U>(self, f: F) -> (r: MapEach<T, U, Self, F, O>)
        where T: Copy
        requires
            self.inv(),
            functional(f),
        ensures
            r.inv(),
            r.rest() == mapped(f, self.rest()),
    ;

    /// The items for which `predicate` holds.
    fn filter<F: Fn(&T) -> bool>(self, predicate: F) -> (r: Filter<T, Self, F, O>)
        where T: Copy
        requires
            self.inv(),
            decisive(predicate),
        ensures
            r.inv(),
            r.rest() == kept(predicate, self.rest()),
    ;

    /// The merge of this operator's items and `right`'s.
    fn union<V: Operator<T, O>>(self, right: V) -> (r: Union<T, Self, V, O>)
        where T: Item + Copy
        requires
            self.inv(),
            right.inv(),
        ensures
            r.inv(),
            r.rest() == union_stream(O::sense(), self.rest(), right.rest(), None),
    ;

    /// This operator's items matched in `right`.
    fn intersection<V: Operator<T, O>>(self, right: V) -> (r: Intersection<T, Self, V, O>)
        where T: Item + Copy
        requires
            self.inv(),
            right.inv(),
        ensures
            r.inv(),
            r.rest() == inter_stream(O::sense(), self.rest(), right.rest(), None),
    ;

    /// This operator's items not matched in `right`.
    fn difference<V: Operator<T, O>>(self, right: V) -> (r: Difference<T, Self, V, O>)
        where T: Item + Copy
        requires
            self.inv(),
            right.inv(),
        ensures
            r.inv(),
            r.rest() == diff_stream(O::sense(), self.rest(), right.rest(), None),
    ;

    /// The whole stream, reversed when `O` orders it.
    fn reverse<R: Order>(self) -> (r: Reverse<T, Self, O, R>)
        where O: Opposite<R>
        requires
            self.inv(),
        ensures
            r.inv(),
            r.rest() == if O::sense() == Sense::Unsorted {
                self.rest()
            } else {
                self.rest().reverse()
            },
    ;
}

impl<T, O: Order, X: Operator<T, O>> OperatorExt<T, O> for X {
    fn closure<V: Operator<(T, T), O>>(self, edges: V) -> (r: Closure<T, Self, V, O>)
        where T: Item + Copy
    {
        Closure::new(self, edges)
    }

    fn map<U, F: Fn(T) -> U>(self, f: F) -> (r: MapEach<T, U, Self, F, O>)
        where T: Copy
    {
        MapEach::new(self, f)
    }

    fn filter<F: Fn(&T) -> bool>(self, predicate: F) -> (r: Filter<T, Self, F, O>)
        where T: Copy
    {
        Filter::new(self, predicate)
    }

    fn union<V: Operator<T, O>>(self, right: V) -> (r: Union<T, Self, V, O>)
        where T: Item + Copy
    {
        Union::new(self, right)
    }

    fn intersection<V: Operator<T, O>>(self, right: V) -> (r: Intersection<T, Self, V, O>)
        where T: Item + Copy
    {
        Intersection::new(self, right)
    }

    fn difference<V: Operator<T, O>>(self, right: V) -> (r: Difference<T, Self, V, O>)
        where T: Item + Copy
    {
        Difference::new(self, right)
    }

    fn reverse<R: Order>(self) -> (r: Reverse<T, Self, O, R>)
        where O: Opposite<R>
    {
        Reverse::new(self)
    }
}

/// The graph operators over revisions in forward order.
pub trait ForwardExt: Operator<Rev, Forwards> {
    /// These revisions and their ancestors along the (child, parent) edges.
    fn ancestors<'a>(self, edges: &'a Index<(Rev, Rev), Forwards>) -> (r: Closure<Rev, Self, Scan<'a, (Rev, Rev), Forwards>, Forwards>)
        requires
            self.inv(),
        ensures
            r.inv(),
            r.rest() == closure_stream(Sense::Natural, self.rest(), None, edges.items(), self.rest()),
    ;
}

impl<X: Operator<Rev, Forwards>> ForwardExt for X {
    fn ancestors<'a>(self, edges: &'a Index<(Rev, Rev), Forwards>) -> (r: Closure<Rev, Self, Scan<'a, (Rev, Rev), Forwards>, Forwards>) {
        Closure::new(self, edges.scan())
    }
}

/// The graph operators over revisions in backward order.
pub trait BackwardExt: Operator<Rev, Backwards> {
    /// These revisions and their descendants along the (parent, child) edges.
    fn descendants<'a>(self, edges: &'a Index<(Rev, Rev), Backwards>) -> (r: Closure<Rev, Self, Scan<'a, (Rev, Rev), Backwards>, Backwards>)
        requires
            self.inv(),
        ensures
            r.inv(),
            r.rest() == closure_stream(Sense::Reversed, self.rest(), None, edges.items(), self.rest()),
    ;
}

impl<X: Operator<Rev, Backwards>> BackwardExt for X {
    fn descendants<'a>(self, edges: &'a Index<(Rev, Rev), Backwards>) -> (r: Closure<Rev, Self, Scan<'a, (Rev, Rev), Backwards>, Backwards>) {
        Closure::new(self, edges.scan())
    }
}

/// `x::y` over revisions of any order.
pub trait RangeExt<O: Order>: Operator<Rev, O> {
    /// The revisions that descend from these and lead to `y`'s.
    fn range<'a, Y: Operator<Rev, YO>, YO: Order>(
        self,
        y: Y,
        descendants: &'a Index<(Rev, Rev), Backwards>,
        ancestors: &'a Index<(Rev, Rev), Forwards>,
    ) -> (r: DagRange<'a, Self, Y, O, YO>)
        requires
            self.inv(),
            y.inv(),
        ensures
            r.inv(),
            r.rest() == dag_range_stream(self.rest(), y.rest(), ancestors.items()),
    ;
}

impl<O: Order, X: Operator<Rev, O>> RangeExt<O> for X {
    fn range<'a, Y: Operator<Rev, YO>, YO: Order>(
        self,
        y: Y,
        descendants: &'a Index<(Rev, Rev), Backwards>,
        ancestors: &'a Index<(Rev, Rev), Forwards>,
    ) -> (r: DagRange<'a, Self, Y, O, YO>) {
        DagRange::new(self, y, descendants, ancestors)
    }
}

} // verus!
