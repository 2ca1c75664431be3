//! A streaming engine: operators that hand out ordered batches of items.
pub mod chain;
pub mod closure;
pub mod join;
pub mod merge;
pub mod operator;
pub mod order;
pub mod pipe;
pub mod range;
pub mod source;

pub use chain::{BackwardExt, ForwardExt, OperatorExt, RangeExt};
pub use closure::Closure;
pub use join::MergeJoin;
pub use merge::{Difference, Intersection, Union};
pub use operator::{Batch, Buffered, Operator, CLOSURE_BATCH_SIZE, SCAN_BATCH_SIZE, SET_BATCH_SIZE};
pub use order::{Backwards, Comparison, Forwards, Item, Opposite, Order, Rev, Sense, Unordered};
pub use pipe::{Filter, MapEach};
pub use range::{DagRange, RevRange};
pub use source::{Constant, Index, Replay, Reverse, Scan};
