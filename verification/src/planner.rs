//! Query plans over revision metadata: their rewriting, their text form,
//! and their construction from parsed revsets.
pub mod expr;
pub mod fuel;
pub mod lower;
pub mod lowering;
pub mod rewrite;
pub mod shared;
pub mod tree;
pub mod vecs;

pub use expr::{Expr, Predicate, Vx};
pub use lower::{lower_jj_revset, LowerRevsetError, RevsetTree};
pub use rewrite::{Planner, RewriteRules};
pub use tree::ExprTree;
