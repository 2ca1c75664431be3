//! Query evaluation over a commit graph.
pub mod built;
pub mod dag;
pub mod lang;
pub mod logical;
pub mod optimize;
pub mod physical;
pub mod planner;
pub mod render;
pub mod sets;
pub mod text;
pub mod tree;

pub use dag::{Batch, Dag, DagBuilder, Relation, Vx};
pub use logical::{Evaluator, Expr};
pub use optimize::{Planner, RewriteRules};
pub use tree::ExprTree;
