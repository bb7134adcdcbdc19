//! Sentential logic: expressions are read into trees, evaluated, rewritten
//! by truth-preserving laws, and decided by enumerating assignments.

use vstd::prelude::*;

pub mod error;
pub mod expression_tree;
pub mod expression_var;
pub mod laws;
pub mod monotone;
pub mod negation;
pub mod node;
pub mod notation;
pub mod operator;
pub mod parser;
pub mod round_trip;
pub mod shell;
pub mod truth_table;
pub mod var_map;

pub use error::ExpressionTreeError;
pub use expression_tree::ExpressionTree;
pub use expression_var::{ExpressionVar, ExpressionVars};
pub use negation::Negation;
pub use node::Node;
pub use notation::OperatorNotation;
pub use operator::Operator;
pub use shell::Shell;
pub use var_map::VarMap;

verus! {

} // verus!
