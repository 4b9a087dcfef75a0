//! A verified slice of a dataframe query planner: logical data types and
//! the output-field rules of function expressions, arenas of expression
//! and plan nodes, and the predicate pushdown optimizer that runs on them.

pub mod aexpr;
pub mod alp;
pub mod arena;
pub mod datatypes;
pub mod error;
pub mod expr_walk;
pub mod function_expr;
pub mod names;
pub mod plan_schema;
pub mod plan_tree;
pub mod predicate_pushdown;
pub mod pyarrow;
pub mod supertype;
pub mod type_names;
