//! Query execution.

pub mod aggregate;
pub mod aggregate_laws;
pub mod batch;
pub mod bgp;
pub mod bindings;
pub mod boundness;
pub mod builtin;
pub mod builtin_laws;
pub mod construct;
pub mod decode;
pub mod executor;
pub mod expr;
pub mod expr_laws;
pub mod group;
pub mod group_laws;
pub mod invariance;
pub mod join;
pub mod kinds;
pub mod literal;
pub mod literal_laws;
pub mod mem;
pub mod narrow;
pub mod narrow_group;
pub mod narrow_join;
pub mod number;
pub mod operator_laws;
pub mod operators;
pub mod order;
pub mod order_laws;
pub mod path;
pub mod path_laws;
pub mod query_laws;
pub mod rdf;
pub mod refs;
pub mod runtime;
pub mod scope;
pub mod sort;
pub mod store;
pub mod store_laws;
pub mod strings;
pub mod value_laws;
pub mod widening;
