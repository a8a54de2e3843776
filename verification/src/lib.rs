//! Derives a structural schema from grammar rule expressions and builds
//! arena-resident typed parse trees from untyped, rule-tagged parse nodes.

pub mod builder;
pub mod expr;
pub mod schema;
pub mod tree;
pub mod untyped;
