//! Incremental construction of abstraction patterns over a small
//! lambda-calculus language, with the bookkeeping that a search over
//! patterns needs.
pub mod lang;
pub mod render;
pub mod tree;
pub mod counts;
pub mod fxmap;
pub mod shift;
pub mod revexpr;
pub mod pattern;
pub mod compare;
pub mod key;
pub mod canon;
pub mod laws;
pub mod depths;
pub mod ho;
pub mod search;
pub mod smc;
pub mod util;
