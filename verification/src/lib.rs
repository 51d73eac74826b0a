//! A deferred-reference resolver for structured, configuration-like
//! documents.
//!
//! A document is a tree of [`value::Value`]s: atoms (null, booleans,
//! numbers, text), ordered sequences, and ordered key/value mappings.
//! Evaluating a document against a mutable environment rewrites every
//! atom that names a known key into the value that key ultimately points
//! to, following indirection chains.  Mappings double as binding
//! statements: their resolved entries are merged into the environment and
//! become visible to everything evaluated afterwards in the same
//! traversal.  A chain of bindings that loops back on itself is detected
//! and reported as an error instead of being followed forever.

pub mod chase;
pub mod env;
pub mod eval;
pub mod laws;
pub mod value;

pub use env::Env;
pub use eval::eval;
pub use eval::EvalError;
pub use value::Value;
pub use value::ValueModel;
