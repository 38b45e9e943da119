//! An evaluator for a small attribute-set expression language.
//!
//! A value is a literal, a list, an attribute set or a variable reference.
//! Evaluation resolves references against a scope; bindings of an attribute
//! set that are tagged recursive can also see their siblings.
pub mod equality;
pub mod eval;
pub mod form;
pub mod laws;
pub mod scope;
pub mod semantics;
pub mod term;
pub mod value;
