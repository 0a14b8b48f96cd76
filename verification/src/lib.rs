//! A document-transformation library for JSON-like trees.
//!
//! Two stateless engines operate on an in-memory tree value:
//! a patch engine that applies an ordered list of add / remove / replace /
//! move / copy / test operations, addressed by pointers, and a merge engine
//! that folds one document into another with field-level override and
//! deletion-by-null semantics.

pub mod laws;
pub mod merge;
pub mod patch;
pub mod pointer;
pub mod value;
