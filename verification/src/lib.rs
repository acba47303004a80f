//! Build-time configuration compiler core.
//!
//! The engine merges layered variable-definition sources, applies structural
//! mutations (add / remove / replace at a path) to template documents, and
//! expands `(( name ))` placeholders with hierarchical wildcard fallback and
//! runtime-deferral semantics.  Documents are modelled by the [`value::Value`]
//! tree; every public operation carries a contract over the mathematical
//! model of that tree.

pub mod canon;
pub mod errors;
pub mod render;
pub mod expand;
pub mod mutate;
pub mod source;
pub mod strings;
pub mod value;
