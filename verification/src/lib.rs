//! A trait-obligation fulfillment and associated-type projection engine.
//!
//! The engine decides whether a set of type-level obligations (trait
//! bounds, type equalities, outlives relations, associated-type
//! projections, well-formedness, const-evaluatable checks) holds,
//! normalizing associated-type references such as `<T as Trait>::Item` to
//! concrete types as a side effect.
//!
//! Types, traits and impls are modeled as plain data: every definition
//! lives in a [`tables::Tables`] value, and unresolved inference variables
//! are integer identifiers bound in an [`infer::InferCtxt`]. The engine
//! itself is the [`forest`] of obligations, the projection [`cache`], the
//! normalizer and candidate machinery in [`project`], and the [`fulfill`]
//! driver that runs the forest to a fixpoint; [`select`] and the
//! resolution and unification in [`infer`] are the capabilities those
//! components consume.

#![verifier::loop_isolation(false)]

pub mod cache;
pub mod forest;
pub mod fulfill;
pub mod infer;
pub mod predicate;
pub mod project;
pub mod select;
pub mod tables;
pub mod ty;
