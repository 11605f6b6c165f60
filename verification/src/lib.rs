//! Bound inference for derived error types: which capabilities a generic
//! error needs from its type parameters, decided from a model of the
//! error's fields, display format and attributes.
pub mod chars;

pub mod format;
pub mod ty;
pub mod container;
pub mod bounds;
pub mod keyed;
pub mod display;
pub mod attrs;
pub mod payload;
pub mod recursive;
