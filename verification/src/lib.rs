//! Field-error aggregation for structured-record decoding.
//!
//! Instead of aborting at the first invalid or missing field, a decoder
//! built from this crate decodes every field it can, collects every
//! per-field failure in a [`validator::StructValidator`], and reports them
//! together as one structured diagnostic.

pub mod pattern;
pub mod validator;
pub mod json;
pub mod decoder;
