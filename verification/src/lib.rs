//! Verified core of a podcast transcription editing backend.
//!
//! The relational rows (episodes, speakers, parts, sentences, words) live
//! in an in-memory [`store::Store`]; the denormalized `text` columns are
//! kept consistent by the recomputation in [`recompute`]; the full-text
//! index over part texts is an embedded search engine held behind trusted
//! wrappers in [`index`]; [`import`] bulk-loads a transcription and
//! [`reflow`] applies an editor's repartition of a part's words. The HTTP,
//! persistence and serialization edges live outside this crate and hand it
//! plain values.

pub mod auth;
pub mod import;
pub mod index;
pub mod model;
pub mod query;
pub mod recompute;
pub mod reflow;
pub mod store;
pub mod text;

use vstd::prelude::*;

verus! {

/// Error taxonomy of the backend, mirrored as plain data.
#[derive(Clone, Debug, PartialEq, Eq)]
pub enum Error {
    /// A row was not found, or a path-supplied parent id did not match.
    NotFound,
    /// A request failed validation; the message says which rule broke.
    BadRequest(String),
    /// The caller's role is below the route's threshold.
    Unauthorized(String),
    /// An engine or resource failure, wrapped generically.
    Message(String),
}

} // verus!
