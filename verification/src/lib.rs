//! In-process data layer for a local task-management application.
//!
//! The crate owns three record collections — todos, recurring plans, and a
//! derived history of completions and generated occurrences — and exposes a
//! CRUD-plus-refresh surface over them.  Every mutation is specified against a
//! mathematical view of the collections; a text codec with a proved
//! decode-of-encode round trip gives the caller lossless persistence.

pub mod model;
pub mod store;
pub mod history;
pub mod refresh;
pub mod surface;
pub mod codec;
