//! Deterministic content generation for an anti-crawler tarpit.
//!
//! The library turns a request path into a reproducible pseudo-random
//! stream and drives a statistical text model with it to assemble a
//! complete synthetic page: a title, a body of paragraphs, an author
//! line and a list of link anchors.  The same salt and path always
//! produce the same page; distinct paths almost always produce
//! distinct pages.  The model is built once from a corpus, persisted
//! in a plain text snapshot, and never mutated afterwards.

pub mod assemble;
pub mod chain;
pub mod codec;
pub mod service;
pub mod startup;
pub mod stream;
pub mod text;
