//! An embeddable Atomic Data store: a triple-oriented, URI-keyed graph
//! database with a signed append-only commit log, a triple-pattern index,
//! an authorization evaluator, and a collection/pagination engine.
//!
//! Resources are identified by URL subjects; each resource is a set of
//! (property URL → value) pairs whose property schema is itself stored as
//! resources in the same graph. Signed commits are the only write path;
//! every mutation rewrites the triple-pattern index in the same step.

pub mod atoms;
pub mod authentication;
pub mod collections;
pub mod commits;
pub mod errors;
pub mod helpers;
pub mod laws;
pub mod populate;
pub mod query;
pub mod resources;
pub mod serialize;
pub mod store;
pub mod text;
pub mod urls;
pub mod values;
