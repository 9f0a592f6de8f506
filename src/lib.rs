//! Similarity index over ssdeep digests: digest decomposition into window
//! keys, key sanitizing, candidate discovery and the store writes of one
//! ingestion, with a model of the store that the laws are stated over.

pub mod text;
pub mod digest;
pub mod sanitize;
pub mod store;
pub mod model;
pub mod artifact;
pub mod hashes;
