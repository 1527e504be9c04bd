//! Semantic search over embedding vectors: a store of fixed-length vectors laid out end to end,
//! cosine ranking with a boost for the concept that a query falls under, and the pairs of rows
//! that bridge two concepts.
//!
//! Numbers are carried as bit patterns (see [`scalar`]); what is computed with them goes through
//! [`numerics::Numerics`], so every contract holds whatever arithmetic the caller brings.

pub mod scalar;
pub mod numerics;
pub mod parallel;
pub mod ranking;
pub mod index;
pub mod text;
pub mod vectors;
pub mod search;
pub mod concepts;
pub mod service;
