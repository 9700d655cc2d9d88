//! Transitive resolution of linked identifiers across independent relations.

pub mod adapter;
pub mod config;
pub mod index;
pub mod laws;
pub mod listing;
pub mod resolver;
pub mod text;
