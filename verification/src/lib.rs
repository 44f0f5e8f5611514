//! A verified storage engine for an S3-style object store: buckets, objects,
//! in-memory indexes kept in step with a modelled directory tree, and content
//! deduplication with reference counting.

pub mod api;
pub mod clearing;
pub mod config;
pub mod consistency;
pub mod dict;
pub mod disk;
pub mod effects;
pub mod error;
pub mod laws;
pub mod layout;
pub mod listing;
pub mod models;
pub mod restart;
pub mod rules;
pub mod services;
pub mod state;
pub mod text;
pub mod utils;
pub mod versions;
