//! Verified core of a local-first document library: text cleaning and passage
//! chunking, settings validation, hybrid-search fusion, evidence preparation for
//! grounded answers, and the bookkeeping rules of indexing and storage.
pub mod text;
pub mod models;
pub mod chunking;
pub mod redrob;
pub mod search;
pub mod extract;
pub mod indexing;
pub mod library;
