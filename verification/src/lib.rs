//! Player search for a table-tennis ratings service: query planning, an
//! inverted name index with an exact member-id map, and the token
//! classification that feeds name scoring.
pub mod hits;
pub mod index;
pub mod query;
pub mod response;
pub mod scoring;
pub mod text;
