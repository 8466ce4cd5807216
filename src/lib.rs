//! An embedded document store: collections of typed records kept in append-only logs of
//! checksummed frames, an offset index rebuilt by replaying each log, a catalog of
//! collections, declarative search criteria and top-k ranking of similarity scores.
pub mod catalog;
pub mod codec;
pub mod errors;
pub mod filter;
pub mod log;
pub mod model;
pub mod ranking;
pub mod search;
pub mod sorting;
pub mod utils;
