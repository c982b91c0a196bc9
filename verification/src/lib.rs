//! Connectivity analysis of an undirected social graph: degree ranking,
//! connected components, hop distances and path-length totals.
pub mod walks;
pub mod input;
pub mod store;
pub mod rank;
pub mod components;
pub mod distance;
pub mod pipeline;
