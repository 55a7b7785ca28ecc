//! A uniform spatial hash grid for point agents on a 2D plane.
//!
//! Agents are indexed by the cell that holds their position, and square range
//! queries visit only the cells that overlap the query box.
pub mod geometry;
pub mod grid_info;
pub mod query;
pub mod grid;
