//! Signed distance fields of two-colour square images, computed exactly with a
//! pyramid of merged class tags and a branch-and-bound nearest-pixel search.

pub mod functions;
pub mod grid;
pub mod mipmap;
pub mod sdf_algorithm;
pub mod sdf_task;
pub mod search_model;
pub mod partition;
pub mod guarantees;
