//! Traces a closed line drawn in an image and turns the traced points into
//! the offsets that the two cam disks of a drawing machine follow.

pub mod directions;
pub mod edge;
pub mod error;
pub mod image;
pub mod point;
pub mod region;
pub mod search;
pub mod tracing;
pub mod disk;
pub mod plotting;
