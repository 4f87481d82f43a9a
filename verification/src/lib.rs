//! Verified core of the herdr sidebar's workspace overview.

pub mod strs;
pub mod paths;
pub mod delta;
pub mod name_status;
pub mod workspace;
