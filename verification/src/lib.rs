//! Disk monitoring: which mounted filesystems to report and in which order,
//! which files take up the most space on each of them, and what to answer to
//! those who ask.

pub mod cache;
pub mod clock;
pub mod model;
pub mod routes;
pub mod sampler;
pub mod scan;
pub mod scanner;
pub mod source;
pub mod text;
