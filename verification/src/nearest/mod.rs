//! Nearest-neighbour searches over palette distances.

pub mod lanes;
pub mod lut;
pub mod prefilter;
pub mod scan;
pub mod search_laws;
