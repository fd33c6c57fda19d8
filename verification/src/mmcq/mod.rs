//! Modified median cut quantization.

pub mod arena;
pub mod box_laws;
pub mod box_sums;
pub mod cells;
pub mod conserve;
pub mod cut;
pub mod cut_laws;
pub mod fullness;
pub mod histogram;
pub mod laws;
pub mod order;
pub mod rounds;
pub mod shares;
pub mod simd;
pub mod solid;
pub mod space;
pub mod split;
pub mod sums;
pub mod vbox;
pub mod workspace;
