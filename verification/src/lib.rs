//! Dominant-colour extraction with named palettes.
//!
//! [`extract`] finds the dominant colours of a frame and names each by the
//! nearest entry of a [`palette`]. [`codegen`] plans a palette's tables from
//! an upstream table and the ledger of permanent ids.

pub mod algorithm;
pub mod algorithm_laws;
pub mod buffer;
pub mod codegen;
pub mod color;
pub mod distance;
pub mod dominant;
pub mod extract;
pub mod extract_laws;
pub mod frame;
pub mod frame_laws;
pub mod mmcq;
pub mod nearest;
pub mod palette;
pub mod palette_laws;
pub mod sorting;
pub mod text;
pub mod text_laws;
