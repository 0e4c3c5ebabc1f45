//! Codec-level helpers: the little the pipeline needs to know about H.264 and
//! AAC to build container headers.

pub mod aac;
pub mod bits;
pub mod h264;
pub mod sps_laws;
pub mod unit_laws;
