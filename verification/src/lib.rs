//! A live-streaming core: codec helpers, container muxing, and the protocols
//! that carry encoded media from a capture device to an ingest server.

pub mod backpressure;
pub mod batch;
pub mod bytes;
pub mod clock;
pub mod codecs;
pub mod doubles;
pub mod engine;
pub mod engine_laws;
pub mod figures;
pub mod flv;
pub mod hls;
pub mod io;
pub mod models;
pub mod mux;
pub mod mux_laws;
pub mod outputs;
pub mod rounding;
pub mod rtmp;
pub mod session;
pub mod sha256;
pub mod sink;
pub mod telemetry;
pub mod telemetry_laws;
pub mod text;
pub mod transport;
