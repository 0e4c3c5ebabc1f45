//! RTMP: publishing to an ingest server, and being one.

pub mod amf0;
pub mod amf0_laws;
pub mod chunk;
pub mod chunk_laws;
pub mod client;
pub mod command;
pub mod command_laws;
pub mod dialogue_laws;
pub mod handshake;
pub mod laws;
pub mod link;
pub mod link_laws;
pub mod server;
pub mod tags;

pub use crate::rtmp::chunk::{frame_message, ChunkReader, Message, CHUNK_SIZE, MAX_CHUNK_SIZE};
pub use crate::rtmp::client::{RtmpConfig, RtmpConnector, RtmpTransport, DEFAULT_TIMEOUT};
pub use crate::rtmp::tags::{FlvError, FlvTag, FlvTagParser};
