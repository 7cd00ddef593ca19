//! Core of a terminal live streamer.

pub mod alis;
pub mod asciicast;
pub mod cli;
pub mod client;
pub mod compressor;
pub mod hub;
pub mod input;
pub mod lzw_compressor;
pub mod lzw_laws;
pub mod lzw_model;
pub mod raw;
pub mod single;
pub mod sse;
pub mod stream;
pub mod terminal;

pub use stream::Seconds;
pub use stream::StreamEvent;
