//! Real-media ingest for the publisher.
//!
//! * [`container`] — the application-level TLV framing inside each layer payload
//!   (INIT / MEDIA / META records). The protocol below it carries opaque bytes.
//! * [`mp4`] — a minimal ISO BMFF box splitter for ffmpeg's fragmented output.
//! * [`rendition`] — rendition specs and the per-chunk multiplexing of one
//!   fragment stream per simulcast rendition.
//!
//! Every rendition's INIT record is repeated in chunk 0 of every segment so a
//! late joiner can start within one second; players cache INITs per layer.
pub mod container;

pub mod mp4;


pub mod rendition;
