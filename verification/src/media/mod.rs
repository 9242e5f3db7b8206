//! The media pipeline, payload-agnostic: the layer ladder, the layer-to-tree
//! mapping, chunks cut into 16 KB Merkle blocks with a signed manifest, FEC
//! symbol bookkeeping, chunk sources and the consumer-side reassembly.
use vstd::prelude::*;

pub mod ladder;
pub mod manifest;
pub mod mapping;
pub mod chunk;
pub mod fec;
pub mod sink;
pub mod source;

verus! {

/// Errors from the media pipeline.
#[derive(Debug, Clone, Copy, PartialEq, Eq)]
pub enum MediaError {
    /// A chunk exceeded the per-chunk block limit.
    TooManyBlocks {
        /// Blocks requested.
        blocks: usize,
    },
    /// Chunk described layers the ladder does not have.
    LayerCountMismatch {
        /// Layers in the chunk.
        got: usize,
        /// Layers in the ladder.
        expected: usize,
    },
    /// A block failed Merkle verification.
    BadBlock {
        /// Segment.
        segment: u32,
        /// Block index.
        block: u16,
    },
    /// A manifest signature did not verify.
    BadManifestSignature,
    /// RaptorQ could not reconstruct the block from the symbols given.
    Undecodable,
    /// A symbol had the wrong size.
    BadSymbolSize(usize),
    /// Mapping could not be built.
    Mapping(&'static str),
}

} // verus!
