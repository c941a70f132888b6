//! Sources of input chunks.

use vstd::prelude::*;

verus! {

/// A source that hands out its input a chunk at a time: `Ok(None)` once it is
/// exhausted.
pub trait ReadChunks {
    fn next_chunk(&mut self) -> Result<Option<Vec<u8>>, std::io::Error>;
}

} // verus!
