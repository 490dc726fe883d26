//! The ways in which loading a model from its bytes, or generating from it,
//! can fail. Failures of the file system are for whoever reads the bytes.

use vstd::prelude::*;

verus! {

/// What is wrong with a configuration.
#[derive(Clone, Copy, Debug, PartialEq, Eq, Structural)]
pub enum ConfigFault {
    /// Header field number `field`, counted from zero, holds `value`, which
    /// is not positive; for the vocabulary field, which is zero.
    NotPositive { field: u8, value: i32 },
    /// The embedding width is not a multiple of the head count.
    HeadsDoNotDivide { dim: u32, num_heads: u32 },
    /// There are more key/value heads than query heads.
    TooManyKvHeads { num_kv_heads: u32, num_heads: u32 },
    /// A buffer that the dimensions ask for is longer than can be
    /// allocated.
    BuffersTooLarge,
}

/// Why the engine gave up. None of these is recoverable within a run: the
/// caller reports the error and stops.
#[derive(Clone, Copy, Debug, PartialEq, Eq, Structural)]
pub enum EngineError {
    /// The file holds `len` bytes, fewer than the fixed header.
    CorruptHeader { len: usize },
    /// The tensors that the header implies take `needed` bytes of file,
    /// header included, and the file holds only `available`.
    TruncatedCheckpoint { needed: u128, available: usize },
    /// The weight region could not be mapped, or there is none to map.
    MapFailed,
    /// The configuration describes no model that can be run.
    InvalidConfig { fault: ConfigFault },
    /// A position at or beyond the maximum sequence length was requested.
    SequenceOverflow { position: u32, seq_len: u32 },
    /// The sampler was handed a distribution without any mass.
    DegenerateDistribution,
}

} // verus!
