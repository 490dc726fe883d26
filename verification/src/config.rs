//! Model dimensions, and the checkpoint header that carries them.
//!
//! A checkpoint starts with seven little-endian 32-bit signed fields: `dim`,
//! `hidden_dim`, `num_layers`, `num_heads`, `num_kv_heads`, `vocab_size`,
//! `seq_len`. The sign of the vocabulary field says whether the classifier
//! shares the token embedding table (positive) or has a matrix of its own
//! (negative); its magnitude is the vocabulary size.

use vstd::prelude::*;
use crate::error::{ConfigFault, EngineError};

verus! {

/// Length of the header in bytes.
pub const HEADER_BYTES: usize = 28;

/// The unsigned 32-bit number that four bytes at `at` spell, lowest byte first.
pub open spec fn le_u32(bytes: Seq<u8>, at: int) -> int {
    bytes[at] + 0x100 * bytes[at + 1] + 0x1_0000 * bytes[at + 2] + 0x100_0000 * bytes[at + 3]
}

/// Reads the little-endian 32-bit word that starts at byte `at`.
pub fn read_u32_le(bytes: &[u8], at: usize) -> (word: u32)
    requires
        at + 4 <= bytes@.len(),
    ensures
        word == le_u32(bytes@, at as int),
{
    let b0: u32 = bytes[at] as u32;
    let b1: u32 = bytes[at + 1] as u32;
    let b2: u32 = bytes[at + 2] as u32;
    let b3: u32 = bytes[at + 3] as u32;
    b0 + 0x100 * b1 + 0x1_0000 * b2 + 0x100_0000 * b3
}

/// The two's-complement value of a 32-bit word.
pub open spec fn signed(word: int) -> int {
    if word < 0x8000_0000 {
        word
    } else {
        word - 0x1_0000_0000
    }
}

/// Field `k` of the header, as the signed number it encodes.
pub open spec fn header_field(bytes: Seq<u8>, k: int) -> int {
    signed(le_u32(bytes, 4 * k))
}

/// Transformer configuration
#[derive(Clone, Copy, Debug, PartialEq, Eq, Structural)]
pub struct TransformerConfig {
    /// transformer dimension
    pub dim: u32,
    /// for ffn layers
    pub hidden_dim: u32,
    /// number of layers
    pub num_layers: u32,
    /// number of query heads
    pub num_heads: u32,
    /// number of key/value heads (can be < query heads because of multiquery)
    pub num_kv_heads: u32,
    /// vocabulary size
    pub vocab_size: u32,
    /// max sequence length
    pub seq_len: u32,
}

impl Default for TransformerConfig {
    /// The configuration of no model: every dimension is zero.
    fn default() -> (config: TransformerConfig)
        ensures
            config == TransformerConfig::unset(),
    {
        TransformerConfig {
            dim: 0,
            hidden_dim: 0,
            num_layers: 0,
            num_heads: 0,
            num_kv_heads: 0,
            vocab_size: 0,
            seq_len: 0,
        }
    }
}

impl TransformerConfig {
    /// The configuration of no model: every dimension is zero.
    pub open spec fn unset() -> TransformerConfig {
        TransformerConfig {
            dim: 0,
            hidden_dim: 0,
            num_layers: 0,
            num_heads: 0,
            num_kv_heads: 0,
            vocab_size: 0,
            seq_len: 0,
        }
    }

    /// Every dimension is positive, the heads divide the embedding width
    /// evenly, and no key/value head is left without a query head.
    pub open spec fn valid(&self) -> bool {
        &&& self.dim >= 1
        &&& self.hidden_dim >= 1
        &&& self.num_layers >= 1
        &&& self.num_heads >= 1
        &&& self.num_kv_heads >= 1
        &&& self.vocab_size >= 1
        &&& self.seq_len >= 1
        &&& self.dim % self.num_heads == 0
        &&& self.num_kv_heads <= self.num_heads
    }

    /// Width of one attention head.
    pub open spec fn spec_head_size(&self) -> int {
        self.dim as int / self.num_heads as int
    }

    /// Width of a key or value vector: one head width per key/value head.
    pub open spec fn spec_kv_dim(&self) -> int {
        self.spec_head_size() * self.num_kv_heads
    }

    /// The key/value head that serves query head `head`: the heads are cut
    /// into `num_kv_heads` consecutive groups.
    pub open spec fn spec_kv_head(&self, head: int) -> int {
        head * self.num_kv_heads / self.num_heads as int
    }

    /// The heads tile the embedding width exactly, and a key or value
    /// vector is no wider than it.
    pub proof fn lemma_head_size(&self)
        requires
            self.valid(),
        ensures
            1 <= self.spec_head_size() <= self.dim,
            self.spec_head_size() * self.num_heads == self.dim,
            1 <= self.spec_kv_dim() <= self.dim,
    {
        let d = self.dim as int;
        let h = self.num_heads as int;
        let k = self.num_kv_heads as int;
        let s = d / h;
        assert(d == h * s + d % h) by (nonlinear_arith)
            requires h > 0, s == d / h;
        assert(s >= 1 && s <= d) by (nonlinear_arith)
            requires d == h * s, h >= 1, d >= 1;
        assert(s * h == d) by (nonlinear_arith)
            requires d == h * s;
        assert(1 <= s * k <= d) by (nonlinear_arith)
            requires s * h == d, 1 <= k <= h, s >= 1;
    }

    /// Width of one attention head.
    pub fn head_size(&self) -> (width: u32)
        requires
            self.valid(),
        ensures
            width == self.spec_head_size(),
    {
        self.dim / self.num_heads
    }

    /// Width of a key or value vector.
    pub fn kv_dim(&self) -> (width: u32)
        requires
            self.valid(),
        ensures
            width == self.spec_kv_dim(),
    {
        proof {
            self.lemma_head_size();
        }
        (self.dim / self.num_heads) * self.num_kv_heads
    }

    /// The key/value head that serves query head `head`.
    pub fn kv_head(&self, head: u32) -> (group: u32)
        requires
            self.valid(),
            head < self.num_heads,
        ensures
            group == self.spec_kv_head(head as int),
            group < self.num_kv_heads,
    {
        proof {
            self.lemma_kv_head(head as int);
        }
        let wide: u64 = (head as u64) * (self.num_kv_heads as u64) / (self.num_heads as u64);
        wide as u32
    }

    /// A query head is always served by an existing key/value head.
    pub proof fn lemma_kv_head(&self, head: int)
        requires
            self.valid(),
            0 <= head < self.num_heads,
        ensures
            0 <= self.spec_kv_head(head) < self.num_kv_heads,
            0 <= head * self.num_kv_heads <= 0xFFFF_FFFF * 0xFFFF_FFFF,
    {
        let h = self.num_heads as int;
        let k = self.num_kv_heads as int;
        assert(0 <= head * k < h * k) by (nonlinear_arith)
            requires 0 <= head < h, k >= 1;
        assert(h * k <= 0xFFFF_FFFF * 0xFFFF_FFFF) by (nonlinear_arith)
            requires 0 <= h <= 0xFFFF_FFFF, 0 <= k <= 0xFFFF_FFFF;
        assert(0 <= (head * k) / h < k) by (nonlinear_arith)
            requires 0 <= head * k < h * k, h >= 1;
    }

    /// Where the key/value heads divide the query heads evenly, each serves
    /// `num_heads / num_kv_heads` consecutive query heads.
    pub proof fn lemma_kv_head_even_groups(&self, head: int)
        requires
            self.valid(),
            0 <= head < self.num_heads,
            self.num_heads % self.num_kv_heads == 0,
        ensures
            self.spec_kv_head(head) == head / (self.num_heads as int / self.num_kv_heads as int),
    {
        let h = self.num_heads as int;
        let k = self.num_kv_heads as int;
        let g = h / k;
        assert(h == k * g) by (nonlinear_arith)
            requires k > 0, g == h / k, h % k == 0;
        assert(g >= 1) by (nonlinear_arith)
            requires h == k * g, h >= 1, k >= 1;
        let q = head / g;
        let r = head % g;
        assert(head == g * q + r && 0 <= r < g) by (nonlinear_arith)
            requires g > 0, q == head / g, r == head % g;
        assert(head * k == h * q + r * k) by (nonlinear_arith)
            requires head == g * q + r, h == k * g;
        assert(0 <= r * k < h) by (nonlinear_arith)
            requires 0 <= r < g, h == k * g, k >= 1;
        assert((h * q + r * k) / h == q) by (nonlinear_arith)
            requires 0 <= r * k < h, h > 0;
    }
}

/// What the header of a checkpoint says.
#[derive(Clone, Copy, Debug, PartialEq, Eq, Structural)]
pub struct CheckpointHeader {
    /// The dimensions, the vocabulary size without its sign.
    pub config: TransformerConfig,
    /// Whether the classifier reuses the token embedding table.
    pub shared_weights: bool,
}

/// The header's fields describe a model: the dimensions are positive, the
/// vocabulary field is not zero, the head count divides the embedding
/// width, and there are no more key/value heads than query heads.
pub open spec fn header_acceptable(bytes: Seq<u8>) -> bool {
    &&& header_field(bytes, 0) > 0
    &&& header_field(bytes, 1) > 0
    &&& header_field(bytes, 2) > 0
    &&& header_field(bytes, 3) > 0
    &&& header_field(bytes, 4) > 0
    &&& header_field(bytes, 5) != 0
    &&& header_field(bytes, 6) > 0
    &&& header_field(bytes, 0) % header_field(bytes, 3) == 0
    &&& header_field(bytes, 4) <= header_field(bytes, 3)
}

/// The first thing that is wrong with a header: the first field that is
/// not positive, or else the head count that does not divide the embedding
/// width, or else the key/value heads that outnumber the query heads.
pub open spec fn header_fault(bytes: Seq<u8>) -> Option<ConfigFault> {
    if header_field(bytes, 0) <= 0 {
        Some(ConfigFault::NotPositive { field: 0, value: header_field(bytes, 0) as i32 })
    } else if header_field(bytes, 1) <= 0 {
        Some(ConfigFault::NotPositive { field: 1, value: header_field(bytes, 1) as i32 })
    } else if header_field(bytes, 2) <= 0 {
        Some(ConfigFault::NotPositive { field: 2, value: header_field(bytes, 2) as i32 })
    } else if header_field(bytes, 3) <= 0 {
        Some(ConfigFault::NotPositive { field: 3, value: header_field(bytes, 3) as i32 })
    } else if header_field(bytes, 4) <= 0 {
        Some(ConfigFault::NotPositive { field: 4, value: header_field(bytes, 4) as i32 })
    } else if header_field(bytes, 5) == 0 {
        Some(ConfigFault::NotPositive { field: 5, value: 0 })
    } else if header_field(bytes, 6) <= 0 {
        Some(ConfigFault::NotPositive { field: 6, value: header_field(bytes, 6) as i32 })
    } else if header_field(bytes, 0) % header_field(bytes, 3) != 0 {
        Some(
            ConfigFault::HeadsDoNotDivide {
                dim: header_field(bytes, 0) as u32,
                num_heads: header_field(bytes, 3) as u32,
            },
        )
    } else if header_field(bytes, 4) > header_field(bytes, 3) {
        Some(
            ConfigFault::TooManyKvHeads {
                num_kv_heads: header_field(bytes, 4) as u32,
                num_heads: header_field(bytes, 3) as u32,
            },
        )
    } else {
        None
    }
}

/// A header is acceptable exactly when nothing is wrong with it.
pub proof fn lemma_fault_iff_unacceptable(bytes: Seq<u8>)
    ensures
        header_acceptable(bytes) <==> header_fault(bytes) is None,
{
}

/// The configuration that an acceptable header encodes.
pub open spec fn header_config(bytes: Seq<u8>) -> TransformerConfig {
    let vocab = header_field(bytes, 5);
    TransformerConfig {
        dim: header_field(bytes, 0) as u32,
        hidden_dim: header_field(bytes, 1) as u32,
        num_layers: header_field(bytes, 2) as u32,
        num_heads: header_field(bytes, 3) as u32,
        num_kv_heads: header_field(bytes, 4) as u32,
        vocab_size: (if vocab < 0 { -vocab } else { vocab }) as u32,
        seq_len: header_field(bytes, 6) as u32,
    }
}

/// Whether the header asks for a classifier that shares the embedding table.
pub open spec fn header_shared(bytes: Seq<u8>) -> bool {
    header_field(bytes, 5) > 0
}

/// The sign of the vocabulary field decides the classifier, its magnitude
/// is the vocabulary size: a header that says `-V` asks for a classifier of
/// its own over `V` tokens, one that says `V` for a shared one.
pub proof fn lemma_vocabulary_sign(bytes: Seq<u8>)
    requires
        header_acceptable(bytes),
    ensures
        header_field(bytes, 5) < 0 ==> !header_shared(bytes) && header_config(bytes).vocab_size
            == -header_field(bytes, 5),
        header_field(bytes, 5) > 0 ==> header_shared(bytes) && header_config(bytes).vocab_size
            == header_field(bytes, 5),
        header_config(bytes).valid(),
{
}

/// Reads the header at the start of a checkpoint.
///
/// Fails with `CorruptHeader` exactly when fewer than `HEADER_BYTES` bytes
/// are there, and with `InvalidConfig` exactly when the header is complete
/// but not acceptable; the error then names the first fault.
pub fn parse_header(bytes: &[u8]) -> (parsed: Result<CheckpointHeader, EngineError>)
    ensures
        match parsed {
            Ok(header) => {
                &&& bytes@.len() >= HEADER_BYTES
                &&& header_acceptable(bytes@)
                &&& header.config == header_config(bytes@)
                &&& header.shared_weights == header_shared(bytes@)
                &&& header.config.valid()
            },
            Err(e) => {
                if bytes@.len() < HEADER_BYTES {
                    e == (EngineError::CorruptHeader { len: bytes.len() })
                } else {
                    &&& !header_acceptable(bytes@)
                    &&& header_fault(bytes@) matches Some(fault)
                    &&& e == (EngineError::InvalidConfig { fault })
                }
            },
        },
{
    if bytes.len() < HEADER_BYTES {
        return Err(EngineError::CorruptHeader { len: bytes.len() });
    }
    let dim: u32 = read_u32_le(bytes, 0);
    let hidden_dim: u32 = read_u32_le(bytes, 4);
    let num_layers: u32 = read_u32_le(bytes, 8);
    let num_heads: u32 = read_u32_le(bytes, 12);
    let num_kv_heads: u32 = read_u32_le(bytes, 16);
    let vocab: u32 = read_u32_le(bytes, 20);
    let seq_len: u32 = read_u32_le(bytes, 24);
    if !positive(dim) {
        return Err(not_positive(0, dim));
    }
    if !positive(hidden_dim) {
        return Err(not_positive(1, hidden_dim));
    }
    if !positive(num_layers) {
        return Err(not_positive(2, num_layers));
    }
    if !positive(num_heads) {
        return Err(not_positive(3, num_heads));
    }
    if !positive(num_kv_heads) {
        return Err(not_positive(4, num_kv_heads));
    }
    if vocab == 0 {
        return Err(not_positive(5, vocab));
    }
    if !positive(seq_len) {
        return Err(not_positive(6, seq_len));
    }
    if dim % num_heads != 0 {
        return Err(
            EngineError::InvalidConfig { fault: ConfigFault::HeadsDoNotDivide { dim, num_heads } },
        );
    }
    if num_kv_heads > num_heads {
        return Err(
            EngineError::InvalidConfig {
                fault: ConfigFault::TooManyKvHeads { num_kv_heads, num_heads },
            },
        );
    }
    let shared_weights = vocab < 0x8000_0000;
    let vocab_size: u32 = if shared_weights {
        vocab
    } else {
        (0xFFFF_FFFF - vocab) + 1
    };
    Ok(
        CheckpointHeader {
            config: TransformerConfig {
                dim,
                hidden_dim,
                num_layers,
                num_heads,
                num_kv_heads,
                vocab_size,
                seq_len,
            },
            shared_weights,
        },
    )
}

/// The error for header field `field`, which holds `word` and should be
/// positive.
fn not_positive(field: u8, word: u32) -> (e: EngineError)
    ensures
        e == (EngineError::InvalidConfig {
            fault: ConfigFault::NotPositive { field, value: signed(word as int) as i32 },
        }),
{
    let value: i32 = if word < 0x8000_0000 {
        word as i32
    } else {
        (word as i64 - 0x1_0000_0000) as i32
    };
    EngineError::InvalidConfig { fault: ConfigFault::NotPositive { field, value } }
}

/// Whether a 32-bit word is positive when read as a signed number.
fn positive(word: u32) -> (yes: bool)
    ensures
        yes == (signed(word as int) > 0),
{
    0 < word && word < 0x8000_0000
}

} // verus!
