//! The buffers that a forward pass works in, and the key/value cache.
//!
//! Every number in them is kept as the bit pattern of an IEEE-754 single;
//! the all-zero pattern is the number zero. The buffers are sized once from
//! the configuration and never resized.

use vstd::prelude::*;
use crate::config::TransformerConfig;
use crate::error::{ConfigFault, EngineError};

verus! {

/// The longest buffer of 32-bit elements that can be allocated: its bytes
/// must not outnumber `isize::MAX`.
pub open spec fn max_buffer_len() -> int {
    isize::MAX as int / 4
}

/// Elements of the attention-score buffer: one row of `seq_len` per head.
pub open spec fn scores_len(c: TransformerConfig) -> int {
    c.num_heads * c.seq_len
}

/// Elements of the key cache, and of the value cache: one key/value vector
/// for every position of every layer.
pub open spec fn cache_len(c: TransformerConfig) -> int {
    c.num_layers * c.seq_len * c.spec_kv_dim()
}

/// Where the cached vector of `position` in `layer` starts.
pub open spec fn cache_offset(c: TransformerConfig, layer: int, position: int) -> int {
    (layer * c.seq_len + position) * c.spec_kv_dim()
}

/// The position whose cached vector holds element `index` of a cache.
pub open spec fn cache_position(c: TransformerConfig, index: int) -> int {
    (index / c.spec_kv_dim()) % (c.seq_len as int)
}

/// The layer whose cached vectors hold element `index` of a cache.
pub open spec fn cache_layer(c: TransformerConfig, index: int) -> int {
    (index / c.spec_kv_dim()) / (c.seq_len as int)
}

/// No buffer of configuration `c` is longer than can be allocated.
pub open spec fn addressable(c: TransformerConfig) -> bool {
    &&& c.dim <= max_buffer_len()
    &&& c.hidden_dim <= max_buffer_len()
    &&& c.vocab_size <= max_buffer_len()
    &&& scores_len(c) <= max_buffer_len()
    &&& cache_len(c) <= max_buffer_len()
}

/// `cache` with the elements from `at` on replaced by those of `row`.
pub open spec fn overwrite(cache: Seq<u32>, at: int, row: Seq<u32>) -> Seq<u32> {
    Seq::new(
        cache.len(),
        |i: int|
            if at <= i < at + row.len() {
                row[i - at]
            } else {
                cache[i]
            },
    )
}

/// Every element is the zero pattern.
pub open spec fn all_zero(buffer: Seq<u32>) -> bool {
    forall|i: int| 0 <= i < buffer.len() ==> buffer[i] == 0
}

/// The cached vector of a position lies inside the cache, and every element
/// of it belongs to that layer and position.
pub proof fn lemma_cache_row(c: TransformerConfig, layer: int, position: int)
    requires
        c.valid(),
        0 <= layer < c.num_layers,
        0 <= position < c.seq_len,
    ensures
        0 <= cache_offset(c, layer, position),
        cache_offset(c, layer, position) + c.spec_kv_dim() <= cache_len(c),
        cache_offset(c, layer, 0) + position * c.spec_kv_dim() == cache_offset(c, layer, position),
        forall|i: int|
            cache_offset(c, layer, position) <= i < cache_offset(c, layer, position)
                + c.spec_kv_dim() ==> cache_position(c, i) == position && cache_layer(c, i)
                == layer,
{
    c.lemma_head_size();
    let kv = c.spec_kv_dim();
    let s = c.seq_len as int;
    let l = c.num_layers as int;
    let row = layer * s + position;
    assert(0 <= row < l * s) by (nonlinear_arith)
        requires
            0 <= layer < l,
            0 <= position < s,
            row == layer * s + position,
    ;
    assert(0 <= row * kv && row * kv + kv <= l * s * kv) by (nonlinear_arith)
        requires
            0 <= row < l * s,
            kv >= 1,
    ;
    assert((layer * s) * kv + position * kv == row * kv) by (nonlinear_arith)
        requires
            row == layer * s + position,
    ;
    assert((layer * s + 0) * kv == (layer * s) * kv);
    assert forall|i: int| row * kv <= i < row * kv + kv implies cache_position(c, i) == position
        && cache_layer(c, i) == layer by {
        let t = i - row * kv;
        assert(i / kv == row) by (nonlinear_arith)
            requires
                i == row * kv + t,
                0 <= t < kv,
        ;
        assert(row % s == position && row / s == layer) by (nonlinear_arith)
            requires
                row == layer * s + position,
                0 <= position < s,
        ;
    }
}

/// What is cached never changes once written: storing the vector of one
/// position of one layer leaves every element that is cached for another
/// position, or for another layer, as it was, and sets the elements of its
/// own to the vector.
pub proof fn lemma_store_keeps_others(
    c: TransformerConfig,
    cache: Seq<u32>,
    layer: int,
    position: int,
    row: Seq<u32>,
)
    requires
        c.valid(),
        0 <= layer < c.num_layers,
        0 <= position < c.seq_len,
        cache.len() == cache_len(c),
        row.len() == c.spec_kv_dim(),
    ensures
        overwrite(cache, cache_offset(c, layer, position), row).len() == cache.len(),
        forall|index: int|
            0 <= index < cache.len() && (cache_position(c, index) != position || cache_layer(
                c,
                index,
            ) != layer) ==> #[trigger] overwrite(cache, cache_offset(c, layer, position), row)[index]
                == cache[index],
        forall|i: int|
            0 <= i < row.len() ==> #[trigger] overwrite(
                cache,
                cache_offset(c, layer, position),
                row,
            )[cache_offset(c, layer, position) + i] == row[i],
{
    lemma_cache_row(c, layer, position);
}

/// The buffers for the "wave" of activations in the forward pass, and the
/// key/value cache.
#[derive(Debug)]
pub struct RunState {
    /// activation at current time stamp (dim,)
    pub x: Vec<u32>,
    /// same, but inside a residual branch (dim,)
    pub xb: Vec<u32>,
    /// an additional buffer just for convenience (dim,)
    pub xb2: Vec<u32>,
    /// buffer for hidden dimension in the ffn (hidden_dim,)
    pub hb: Vec<u32>,
    /// buffer for hidden dimension in the ffn (hidden_dim,)
    pub hb2: Vec<u32>,
    /// query (dim,)
    pub q: Vec<u32>,
    /// key (kv_dim,)
    pub k: Vec<u32>,
    /// value (kv_dim,)
    pub v: Vec<u32>,
    /// buffer for scores/attention values (n_heads, seq_len)
    pub att: Vec<u32>,
    /// output logits (vocab_size,)
    pub logits: Vec<u32>,
    /// (layer, seq_len, kv_dim)
    pub key_cache: Vec<u32>,
    /// (layer, seq_len, kv_dim)
    pub value_cache: Vec<u32>,
}

impl RunState {
    /// Every buffer has the length that configuration `c` gives it.
    pub open spec fn shaped(&self, c: TransformerConfig) -> bool {
        &&& self.x@.len() == c.dim
        &&& self.xb@.len() == c.dim
        &&& self.xb2@.len() == c.dim
        &&& self.hb@.len() == c.hidden_dim
        &&& self.hb2@.len() == c.hidden_dim
        &&& self.q@.len() == c.dim
        &&& self.k@.len() == c.spec_kv_dim()
        &&& self.v@.len() == c.spec_kv_dim()
        &&& self.att@.len() == scores_len(c)
        &&& self.logits@.len() == c.vocab_size
        &&& self.key_cache@.len() == cache_len(c)
        &&& self.value_cache@.len() == cache_len(c)
    }

    /// Every buffer holds zeros only.
    pub open spec fn zeroed(&self) -> bool {
        &&& all_zero(self.x@)
        &&& all_zero(self.xb@)
        &&& all_zero(self.xb2@)
        &&& all_zero(self.hb@)
        &&& all_zero(self.hb2@)
        &&& all_zero(self.q@)
        &&& all_zero(self.k@)
        &&& all_zero(self.v@)
        &&& all_zero(self.att@)
        &&& all_zero(self.logits@)
        &&& all_zero(self.key_cache@)
        &&& all_zero(self.value_cache@)
    }

    /// No buffer holds anything.
    pub open spec fn empty(&self) -> bool {
        &&& self.x@.len() == 0
        &&& self.xb@.len() == 0
        &&& self.xb2@.len() == 0
        &&& self.hb@.len() == 0
        &&& self.hb2@.len() == 0
        &&& self.q@.len() == 0
        &&& self.k@.len() == 0
        &&& self.v@.len() == 0
        &&& self.att@.len() == 0
        &&& self.logits@.len() == 0
        &&& self.key_cache@.len() == 0
        &&& self.value_cache@.len() == 0
    }

    /// Allocates every buffer for configuration `c`, filled with zeros.
    ///
    /// Fails with `InvalidConfig` exactly when a buffer would be longer than
    /// can be allocated.
    pub fn new(c: &TransformerConfig) -> (made: Result<RunState, EngineError>)
        requires
            c.valid(),
        ensures
            match made {
                Ok(state) => addressable(*c) && state.shaped(*c) && state.zeroed(),
                Err(e) => {
                    &&& !addressable(*c)
                    &&& e == (EngineError::InvalidConfig { fault: ConfigFault::BuffersTooLarge })
                },
            },
    {
        proof {
            c.lemma_head_size();
        }
        let limit: u128 = (isize::MAX as u128) / 4;
        let kv_dim: u32 = c.kv_dim();
        assert(c.num_heads * c.seq_len <= 0xFFFF_FFFF * 0xFFFF_FFFF) by (nonlinear_arith)
            requires
                c.num_heads <= 0xFFFF_FFFF,
                c.seq_len <= 0xFFFF_FFFF,
        ;
        let scores: u128 = (c.num_heads as u128) * (c.seq_len as u128);
        assert(c.num_layers * c.seq_len <= 0xFFFF_FFFF * 0xFFFF_FFFF) by (nonlinear_arith)
            requires
                c.num_layers <= 0xFFFF_FFFF,
                c.seq_len <= 0xFFFF_FFFF,
        ;
        assert(c.num_layers * c.seq_len * kv_dim <= 0xFFFF_FFFF * 0xFFFF_FFFF * 0xFFFF_FFFF)
            by (nonlinear_arith)
            requires
                0 <= c.num_layers * c.seq_len <= 0xFFFF_FFFF * 0xFFFF_FFFF,
                kv_dim <= 0xFFFF_FFFF,
        ;
        let cache: u128 = (c.num_layers as u128) * (c.seq_len as u128) * (kv_dim as u128);
        if c.dim as u128 > limit || c.hidden_dim as u128 > limit || c.vocab_size as u128 > limit
            || scores > limit || cache > limit {
            return Err(EngineError::InvalidConfig { fault: ConfigFault::BuffersTooLarge });
        }
        Ok(
            RunState {
                x: zeros(c.dim as usize),
                xb: zeros(c.dim as usize),
                xb2: zeros(c.dim as usize),
                hb: zeros(c.hidden_dim as usize),
                hb2: zeros(c.hidden_dim as usize),
                q: zeros(c.dim as usize),
                k: zeros(kv_dim as usize),
                v: zeros(kv_dim as usize),
                att: zeros(scores as usize),
                logits: zeros(c.vocab_size as usize),
                key_cache: zeros(cache as usize),
                value_cache: zeros(cache as usize),
            },
        )
    }

    /// Copies the key and value vectors into the cache, at the place of
    /// `position` in `layer`. Nothing else changes: what the cache holds for
    /// other positions, and for other layers, stays as it was.
    pub fn store_kv(&mut self, c: &TransformerConfig, layer: u32, position: u32)
        requires
            c.valid(),
            old(self).shaped(*c),
            layer < c.num_layers,
            position < c.seq_len,
        ensures
            final(self).shaped(*c),
            final(self).key_cache@ == overwrite(
                old(self).key_cache@,
                cache_offset(*c, layer as int, position as int),
                old(self).k@,
            ),
            final(self).value_cache@ == overwrite(
                old(self).value_cache@,
                cache_offset(*c, layer as int, position as int),
                old(self).v@,
            ),
            final(self).x == old(self).x,
            final(self).xb == old(self).xb,
            final(self).xb2 == old(self).xb2,
            final(self).hb == old(self).hb,
            final(self).hb2 == old(self).hb2,
            final(self).q == old(self).q,
            final(self).k == old(self).k,
            final(self).v == old(self).v,
            final(self).att == old(self).att,
            final(self).logits == old(self).logits,
    {
        proof {
            c.lemma_head_size();
            lemma_cache_row(*c, layer as int, position as int);
        }
        let kv_dim: usize = c.kv_dim() as usize;
        let total: usize = self.key_cache.len();
        let ghost at: int = cache_offset(*c, layer as int, position as int);
        assert(layer * c.seq_len + position <= 0xFFFF_FFFF * 0xFFFF_FFFF + 0xFFFF_FFFF)
            by (nonlinear_arith)
            requires
                layer <= 0xFFFF_FFFF,
                c.seq_len <= 0xFFFF_FFFF,
                position <= 0xFFFF_FFFF,
        ;
        let row: u64 = (layer as u64) * (c.seq_len as u64) + (position as u64);
        assert(row * kv_dim == at && 0 <= at <= usize::MAX) by (nonlinear_arith)
            requires
                row == layer * c.seq_len + position,
                kv_dim == c.spec_kv_dim(),
                at == (layer * c.seq_len + position) * c.spec_kv_dim(),
                0 <= at,
                at + kv_dim <= total,
                kv_dim >= 0,
        ;
        let start: usize = ((row as u128) * (kv_dim as u128)) as usize;
        let mut i: usize = 0;
        while i < kv_dim
            invariant
                i <= kv_dim,
                kv_dim == c.spec_kv_dim(),
                start == at,
                at + kv_dim <= total,
                total == self.key_cache@.len(),
                self.shaped(*c),
                self.key_cache@ == overwrite(old(self).key_cache@, at, old(self).k@.take(i as int)),
                self.value_cache@ == overwrite(
                    old(self).value_cache@,
                    at,
                    old(self).v@.take(i as int),
                ),
                self.x == old(self).x,
                self.xb == old(self).xb,
                self.xb2 == old(self).xb2,
                self.hb == old(self).hb,
                self.hb2 == old(self).hb2,
                self.q == old(self).q,
                self.k == old(self).k,
                self.v == old(self).v,
                self.att == old(self).att,
                self.logits == old(self).logits,
            decreases kv_dim - i,
        {
            let key: u32 = self.k[i];
            let value: u32 = self.v[i];
            self.key_cache[start + i] = key;
            self.value_cache[start + i] = value;
            i += 1;
        }
        assert(old(self).k@.take(kv_dim as int) == old(self).k@);
        assert(old(self).v@.take(kv_dim as int) == old(self).v@);
    }
}

impl Default for RunState {
    /// A state without buffers, as it is before a model is loaded.
    fn default() -> (state: RunState)
        ensures
            state.empty(),
    {
        RunState {
            x: Vec::new(),
            xb: Vec::new(),
            xb2: Vec::new(),
            hb: Vec::new(),
            hb2: Vec::new(),
            q: Vec::new(),
            k: Vec::new(),
            v: Vec::new(),
            att: Vec::new(),
            logits: Vec::new(),
            key_cache: Vec::new(),
            value_cache: Vec::new(),
        }
    }
}

/// A buffer of `n` zeros.
fn zeros(n: usize) -> (buffer: Vec<u32>)
    ensures
        buffer@.len() == n,
        all_zero(buffer@),
{
    vec![0u32; n]
}

} // verus!
