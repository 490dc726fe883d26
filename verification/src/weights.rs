//! Where each tensor lies in a checkpoint.
//!
//! The tensors follow the header without padding, as 32-bit elements, in a
//! fixed order: token embedding, attention norms, the query, key, value and
//! output projections, feed-forward norms, the three feed-forward
//! projections `w1`, `w2` and `w3`, the final norm, a block of rotary tables
//! that is skipped, and last the classifier where it has a matrix of its
//! own. A view names a tensor by its place in that run of elements; nothing
//! is copied.

use vstd::prelude::*;
use crate::config::{TransformerConfig, HEADER_BYTES};

verus! {

/// A run of consecutive elements of the weight region: `len` of them, the
/// first at element `offset`, counted from the end of the header.
#[derive(Clone, Copy, Debug, PartialEq, Eq, Structural)]
pub struct TensorView {
    pub offset: usize,
    pub len: usize,
}

impl TensorView {
    /// The element just past the view.
    pub open spec fn end(&self) -> int {
        self.offset + self.len
    }

    /// The view is exactly the elements from `offset` up to `offset + len`.
    pub open spec fn covers(&self, offset: int, len: int) -> bool {
        self.offset == offset && self.len == len
    }

    /// The view of `len` elements that starts `skip` elements into this one.
    pub open spec fn spec_slice(&self, skip: int, len: int) -> TensorView {
        TensorView { offset: (self.offset + skip) as usize, len: len as usize }
    }

    /// Cuts `len` elements out of the view, starting `skip` elements in.
    pub fn slice(&self, skip: usize, len: usize) -> (part: TensorView)
        requires
            skip + len <= self.len,
            self.end() <= usize::MAX,
        ensures
            part == self.spec_slice(skip as int, len as int),
            part.covers(self.offset + skip, len as int),
            self.offset <= part.offset,
            part.end() <= self.end(),
    {
        TensorView { offset: self.offset + skip, len }
    }
}

/// Elements of the token embedding table, and of a separate classifier.
pub open spec fn embedding_len(c: TransformerConfig) -> int {
    c.vocab_size * c.dim
}

/// Elements of one set of per-layer norm weights.
pub open spec fn norm_len(c: TransformerConfig) -> int {
    c.num_layers * c.dim
}

/// Elements of the query projections of all layers, and of the output
/// projections.
pub open spec fn attention_len(c: TransformerConfig) -> int {
    c.num_layers * c.dim * c.dim
}

/// Elements of the key projections of all layers, and of the value
/// projections.
pub open spec fn key_value_len(c: TransformerConfig) -> int {
    c.num_layers * c.dim * c.spec_kv_dim()
}

/// Elements of one of the three feed-forward projections, all layers.
pub open spec fn feed_forward_len(c: TransformerConfig) -> int {
    c.num_layers * c.dim * c.hidden_dim
}

/// Elements of the rotary tables that older checkpoints carry: two tables
/// of half a head width per position.
pub open spec fn rotary_len(c: TransformerConfig) -> int {
    2 * ((c.seq_len * c.spec_head_size()) / 2)
}

/// Elements up to and including the final norm.
pub open spec fn body_len(c: TransformerConfig) -> int {
    embedding_len(c) + 2 * norm_len(c) + 2 * attention_len(c) + 2 * key_value_len(c) + 3
        * feed_forward_len(c) + c.dim
}

/// Elements that a checkpoint must hold after its header. A shared
/// classifier needs nothing beyond the final norm; a separate one lies
/// behind the rotary tables.
pub open spec fn required_len(c: TransformerConfig, shared: bool) -> int {
    if shared {
        body_len(c)
    } else {
        body_len(c) + rotary_len(c) + embedding_len(c)
    }
}

/// Bytes of a complete checkpoint, header included.
pub open spec fn required_bytes(c: TransformerConfig, shared: bool) -> int {
    HEADER_BYTES + 4 * required_len(c, shared)
}

/// Transformer weights
#[derive(Clone, Copy, Debug, PartialEq, Eq, Structural)]
pub struct TransformerWeights {
    /// token embedding table
    pub token_embedding: TensorView,
    /// weights for rmsnorms
    /// (layer, dim) rmsnorms weights
    pub rms_att_weights: TensorView,
    /// weights for ffn layers
    pub rms_ffn_weights: TensorView,
    /// weights for matmuls, note dim == n_heads * head_size
    // (layer, dim, n_heads * head_size)
    pub wq: TensorView,
    // (layer, dim, n_kv_heads * head_size)
    pub wk: TensorView,
    // (layer, dim, n_kv_heads * head_size)
    pub wv: TensorView,
    // (layer, dim, n_heads * head_size)
    pub wo: TensorView,
    // (layer, hidden_dim, dim)
    pub w1: TensorView,
    // (layer, hidden_dim, dim)
    pub w2: TensorView,
    // (layer, hidden_dim, dim)
    pub w3: TensorView,
    /// final rmsnorm
    pub rms_final_weight: TensorView,
    /// (optional) classifier weights for the logits, on the last layer
    pub wcls: TensorView,
}

impl Default for TransformerWeights {
    /// The weights of no model: every view is empty.
    fn default() -> (weights: TransformerWeights)
        ensures
            weights.within(0),
            weights.wcls == weights.token_embedding,
    {
        let nothing = TensorView { offset: 0, len: 0 };
        TransformerWeights {
            token_embedding: nothing,
            rms_att_weights: nothing,
            rms_ffn_weights: nothing,
            wq: nothing,
            wk: nothing,
            wv: nothing,
            wo: nothing,
            w1: nothing,
            w2: nothing,
            w3: nothing,
            rms_final_weight: nothing,
            wcls: nothing,
        }
    }
}

impl TransformerWeights {
    /// The views are those of a checkpoint with configuration `c`: each
    /// tensor starts where the one before it ends.
    pub open spec fn matches(&self, c: TransformerConfig, shared: bool) -> bool {
        let e = embedding_len(c);
        let n = norm_len(c);
        let a = attention_len(c);
        let k = key_value_len(c);
        let f = feed_forward_len(c);
        &&& self.token_embedding.covers(0, e)
        &&& self.rms_att_weights.covers(e, n)
        &&& self.wq.covers(e + n, a)
        &&& self.wk.covers(e + n + a, k)
        &&& self.wv.covers(e + n + a + k, k)
        &&& self.wo.covers(e + n + a + 2 * k, a)
        &&& self.rms_ffn_weights.covers(e + n + 2 * a + 2 * k, n)
        &&& self.w1.covers(e + 2 * n + 2 * a + 2 * k, f)
        &&& self.w2.covers(e + 2 * n + 2 * a + 2 * k + f, f)
        &&& self.w3.covers(e + 2 * n + 2 * a + 2 * k + 2 * f, f)
        &&& self.rms_final_weight.covers(e + 2 * n + 2 * a + 2 * k + 3 * f, c.dim as int)
        &&& if shared {
            self.wcls == self.token_embedding
        } else {
            self.wcls.covers(body_len(c) + rotary_len(c), e)
        }
    }

    /// Every view ends within the first `elements` elements.
    pub open spec fn within(&self, elements: int) -> bool {
        &&& self.token_embedding.end() <= elements
        &&& self.rms_att_weights.end() <= elements
        &&& self.rms_ffn_weights.end() <= elements
        &&& self.wq.end() <= elements
        &&& self.wk.end() <= elements
        &&& self.wv.end() <= elements
        &&& self.wo.end() <= elements
        &&& self.w1.end() <= elements
        &&& self.w2.end() <= elements
        &&& self.w3.end() <= elements
        &&& self.rms_final_weight.end() <= elements
        &&& self.wcls.end() <= elements
    }
}

/// The tensor sizes are positive, and no view of a matching layout reaches
/// past the required length.
pub proof fn lemma_layout_within(w: TransformerWeights, c: TransformerConfig, shared: bool)
    requires
        c.valid(),
        w.matches(c, shared),
    ensures
        w.within(required_len(c, shared)),
        embedding_len(c) >= 1,
        norm_len(c) >= 1,
        attention_len(c) >= 1,
        key_value_len(c) >= 1,
        feed_forward_len(c) >= 1,
        rotary_len(c) >= 0,
{
    lemma_sizes(c);
}

/// A shared classifier is the token embedding view itself; a classifier of
/// its own lies behind it and shares no element with it. Both have one row
/// of `dim` elements for each token of the vocabulary.
pub proof fn lemma_classifier_view(w: TransformerWeights, c: TransformerConfig, shared: bool)
    requires
        c.valid(),
        w.matches(c, shared),
    ensures
        shared ==> w.wcls == w.token_embedding,
        !shared ==> w.wcls != w.token_embedding && w.token_embedding.end() <= w.wcls.offset,
        w.wcls.len == c.vocab_size * c.dim,
        w.token_embedding.len == c.vocab_size * c.dim,
{
    lemma_sizes(c);
}

/// Bounds on the tensor sizes of a valid configuration.
pub proof fn lemma_sizes(c: TransformerConfig)
    requires
        c.valid(),
    ensures
        1 <= embedding_len(c) <= 0xFFFF_FFFF * 0xFFFF_FFFF,
        1 <= norm_len(c) <= 0xFFFF_FFFF * 0xFFFF_FFFF,
        1 <= attention_len(c) <= 0xFFFF_FFFF * 0xFFFF_FFFF * 0xFFFF_FFFF,
        1 <= key_value_len(c) <= 0xFFFF_FFFF * 0xFFFF_FFFF * 0xFFFF_FFFF,
        1 <= feed_forward_len(c) <= 0xFFFF_FFFF * 0xFFFF_FFFF * 0xFFFF_FFFF,
        0 <= rotary_len(c) <= 0xFFFF_FFFF * 0xFFFF_FFFF,
{
    c.lemma_head_size();
    lemma_product2(c.vocab_size as int, c.dim as int);
    lemma_product2(c.num_layers as int, c.dim as int);
    lemma_product3(c.num_layers as int, c.dim as int, c.dim as int);
    lemma_product3(c.num_layers as int, c.dim as int, c.spec_kv_dim());
    lemma_product3(c.num_layers as int, c.dim as int, c.hidden_dim as int);
    lemma_product2(c.seq_len as int, c.spec_head_size());
}

/// A product of two dimensions is positive and below two to the 64th.
proof fn lemma_product2(a: int, b: int)
    requires
        1 <= a <= 0xFFFF_FFFF,
        1 <= b <= 0xFFFF_FFFF,
    ensures
        1 <= a * b <= 0xFFFF_FFFF * 0xFFFF_FFFF,
{
    assert(1 <= a * b <= 0xFFFF_FFFF * 0xFFFF_FFFF) by (nonlinear_arith)
        requires
            1 <= a <= 0xFFFF_FFFF,
            1 <= b <= 0xFFFF_FFFF,
    ;
}

/// A product of three dimensions is positive and below two to the 96th.
proof fn lemma_product3(a: int, b: int, c: int)
    requires
        1 <= a <= 0xFFFF_FFFF,
        1 <= b <= 0xFFFF_FFFF,
        1 <= c <= 0xFFFF_FFFF,
    ensures
        1 <= a * b <= 0xFFFF_FFFF * 0xFFFF_FFFF,
        1 <= a * b * c <= 0xFFFF_FFFF * 0xFFFF_FFFF * 0xFFFF_FFFF,
{
    lemma_product2(a, b);
    let ab = a * b;
    assert(1 <= ab * c <= 0xFFFF_FFFF * 0xFFFF_FFFF * 0xFFFF_FFFF) by (nonlinear_arith)
        requires
            1 <= ab <= 0xFFFF_FFFF * 0xFFFF_FFFF,
            1 <= c <= 0xFFFF_FFFF,
    ;
}

/// The product of two dimensions, in a width that cannot overflow.
pub(crate) fn product2(a: u32, b: u32) -> (p: u128)
    requires
        a >= 1,
        b >= 1,
    ensures
        p == a * b,
        1 <= p <= 0xFFFF_FFFF * 0xFFFF_FFFF,
{
    proof {
        lemma_product2(a as int, b as int);
    }
    (a as u128) * (b as u128)
}

/// The product of three dimensions, in a width that cannot overflow.
pub(crate) fn product3(a: u32, b: u32, c: u32) -> (p: u128)
    requires
        a >= 1,
        b >= 1,
        c >= 1,
    ensures
        p == a * b * c,
        1 <= p <= 0xFFFF_FFFF * 0xFFFF_FFFF * 0xFFFF_FFFF,
{
    proof {
        lemma_product3(a as int, b as int, c as int);
    }
    (a as u128) * (b as u128) * (c as u128)
}

} // verus!
