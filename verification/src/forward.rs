//! The forward pass as a schedule.
//!
//! One token at one position is taken through the model by a fixed list of
//! steps. Each step names the buffers it reads and writes and the weights
//! it uses; the arithmetic of a step is done by whoever runs the schedule.
//! What is decided here is the order of the steps and every index in them:
//! which slice of which tensor belongs to a layer, where a head lies in a
//! vector, which cached positions a head attends to, and where the new key
//! and value are cached.

use vstd::prelude::*;
use crate::config::TransformerConfig;
use crate::state::{
    cache_layer, cache_len, cache_offset, cache_position, lemma_cache_row, scores_len,
};
use crate::weights::{TensorView, TransformerWeights};

verus! {

/// One of the vectors of the run state.
#[derive(Clone, Copy, Debug, PartialEq, Eq, Structural)]
pub enum Buffer {
    /// The activation.
    X,
    /// The activation inside a residual branch.
    Xb,
    /// A second buffer inside a residual branch.
    Xb2,
    /// The hidden vector of the feed-forward block.
    Hb,
    /// A second hidden vector of the feed-forward block.
    Hb2,
    /// The query.
    Q,
    /// The key.
    K,
    /// The value.
    V,
    /// The logits.
    Logits,
}

/// The length of a vector of the run state.
pub open spec fn buffer_len(c: TransformerConfig, buffer: Buffer) -> int {
    match buffer {
        Buffer::X | Buffer::Xb | Buffer::Xb2 | Buffer::Q => c.dim as int,
        Buffer::Hb | Buffer::Hb2 => c.hidden_dim as int,
        Buffer::K | Buffer::V => c.spec_kv_dim(),
        Buffer::Logits => c.vocab_size as int,
    }
}

/// One step of a forward pass.
#[derive(Clone, Copy, Debug, PartialEq, Eq, Structural)]
pub enum Step {
    /// `x` becomes the embedding row `row`.
    Embed { row: TensorView },
    /// `dst` becomes `src`, scaled to unit root mean square and multiplied
    /// element by element with `weight`.
    RmsNorm { dst: Buffer, src: Buffer, weight: TensorView },
    /// `dst` becomes the product of the matrix `weight`, of `size_out` rows
    /// of `size_in` columns, with `src`.
    Matmul { dst: Buffer, src: Buffer, weight: TensorView, size_in: usize, size_out: usize },
    /// Query and key are rotated, pair by pair within each head of
    /// `head_size`, by the angles of `position`.
    Rotate { position: u32, head_size: usize },
    /// Key and value are copied into the cache of `layer` at `position`.
    StoreKv { layer: u32, position: u32 },
    /// One head attends: the `head_size` elements of the query from
    /// `query` on are scored against `count` cached keys, the first at
    /// `keys` in the cache and each `stride` after the one before; the
    /// scores go to `count` elements of the score buffer from `scores` on
    /// and are normalised there; the cached values at the same places,
    /// weighted by them, are summed into `xb` from `query` on.
    Attend {
        query: usize,
        head_size: usize,
        keys: usize,
        stride: usize,
        count: usize,
        scores: usize,
    },
    /// `src` is added to `x`.
    Accumulate { src: Buffer },
    /// `hb` becomes its own sigmoid-weighted activation times `hb2`.
    SwiGlu,
}

/// The weights of `layer` within a tensor that holds `size` elements per
/// layer.
pub open spec fn layer_view(all: TensorView, layer: int, size: int) -> TensorView {
    all.spec_slice(layer * size, size)
}

/// The attention step of head `head` in `layer`, for a token at `position`.
pub open spec fn attend_step(c: TransformerConfig, layer: int, position: int, head: int) -> Step {
    Step::Attend {
        query: (head * c.spec_head_size()) as usize,
        head_size: c.spec_head_size() as usize,
        keys: (cache_offset(c, layer, 0) + c.spec_kv_head(head) * c.spec_head_size()) as usize,
        stride: c.spec_kv_dim() as usize,
        count: (position + 1) as usize,
        scores: (head * c.seq_len) as usize,
    }
}

/// The steps of a layer before its heads attend: norm, the three
/// projections, rotation, and the write to the cache.
pub open spec fn layer_prologue(
    c: TransformerConfig,
    w: TransformerWeights,
    layer: int,
    position: int,
) -> Seq<Step> {
    let d = c.dim as int;
    let kv = c.spec_kv_dim();
    seq![
        Step::RmsNorm {
            dst: Buffer::Xb,
            src: Buffer::X,
            weight: layer_view(w.rms_att_weights, layer, d),
        },
        Step::Matmul {
            dst: Buffer::Q,
            src: Buffer::Xb,
            weight: layer_view(w.wq, layer, d * d),
            size_in: c.dim as usize,
            size_out: c.dim as usize,
        },
        Step::Matmul {
            dst: Buffer::K,
            src: Buffer::Xb,
            weight: layer_view(w.wk, layer, d * kv),
            size_in: c.dim as usize,
            size_out: kv as usize,
        },
        Step::Matmul {
            dst: Buffer::V,
            src: Buffer::Xb,
            weight: layer_view(w.wv, layer, d * kv),
            size_in: c.dim as usize,
            size_out: kv as usize,
        },
        Step::Rotate { position: position as u32, head_size: c.spec_head_size() as usize },
        Step::StoreKv { layer: layer as u32, position: position as u32 },
    ]
}

/// The attention steps of the first `heads` heads of a layer.
pub open spec fn layer_heads(c: TransformerConfig, layer: int, position: int, heads: int) -> Seq<
    Step,
> {
    Seq::new(heads as nat, |head: int| attend_step(c, layer, position, head))
}

/// The steps of a layer after its heads have attended: the output
/// projection and its residual, then the feed-forward block and its
/// residual.
pub open spec fn layer_epilogue(c: TransformerConfig, w: TransformerWeights, layer: int) -> Seq<
    Step,
> {
    let d = c.dim as int;
    let h = c.hidden_dim as int;
    seq![
        Step::Matmul {
            dst: Buffer::Xb2,
            src: Buffer::Xb,
            weight: layer_view(w.wo, layer, d * d),
            size_in: c.dim as usize,
            size_out: c.dim as usize,
        },
        Step::Accumulate { src: Buffer::Xb2 },
        Step::RmsNorm {
            dst: Buffer::Xb,
            src: Buffer::X,
            weight: layer_view(w.rms_ffn_weights, layer, d),
        },
        Step::Matmul {
            dst: Buffer::Hb,
            src: Buffer::Xb,
            weight: layer_view(w.w1, layer, d * h),
            size_in: c.dim as usize,
            size_out: c.hidden_dim as usize,
        },
        Step::Matmul {
            dst: Buffer::Hb2,
            src: Buffer::Xb,
            weight: layer_view(w.w3, layer, d * h),
            size_in: c.dim as usize,
            size_out: c.hidden_dim as usize,
        },
        Step::SwiGlu,
        Step::Matmul {
            dst: Buffer::Xb,
            src: Buffer::Hb,
            weight: layer_view(w.w2, layer, d * h),
            size_in: c.hidden_dim as usize,
            size_out: c.dim as usize,
        },
        Step::Accumulate { src: Buffer::Xb },
    ]
}

/// All steps of one layer.
pub open spec fn layer_steps(
    c: TransformerConfig,
    w: TransformerWeights,
    layer: int,
    position: int,
) -> Seq<Step> {
    layer_prologue(c, w, layer, position) + layer_heads(c, layer, position, c.num_heads as int)
        + layer_epilogue(c, w, layer)
}

/// The steps of the first `layers` layers, in order.
pub open spec fn stack_steps(
    c: TransformerConfig,
    w: TransformerWeights,
    position: int,
    layers: int,
) -> Seq<Step>
    decreases layers,
{
    if layers <= 0 {
        Seq::empty()
    } else {
        stack_steps(c, w, position, layers - 1) + layer_steps(c, w, layers - 1, position)
    }
}

/// The step that starts a pass: the lookup of the token's embedding.
pub open spec fn embed_step(c: TransformerConfig, w: TransformerWeights, token: int) -> Step {
    Step::Embed { row: w.token_embedding.spec_slice(token * c.dim, c.dim as int) }
}

/// The steps that end a pass: the final norm, in place, and the classifier.
pub open spec fn head_steps(c: TransformerConfig, w: TransformerWeights) -> Seq<Step> {
    seq![
        Step::RmsNorm { dst: Buffer::X, src: Buffer::X, weight: w.rms_final_weight },
        Step::Matmul {
            dst: Buffer::Logits,
            src: Buffer::X,
            weight: w.wcls,
            size_in: c.dim as usize,
            size_out: c.vocab_size as usize,
        },
    ]
}

/// The whole forward pass of `token` at `position`.
pub open spec fn forward_steps(
    c: TransformerConfig,
    w: TransformerWeights,
    token: int,
    position: int,
) -> Seq<Step> {
    seq![embed_step(c, w, token)] + stack_steps(c, w, position, c.num_layers as int) + head_steps(
        c,
        w,
    )
}

/// A step stays within the buffers of configuration `c` and within the
/// first `elements` elements of the weights, and its sizes agree.
pub open spec fn step_fits(c: TransformerConfig, elements: int, step: Step) -> bool {
    match step {
        Step::Embed { row } => row.len == c.dim && row.end() <= elements,
        Step::RmsNorm { dst, src, weight } => {
            &&& buffer_len(c, dst) == weight.len
            &&& buffer_len(c, src) == weight.len
            &&& weight.end() <= elements
        },
        Step::Matmul { dst, src, weight, size_in, size_out } => {
            &&& dst != src
            &&& buffer_len(c, src) == size_in
            &&& buffer_len(c, dst) == size_out
            &&& weight.len == size_in * size_out
            &&& weight.end() <= elements
        },
        Step::Rotate { position, head_size } => {
            &&& position < c.seq_len
            &&& head_size == c.spec_head_size()
        },
        Step::StoreKv { layer, position } => layer < c.num_layers && position < c.seq_len,
        Step::Attend { query, head_size, keys, stride, count, scores } => {
            &&& head_size >= 1
            &&& count >= 1
            &&& query + head_size <= c.dim
            &&& scores + count <= scores_len(c)
            &&& keys + (count - 1) * stride + head_size <= cache_len(c)
        },
        Step::Accumulate { src } => buffer_len(c, src) == c.dim,
        Step::SwiGlu => true,
    }
}

/// The cache elements that a step reads: for an attention step the first
/// `head_size` elements of each of `count` rows of `stride`, of the key
/// cache and of the value cache alike; for any other step none.
pub open spec fn cache_reads(step: Step) -> Set<int> {
    match step {
        Step::Attend { query, head_size, keys, stride, count, scores } => Set::new(
            |index: int|
                {
                    &&& keys <= index
                    &&& (index - keys) / (stride as int) < count
                    &&& (index - keys) % (stride as int) < head_size
                },
        ),
        _ => Set::empty(),
    }
}

/// The cache elements that a step writes: for a store the cached vector of
/// its layer and position; for any other step none.
pub open spec fn cache_writes(c: TransformerConfig, step: Step) -> Set<int> {
    match step {
        Step::StoreKv { layer, position } => Set::new(
            |index: int|
                cache_offset(c, layer as int, position as int) <= index < cache_offset(
                    c,
                    layer as int,
                    position as int,
                ) + c.spec_kv_dim(),
        ),
        _ => Set::empty(),
    }
}

/// What a schedule needs of its surroundings: a valid configuration, the
/// layout of its weights within `elements` elements, and caches and score
/// buffer short enough to be indexed.
pub open spec fn schedulable(
    c: TransformerConfig,
    w: TransformerWeights,
    shared: bool,
    elements: int,
) -> bool {
    &&& c.valid()
    &&& w.matches(c, shared)
    &&& w.within(elements)
    &&& elements <= usize::MAX
    &&& cache_len(c) <= usize::MAX
    &&& scores_len(c) <= usize::MAX
}

/// The weights of a layer lie within the tensor that holds all layers.
pub proof fn lemma_layer_view(all: TensorView, layer: int, size: int, layers: int)
    requires
        0 <= layer < layers,
        size >= 0,
        all.len == layers * size,
        all.end() <= usize::MAX,
    ensures
        layer_view(all, layer, size).covers(all.offset + layer * size, size),
        layer_view(all, layer, size).end() <= all.end(),
        0 <= layer * size,
        layer * size + size <= all.len,
{
    assert(0 <= layer * size && layer * size + size <= layers * size) by (nonlinear_arith)
        requires
            0 <= layer < layers,
            size >= 0,
    ;
}

/// The fields of an attention step are the numbers that define them, and
/// the step stays within the query, the score buffer and the cache.
pub proof fn lemma_attend_step(c: TransformerConfig, layer: int, position: int, head: int)
    requires
        c.valid(),
        cache_len(c) <= usize::MAX,
        scores_len(c) <= usize::MAX,
        0 <= layer < c.num_layers,
        0 <= position < c.seq_len,
        0 <= head < c.num_heads,
    ensures
        attend_step(c, layer, position, head) == (Step::Attend {
            query: (head * c.spec_head_size()) as usize,
            head_size: c.spec_head_size() as usize,
            keys: (cache_offset(c, layer, 0) + c.spec_kv_head(head) * c.spec_head_size()) as usize,
            stride: c.spec_kv_dim() as usize,
            count: (position + 1) as usize,
            scores: (head * c.seq_len) as usize,
        }),
        0 <= head * c.spec_head_size(),
        head * c.spec_head_size() + c.spec_head_size() <= c.dim,
        0 <= head * c.seq_len,
        head * c.seq_len + position + 1 <= scores_len(c),
        0 <= cache_offset(c, layer, 0),
        0 <= c.spec_kv_head(head) * c.spec_head_size(),
        c.spec_kv_head(head) * c.spec_head_size() + c.spec_head_size() <= c.spec_kv_dim(),
        cache_offset(c, layer, 0) + c.spec_kv_head(head) * c.spec_head_size() + position
            * c.spec_kv_dim() + c.spec_head_size() <= cache_len(c),
        0 <= position * c.spec_kv_dim(),
        forall|elements: int| step_fits(c, elements, attend_step(c, layer, position, head)),
{
    c.lemma_head_size();
    c.lemma_kv_head(head);
    lemma_cache_row(c, layer, position);
    lemma_cache_row(c, layer, 0);
    let hs = c.spec_head_size();
    let kv = c.spec_kv_dim();
    let g = c.spec_kv_head(head);
    let s = c.seq_len as int;
    let h = c.num_heads as int;
    let k = c.num_kv_heads as int;
    assert(0 <= head * hs && head * hs + hs <= h * hs) by (nonlinear_arith)
        requires
            0 <= head < h,
            hs >= 1,
    ;
    assert(0 <= head * s && head * s + s <= h * s) by (nonlinear_arith)
        requires
            0 <= head < h,
            s >= 1,
    ;
    assert(0 <= g * hs && g * hs + hs <= hs * k) by (nonlinear_arith)
        requires
            0 <= g < k,
            hs >= 1,
    ;
    assert(0 <= position * kv) by (nonlinear_arith)
        requires
            0 <= position,
            kv >= 1,
    ;
}

/// Step `k` of a layer is a step of its prologue, one of its heads, or a
/// step of its epilogue.
pub proof fn lemma_layer_steps_index(
    c: TransformerConfig,
    w: TransformerWeights,
    layer: int,
    position: int,
    k: int,
)
    requires
        0 <= k < layer_steps(c, w, layer, position).len(),
    ensures
        layer_steps(c, w, layer, position).len() == 14 + c.num_heads,
        k < 6 ==> layer_steps(c, w, layer, position)[k] == layer_prologue(c, w, layer, position)[k],
        6 <= k < 6 + c.num_heads ==> layer_steps(c, w, layer, position)[k] == attend_step(
            c,
            layer,
            position,
            k - 6,
        ),
        6 + c.num_heads <= k ==> layer_steps(c, w, layer, position)[k] == layer_epilogue(
            c,
            w,
            layer,
        )[k - 6 - c.num_heads],
{
}

/// Number of steps of one layer: six before the heads, one for each head,
/// eight after them.
pub open spec fn layer_len(c: TransformerConfig) -> int {
    14 + c.num_heads
}

/// Step `j` of a stack of layers is step `j % layer_len` of layer
/// `j / layer_len`.
pub proof fn lemma_stack_index(
    c: TransformerConfig,
    w: TransformerWeights,
    position: int,
    layers: int,
    j: int,
)
    requires
        0 <= layers,
        0 <= j < layers * layer_len(c),
    ensures
        stack_steps(c, w, position, layers).len() == layers * layer_len(c),
        0 <= j / layer_len(c) < layers,
        stack_steps(c, w, position, layers)[j] == layer_steps(c, w, j / layer_len(c), position)[j
            % layer_len(c)],
    decreases layers,
{
    let per = layer_len(c);
    lemma_stack_len(c, w, position, layers);
    lemma_stack_len(c, w, position, layers - 1);
    assert(layer_steps(c, w, layers - 1, position).len() == per);
    assert((layers - 1) * per + per == layers * per) by (nonlinear_arith);
    if j < (layers - 1) * per {
        lemma_stack_index(c, w, position, layers - 1, j);
    } else {
        let k = j - (layers - 1) * per;
        assert(j / per == layers - 1 && j % per == k) by (nonlinear_arith)
            requires
                j == (layers - 1) * per + k,
                0 <= k < per,
        ;
    }
}

/// A stack of layers has `layer_len` steps for each layer.
pub proof fn lemma_stack_len(c: TransformerConfig, w: TransformerWeights, position: int, layers: int)
    ensures
        layers >= 0 ==> stack_steps(c, w, position, layers).len() == layers * layer_len(c),
        layers < 0 ==> stack_steps(c, w, position, layers).len() == 0,
    decreases layers,
{
    if layers > 0 {
        lemma_stack_len(c, w, position, layers - 1);
        assert(layer_steps(c, w, layers - 1, position).len() == layer_len(c));
        assert((layers - 1) * layer_len(c) + layer_len(c) == layers * layer_len(c))
            by (nonlinear_arith);
    } else {
        assert(0 * layer_len(c) == 0);
    }
}

/// A pass has one step for the lookup, `layer_len` for each layer, and two
/// to close; the step after the lookup and `j` others is step
/// `j % layer_len` of layer `j / layer_len`, or one of the two that close.
pub proof fn lemma_forward_index(
    c: TransformerConfig,
    w: TransformerWeights,
    token: int,
    position: int,
    j: int,
)
    requires
        0 <= j,
    ensures
        forward_steps(c, w, token, position).len() == 3 + c.num_layers * layer_len(c),
        forward_steps(c, w, token, position)[0] == embed_step(c, w, token),
        j / layer_len(c) < c.num_layers ==> j + 1 < forward_steps(c, w, token, position).len()
            && forward_steps(c, w, token, position)[j + 1] == layer_steps(
            c,
            w,
            j / layer_len(c),
            position,
        )[j % layer_len(c)],
        j / layer_len(c) == c.num_layers && j % layer_len(c) < 2 ==> j + 1 < forward_steps(
            c,
            w,
            token,
            position,
        ).len() && forward_steps(c, w, token, position)[j + 1] == head_steps(c, w)[j % layer_len(
            c,
        )],
        j / layer_len(c) > c.num_layers || (j / layer_len(c) == c.num_layers && j % layer_len(c)
            >= 2) ==> j + 1 >= forward_steps(c, w, token, position).len(),
{
    let per = layer_len(c);
    let layers = c.num_layers as int;
    let q = j / per;
    let r = j % per;
    lemma_stack_len(c, w, position, layers);
    assert(j == per * q + r && 0 <= r < per && 0 <= q) by (nonlinear_arith)
        requires
            per > 0,
            j >= 0,
            q == j / per,
            r == j % per,
    ;
    if q < layers {
        assert(j < layers * per) by (nonlinear_arith)
            requires
                j == per * q + r,
                0 <= r < per,
                q < layers,
        ;
        lemma_stack_index(c, w, position, layers, j);
    } else if q == layers {
        assert(j == layers * per + r) by (nonlinear_arith)
            requires
                j == per * q + r,
                q == layers,
        ;
    } else {
        assert(j >= layers * per + per) by (nonlinear_arith)
            requires
                j == per * q + r,
                0 <= r,
                q > layers,
                per > 0,
        ;
    }
}

/// What holds of every step of every layer holds of every step of the
/// stack.
pub proof fn lemma_stack_all(
    c: TransformerConfig,
    w: TransformerWeights,
    position: int,
    layers: int,
    holds: spec_fn(Step) -> bool,
)
    requires
        forall|layer: int, k: int|
            0 <= layer < layers && 0 <= k < layer_steps(c, w, layer, position).len() ==> holds(
                #[trigger] layer_steps(c, w, layer, position)[k],
            ),
    ensures
        forall|i: int|
            0 <= i < stack_steps(c, w, position, layers).len() ==> holds(
                #[trigger] stack_steps(c, w, position, layers)[i],
            ),
    decreases layers,
{
    if layers > 0 {
        lemma_stack_all(c, w, position, layers - 1, holds);
        let below = stack_steps(c, w, position, layers - 1);
        let top = layer_steps(c, w, layers - 1, position);
        assert forall|i: int| 0 <= i < stack_steps(c, w, position, layers).len() implies holds(
            #[trigger] stack_steps(c, w, position, layers)[i],
        ) by {
            if i < below.len() {
                assert(stack_steps(c, w, position, layers)[i] == below[i]);
            } else {
                assert(stack_steps(c, w, position, layers)[i] == top[i - below.len()]);
            }
        }
    }
}

/// What holds of the embedding lookup, of every step of every layer and of
/// the closing steps holds of every step of the pass.
pub proof fn lemma_forward_all(
    c: TransformerConfig,
    w: TransformerWeights,
    token: int,
    position: int,
    holds: spec_fn(Step) -> bool,
)
    requires
        holds(embed_step(c, w, token)),
        forall|layer: int, k: int|
            0 <= layer < c.num_layers && 0 <= k < layer_steps(c, w, layer, position).len()
                ==> holds(#[trigger] layer_steps(c, w, layer, position)[k]),
        holds(head_steps(c, w)[0]),
        holds(head_steps(c, w)[1]),
    ensures
        forall|i: int|
            0 <= i < forward_steps(c, w, token, position).len() ==> holds(
                #[trigger] forward_steps(c, w, token, position)[i],
            ),
{
    lemma_stack_all(c, w, position, c.num_layers as int, holds);
    let stack = stack_steps(c, w, position, c.num_layers as int);
    let all = forward_steps(c, w, token, position);
    assert forall|i: int| 0 <= i < all.len() implies holds(#[trigger] all[i]) by {
        if i == 0 {
            assert(all[i] == embed_step(c, w, token));
        } else if i < 1 + stack.len() {
            assert(all[i] == stack[i - 1]);
        } else {
            assert(all[i] == head_steps(c, w)[i - 1 - stack.len()]);
        }
    }
}

/// Every step of a layer fits.
pub proof fn lemma_layer_fits(
    c: TransformerConfig,
    w: TransformerWeights,
    shared: bool,
    elements: int,
    layer: int,
    position: int,
)
    requires
        schedulable(c, w, shared, elements),
        0 <= layer < c.num_layers,
        0 <= position < c.seq_len,
    ensures
        forall|k: int|
            0 <= k < layer_steps(c, w, layer, position).len() ==> step_fits(
                c,
                elements,
                #[trigger] layer_steps(c, w, layer, position)[k],
            ),
{
    let d = c.dim as int;
    let h = c.hidden_dim as int;
    let kv = c.spec_kv_dim();
    let l = c.num_layers as int;
    c.lemma_head_size();
    crate::weights::lemma_sizes(c);
    assert(l * d * d == l * (d * d) && l * d * kv == l * (d * kv) && l * d * h == l * (d * h))
        by (nonlinear_arith);
    assert(0 <= d * d && 0 <= d * kv && 0 <= d * h) by (nonlinear_arith)
        requires
            d >= 1,
            kv >= 1,
            h >= 1,
    ;
    lemma_layer_view(w.rms_att_weights, layer, d, l);
    lemma_layer_view(w.rms_ffn_weights, layer, d, l);
    lemma_layer_view(w.wq, layer, d * d, l);
    lemma_layer_view(w.wk, layer, d * kv, l);
    lemma_layer_view(w.wv, layer, d * kv, l);
    lemma_layer_view(w.wo, layer, d * d, l);
    lemma_layer_view(w.w1, layer, d * h, l);
    lemma_layer_view(w.w2, layer, d * h, l);
    lemma_layer_view(w.w3, layer, d * h, l);
    assert(h * d == d * h) by (nonlinear_arith);
    let steps = layer_steps(c, w, layer, position);
    let before = layer_prologue(c, w, layer, position);
    let after = layer_epilogue(c, w, layer);
    assert forall|k: int| 0 <= k < steps.len() implies step_fits(c, elements, #[trigger] steps[k]) by {
        lemma_layer_steps_index(c, w, layer, position, k);
        if k < 6 {
            assert(step_fits(c, elements, before[0]));
            assert(step_fits(c, elements, before[1]));
            assert(step_fits(c, elements, before[2]));
            assert(step_fits(c, elements, before[3]));
            assert(step_fits(c, elements, before[4]));
            assert(step_fits(c, elements, before[5]));
        } else if k < 6 + c.num_heads {
            lemma_attend_step(c, layer, position, k - 6);
        } else {
            assert(step_fits(c, elements, after[0]));
            assert(step_fits(c, elements, after[1]));
            assert(step_fits(c, elements, after[2]));
            assert(step_fits(c, elements, after[3]));
            assert(step_fits(c, elements, after[4]));
            assert(step_fits(c, elements, after[5]));
            assert(step_fits(c, elements, after[6]));
            assert(step_fits(c, elements, after[7]));
        }
    }
}

/// Every step of a forward pass stays within the buffers and the weights:
/// whoever runs the schedule never indexes out of bounds.
pub proof fn lemma_forward_fits(
    c: TransformerConfig,
    w: TransformerWeights,
    shared: bool,
    elements: int,
    token: int,
    position: int,
)
    requires
        schedulable(c, w, shared, elements),
        0 <= token < c.vocab_size,
        0 <= position < c.seq_len,
    ensures
        forall|i: int|
            0 <= i < forward_steps(c, w, token, position).len() ==> step_fits(
                c,
                elements,
                #[trigger] forward_steps(c, w, token, position)[i],
            ),
{
    let holds = |step: Step| step_fits(c, elements, step);
    crate::weights::lemma_sizes(c);
    lemma_layer_view(w.token_embedding, token, c.dim as int, c.vocab_size as int);
    assert forall|layer: int, k: int|
        0 <= layer < c.num_layers && 0 <= k < layer_steps(c, w, layer, position).len()
        implies holds(#[trigger] layer_steps(c, w, layer, position)[k]) by {
        lemma_layer_fits(c, w, shared, elements, layer, position);
    }
    assert(c.dim * c.vocab_size == c.vocab_size * c.dim) by (nonlinear_arith);
    assert(holds(embed_step(c, w, token)));
    assert(holds(head_steps(c, w)[0]));
    assert(holds(head_steps(c, w)[1]));
    lemma_forward_all(c, w, token, position, holds);
}

/// An attention step for a token at `position` reads cached vectors of its
/// own layer only, and of no position after `position`.
pub proof fn lemma_attend_reads(
    c: TransformerConfig,
    layer: int,
    position: int,
    head: int,
    index: int,
)
    requires
        c.valid(),
        cache_len(c) <= usize::MAX,
        scores_len(c) <= usize::MAX,
        0 <= layer < c.num_layers,
        0 <= position < c.seq_len,
        0 <= head < c.num_heads,
        cache_reads(attend_step(c, layer, position, head)).contains(index),
    ensures
        0 <= index < cache_len(c),
        0 <= cache_position(c, index) <= position,
        cache_layer(c, index) == layer,
{
    lemma_attend_step(c, layer, position, head);
    c.lemma_head_size();
    let hs = c.spec_head_size();
    let kv = c.spec_kv_dim();
    let s = c.seq_len as int;
    let g = c.spec_kv_head(head);
    let keys = cache_offset(c, layer, 0) + g * hs;
    let delta = index - keys;
    let t = delta / kv;
    let j = delta % kv;
    assert(delta == kv * t + j && 0 <= j < kv && 0 <= t) by (nonlinear_arith)
        requires
            kv >= 1,
            delta >= 0,
            t == delta / kv,
            j == delta % kv,
    ;
    lemma_cache_row(c, layer, t);
    let row = layer * s + t;
    let inner = g * hs + j;
    assert(index == row * kv + inner) by (nonlinear_arith)
        requires
            index == keys + delta,
            keys == (layer * s + 0) * kv + g * hs,
            delta == kv * t + j,
            row == layer * s + t,
            inner == g * hs + j,
    ;
    assert(cache_offset(c, layer, t) == row * kv);
    assert(0 <= inner < kv);
}

/// The one cached vector that a store writes is that of its layer and
/// position, and it lies within the cache.
pub proof fn lemma_store_writes(c: TransformerConfig, layer: int, position: int, index: int)
    requires
        c.valid(),
        0 <= layer < c.num_layers < 0x1_0000_0000,
        0 <= position < c.seq_len,
        cache_writes(c, Step::StoreKv { layer: layer as u32, position: position as u32 }).contains(
            index,
        ),
    ensures
        0 <= index < cache_len(c),
        cache_position(c, index) == position,
        cache_layer(c, index) == layer,
{
    lemma_cache_row(c, layer, position);
}

/// The cache elements that a pass reads are within the cache and belong to
/// positions up to its own.
pub open spec fn reads_up_to(c: TransformerConfig, position: int, step: Step) -> bool {
    forall|index: int| #[trigger]
        cache_reads(step).contains(index) ==> 0 <= index < cache_len(c) && cache_position(c, index)
            <= position
}

/// The cache elements that a pass writes are within the cache and belong to
/// its own position.
pub open spec fn writes_at(c: TransformerConfig, position: int, step: Step) -> bool {
    forall|index: int| #[trigger]
        cache_writes(c, step).contains(index) ==> 0 <= index < cache_len(c) && cache_position(
            c,
            index,
        ) == position
}

/// A forward pass at `position` reads nothing that is cached for a later
/// position: what it computes cannot depend on tokens that come after it.
pub proof fn lemma_forward_reads(
    c: TransformerConfig,
    w: TransformerWeights,
    token: int,
    position: int,
)
    requires
        c.valid(),
        cache_len(c) <= usize::MAX,
        scores_len(c) <= usize::MAX,
        0 <= position < c.seq_len,
    ensures
        forall|i: int|
            0 <= i < forward_steps(c, w, token, position).len() ==> reads_up_to(
                c,
                position,
                #[trigger] forward_steps(c, w, token, position)[i],
            ),
{
    let holds = |step: Step| reads_up_to(c, position, step);
    assert forall|layer: int, k: int|
        0 <= layer < c.num_layers && 0 <= k < layer_steps(c, w, layer, position).len()
        implies holds(#[trigger] layer_steps(c, w, layer, position)[k]) by {
        lemma_layer_steps_index(c, w, layer, position, k);
        let step = layer_steps(c, w, layer, position)[k];
        if 6 <= k < 6 + c.num_heads {
            assert forall|index: int| #[trigger] cache_reads(step).contains(index) implies 0
                <= index < cache_len(c) && cache_position(c, index) <= position by {
                lemma_attend_reads(c, layer, position, k - 6, index);
            }
        } else if k < 6 {
            assert(cache_reads(layer_prologue(c, w, layer, position)[k]) == Set::<int>::empty());
        } else {
            assert(cache_reads(layer_epilogue(c, w, layer)[k - 6 - c.num_heads]) == Set::<
                int,
            >::empty());
        }
    }
    lemma_forward_all(c, w, token, position, holds);
}

/// A forward pass at `position` writes the cache at `position` only: what
/// is cached for any other position stays as it is.
pub proof fn lemma_forward_writes(
    c: TransformerConfig,
    w: TransformerWeights,
    token: int,
    position: int,
)
    requires
        c.valid(),
        0 <= position < c.seq_len,
    ensures
        forall|i: int|
            0 <= i < forward_steps(c, w, token, position).len() ==> writes_at(
                c,
                position,
                #[trigger] forward_steps(c, w, token, position)[i],
            ),
{
    let holds = |step: Step| writes_at(c, position, step);
    assert forall|layer: int, k: int|
        0 <= layer < c.num_layers && 0 <= k < layer_steps(c, w, layer, position).len()
        implies holds(#[trigger] layer_steps(c, w, layer, position)[k]) by {
        lemma_layer_steps_index(c, w, layer, position, k);
        let step = layer_steps(c, w, layer, position)[k];
        if k == 5 {
            assert(step == Step::StoreKv { layer: layer as u32, position: position as u32 });
            assert forall|index: int| #[trigger] cache_writes(c, step).contains(index) implies 0
                <= index < cache_len(c) && cache_position(c, index) == position by {
                lemma_store_writes(c, layer, position, index);
            }
        } else if k < 6 {
            assert(cache_writes(c, layer_prologue(c, w, layer, position)[k]) == Set::<int>::empty());
        } else if k < 6 + c.num_heads {
            assert(cache_writes(c, attend_step(c, layer, position, k - 6)) == Set::<int>::empty());
        } else {
            assert(cache_writes(c, layer_epilogue(c, w, layer)[k - 6 - c.num_heads]) == Set::<
                int,
            >::empty());
        }
    }
    lemma_forward_all(c, w, token, position, holds);
}

/// Causality: no step of a pass at a later position writes a cache element
/// that a step of a pass at an earlier position reads, whatever the two
/// tokens are.
pub proof fn lemma_causal(
    c: TransformerConfig,
    w: TransformerWeights,
    earlier_token: int,
    earlier: int,
    later_token: int,
    later: int,
)
    requires
        c.valid(),
        cache_len(c) <= usize::MAX,
        scores_len(c) <= usize::MAX,
        0 <= earlier < later < c.seq_len,
    ensures
        forall|i: int, j: int|
            0 <= i < forward_steps(c, w, earlier_token, earlier).len() && 0 <= j < forward_steps(
                c,
                w,
                later_token,
                later,
            ).len() ==> cache_reads(
                #[trigger] forward_steps(c, w, earlier_token, earlier)[i],
            ).disjoint(cache_writes(c, #[trigger] forward_steps(c, w, later_token, later)[j])),
{
    lemma_forward_reads(c, w, earlier_token, earlier);
    lemma_forward_writes(c, w, later_token, later);
    let before = forward_steps(c, w, earlier_token, earlier);
    let after = forward_steps(c, w, later_token, later);
    assert forall|i: int, j: int| 0 <= i < before.len() && 0 <= j < after.len() implies cache_reads(
        #[trigger] before[i],
    ).disjoint(cache_writes(c, #[trigger] after[j])) by {
        assert(reads_up_to(c, earlier, before[i]));
        assert(writes_at(c, later, after[j]));
        assert forall|index: int|
            !(cache_reads(before[i]).contains(index) && cache_writes(c, after[j]).contains(
                index,
            )) by {
            if cache_reads(before[i]).contains(index) && cache_writes(c, after[j]).contains(index) {
                assert(cache_position(c, index) <= earlier);
                assert(cache_position(c, index) == later);
            }
        }
    }
}

} // verus!
