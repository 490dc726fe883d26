//! A loaded model: its configuration, the views of its weights over the
//! bytes of the checkpoint, and the run state.

use vstd::prelude::*;
use crate::config::{
    header_acceptable, header_config, header_fault, header_field, header_shared, le_u32,
    lemma_vocabulary_sign, parse_header, read_u32_le, TransformerConfig, HEADER_BYTES,
};
use crate::error::{ConfigFault, EngineError};
use crate::forward::{
    attend_step, forward_steps, layer_epilogue, layer_len, layer_prologue, layer_steps,
    layer_view, lemma_attend_step, lemma_forward_fits, lemma_forward_index,
    lemma_layer_steps_index, lemma_layer_view, schedulable, step_fits, Buffer, Step,
};
use crate::state::{addressable, cache_offset, RunState};
use crate::weights::{
    lemma_classifier_view, lemma_layout_within, lemma_sizes, product2, product3, required_bytes,
    required_len, TensorView, TransformerWeights,
};

verus! {

/// Element `index` of the weight region of a checkpoint, as a bit pattern.
pub open spec fn weight_at(data: Seq<u8>, index: int) -> int {
    le_u32(data, HEADER_BYTES + 4 * index)
}

/// The elements of a view, in order.
pub open spec fn view_elements(data: Seq<u8>, view: TensorView) -> Seq<u32> {
    Seq::new(view.len as nat, |i: int| weight_at(data, view.offset + i) as u32)
}

/// Transformer model
#[derive(Debug)]
pub struct Transformer<'a> {
    /// transformer configuration
    pub config: TransformerConfig,
    /// the weights of the model
    pub weights: TransformerWeights,
    /// buffers for the "wave" of activations in the forward pass
    pub state: RunState,
    /// the bytes of the checkpoint, header included
    pub data: &'a [u8],
}

impl<'a> Default for Transformer<'a> {
    /// No model: an empty configuration over no bytes.
    fn default() -> (model: Transformer<'a>)
        ensures
            model.config == TransformerConfig::unset(),
            model.weights.within(0),
            model.state.empty(),
            model.data@.len() == 0,
    {
        Transformer {
            config: TransformerConfig::default(),
            weights: TransformerWeights::default(),
            state: RunState::default(),
            data: &[],
        }
    }
}

impl<'a> Transformer<'a> {
    /// Whether the classifier reuses the token embedding table.
    pub open spec fn shared(&self) -> bool {
        self.weights.wcls == self.weights.token_embedding
    }

    /// Number of whole elements that follow the header.
    pub open spec fn elements(&self) -> int {
        (self.data@.len() - HEADER_BYTES) / 4
    }

    /// The configuration is valid, the views are its layout, and every
    /// tensor lies within the checkpoint.
    pub open spec fn loaded(&self) -> bool {
        &&& self.config.valid()
        &&& self.data@.len() >= HEADER_BYTES
        &&& self.weights.matches(self.config, self.shared())
        &&& required_bytes(self.config, self.shared()) <= self.data@.len()
    }

    /// The model is loaded and its buffers are allocated.
    pub open spec fn ready(&self) -> bool {
        self.loaded() && self.state.shaped(self.config)
    }

    /// No view of a loaded model reaches beyond the checkpoint.
    pub proof fn lemma_views_within(&self)
        requires
            self.loaded(),
        ensures
            self.weights.within(self.elements()),
            0 <= self.elements() <= usize::MAX,
    {
        lemma_layout_within(self.weights, self.config, self.shared());
        assert(self.data.len() == self.data@.len());
    }

    /// The classifier follows the sign of the header's vocabulary field. A
    /// model read from a checkpoint that says `-V` has a classifier of its
    /// own over `V` tokens, which shares no element with the token
    /// embedding table; one read from a checkpoint that says `V` has the
    /// token embedding table for its classifier.
    pub proof fn lemma_classifier_follows_sign(&self)
        requires
            self.loaded(),
            header_acceptable(self.data@),
            self.config == header_config(self.data@),
            self.shared() == header_shared(self.data@),
        ensures
            header_field(self.data@, 5) < 0 ==> {
                &&& self.config.vocab_size == -header_field(self.data@, 5)
                &&& self.weights.wcls != self.weights.token_embedding
                &&& self.weights.token_embedding.end() <= self.weights.wcls.offset
                &&& self.weights.wcls.len == self.weights.token_embedding.len
            },
            header_field(self.data@, 5) > 0 ==> {
                &&& self.config.vocab_size == header_field(self.data@, 5)
                &&& self.weights.wcls == self.weights.token_embedding
            },
    {
        lemma_vocabulary_sign(self.data@);
        lemma_classifier_view(self.weights, self.config, self.shared());
    }

    /// Lays the tensors of configuration `config` out over a checkpoint of
    /// `file_size` bytes.
    ///
    /// Succeeds exactly when the file holds every tensor that the
    /// configuration implies; the views are then the layout's, and none
    /// reaches beyond the file. Otherwise the error says how many bytes a
    /// complete checkpoint has.
    pub fn mmap_weights(config: &TransformerConfig, shared_weights: bool, file_size: usize) -> (mapped:
        Result<TransformerWeights, EngineError>)
        requires
            config.valid(),
        ensures
            match mapped {
                Ok(weights) => {
                    &&& required_bytes(*config, shared_weights) <= file_size
                    &&& weights.matches(*config, shared_weights)
                    &&& weights.within(required_len(*config, shared_weights))
                    &&& shared_weights <==> weights.wcls == weights.token_embedding
                },
                Err(e) => {
                    &&& required_bytes(*config, shared_weights) > file_size
                    &&& e == (EngineError::TruncatedCheckpoint {
                        needed: required_bytes(*config, shared_weights) as u128,
                        available: file_size,
                    })
                },
            },
    {
        proof {
            lemma_sizes(*config);
            config.lemma_head_size();
        }
        let kv_dim: u32 = config.kv_dim();
        let head_size: u32 = config.head_size();
        let e: u128 = product2(config.vocab_size, config.dim);
        let n: u128 = product2(config.num_layers, config.dim);
        let a: u128 = product3(config.num_layers, config.dim, config.dim);
        let k: u128 = product3(config.num_layers, config.dim, kv_dim);
        let f: u128 = product3(config.num_layers, config.dim, config.hidden_dim);
        let d: u128 = config.dim as u128;
        let rotary: u128 = 2 * (product2(config.seq_len, head_size) / 2);
        let body: u128 = e + 2 * n + 2 * a + 2 * k + 3 * f + d;
        let required: u128 = if shared_weights {
            body
        } else {
            body + rotary + e
        };
        let needed: u128 = HEADER_BYTES as u128 + 4 * required;
        if needed > file_size as u128 {
            return Err(EngineError::TruncatedCheckpoint { needed, available: file_size });
        }
        let token_embedding = TensorView { offset: 0, len: e as usize };
        let weights = TransformerWeights {
            token_embedding,
            rms_att_weights: TensorView { offset: e as usize, len: n as usize },
            wq: TensorView { offset: (e + n) as usize, len: a as usize },
            wk: TensorView { offset: (e + n + a) as usize, len: k as usize },
            wv: TensorView { offset: (e + n + a + k) as usize, len: k as usize },
            wo: TensorView { offset: (e + n + a + 2 * k) as usize, len: a as usize },
            rms_ffn_weights: TensorView {
                offset: (e + n + 2 * a + 2 * k) as usize,
                len: n as usize,
            },
            w1: TensorView { offset: (e + 2 * n + 2 * a + 2 * k) as usize, len: f as usize },
            w2: TensorView { offset: (e + 2 * n + 2 * a + 2 * k + f) as usize, len: f as usize },
            w3: TensorView {
                offset: (e + 2 * n + 2 * a + 2 * k + 2 * f) as usize,
                len: f as usize,
            },
            rms_final_weight: TensorView {
                offset: (e + 2 * n + 2 * a + 2 * k + 3 * f) as usize,
                len: d as usize,
            },
            wcls: if shared_weights {
                token_embedding
            } else {
                TensorView { offset: (body + rotary) as usize, len: e as usize }
            },
        };
        Ok(weights)
    }

    /// Reads a checkpoint: the header, then the layout of the weights over
    /// the bytes that follow it. The run state is left empty.
    ///
    /// Fails with `CorruptHeader` when the bytes end within the header,
    /// with `InvalidConfig` when the header is not acceptable, with
    /// `MapFailed` when nothing follows the header, and with
    /// `TruncatedCheckpoint` when the bytes end before the last tensor; in
    /// that order, and in no other case.
    pub fn read_checkpoint(data: &'a [u8]) -> (read: Result<Transformer<'a>, EngineError>)
        ensures
            match read {
                Ok(model) => {
                    &&& data@.len() > HEADER_BYTES
                    &&& header_acceptable(data@)
                    &&& model.config == header_config(data@)
                    &&& model.shared() == header_shared(data@)
                    &&& model.data@ == data@
                    &&& model.loaded()
                    &&& model.state.empty()
                },
                Err(e) => {
                    if data@.len() < HEADER_BYTES {
                        e == (EngineError::CorruptHeader { len: data.len() })
                    } else if !header_acceptable(data@) {
                        &&& header_fault(data@) matches Some(fault)
                        &&& e == (EngineError::InvalidConfig { fault })
                    } else if data@.len() == HEADER_BYTES {
                        e == EngineError::MapFailed
                    } else {
                        &&& required_bytes(header_config(data@), header_shared(data@)) > data@.len()
                        &&& e == (EngineError::TruncatedCheckpoint {
                            needed: required_bytes(
                                header_config(data@),
                                header_shared(data@),
                            ) as u128,
                            available: data.len(),
                        })
                    }
                },
            },
    {
        let header = match parse_header(data) {
            Ok(header) => header,
            Err(e) => {
                return Err(e);
            },
        };
        if data.len() == HEADER_BYTES {
            return Err(EngineError::MapFailed);
        }
        let weights = match Self::mmap_weights(&header.config, header.shared_weights, data.len()) {
            Ok(weights) => weights,
            Err(e) => {
                return Err(e);
            },
        };
        Ok(Transformer { config: header.config, weights, state: RunState::default(), data })
    }

    /// Allocates the run state of a loaded model, all zeros.
    ///
    /// Fails with `InvalidConfig` exactly when a buffer would be longer
    /// than can be allocated; the model is then unchanged.
    pub fn alloc_run_state(&mut self) -> (done: Result<(), EngineError>)
        requires
            old(self).loaded(),
        ensures
            final(self).config == old(self).config,
            final(self).weights == old(self).weights,
            final(self).data == old(self).data,
            final(self).loaded(),
            match done {
                Ok(()) => {
                    &&& addressable(old(self).config)
                    &&& final(self).ready()
                    &&& final(self).state.zeroed()
                },
                Err(e) => {
                    &&& !addressable(old(self).config)
                    &&& e == (EngineError::InvalidConfig { fault: ConfigFault::BuffersTooLarge })
                    &&& final(self).state == old(self).state
                },
            },
    {
        match RunState::new(&self.config) {
            Ok(state) => {
                self.state = state;
                Ok(())
            },
            Err(e) => Err(e),
        }
    }

    /// Builds a model from the bytes of a checkpoint: reads it, then
    /// allocates the run state.
    ///
    /// Succeeds exactly when the checkpoint is complete and acceptable and
    /// its buffers can be allocated. The errors of reading come first, as
    /// `read_checkpoint` orders them; `InvalidConfig` also reports buffers
    /// that cannot be allocated.
    pub fn new(data: &'a [u8]) -> (made: Result<Transformer<'a>, EngineError>)
        ensures
            match made {
                Ok(model) => {
                    &&& data@.len() > HEADER_BYTES
                    &&& header_acceptable(data@)
                    &&& required_bytes(header_config(data@), header_shared(data@)) <= data@.len()
                    &&& addressable(header_config(data@))
                    &&& model.config == header_config(data@)
                    &&& model.shared() == header_shared(data@)
                    &&& model.data@ == data@
                    &&& model.ready()
                    &&& model.state.zeroed()
                },
                Err(e) => {
                    if data@.len() < HEADER_BYTES {
                        e == (EngineError::CorruptHeader { len: data.len() })
                    } else if !header_acceptable(data@) {
                        &&& header_fault(data@) matches Some(fault)
                        &&& e == (EngineError::InvalidConfig { fault })
                    } else if data@.len() == HEADER_BYTES {
                        e == EngineError::MapFailed
                    } else if required_bytes(header_config(data@), header_shared(data@))
                        > data@.len() {
                        e == (EngineError::TruncatedCheckpoint {
                            needed: required_bytes(
                                header_config(data@),
                                header_shared(data@),
                            ) as u128,
                            available: data.len(),
                        })
                    } else {
                        &&& !addressable(header_config(data@))
                        &&& e == (EngineError::InvalidConfig { fault: ConfigFault::BuffersTooLarge })
                    }
                },
            },
    {
        let mut transformer = match Self::read_checkpoint(data) {
            Ok(transformer) => transformer,
            Err(e) => {
                return Err(e);
            },
        };
        match transformer.alloc_run_state() {
            Ok(()) => Ok(transformer),
            Err(e) => Err(e),
        }
    }

    /// Element `index` of the weight region, as a bit pattern.
    pub fn weight(&self, index: usize) -> (bits: u32)
        requires
            self.data@.len() >= HEADER_BYTES,
            index < self.elements(),
        ensures
            bits == weight_at(self.data@, index as int),
    {
        let size: usize = self.data.len();
        read_u32_le(self.data, HEADER_BYTES + 4 * index)
    }

    /// The bytes of a tensor, four to an element, lowest byte first.
    pub fn tensor(&self, view: TensorView) -> (bytes: &'a [u8])
        requires
            self.data@.len() >= HEADER_BYTES,
            view.end() <= self.elements(),
        ensures
            bytes@ == self.data@.subrange(
                HEADER_BYTES + 4 * view.offset,
                HEADER_BYTES + 4 * view.end(),
            ),
            bytes@.len() == 4 * view.len,
    {
        let data: &'a [u8] = self.data;
        let size: usize = data.len();
        let start: usize = HEADER_BYTES + 4 * view.offset;
        let end: usize = start + 4 * view.len;
        &data[start..end]
    }

    /// Copies an embedding row into the activation vector `x`. Nothing else
    /// changes.
    pub fn load_embedding(&mut self, row: TensorView)
        requires
            old(self).ready(),
            row.len == old(self).config.dim,
            row.end() <= old(self).elements(),
        ensures
            final(self).ready(),
            final(self).config == old(self).config,
            final(self).weights == old(self).weights,
            final(self).data == old(self).data,
            final(self).state.x@ == view_elements(old(self).data@, row),
            final(self).state.xb == old(self).state.xb,
            final(self).state.xb2 == old(self).state.xb2,
            final(self).state.hb == old(self).state.hb,
            final(self).state.hb2 == old(self).state.hb2,
            final(self).state.q == old(self).state.q,
            final(self).state.k == old(self).state.k,
            final(self).state.v == old(self).state.v,
            final(self).state.att == old(self).state.att,
            final(self).state.logits == old(self).state.logits,
            final(self).state.key_cache == old(self).state.key_cache,
            final(self).state.value_cache == old(self).state.value_cache,
    {
        let size: usize = self.data.len();
        let mut i: usize = 0;
        while i < row.len
            invariant
                i <= row.len,
                self.data@.len() <= usize::MAX,
                self.ready(),
                row.len == self.config.dim,
                row.end() <= self.elements(),
                self.config == old(self).config,
                self.weights == old(self).weights,
                self.data == old(self).data,
                forall|j: int| 0 <= j < i ==> self.state.x@[j] == weight_at(self.data@, row.offset + j),
                self.state.xb == old(self).state.xb,
                self.state.xb2 == old(self).state.xb2,
                self.state.hb == old(self).state.hb,
                self.state.hb2 == old(self).state.hb2,
                self.state.q == old(self).state.q,
                self.state.k == old(self).state.k,
                self.state.v == old(self).state.v,
                self.state.att == old(self).state.att,
                self.state.logits == old(self).state.logits,
                self.state.key_cache == old(self).state.key_cache,
                self.state.value_cache == old(self).state.value_cache,
            decreases row.len - i,
        {
            let bits: u32 = self.weight(row.offset + i);
            self.state.x[i] = bits;
            i += 1;
        }
        assert(self.state.x@ =~= view_elements(old(self).data@, row));
    }

    /// A loaded model with its buffers allocated can be scheduled.
    pub proof fn lemma_schedulable(&self)
        requires
            self.ready(),
        ensures
            schedulable(self.config, self.weights, self.shared(), self.elements()),
    {
        self.lemma_views_within();
        assert(self.state.key_cache.len() == self.state.key_cache@.len());
        assert(self.state.att.len() == self.state.att@.len());
    }

    /// Step `index` of the forward pass of `token` at `position`, or none
    /// where the pass has no such step. Nothing is allocated.
    ///
    /// Fails with `SequenceOverflow` exactly when the position is not below
    /// the maximum sequence length.
    pub fn step(&self, token: u32, position: u32, index: usize) -> (step: Result<
        Option<Step>,
        EngineError,
    >)
        requires
            self.ready(),
            token < self.config.vocab_size,
        ensures
            match step {
                Ok(found) => {
                    &&& position < self.config.seq_len
                    &&& found == if index < forward_steps(
                        self.config,
                        self.weights,
                        token as int,
                        position as int,
                    ).len() {
                        Some(
                            forward_steps(
                                self.config,
                                self.weights,
                                token as int,
                                position as int,
                            )[index as int],
                        )
                    } else {
                        None
                    }
                    &&& found matches Some(s) ==> step_fits(self.config, self.elements(), s)
                },
                Err(e) => {
                    &&& position >= self.config.seq_len
                    &&& e == (EngineError::SequenceOverflow {
                        position,
                        seq_len: self.config.seq_len,
                    })
                },
            },
    {
        let c = self.config;
        let w = self.weights;
        if position >= c.seq_len {
            return Err(EngineError::SequenceOverflow { position, seq_len: c.seq_len });
        }
        proof {
            self.lemma_schedulable();
            c.lemma_head_size();
            lemma_sizes(c);
            lemma_forward_fits(c, w, self.shared(), self.elements(), token as int, position as int);
            if index > 0 {
                lemma_forward_index(c, w, token as int, position as int, index as int - 1);
            }
        }
        let d: usize = c.dim as usize;
        if index == 0 {
            proof {
                lemma_forward_index(c, w, token as int, position as int, 0);
                lemma_layer_view(w.token_embedding, token as int, d as int, c.vocab_size as int);
            }
            return Ok(Some(Step::Embed { row: w.token_embedding.slice(token as usize * d, d) }));
        }
        let per: u64 = c.num_heads as u64 + 14;
        let j: u64 = (index - 1) as u64;
        let layer: u64 = j / per;
        let k: u64 = j % per;
        if layer < c.num_layers as u64 {
            Ok(Some(self.layer_step(layer as u32, position, k)))
        } else if layer == c.num_layers as u64 && k == 0 {
            Ok(Some(Step::RmsNorm { dst: Buffer::X, src: Buffer::X, weight: w.rms_final_weight }))
        } else if layer == c.num_layers as u64 && k == 1 {
            Ok(
                Some(
                    Step::Matmul {
                        dst: Buffer::Logits,
                        src: Buffer::X,
                        weight: w.wcls,
                        size_in: d,
                        size_out: c.vocab_size as usize,
                    },
                ),
            )
        } else {
            Ok(None)
        }
    }

    /// Step `k` of `layer`, for a token at `position`.
    fn layer_step(&self, layer: u32, position: u32, k: u64) -> (step: Step)
        requires
            self.ready(),
            layer < self.config.num_layers,
            position < self.config.seq_len,
            k < layer_len(self.config),
        ensures
            step == layer_steps(self.config, self.weights, layer as int, position as int)[k as int],
    {
        let c = self.config;
        let w = self.weights;
        let ghost l = layer as int;
        let ghost pos = position as int;
        proof {
            self.lemma_schedulable();
            c.lemma_head_size();
            lemma_sizes(c);
            lemma_layer_steps_index(c, w, l, pos, k as int);
        }
        let layers: usize = c.num_layers as usize;
        let at: usize = layer as usize;
        let heads: u64 = c.num_heads as u64;
        let d: usize = c.dim as usize;
        let hidden: usize = c.hidden_dim as usize;
        let kv: usize = c.kv_dim() as usize;
        assert(d * d <= layers * d * d && d * kv <= layers * d * kv && d * hidden <= layers * d
            * hidden) by (nonlinear_arith)
            requires
                layers >= 1,
                d >= 1,
                kv >= 1,
                hidden >= 1,
        ;
        let dd: usize = d * d;
        let dkv: usize = d * kv;
        let dh: usize = d * hidden;
        assert(layers * d * d == layers * dd && layers * d * kv == layers * dkv && layers * d
            * hidden == layers * dh) by (nonlinear_arith)
            requires
                dd == d * d,
                dkv == d * kv,
                dh == d * hidden,
        ;
        if k >= 6 && k < 6 + heads {
            return self.attend(layer, position, (k - 6) as u32);
        }
        let ghost before = layer_prologue(c, w, l, pos);
        let ghost after = layer_epilogue(c, w, l);
        let after_heads: u64 = if k < 6 {
            k
        } else {
            k - heads
        };
        match after_heads {
            0 => Step::RmsNorm {
                dst: Buffer::Xb,
                src: Buffer::X,
                weight: layer_part(w.rms_att_weights, at, d, layers),
            },
            1 => Step::Matmul {
                dst: Buffer::Q,
                src: Buffer::Xb,
                weight: layer_part(w.wq, at, dd, layers),
                size_in: d,
                size_out: d,
            },
            2 => Step::Matmul {
                dst: Buffer::K,
                src: Buffer::Xb,
                weight: layer_part(w.wk, at, dkv, layers),
                size_in: d,
                size_out: kv,
            },
            3 => Step::Matmul {
                dst: Buffer::V,
                src: Buffer::Xb,
                weight: layer_part(w.wv, at, dkv, layers),
                size_in: d,
                size_out: kv,
            },
            4 => Step::Rotate { position, head_size: c.head_size() as usize },
            5 => Step::StoreKv { layer, position },
            6 => Step::Matmul {
                dst: Buffer::Xb2,
                src: Buffer::Xb,
                weight: layer_part(w.wo, at, dd, layers),
                size_in: d,
                size_out: d,
            },
            7 => Step::Accumulate { src: Buffer::Xb2 },
            8 => Step::RmsNorm {
                dst: Buffer::Xb,
                src: Buffer::X,
                weight: layer_part(w.rms_ffn_weights, at, d, layers),
            },
            9 => Step::Matmul {
                dst: Buffer::Hb,
                src: Buffer::Xb,
                weight: layer_part(w.w1, at, dh, layers),
                size_in: d,
                size_out: hidden,
            },
            10 => Step::Matmul {
                dst: Buffer::Hb2,
                src: Buffer::Xb,
                weight: layer_part(w.w3, at, dh, layers),
                size_in: d,
                size_out: hidden,
            },
            11 => Step::SwiGlu,
            12 => Step::Matmul {
                dst: Buffer::Xb,
                src: Buffer::Hb,
                weight: layer_part(w.w2, at, dh, layers),
                size_in: hidden,
                size_out: d,
            },
            _ => Step::Accumulate { src: Buffer::Xb },
        }
    }

    /// The attention step of `head` in `layer`, for a token at `position`.
    fn attend(&self, layer: u32, position: u32, head: u32) -> (step: Step)
        requires
            self.ready(),
            layer < self.config.num_layers,
            position < self.config.seq_len,
            head < self.config.num_heads,
        ensures
            step == attend_step(self.config, layer as int, position as int, head as int),
    {
        let c = self.config;
        let ghost l = layer as int;
        proof {
            self.lemma_schedulable();
            c.lemma_head_size();
            lemma_attend_step(c, l, position as int, head as int);
            crate::state::lemma_cache_row(c, l, 0);
        }
        let seq: usize = c.seq_len as usize;
        let hs: usize = c.head_size() as usize;
        let kv: usize = c.kv_dim() as usize;
        assert(layer * seq <= 0xFFFF_FFFF * 0xFFFF_FFFF) by (nonlinear_arith)
            requires
                layer <= 0xFFFF_FFFF,
                seq <= 0xFFFF_FFFF,
        ;
        let rows: u64 = (layer as u64) * (seq as u64);
        assert(rows * kv == cache_offset(c, l, 0)) by (nonlinear_arith)
            requires
                rows == l * c.seq_len,
                kv == c.spec_kv_dim(),
                cache_offset(c, l, 0) == (l * c.seq_len + 0) * c.spec_kv_dim(),
        ;
        let base: usize = ((rows as u128) * (kv as u128)) as usize;
        let group: usize = c.kv_head(head) as usize;
        Step::Attend {
            query: head as usize * hs,
            head_size: hs,
            keys: base + group * hs,
            stride: kv,
            count: position as usize + 1,
            scores: head as usize * seq,
        }
    }

    /// The schedule of the forward pass of `token` at `position`.
    ///
    /// Fails with `SequenceOverflow` exactly when the position is not below
    /// the maximum sequence length. Otherwise the steps are those of
    /// `forward_steps`, and each of them stays within the buffers and the
    /// weights of this model.
    pub fn forward(&self, token: u32, position: u32) -> (plan: Result<Vec<Step>, EngineError>)
        requires
            self.ready(),
            token < self.config.vocab_size,
        ensures
            match plan {
                Ok(steps) => {
                    &&& position < self.config.seq_len
                    &&& steps@ == forward_steps(
                        self.config,
                        self.weights,
                        token as int,
                        position as int,
                    )
                    &&& forall|i: int|
                        0 <= i < steps@.len() ==> step_fits(
                            self.config,
                            self.elements(),
                            #[trigger] steps@[i],
                        )
                },
                Err(e) => {
                    &&& position >= self.config.seq_len
                    &&& e == (EngineError::SequenceOverflow {
                        position,
                        seq_len: self.config.seq_len,
                    })
                },
            },
    {
        if position >= self.config.seq_len {
            return Err(
                EngineError::SequenceOverflow { position, seq_len: self.config.seq_len },
            );
        }
        let ghost all = forward_steps(self.config, self.weights, token as int, position as int);
        let mut steps: Vec<Step> = Vec::new();
        loop
            invariant_except_break
                steps@.len() <= all.len(),
                steps@ == all.take(steps@.len() as int),
            invariant
                self.ready(),
                token < self.config.vocab_size,
                position < self.config.seq_len,
                all == forward_steps(self.config, self.weights, token as int, position as int),
            ensures
                steps@ == all,
            decreases all.len() - steps@.len(),
        {
            match self.step(token, position, steps.len()) {
                Ok(Some(step)) => {
                    steps.push(step);
                },
                _ => {
                    break ;
                },
            }
        }
        proof {
            self.lemma_schedulable();
            lemma_forward_fits(
                self.config,
                self.weights,
                self.shared(),
                self.elements(),
                token as int,
                position as int,
            );
        }
        Ok(steps)
    }
}

/// The weights of `layer` within a tensor that holds `size` elements for
/// each of `layers` layers.
fn layer_part(all: TensorView, layer: usize, size: usize, layers: usize) -> (part: TensorView)
    requires
        layer < layers,
        all.len == layers * size,
        all.end() <= usize::MAX,
    ensures
        part == layer_view(all, layer as int, size as int),
{
    proof {
        lemma_layer_view(all, layer as int, size as int, layers as int);
    }
    all.slice(layer * size, size)
}

} // verus!
