use llama_infer::error::EngineError;
use llama_infer::forward::{Buffer, Step};
use llama_infer::state::RunState;
use llama_infer::transformer::Transformer;
use llama_infer::weights::TensorView;

fn value(i: usize) -> f32 {
    ((i * 7 % 23) as f32 - 11.0) * 0.015625
}

fn checkpoint(fields: [i32; 7], elements: usize) -> Vec<u8> {
    let mut bytes = Vec::new();
    for field in fields {
        bytes.extend_from_slice(&field.to_le_bytes());
    }
    for i in 0..elements {
        bytes.extend_from_slice(&value(i).to_le_bytes());
    }
    bytes
}

const TINY: [i32; 7] = [4, 8, 1, 2, 2, 10, 8];
const GROUPED: [i32; 7] = [8, 16, 2, 4, 2, -12, 6];

fn view(offset: usize, len: usize) -> TensorView {
    TensorView { offset, len }
}

// The arithmetic of the steps, in single precision.

fn read(state: &RunState, buffer: Buffer) -> Vec<f32> {
    let bits = match buffer {
        Buffer::X => &state.x,
        Buffer::Xb => &state.xb,
        Buffer::Xb2 => &state.xb2,
        Buffer::Hb => &state.hb,
        Buffer::Hb2 => &state.hb2,
        Buffer::Q => &state.q,
        Buffer::K => &state.k,
        Buffer::V => &state.v,
        Buffer::Logits => &state.logits,
    };
    bits.iter().map(|b| f32::from_bits(*b)).collect()
}

fn write(state: &mut RunState, buffer: Buffer, values: &[f32]) {
    let bits = match buffer {
        Buffer::X => &mut state.x,
        Buffer::Xb => &mut state.xb,
        Buffer::Xb2 => &mut state.xb2,
        Buffer::Hb => &mut state.hb,
        Buffer::Hb2 => &mut state.hb2,
        Buffer::Q => &mut state.q,
        Buffer::K => &mut state.k,
        Buffer::V => &mut state.v,
        Buffer::Logits => &mut state.logits,
    };
    assert_eq!(bits.len(), values.len());
    for (slot, v) in bits.iter_mut().zip(values) {
        *slot = v.to_bits();
    }
}

fn tensor(model: &Transformer, view: TensorView) -> Vec<f32> {
    model
        .tensor(view)
        .chunks_exact(4)
        .map(|c| f32::from_le_bytes([c[0], c[1], c[2], c[3]]))
        .collect()
}

fn rms_norm(x: &[f32], weight: &[f32]) -> Vec<f32> {
    let mut sum = 0.0f32;
    for v in x {
        sum += v * v;
    }
    sum /= x.len() as f32;
    sum += 1e-5;
    let scale = 1.0 / sum.sqrt();
    x.iter().zip(weight).map(|(v, w)| v * scale * w).collect()
}

fn matmul(x: &[f32], w: &[f32], size_in: usize, size_out: usize) -> Vec<f32> {
    assert_eq!(x.len(), size_in);
    assert_eq!(w.len(), size_in * size_out);
    (0..size_out)
        .map(|i| {
            let mut val = 0.0f32;
            for j in 0..size_in {
                val += w[i * size_in + j] * x[j];
            }
            val
        })
        .collect()
}

fn softmax(x: &mut [f32]) {
    let mut max = x[0];
    for v in x.iter() {
        if *v > max {
            max = *v;
        }
    }
    let mut sum = 0.0f32;
    for v in x.iter_mut() {
        *v = (*v - max).exp();
        sum += *v;
    }
    for v in x.iter_mut() {
        *v /= sum;
    }
}

fn rotate(values: &mut [f32], position: u32, head_size: usize) {
    let mut i = 0;
    while i + 1 < values.len() {
        let exponent = (i % head_size) as f32 / head_size as f32;
        let angle = position as f32 / 10000f32.powf(exponent);
        let (sin, cos) = angle.sin_cos();
        let (a, b) = (values[i], values[i + 1]);
        values[i] = a * cos - b * sin;
        values[i + 1] = a * sin + b * cos;
        i += 2;
    }
}

fn run_step(model: &mut Transformer, step: Step) {
    match step {
        Step::Embed { row } => model.load_embedding(row),
        Step::RmsNorm { dst, src, weight } => {
            let out = rms_norm(&read(&model.state, src), &tensor(model, weight));
            write(&mut model.state, dst, &out);
        }
        Step::Matmul { dst, src, weight, size_in, size_out } => {
            let out = matmul(&read(&model.state, src), &tensor(model, weight), size_in, size_out);
            write(&mut model.state, dst, &out);
        }
        Step::Rotate { position, head_size } => {
            let mut q = read(&model.state, Buffer::Q);
            let mut k = read(&model.state, Buffer::K);
            rotate(&mut q, position, head_size);
            rotate(&mut k, position, head_size);
            write(&mut model.state, Buffer::Q, &q);
            write(&mut model.state, Buffer::K, &k);
        }
        Step::StoreKv { layer, position } => {
            let config = model.config;
            model.state.store_kv(&config, layer, position);
        }
        Step::Attend { query, head_size, keys, stride, count, scores } => {
            let q = read(&model.state, Buffer::Q);
            let mut att = vec![0.0f32; count];
            for t in 0..count {
                let mut score = 0.0f32;
                for j in 0..head_size {
                    score += q[query + j] * f32::from_bits(model.state.key_cache[keys + t * stride + j]);
                }
                att[t] = score / (head_size as f32).sqrt();
            }
            softmax(&mut att);
            for t in 0..count {
                model.state.att[scores + t] = att[t].to_bits();
            }
            for j in 0..head_size {
                let mut sum = 0.0f32;
                for t in 0..count {
                    sum += att[t] * f32::from_bits(model.state.value_cache[keys + t * stride + j]);
                }
                model.state.xb[query + j] = sum.to_bits();
            }
        }
        Step::Accumulate { src } => {
            let add = read(&model.state, src);
            let x = read(&model.state, Buffer::X);
            let sum: Vec<f32> = x.iter().zip(&add).map(|(a, b)| a + b).collect();
            write(&mut model.state, Buffer::X, &sum);
        }
        Step::SwiGlu => {
            let hb = read(&model.state, Buffer::Hb);
            let hb2 = read(&model.state, Buffer::Hb2);
            let out: Vec<f32> =
                hb.iter().zip(&hb2).map(|(v, g)| v * (1.0 / (1.0 + (-v).exp())) * g).collect();
            write(&mut model.state, Buffer::Hb, &out);
        }
    }
}

fn run(model: &mut Transformer, token: u32, position: u32) -> Vec<u32> {
    let plan = model.forward(token, position).unwrap();
    for step in plan {
        run_step(model, step);
    }
    model.state.logits.clone()
}

#[test]
fn schedule_of_the_tiny_model() {
    let bytes = checkpoint(TINY, 212);
    let model = Transformer::new(&bytes).unwrap();
    let plan = model.forward(3, 5).unwrap();
    let expected = vec![
        Step::Embed { row: view(12, 4) },
        Step::RmsNorm { dst: Buffer::Xb, src: Buffer::X, weight: view(40, 4) },
        Step::Matmul { dst: Buffer::Q, src: Buffer::Xb, weight: view(44, 16), size_in: 4, size_out: 4 },
        Step::Matmul { dst: Buffer::K, src: Buffer::Xb, weight: view(60, 16), size_in: 4, size_out: 4 },
        Step::Matmul { dst: Buffer::V, src: Buffer::Xb, weight: view(76, 16), size_in: 4, size_out: 4 },
        Step::Rotate { position: 5, head_size: 2 },
        Step::StoreKv { layer: 0, position: 5 },
        Step::Attend { query: 0, head_size: 2, keys: 0, stride: 4, count: 6, scores: 0 },
        Step::Attend { query: 2, head_size: 2, keys: 2, stride: 4, count: 6, scores: 8 },
        Step::Matmul { dst: Buffer::Xb2, src: Buffer::Xb, weight: view(92, 16), size_in: 4, size_out: 4 },
        Step::Accumulate { src: Buffer::Xb2 },
        Step::RmsNorm { dst: Buffer::Xb, src: Buffer::X, weight: view(108, 4) },
        Step::Matmul { dst: Buffer::Hb, src: Buffer::Xb, weight: view(112, 32), size_in: 4, size_out: 8 },
        Step::Matmul { dst: Buffer::Hb2, src: Buffer::Xb, weight: view(176, 32), size_in: 4, size_out: 8 },
        Step::SwiGlu,
        Step::Matmul { dst: Buffer::Xb, src: Buffer::Hb, weight: view(144, 32), size_in: 8, size_out: 4 },
        Step::Accumulate { src: Buffer::Xb },
        Step::RmsNorm { dst: Buffer::X, src: Buffer::X, weight: view(208, 4) },
        Step::Matmul { dst: Buffer::Logits, src: Buffer::X, weight: view(0, 40), size_in: 4, size_out: 10 },
    ];
    assert_eq!(plan, expected);
}

#[test]
fn schedule_with_layers_and_grouped_heads() {
    let bytes = checkpoint(GROUPED, 1396);
    let model = Transformer::new(&bytes).unwrap();
    let plan = model.forward(11, 2).unwrap();
    // one lookup, two layers of fourteen steps and four heads, two closing steps
    assert_eq!(plan.len(), 1 + 2 * (14 + 4) + 2);
    assert_eq!(plan[0], Step::Embed { row: view(88, 8) });
    // second layer
    let second = &plan[19..37];
    assert_eq!(second[0], Step::RmsNorm { dst: Buffer::Xb, src: Buffer::X, weight: view(104, 8) });
    assert_eq!(
        second[1],
        Step::Matmul { dst: Buffer::Q, src: Buffer::Xb, weight: view(176, 64), size_in: 8, size_out: 8 }
    );
    assert_eq!(
        second[2],
        Step::Matmul { dst: Buffer::K, src: Buffer::Xb, weight: view(272, 32), size_in: 8, size_out: 4 }
    );
    assert_eq!(
        second[3],
        Step::Matmul { dst: Buffer::V, src: Buffer::Xb, weight: view(336, 32), size_in: 8, size_out: 4 }
    );
    assert_eq!(second[4], Step::Rotate { position: 2, head_size: 2 });
    assert_eq!(second[5], Step::StoreKv { layer: 1, position: 2 });
    // heads 0 and 1 read key/value head 0, heads 2 and 3 read key/value head 1
    assert_eq!(
        second[6],
        Step::Attend { query: 0, head_size: 2, keys: 24, stride: 4, count: 3, scores: 0 }
    );
    assert_eq!(
        second[7],
        Step::Attend { query: 2, head_size: 2, keys: 24, stride: 4, count: 3, scores: 6 }
    );
    assert_eq!(
        second[8],
        Step::Attend { query: 4, head_size: 2, keys: 26, stride: 4, count: 3, scores: 12 }
    );
    assert_eq!(
        second[9],
        Step::Attend { query: 6, head_size: 2, keys: 26, stride: 4, count: 3, scores: 18 }
    );
    assert_eq!(
        second[10],
        Step::Matmul { dst: Buffer::Xb2, src: Buffer::Xb, weight: view(432, 64), size_in: 8, size_out: 8 }
    );
    assert_eq!(second[12], Step::RmsNorm { dst: Buffer::Xb, src: Buffer::X, weight: view(504, 8) });
    assert_eq!(
        second[13],
        Step::Matmul { dst: Buffer::Hb, src: Buffer::Xb, weight: view(640, 128), size_in: 8, size_out: 16 }
    );
    assert_eq!(
        second[14],
        Step::Matmul { dst: Buffer::Hb2, src: Buffer::Xb, weight: view(1152, 128), size_in: 8, size_out: 16 }
    );
    assert_eq!(
        second[16],
        Step::Matmul { dst: Buffer::Xb, src: Buffer::Hb, weight: view(896, 128), size_in: 16, size_out: 8 }
    );
    assert_eq!(
        plan[38],
        Step::Matmul {
            dst: Buffer::Logits,
            src: Buffer::X,
            weight: view(1300, 96),
            size_in: 8,
            size_out: 12
        }
    );
}

#[test]
fn position_beyond_the_sequence_is_rejected() {
    let bytes = checkpoint(TINY, 212);
    let model = Transformer::new(&bytes).unwrap();
    assert!(model.forward(0, 7).is_ok());
    assert_eq!(
        model.forward(0, 8),
        Err(EngineError::SequenceOverflow { position: 8, seq_len: 8 })
    );
    assert_eq!(
        model.forward(9, u32::MAX),
        Err(EngineError::SequenceOverflow { position: u32::MAX, seq_len: 8 })
    );
}

#[test]
fn every_step_stays_in_bounds() {
    let bytes = checkpoint(GROUPED, 1396);
    let model = Transformer::new(&bytes).unwrap();
    let elements = (bytes.len() - 28) / 4;
    for position in 0..6 {
        for step in model.forward(5, position).unwrap() {
            match step {
                Step::Embed { row } => assert!(row.len == 8 && row.offset + row.len <= elements),
                Step::RmsNorm { weight, .. } => assert!(weight.offset + weight.len <= elements),
                Step::Matmul { weight, size_in, size_out, .. } => {
                    assert_eq!(weight.len, size_in * size_out);
                    assert!(weight.offset + weight.len <= elements);
                }
                Step::Attend { query, head_size, keys, stride, count, scores } => {
                    assert!(query + head_size <= model.state.q.len());
                    assert!(scores + count <= model.state.att.len());
                    assert!(keys + (count - 1) * stride + head_size <= model.state.key_cache.len());
                    assert_eq!(count, position as usize + 1);
                }
                Step::StoreKv { layer, position: at } => {
                    assert!(layer < 2);
                    assert_eq!(at, position);
                }
                Step::Rotate { .. } | Step::Accumulate { .. } | Step::SwiGlu => {}
            }
        }
    }
}

#[test]
fn logits_of_the_tiny_model_are_reproducible() {
    let bytes = checkpoint(TINY, 212);
    let mut first = Transformer::new(&bytes).unwrap();
    let mut second = Transformer::new(&bytes).unwrap();
    let a = run(&mut first, 0, 0);
    let b = run(&mut second, 0, 0);
    assert_eq!(a.len(), 10);
    assert_eq!(a, b);
    assert!(a.iter().all(|bits| f32::from_bits(*bits).is_finite()));
    assert!(a.iter().any(|bits| f32::from_bits(*bits) != 0.0));
}

#[test]
fn cache_holds_what_a_position_wrote() {
    let bytes = checkpoint(GROUPED, 1396);
    let mut model = Transformer::new(&bytes).unwrap();
    let prompt = [3u32, 7, 1, 9];
    let mut snapshots = Vec::new();
    for (position, token) in prompt.iter().enumerate() {
        run(&mut model, *token, position as u32);
        snapshots.push((model.state.key_cache.clone(), model.state.value_cache.clone()));
    }
    // what a position cached is still there after all later positions
    let kv = 4;
    let seq = 6;
    for position in 0..prompt.len() {
        for layer in 0..2 {
            let at = (layer * seq + position) * kv;
            assert_eq!(model.state.key_cache[at..at + kv], snapshots[position].0[at..at + kv]);
            assert_eq!(model.state.value_cache[at..at + kv], snapshots[position].1[at..at + kv]);
        }
    }
    // running the last position once more caches the same vectors
    let keys = model.state.key_cache.clone();
    let values = model.state.value_cache.clone();
    run(&mut model, 9, 3);
    assert_eq!(model.state.key_cache, keys);
    assert_eq!(model.state.value_cache, values);
    // positions that were never run are still zero
    for layer in 0..2 {
        for position in 4..6 {
            let at = (layer * seq + position) * kv;
            assert!(model.state.key_cache[at..at + kv].iter().all(|b| *b == 0));
        }
    }
}

#[test]
fn later_tokens_do_not_change_earlier_logits() {
    let bytes = checkpoint(GROUPED, 1396);
    let mut first = Transformer::new(&bytes).unwrap();
    let mut second = Transformer::new(&bytes).unwrap();
    let a = [3u32, 7, 1, 9];
    let b = [3u32, 7, 4, 2];
    for position in 0..4 {
        let x = run(&mut first, a[position], position as u32);
        let y = run(&mut second, b[position], position as u32);
        if position < 2 {
            assert_eq!(x, y);
        } else {
            assert_ne!(x, y);
        }
    }
    // and a later position leaves the cache of the earlier ones alone
    for layer in 0..2 {
        for position in 0..2 {
            let at = (layer * 6 + position) * 4;
            assert_eq!(first.state.key_cache[at..at + 4], second.state.key_cache[at..at + 4]);
            assert_eq!(first.state.value_cache[at..at + 4], second.state.value_cache[at..at + 4]);
        }
    }
}

#[test]
fn attention_sees_the_cached_positions() {
    let bytes = checkpoint(GROUPED, 1396);
    let mut with_history = Transformer::new(&bytes).unwrap();
    let mut without = Transformer::new(&bytes).unwrap();
    run(&mut with_history, 3, 0);
    let x = run(&mut with_history, 7, 1);
    // the same token at the same position over an empty cache
    let y = run(&mut without, 7, 1);
    assert_ne!(x, y);
}

#[test]
fn steps_one_by_one_are_the_schedule() {
    let bytes = checkpoint(GROUPED, 1396);
    let model = Transformer::new(&bytes).unwrap();
    for position in [0u32, 3, 5] {
        let plan = model.forward(7, position).unwrap();
        for (index, step) in plan.iter().enumerate() {
            assert_eq!(model.step(7, position, index), Ok(Some(*step)));
        }
        assert_eq!(model.step(7, position, plan.len()), Ok(None));
        assert_eq!(model.step(7, position, plan.len() + 1), Ok(None));
        assert_eq!(model.step(7, position, usize::MAX), Ok(None));
    }
}

#[test]
fn single_steps_reject_positions_beyond_the_sequence() {
    let bytes = checkpoint(TINY, 212);
    let model = Transformer::new(&bytes).unwrap();
    for index in [0usize, 1, 18, 19, 1000] {
        assert_eq!(
            model.step(0, 8, index),
            Err(EngineError::SequenceOverflow { position: 8, seq_len: 8 })
        );
    }
    assert_eq!(model.step(0, 7, 18).map(|s| s.is_some()), Ok(true));
    assert_eq!(model.step(0, 7, 19), Ok(None));
}

#[test]
fn running_step_by_step_gives_the_same_logits() {
    let bytes = checkpoint(GROUPED, 1396);
    let mut whole = Transformer::new(&bytes).unwrap();
    let mut single = Transformer::new(&bytes).unwrap();
    for (position, token) in [5u32, 0, 11].iter().enumerate() {
        let a = run(&mut whole, *token, position as u32);
        let mut index = 0;
        while let Some(step) = single.step(*token, position as u32, index).unwrap() {
            run_step(&mut single, step);
            index += 1;
        }
        assert_eq!(a, single.state.logits);
    }
}
