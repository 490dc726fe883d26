use llama_infer::error::EngineError;
use llama_infer::sampler::{sample_argmax, Draw, ProbeIndex, Sampler, COIN_RANGE, SCRAMBLER};

fn bits(values: &[f32]) -> Vec<u32> {
    values.iter().map(|v| v.to_bits()).collect()
}

fn reference_next(state: &mut u64) -> u32 {
    *state ^= *state >> 12;
    *state ^= *state << 25;
    *state ^= *state >> 27;
    (state.wrapping_mul(0x2545F4914F6CDD1D) >> 32) as u32
}

#[test]
fn generator_constants() {
    assert_eq!(SCRAMBLER, 0x2545F4914F6CDD1D);
    assert_eq!(COIN_RANGE, 1 << 24);
}

#[test]
fn new_sampler_keeps_its_settings() {
    let sampler = Sampler::new(32000, 0.7f32.to_bits(), 0.9f32.to_bits(), 1234);
    assert_eq!(sampler.vocab_size, 32000);
    assert_eq!(f32::from_bits(sampler.temperature), 0.7);
    assert_eq!(f32::from_bits(sampler.topp), 0.9);
    assert_eq!(sampler.rng_state, 1234);
    assert!(sampler.prob_index.is_empty());
}

#[test]
fn xorshift_from_seed_one() {
    let mut state: u64 = 1;
    assert_eq!(Sampler::random_u32(&mut state), 1_206_177_355);
    assert_eq!(state, 0x200_0001);
    assert_eq!(Sampler::random_u32(&mut state), 2_882_512_552);
    assert_eq!(state, 0x4_0040_0080_2801);
    assert_eq!(Sampler::random_u32(&mut state), 3_117_485_455);
    assert_eq!(state, 0xd_0040_0320_2803);
}

#[test]
fn xorshift_from_seed_forty_two() {
    let mut state: u64 = 42;
    assert_eq!(Sampler::random_u32(&mut state), 1_456_360_119);
    assert_eq!(Sampler::random_u32(&mut state), 3_359_763_283);
    assert_eq!(Sampler::random_u32(&mut state), 3_393_612_768);
    assert_eq!(state, 0x1fa_0800_5045_006e);
}

#[test]
fn xorshift_stays_at_zero() {
    let mut state: u64 = 0;
    assert_eq!(Sampler::random_u32(&mut state), 0);
    assert_eq!(state, 0);
}

#[test]
fn xorshift_follows_the_construction() {
    let mut state: u64 = 0xDEAD_BEEF;
    let mut reference: u64 = 0xDEAD_BEEF;
    for _ in 0..1000 {
        assert_eq!(Sampler::random_u32(&mut state), reference_next(&mut reference));
        assert_eq!(state, reference);
    }
}

#[test]
fn random_single_is_the_upper_24_bits() {
    let mut state: u64 = 7;
    let mut reference: u64 = 7;
    for _ in 0..1000 {
        let expected = (reference_next(&mut reference) >> 8) as f32 / 16777216.0;
        let got = f32::from_bits(Sampler::random_f32(&mut state));
        assert_eq!(got.to_bits(), expected.to_bits());
        assert!((0.0..1.0).contains(&got));
        assert_eq!(state, reference);
    }
}

#[test]
fn argmax_takes_the_greatest() {
    assert_eq!(sample_argmax(&bits(&[0.1, 2.5, -3.0, 2.4])), 1);
    assert_eq!(sample_argmax(&bits(&[-5.0, -2.5, -3.0])), 1);
    assert_eq!(sample_argmax(&bits(&[7.0])), 0);
    assert_eq!(sample_argmax(&bits(&[1.0, 2.0, 3.0, f32::INFINITY])), 3);
}

#[test]
fn argmax_breaks_ties_by_lowest_index() {
    assert_eq!(sample_argmax(&bits(&[1.0, 3.0, 3.0, 3.0])), 1);
    assert_eq!(sample_argmax(&bits(&[0.0, 0.0, 0.0])), 0);
    assert_eq!(sample_argmax(&bits(&[-0.0, 0.0])), 0);
    assert_eq!(sample_argmax(&bits(&[0.0, -0.0])), 0);
}

#[test]
fn argmax_passes_over_what_is_no_number() {
    assert_eq!(sample_argmax(&bits(&[1.0, f32::NAN, 2.0])), 2);
    assert_eq!(sample_argmax(&bits(&[f32::NAN, 1.0, 2.0])), 0);
}

#[test]
fn greedy_sampling_is_argmax_and_draws_nothing() {
    let logits = bits(&[0.5, -1.0, 4.0, 4.0, 3.9]);
    let mut sampler = Sampler::new(5, 0.0f32.to_bits(), 0.9f32.to_bits(), 99);
    for _ in 0..10 {
        assert_eq!(sampler.sample(&logits), Ok(Draw::Token(2)));
        assert_eq!(sampler.rng_state, 99);
    }
    let mut negative_zero = Sampler::new(5, (-0.0f32).to_bits(), 0.9f32.to_bits(), 99);
    assert_eq!(negative_zero.sample(&logits), Ok(Draw::Token(2)));
    assert_eq!(negative_zero.rng_state, 99);
}

#[test]
fn greedy_sampling_of_nothing_is_degenerate() {
    let mut sampler = Sampler::new(0, 0.0f32.to_bits(), 0.9f32.to_bits(), 99);
    assert_eq!(sampler.sample(&[]), Err(EngineError::DegenerateDistribution));
}

#[test]
fn warm_sampling_tosses_one_coin() {
    let logits = bits(&[0.5, -1.0, 4.0]);
    let mut sampler = Sampler::new(3, 1.0f32.to_bits(), 0.9f32.to_bits(), 1);
    assert_eq!(sampler.sample(&logits), Ok(Draw::Toss { coin: 1_206_177_355 >> 8 }));
    assert_eq!(sampler.rng_state, 0x200_0001);
    assert_eq!(sampler.sample(&logits), Ok(Draw::Toss { coin: 2_882_512_552 >> 8 }));
    assert_eq!(sampler.rng_state, 0x4_0040_0080_2801);
}

#[test]
fn same_seed_same_sequence() {
    let logits = bits(&[0.5, -1.0, 4.0, 2.0]);
    let probs = bits(&[0.1, 0.2, 0.3, 0.4]);
    let mut first = Sampler::new(4, 0.8f32.to_bits(), 0.85f32.to_bits(), 2024);
    let mut second = Sampler::new(4, 0.8f32.to_bits(), 0.85f32.to_bits(), 2024);
    let mut tokens = Vec::new();
    for _ in 0..200 {
        let a = first.sample(&logits).unwrap();
        let b = second.sample(&logits).unwrap();
        assert_eq!(a, b);
        let coin = match a {
            Draw::Toss { coin } => coin,
            Draw::Token(_) => panic!("a warm sampler tosses"),
        };
        let x = first.pick(&probs, coin).unwrap();
        let y = second.pick(&probs, coin).unwrap();
        assert_eq!(x, y);
        assert_eq!(first.prob_index, second.prob_index);
        assert_eq!(first.rng_state, second.rng_state);
        tokens.push(x);
    }
    // with a threshold of 0.85 the least probable token is never a candidate
    assert!(tokens.iter().all(|t| *t != 0));
    assert!(tokens.iter().any(|t| *t == 3));
    assert!(tokens.iter().any(|t| *t == 2));
}

#[test]
fn whole_distribution_by_inverse_cdf() {
    // weights 2^31, 2^30, 2^30: the whole is 2^32
    let probs = bits(&[0.5, 0.25, 0.25]);
    let mut sampler = Sampler::new(3, 1.0f32.to_bits(), 1.0f32.to_bits(), 5);
    assert_eq!(sampler.pick(&probs, 0), Ok(0));
    assert_eq!(sampler.pick(&probs, (1 << 23) - 1), Ok(0));
    assert_eq!(sampler.pick(&probs, 1 << 23), Ok(1));
    assert_eq!(sampler.pick(&probs, 3 * (1 << 22) - 1), Ok(1));
    assert_eq!(sampler.pick(&probs, 3 * (1 << 22)), Ok(2));
    assert_eq!(sampler.pick(&probs, (1 << 24) - 1), Ok(2));
    assert_eq!(sampler.rng_state, 5);
}

#[test]
fn whole_distribution_lists_candidates_by_token() {
    let probs = bits(&[0.5, 0.25, 0.25]);
    let mut sampler = Sampler::new(3, 1.0f32.to_bits(), 0.0f32.to_bits(), 5);
    sampler.pick(&probs, 0).unwrap();
    assert_eq!(
        sampler.prob_index,
        vec![
            ProbeIndex { prob: 0x8000_0000, index: 0 },
            ProbeIndex { prob: 0x4000_0000, index: 1 },
            ProbeIndex { prob: 0x4000_0000, index: 2 },
        ]
    );
}

#[test]
fn a_coin_beyond_its_range_takes_the_last_token() {
    let probs = bits(&[0.5, 0.25, 0.25]);
    let mut sampler = Sampler::new(3, 1.0f32.to_bits(), 1.5f32.to_bits(), 5);
    assert_eq!(sampler.pick(&probs, 1 << 24), Ok(2));
    assert_eq!(sampler.pick(&probs, u32::MAX), Ok(2));
}

#[test]
fn unnormalised_weights_are_shared_out() {
    // only the proportions count: 1 to 3
    let probs = bits(&[0.125, 0.375]);
    let mut sampler = Sampler::new(2, 1.0f32.to_bits(), (-1.0f32).to_bits(), 5);
    assert_eq!(sampler.pick(&probs, (1 << 22) - 1), Ok(0));
    assert_eq!(sampler.pick(&probs, 1 << 22), Ok(1));
}

#[test]
fn nucleus_of_one_token() {
    let probs = bits(&[0.1, 0.6, 0.3]);
    let mut sampler = Sampler::new(3, 1.0f32.to_bits(), 0.5f32.to_bits(), 5);
    for coin in [0u32, 1, 1 << 20, 1 << 23, (1 << 24) - 1] {
        assert_eq!(sampler.pick(&probs, coin), Ok(1));
        assert_eq!(sampler.prob_index[0], ProbeIndex { prob: 2_576_980_480, index: 1 });
    }
}

#[test]
fn nucleus_of_two_tokens() {
    // 0.6 alone does not exceed 0.8, 0.6 + 0.3 does; within the nucleus the
    // shares are two thirds and one third
    let probs = bits(&[0.1, 0.6, 0.3]);
    let mut sampler = Sampler::new(3, 1.0f32.to_bits(), 0.8f32.to_bits(), 5);
    assert_eq!(sampler.pick(&probs, 0), Ok(1));
    assert_eq!(sampler.pick(&probs, 11_000_000), Ok(1));
    assert_eq!(sampler.pick(&probs, 11_184_810), Ok(1));
    assert_eq!(sampler.pick(&probs, 11_184_811), Ok(2));
    assert_eq!(sampler.pick(&probs, (1 << 24) - 1), Ok(2));
    assert_eq!(sampler.prob_index[0], ProbeIndex { prob: 2_576_980_480, index: 1 });
    assert_eq!(sampler.prob_index[1], ProbeIndex { prob: 1_288_490_240, index: 2 });
    assert_eq!(sampler.prob_index[2], ProbeIndex { prob: 429_496_736, index: 0 });
}

#[test]
fn nucleus_must_exceed_the_threshold() {
    // a half does not exceed a half: the second candidate belongs to the nucleus
    let probs = bits(&[0.5, 0.25, 0.25]);
    let mut sampler = Sampler::new(3, 1.0f32.to_bits(), 0.5f32.to_bits(), 5);
    assert_eq!(sampler.pick(&probs, (1 << 24) - 1), Ok(1));
    assert_eq!(sampler.pick(&probs, 0), Ok(0));
}

#[test]
fn nucleus_ranks_equal_candidates_by_index() {
    let probs = bits(&[0.2, 0.3, 0.2, 0.3]);
    let mut sampler = Sampler::new(4, 1.0f32.to_bits(), 0.99f32.to_bits(), 5);
    assert_eq!(sampler.pick(&probs, 0), Ok(1));
    let order: Vec<u32> = sampler.prob_index.iter().map(|c| c.index).collect();
    assert_eq!(order, vec![1, 3, 0, 2]);
    assert_eq!(sampler.pick(&probs, (1 << 24) - 1), Ok(2));
}

#[test]
fn nucleus_keeps_the_top_token_for_tiny_thresholds() {
    let probs = bits(&[0.05, 0.15, 0.5, 0.3]);
    for topp in [1.0e-30f32, 1.0e-9, 1.0e-3, 0.1, 0.49] {
        let mut sampler = Sampler::new(4, 1.0f32.to_bits(), topp.to_bits(), 5);
        for coin in [0u32, 12345, 1 << 23, (1 << 24) - 1] {
            assert_eq!(sampler.pick(&probs, coin), Ok(2), "{topp} {coin}");
            assert_eq!(sampler.prob_index[0].index, 2);
        }
    }
}

#[test]
fn threshold_one_keeps_every_token() {
    let probs = bits(&[0.05, 0.15, 0.5, 0.3]);
    let mut sampler = Sampler::new(4, 1.0f32.to_bits(), 1.0f32.to_bits(), 5);
    let mut seen = [false; 4];
    let mut coin: u32 = 0;
    while coin < (1 << 24) {
        seen[sampler.pick(&probs, coin).unwrap() as usize] = true;
        coin += 1 << 12;
    }
    assert_eq!(seen, [true; 4]);
}

#[test]
fn nucleus_shares_add_up_to_the_whole_nucleus() {
    let probs = bits(&[0.05, 0.15, 0.5, 0.3]);
    let mut sampler = Sampler::new(4, 1.0f32.to_bits(), 0.7f32.to_bits(), 5);
    // nucleus: 0.5 and 0.3; the last coin still lands in it
    let mut seen = [0u32; 4];
    let mut coin: u32 = 0;
    while coin < (1 << 24) {
        seen[sampler.pick(&probs, coin).unwrap() as usize] += 1;
        coin += 1 << 12;
    }
    assert_eq!(seen[0], 0);
    assert_eq!(seen[1], 0);
    assert_eq!(seen[2] + seen[3], 1 << 12);
    // five eighths of the coins select the first candidate
    assert_eq!(seen[2], 2560);
}

#[test]
fn threshold_that_is_no_number_keeps_every_token_ranked() {
    let probs = bits(&[0.05, 0.15, 0.5, 0.3]);
    let mut sampler = Sampler::new(4, 1.0f32.to_bits(), f32::NAN.to_bits(), 5);
    assert_eq!(sampler.pick(&probs, 0), Ok(2));
    assert_eq!(sampler.pick(&probs, (1 << 24) - 1), Ok(0));
    let order: Vec<u32> = sampler.prob_index.iter().map(|c| c.index).collect();
    assert_eq!(order, vec![2, 3, 1, 0]);
}

#[test]
fn distribution_without_mass_is_degenerate() {
    let mut whole = Sampler::new(3, 1.0f32.to_bits(), 1.0f32.to_bits(), 5);
    assert_eq!(whole.pick(&bits(&[0.0, 0.0, 0.0]), 7), Err(EngineError::DegenerateDistribution));
    let mut nucleus = Sampler::new(3, 1.0f32.to_bits(), 0.9f32.to_bits(), 5);
    assert_eq!(
        nucleus.pick(&bits(&[0.0, f32::NAN, -1.0]), 7),
        Err(EngineError::DegenerateDistribution)
    );
    let mut none = Sampler::new(0, 1.0f32.to_bits(), 0.9f32.to_bits(), 5);
    assert_eq!(none.pick(&[], 7), Err(EngineError::DegenerateDistribution));
}

#[test]
fn pick_leaves_the_generator_alone() {
    let probs = bits(&[0.1, 0.6, 0.3]);
    let mut sampler = Sampler::new(3, 1.0f32.to_bits(), 0.8f32.to_bits(), 77);
    sampler.pick(&probs, 1000).unwrap();
    assert_eq!(sampler.rng_state, 77);
    assert_eq!(sampler.vocab_size, 3);
}
