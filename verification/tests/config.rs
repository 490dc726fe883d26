use llama_infer::config::{parse_header, read_u32_le, TransformerConfig, HEADER_BYTES};
use llama_infer::error::{ConfigFault, EngineError};

fn header(fields: [i32; 7]) -> Vec<u8> {
    let mut bytes = Vec::new();
    for field in fields {
        bytes.extend_from_slice(&field.to_le_bytes());
    }
    bytes
}

fn tiny() -> TransformerConfig {
    TransformerConfig {
        dim: 4,
        hidden_dim: 8,
        num_layers: 1,
        num_heads: 2,
        num_kv_heads: 2,
        vocab_size: 10,
        seq_len: 8,
    }
}

#[test]
fn header_is_seven_words() {
    assert_eq!(HEADER_BYTES, 28);
}

#[test]
fn little_endian_word() {
    let bytes = [0x78u8, 0x56, 0x34, 0x12, 0xFF, 0xFF, 0xFF, 0xFF];
    assert_eq!(read_u32_le(&bytes, 0), 0x1234_5678);
    assert_eq!(read_u32_le(&bytes, 4), 0xFFFF_FFFF);
    assert_eq!(read_u32_le(&bytes, 2), 0xFFFF_1234);
}

#[test]
fn header_fields_in_order() {
    let parsed = parse_header(&header([4, 8, 1, 2, 2, 10, 8])).unwrap();
    assert_eq!(parsed.config, tiny());
    assert!(parsed.shared_weights);
}

#[test]
fn header_with_distinct_fields() {
    let parsed = parse_header(&header([288, 768, 6, 12, 4, 32000, 256])).unwrap();
    assert_eq!(parsed.config.dim, 288);
    assert_eq!(parsed.config.hidden_dim, 768);
    assert_eq!(parsed.config.num_layers, 6);
    assert_eq!(parsed.config.num_heads, 12);
    assert_eq!(parsed.config.num_kv_heads, 4);
    assert_eq!(parsed.config.vocab_size, 32000);
    assert_eq!(parsed.config.seq_len, 256);
}

#[test]
fn negative_vocabulary_means_unshared() {
    let parsed = parse_header(&header([4, 8, 1, 2, 2, -10, 8])).unwrap();
    assert_eq!(parsed.config.vocab_size, 10);
    assert!(!parsed.shared_weights);
}

#[test]
fn most_negative_vocabulary() {
    let parsed = parse_header(&header([4, 8, 1, 2, 2, i32::MIN, 8])).unwrap();
    assert_eq!(parsed.config.vocab_size, 0x8000_0000);
    assert!(!parsed.shared_weights);
}

#[test]
fn bytes_after_the_header_are_ignored() {
    let mut bytes = header([4, 8, 1, 2, 2, 10, 8]);
    bytes.extend_from_slice(&[0xAB; 13]);
    assert_eq!(parse_header(&bytes).unwrap().config, tiny());
}

#[test]
fn short_header_is_corrupt() {
    let bytes = header([4, 8, 1, 2, 2, 10, 8]);
    assert_eq!(parse_header(&bytes[..27]), Err(EngineError::CorruptHeader { len: 27 }));
    assert_eq!(parse_header(&[]), Err(EngineError::CorruptHeader { len: 0 }));
}

fn invalid(fault: ConfigFault) -> Result<llama_infer::config::CheckpointHeader, EngineError> {
    Err(EngineError::InvalidConfig { fault })
}

#[test]
fn zero_dimension_is_invalid() {
    for k in 0..7 {
        let mut fields = [4, 8, 1, 2, 2, 10, 8];
        fields[k] = 0;
        assert_eq!(
            parse_header(&header(fields)),
            invalid(ConfigFault::NotPositive { field: k as u8, value: 0 })
        );
    }
}

#[test]
fn negative_dimension_is_invalid() {
    for k in [0usize, 1, 2, 3, 4, 6] {
        let mut fields = [4, 8, 1, 2, 2, 10, 8];
        fields[k] = -fields[k];
        assert_eq!(
            parse_header(&header(fields)),
            invalid(ConfigFault::NotPositive { field: k as u8, value: fields[k] })
        );
    }
    assert_eq!(
        parse_header(&header([4, 8, 1, 2, 2, 10, i32::MIN])),
        invalid(ConfigFault::NotPositive { field: 6, value: i32::MIN })
    );
}

#[test]
fn first_fault_is_reported() {
    assert_eq!(
        parse_header(&header([5, -8, 0, 2, 3, 0, -1])),
        invalid(ConfigFault::NotPositive { field: 1, value: -8 })
    );
    assert_eq!(
        parse_header(&header([5, 8, 1, 2, 3, 10, -1])),
        invalid(ConfigFault::NotPositive { field: 6, value: -1 })
    );
    assert_eq!(
        parse_header(&header([5, 8, 1, 2, 3, 10, 8])),
        invalid(ConfigFault::HeadsDoNotDivide { dim: 5, num_heads: 2 })
    );
}

#[test]
fn heads_must_divide_dim() {
    assert_eq!(
        parse_header(&header([6, 8, 1, 4, 2, 10, 8])),
        invalid(ConfigFault::HeadsDoNotDivide { dim: 6, num_heads: 4 })
    );
    assert!(parse_header(&header([8, 8, 1, 4, 2, 10, 8])).is_ok());
}

#[test]
fn no_more_kv_heads_than_heads() {
    assert_eq!(
        parse_header(&header([4, 8, 1, 2, 4, 10, 8])),
        invalid(ConfigFault::TooManyKvHeads { num_kv_heads: 4, num_heads: 2 })
    );
    assert!(parse_header(&header([4, 8, 1, 2, 1, 10, 8])).is_ok());
}

#[test]
fn head_size_and_kv_dim() {
    let c = TransformerConfig {
        dim: 288,
        hidden_dim: 768,
        num_layers: 6,
        num_heads: 12,
        num_kv_heads: 4,
        vocab_size: 32000,
        seq_len: 256,
    };
    assert_eq!(c.head_size(), 24);
    assert_eq!(c.kv_dim(), 96);
    assert_eq!(tiny().head_size(), 2);
    assert_eq!(tiny().kv_dim(), 4);
}

#[test]
fn query_heads_share_kv_heads_in_groups() {
    let c = TransformerConfig {
        dim: 64,
        hidden_dim: 128,
        num_layers: 2,
        num_heads: 8,
        num_kv_heads: 2,
        vocab_size: 100,
        seq_len: 16,
    };
    let groups: Vec<u32> = (0..8).map(|h| c.kv_head(h)).collect();
    assert_eq!(groups, vec![0, 0, 0, 0, 1, 1, 1, 1]);
    let own: Vec<u32> = (0..2).map(|h| tiny().kv_head(h)).collect();
    assert_eq!(own, vec![0, 1]);
}

#[test]
fn uneven_groups_stay_in_range() {
    let c = TransformerConfig {
        dim: 10,
        hidden_dim: 16,
        num_layers: 1,
        num_heads: 5,
        num_kv_heads: 2,
        vocab_size: 100,
        seq_len: 16,
    };
    let groups: Vec<u32> = (0..5).map(|h| c.kv_head(h)).collect();
    assert_eq!(groups, vec![0, 0, 0, 1, 1]);
}

#[test]
fn default_config_is_all_zero() {
    let c = TransformerConfig::default();
    assert_eq!(
        c,
        TransformerConfig {
            dim: 0,
            hidden_dim: 0,
            num_layers: 0,
            num_heads: 0,
            num_kv_heads: 0,
            vocab_size: 0,
            seq_len: 0,
        }
    );
}
