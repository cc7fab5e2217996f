use xeqy::ConfigData;

#[test]
fn serialize_is_big_endian_x_then_max_size_then_score() {
    let config = ConfigData { max_size: 2, x: 4, score: 0 };
    assert_eq!(config.serialize(), vec![0, 0, 0, 4, 0, 0, 0, 2, 0, 0, 0, 0, 0, 0, 0, 0]);
    let config = ConfigData { max_size: 0x01020304, x: 0xa0b0c0d0, score: 0x1122334455667788 };
    assert_eq!(
        config.serialize(),
        vec![0xa0, 0xb0, 0xc0, 0xd0, 1, 2, 3, 4, 0x11, 0x22, 0x33, 0x44, 0x55, 0x66, 0x77, 0x88]
    );
}

#[test]
fn negative_scores_are_in_twos_complement() {
    let config = ConfigData { max_size: 1, x: 1, score: -1 };
    assert_eq!(config.serialize()[8..], [0xff; 8]);
    let config = ConfigData { max_size: 1, x: 1, score: i64::MIN };
    assert_eq!(config.serialize()[8..], [0x80, 0, 0, 0, 0, 0, 0, 0]);
    let config = ConfigData { max_size: 1, x: 1, score: -2 };
    assert_eq!(config.serialize()[8..], (-2i64).to_be_bytes());
}

#[test]
fn serialize_agrees_with_std() {
    for (x, max_size, score) in [
        (0u32, 0u32, 0i64),
        (u32::MAX, u32::MAX, i64::MAX),
        (1, 2, i64::MIN),
        (0x12345678, 0x9abcdef0, -0x0123456789abcdef),
        (255, 256, 65536),
    ] {
        let mut expected = Vec::new();
        expected.extend_from_slice(&x.to_be_bytes());
        expected.extend_from_slice(&max_size.to_be_bytes());
        expected.extend_from_slice(&score.to_be_bytes());
        assert_eq!(ConfigData { max_size, x, score }.serialize(), expected);
    }
}

#[test]
fn deserialize_reads_what_serialize_wrote() {
    for (x, max_size, score) in [
        (0u32, 0u32, 0i64),
        (u32::MAX, u32::MAX, i64::MAX),
        (1, 2, i64::MIN),
        (4, 2, -1),
        (0x12345678, 0x9abcdef0, -0x0123456789abcdef),
    ] {
        let config = ConfigData { max_size, x, score };
        assert_eq!(ConfigData::deserialize(config.serialize()), config);
    }
}

#[test]
fn deserialize_exact_values() {
    let data = vec![0, 0, 0, 6, 0, 0, 0, 3, 0, 0, 0, 0, 0, 0, 1, 0];
    assert_eq!(ConfigData::deserialize(data), ConfigData { max_size: 3, x: 6, score: 256 });
    let data = vec![0, 0, 1, 0, 0, 1, 0, 0, 0xff, 0xff, 0xff, 0xff, 0xff, 0xff, 0xff, 0xfe];
    assert_eq!(ConfigData::deserialize(data), ConfigData { max_size: 65536, x: 256, score: -2 });
}

#[test]
fn data_of_another_length_gives_the_initial_configuration() {
    let initial = ConfigData { max_size: 2, x: 4, score: 0 };
    assert_eq!(ConfigData::deserialize(vec![]), initial);
    assert_eq!(ConfigData::deserialize(vec![9; 15]), initial);
    assert_eq!(ConfigData::deserialize(vec![9; 17]), initial);
    assert_eq!(ConfigData::default(), initial);
}
