use rom_schem::error::SchemError;
use rom_schem::varint::{decode_varint, decode_varints, encode_varint};

#[test]
fn small_value_is_one_byte() {
    let mut out = Vec::new();
    encode_varint(5, &mut out);
    assert_eq!(out, vec![5]);
}

#[test]
fn three_hundred() {
    let mut out = Vec::new();
    encode_varint(300, &mut out);
    assert_eq!(out, vec![0xAC, 0x02]);
    assert_eq!(decode_varint(&out, 0), Ok((300, 2)));
}

#[test]
fn round_trip_up_to_five_bytes() {
    for v in [0u64, 127, 128, 16383, 16384, 2_097_151, 268_435_455, (1u64 << 35) - 1] {
        let mut out = vec![9];
        encode_varint(v, &mut out);
        let (back, n) = decode_varint(&out, 1).unwrap();
        assert_eq!(back, v);
        assert_eq!(n, out.len() - 1);
    }
}

#[test]
fn six_bytes_overflow() {
    let mut out = Vec::new();
    encode_varint(1u64 << 35, &mut out);
    assert_eq!(out.len(), 6);
    assert_eq!(decode_varint(&out, 0), Err(SchemError::VarintOverflow { offset: 0 }));
}

#[test]
fn truncated_varint() {
    assert_eq!(decode_varint(&vec![0x80], 0), Err(SchemError::TruncatedVarint { offset: 0 }));
    assert_eq!(decode_varints(&vec![1, 0x81]), Err(SchemError::TruncatedVarint { offset: 1 }));
}

#[test]
fn stream_of_varints() {
    let mut out = Vec::new();
    for v in [1u64, 200, 0, 70000] {
        encode_varint(v, &mut out);
    }
    assert_eq!(decode_varints(&out), Ok(vec![1, 200, 0, 70000]));
}
