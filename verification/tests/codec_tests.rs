use tskv::block::{
    decode_bools, decode_i64s, decode_strs, decode_u64s, encode_bools, encode_i64s, encode_strs,
    encode_u64s, DataBlock, DataType, ValueType,
};
use tskv::codec::{get_u16_be, get_u32_be, get_u64_be, put_i64_be, put_u16_be, put_u32_be, put_u64_be};
use tskv::TsmError;

#[test]
fn test_str_encode() {
    let mut data = vec![];
    let str = vec![vec![1_u8]];
    let _ = encode_strs(&str, &mut data);
}

#[test]
fn str_encoding_is_length_prefixed() {
    let mut data = vec![];
    let vals = vec![vec![1_u8], vec![7, 8, 9]];
    encode_strs(&vals, &mut data).unwrap();
    assert_eq!(data, vec![0, 0, 0, 1, 1, 0, 0, 0, 3, 7, 8, 9]);
    let back = decode_strs(&data).unwrap();
    assert_eq!(back, vals);
}

#[test]
fn big_endian_integers_have_exact_bytes() {
    let mut out = vec![];
    put_u16_be(&mut out, 0x0102);
    put_u32_be(&mut out, 0x0304_0506);
    put_u64_be(&mut out, 0x0708_090a_0b0c_0d0e);
    put_i64_be(&mut out, -2);
    assert_eq!(
        out,
        vec![
            1, 2, 3, 4, 5, 6, 7, 8, 9, 10, 11, 12, 13, 14, 255, 255, 255, 255, 255, 255, 255, 254
        ]
    );
    assert_eq!(get_u16_be(&out, 0), 0x0102);
    assert_eq!(get_u32_be(&out, 2), 0x0304_0506);
    assert_eq!(get_u64_be(&out, 6), 0x0708_090a_0b0c_0d0e);
}

#[test]
fn integer_columns_round_trip() {
    let ts = vec![-5_i64, 0, 7, i64::MAX, i64::MIN];
    let enc = encode_i64s(&ts, 0, ts.len());
    assert_eq!(enc.len(), 8 * ts.len());
    assert_eq!(decode_i64s(&enc).unwrap(), ts);

    let vals = vec![0_u64, 1, u64::MAX];
    let enc = encode_u64s(&vals, 0, vals.len());
    assert_eq!(decode_u64s(&enc).unwrap(), vals);

    let flags = vec![true, false, true];
    let enc = encode_bools(&flags, 0, flags.len());
    assert_eq!(enc, vec![1, 0, 1]);
    assert_eq!(decode_bools(&enc), flags);
}

#[test]
fn truncated_payload_is_rejected() {
    let ts = vec![1_i64, 2];
    let mut enc = encode_i64s(&ts, 0, ts.len());
    enc.pop();
    assert!(decode_i64s(&enc).is_none());
    assert!(decode_u64s(&enc).is_none());
    let bad = vec![0_u8, 0, 0, 9, 1];
    assert!(decode_strs(&bad).is_none());
}

#[test]
fn unknown_value_type_is_rejected() {
    let r = DataBlock::new(4, ValueType::Unknown);
    assert!(matches!(r, Err(TsmError::WriteTsmErr { .. })));
    assert!(DataBlock::new(4, ValueType::Float).is_ok());
}

#[test]
fn value_type_bytes_round_trip() {
    for v in 0_u8..5 {
        let t = ValueType::from_u8(v);
        assert!(t != ValueType::Unknown);
        assert_eq!(t.to_u8(), v);
    }
    assert_eq!(ValueType::from_u8(9), ValueType::Unknown);
}

#[test]
fn insert_appends_matching_points_only() {
    let mut blk = DataBlock::new(4, ValueType::Unsigned).unwrap();
    blk.insert(&DataType::U64(1, 10));
    blk.insert(&DataType::I64(2, 20));
    blk.insert(&DataType::U64(3, 30));
    assert_eq!(blk.len(), 2);
    assert_eq!(blk.field_type(), ValueType::Unsigned);
    match blk {
        DataBlock::U64 { ts, val } => {
            assert_eq!(ts, vec![1, 3]);
            assert_eq!(val, vec![10, 30]);
        },
        _ => panic!("wrong variant"),
    }
}

#[test]
fn block_encode_covers_every_type() {
    let blk = DataBlock::Bool { ts: vec![1, 2], val: vec![true, false] };
    let (tsb, vb) = blk.encode(0, 2).unwrap();
    assert_eq!(tsb.len(), 16);
    assert_eq!(vb, vec![1, 0]);

    let blk = DataBlock::F64 { ts: vec![1], val: vec![2.5_f64.to_bits()] };
    let (_, vb) = blk.encode(0, 1).unwrap();
    assert_eq!(f64::from_bits(u64::from_be_bytes(vb.try_into().unwrap())), 2.5);

    let blk = DataBlock::Str { ts: vec![1], val: vec![b"hi".to_vec()] };
    let (_, vb) = blk.encode(0, 1).unwrap();
    assert_eq!(vb, vec![0, 0, 0, 2, b'h', b'i']);
}
