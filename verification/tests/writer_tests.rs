use tskv::block::{decode_i64s, decode_u64s, DataBlock, DataType, ValueType};
use tskv::bloom::BloomFilter;
use tskv::index::IndexBuf;
use tskv::sink::FileCursor;
use tskv::writer::{write_one_block, DefaultTsmWriter, TsmCacheWriter, TsmWriter};
use tskv::{TsmError, BLOOM_FILTER_BITS, HEADER_LEN, TSM_MAGIC, VERSION};

fn be_u16(b: &[u8], at: usize) -> u16 {
    u16::from_be_bytes(b[at..at + 2].try_into().unwrap())
}

fn be_u32(b: &[u8], at: usize) -> u32 {
    u32::from_be_bytes(b[at..at + 4].try_into().unwrap())
}

fn be_u64(b: &[u8], at: usize) -> u64 {
    u64::from_be_bytes(b[at..at + 8].try_into().unwrap())
}

fn be_i64(b: &[u8], at: usize) -> i64 {
    i64::from_be_bytes(b[at..at + 8].try_into().unwrap())
}

struct ParsedMeta {
    min_ts: i64,
    max_ts: i64,
    offset: u64,
    size: u64,
    val_off: u64,
}

struct ParsedEntry {
    field_id: u64,
    value_type: u8,
    metas: Vec<ParsedMeta>,
}

/// Parses a finished file: checks the header, reads the footer for the index
/// offset, and walks the index region.
fn parse_file(bytes: &[u8]) -> (Vec<u8>, Vec<ParsedEntry>) {
    assert!(bytes.len() >= 21);
    assert_eq!(be_u32(bytes, 0), TSM_MAGIC);
    assert_eq!(bytes[4], VERSION);
    let filter_len = (BLOOM_FILTER_BITS / 8) as usize;
    let footer_at = bytes.len() - filter_len - 8;
    let filter = bytes[footer_at..footer_at + filter_len].to_vec();
    let index_off = be_u64(bytes, footer_at + filter_len) as usize;
    let mut entries = Vec::new();
    let mut at = index_off;
    while at < footer_at {
        let field_id = be_u64(bytes, at);
        let value_type = bytes[at + 8];
        let count = be_u16(bytes, at + 9) as usize;
        at += 11;
        let mut metas = Vec::new();
        for _ in 0..count {
            metas.push(ParsedMeta {
                min_ts: be_i64(bytes, at),
                max_ts: be_i64(bytes, at + 8),
                offset: be_u64(bytes, at + 16),
                size: be_u64(bytes, at + 24),
                val_off: be_u64(bytes, at + 32),
            });
            at += 40;
        }
        entries.push(ParsedEntry { field_id, value_type, metas });
    }
    assert_eq!(at, footer_at);
    (filter, entries)
}

/// Reads one chunk back, verifying both checksums, and returns the decoded
/// timestamps with the raw value payload.
fn read_chunk(bytes: &[u8], m: &ParsedMeta) -> (Vec<i64>, Vec<u8>) {
    let off = m.offset as usize;
    let val_off = m.val_off as usize;
    let end = off + m.size as usize;
    let ts_payload = bytes[off + 4..val_off].to_vec();
    assert_eq!(be_u32(bytes, off), crc32fast::hash(&ts_payload));
    let val_payload = bytes[val_off + 4..end].to_vec();
    assert_eq!(be_u32(bytes, val_off), crc32fast::hash(&val_payload));
    (decode_i64s(&ts_payload).unwrap(), val_payload)
}

fn write_all(fields: Vec<(u64, DataBlock)>) -> Vec<u8> {
    let mut writer = TsmCacheWriter::new(FileCursor::new(), fields);
    writer.write().unwrap();
    let cursor = writer.into_sink();
    assert!(cursor.synced());
    cursor.into_bytes()
}

#[test]
fn test_tsm_write_fast() {
    let data = vec![
        (1_u64, DataBlock::U64 { ts: vec![2, 3, 4], val: vec![12, 13, 15] }),
        (2_u64, DataBlock::U64 { ts: vec![2, 3, 4], val: vec![101, 102, 103] }),
    ];
    let bytes = write_all(data);
    println!("column write finsh");

    let (_, entries) = parse_file(&bytes);
    assert_eq!(entries.len(), 2);
    assert_eq!(entries[0].field_id, 1);
    assert_eq!(entries[1].field_id, 2);
    let expected = [vec![12_u64, 13, 15], vec![101, 102, 103]];
    for (e, want) in entries.iter().zip(expected.iter()) {
        assert_eq!(e.value_type, ValueType::Unsigned.to_u8());
        assert_eq!(e.metas.len(), 1);
        let (ts, val_payload) = read_chunk(&bytes, &e.metas[0]);
        assert_eq!(ts, vec![2, 3, 4]);
        assert_eq!(&decode_u64s(&val_payload).unwrap(), want);
        assert_eq!(e.metas[0].min_ts, 2);
        assert_eq!(e.metas[0].max_ts, 4);
    }
}

#[test]
fn test_tsm_write_slow() {
    let mut cache_data: Vec<(u64, DataBlock)> = Vec::new();
    // Produce many field ids, from 1 to 1000.
    for i in 1..1000 {
        let fid = i as u64;
        // Use i % 5 as the value type.
        let vtyp = ValueType::from_u8((i % 5) as u8);
        let mut blk = DataBlock::new(10000, vtyp).unwrap();
        // Produce many ts-val pairs; ts runs from 1 to 10000, values are
        // randomly generated.
        for j in 1_i64..10000 {
            let val = match vtyp {
                ValueType::Unknown => panic!("value type is unknown"),
                ValueType::Float => DataType::F64(j, rand::random::<f64>().to_bits()),
                ValueType::Integer => DataType::I64(j, rand::random::<i64>()),
                ValueType::Unsigned => DataType::U64(j, rand::random::<u64>()),
                ValueType::Boolean => DataType::Bool(j, rand::random::<bool>()),
                ValueType::Str => DataType::Str(j, b"hello world".to_vec()),
            };
            blk.insert(&val);
        }
        cache_data.push((fid, blk));
    }

    let writer = DefaultTsmWriter::new(FileCursor::new());
    let _ = writer;
}

#[test]
fn header_is_magic_then_version() {
    let mut cursor = FileCursor::new();
    let n = tskv::writer::write_header_to(&mut cursor).unwrap();
    assert_eq!(n as u64, HEADER_LEN);
    assert_eq!(cursor.into_bytes(), vec![0x01, 0x34, 0x66, 0x13, 1]);
}

#[test]
fn one_full_chunk_when_points_equal_cap() {
    // A field with exactly as many points as the chunk cap yields one chunk
    // covering every point.
    let n = 10000_usize;
    let ts: Vec<i64> = (0..n as i64).collect();
    let val: Vec<u64> = (0..n as u64).collect();
    let bytes = write_all(vec![(7, DataBlock::U64 { ts: ts.clone(), val: val.clone() })]);
    let (_, entries) = parse_file(&bytes);
    assert_eq!(entries.len(), 1);
    assert_eq!(entries[0].metas.len(), 1);
    let (got_ts, val_payload) = read_chunk(&bytes, &entries[0].metas[0]);
    assert_eq!(got_ts, ts);
    assert_eq!(decode_u64s(&val_payload).unwrap(), val);
}

#[test]
fn first_chunk_absorbs_the_remainder() {
    // 10001 points under a cap of 10000: the first chunk holds the single
    // remainder point, the second holds a full cap, offsets are adjacent.
    let n = 10001_usize;
    let ts: Vec<i64> = (0..n as i64).collect();
    let val: Vec<u64> = (0..n as u64).collect();
    let bytes = write_all(vec![(7, DataBlock::U64 { ts: ts.clone(), val: val.clone() })]);
    let (_, entries) = parse_file(&bytes);
    assert_eq!(entries[0].metas.len(), 2);
    let m0 = &entries[0].metas[0];
    let m1 = &entries[0].metas[1];
    let (ts0, _) = read_chunk(&bytes, m0);
    let (ts1, _) = read_chunk(&bytes, m1);
    assert_eq!(ts0, vec![0]);
    assert_eq!(ts1, ts[1..].to_vec());
    assert_eq!(m0.min_ts, 0);
    assert_eq!(m0.max_ts, 0);
    assert_eq!(m1.min_ts, 1);
    assert_eq!(m1.max_ts, 10000);
    // Offset monotonicity: the later chunk starts exactly where the earlier
    // one ended, so offsets strictly increase.
    assert_eq!(m1.offset, m0.offset + m0.size);
    assert!(m0.offset < m1.offset);
    // Size exactness: the chunk's size is both checksums plus both payloads.
    assert_eq!(m0.size, 4 + 8 + 4 + 8);
    assert_eq!(m0.val_off, m0.offset + 4 + 8);
}

#[test]
fn footer_records_the_index_offset() {
    let bytes = write_all(vec![(9, DataBlock::Bool { ts: vec![1, 2], val: vec![true, false] })]);
    let filter_len = (BLOOM_FILTER_BITS / 8) as usize;
    let footer_at = bytes.len() - filter_len - 8;
    let index_off = be_u64(&bytes, footer_at + filter_len) as usize;
    // The index region holds one 11-byte record and one 40-byte block meta.
    assert_eq!(footer_at - index_off, 51);
    // The first index record starts exactly at the recorded offset.
    assert_eq!(be_u64(&bytes, index_off), 9);
}

#[test]
fn fields_are_emitted_sorted_by_identifier() {
    let a = vec![
        (2_u64, DataBlock::U64 { ts: vec![1], val: vec![20] }),
        (1_u64, DataBlock::U64 { ts: vec![1], val: vec![10] }),
    ];
    let b = vec![
        (1_u64, DataBlock::U64 { ts: vec![1], val: vec![10] }),
        (2_u64, DataBlock::U64 { ts: vec![1], val: vec![20] }),
    ];
    let ba = write_all(a);
    let bb = write_all(b);
    assert_eq!(ba, bb);
    let (_, entries) = parse_file(&ba);
    assert_eq!(entries[0].field_id, 1);
    assert_eq!(entries[1].field_id, 2);
}

#[test]
fn streaming_writer_matches_buffered_layout() {
    let blk1 = DataBlock::U64 { ts: vec![2, 3, 4], val: vec![12, 13, 15] };
    let blk2 = DataBlock::U64 { ts: vec![2, 3, 4], val: vec![101, 102, 103] };
    let buffered = write_all(vec![(1, blk1), (2, blk2)]);

    let blk1 = DataBlock::U64 { ts: vec![2, 3, 4], val: vec![12, 13, 15] };
    let blk2 = DataBlock::U64 { ts: vec![2, 3, 4], val: vec![101, 102, 103] };
    let mut w = DefaultTsmWriter::new(FileCursor::new());
    w.write_header().unwrap();
    w.write_series(1, &blk1).unwrap();
    w.write_series(2, &blk2).unwrap();
    w.write_blocks().unwrap();
    w.write_index().unwrap();
    w.write_footer().unwrap();
    w.flush().unwrap();
    let streamed = w.into_sink();
    assert!(streamed.synced());
    assert_eq!(streamed.into_bytes(), buffered);
}

#[test]
fn failure_in_blocks_phase_aborts_the_file() {
    // The sink accepts the header and then fails mid-blocks: the writer must
    // return the error, never reach the index, footer or flush phases, and
    // the file stays unsynced and truncated.
    let data = vec![(1_u64, DataBlock::U64 { ts: vec![2, 3, 4], val: vec![12, 13, 15] })];
    let cursor = FileCursor::failing_after(10);
    let mut writer = TsmCacheWriter::new(cursor, data);
    let r = writer.write();
    assert!(matches!(r, Err(TsmError::WriteTsmErr { .. })));
    let cursor = writer.into_sink();
    assert!(!cursor.synced());
    let bytes = cursor.into_bytes();
    assert!(bytes.len() <= 10);
    // The header went through before the failure.
    assert_eq!(be_u32(&bytes, 0), TSM_MAGIC);
}

#[test]
fn filter_reports_every_inserted_key() {
    let mut filter = BloomFilter::new(BLOOM_FILTER_BITS);
    let keys: Vec<u64> = vec![1, 2, 3, 10_000, u64::MAX];
    for k in &keys {
        filter.insert(*k);
    }
    for k in &keys {
        assert!(filter.contains(*k));
    }
    let empty = BloomFilter::new(BLOOM_FILTER_BITS);
    assert!(!empty.contains(1));
    assert_eq!(filter.bytes().len(), (BLOOM_FILTER_BITS / 8) as usize);
}

#[test]
fn written_filter_covers_all_fields() {
    let bytes = write_all(vec![
        (3_u64, DataBlock::I64 { ts: vec![1], val: vec![-1] }),
        (5_u64, DataBlock::I64 { ts: vec![1], val: vec![-2] }),
    ]);
    let (filter, entries) = parse_file(&bytes);
    // Rebuild a filter with the same keys: the footer's filter bytes match.
    let mut expect = BloomFilter::new(BLOOM_FILTER_BITS);
    for e in &entries {
        expect.insert(e.field_id);
    }
    assert_eq!(&filter, expect.bytes());
}

#[test]
fn all_value_types_round_trip_through_a_file() {
    let fields = vec![
        (1_u64, DataBlock::F64 { ts: vec![1, 2], val: vec![1.5_f64.to_bits(), 2.5_f64.to_bits()] }),
        (2_u64, DataBlock::I64 { ts: vec![1, 2], val: vec![-7, 8] }),
        (3_u64, DataBlock::U64 { ts: vec![1, 2], val: vec![7, 8] }),
        (4_u64, DataBlock::Bool { ts: vec![1, 2], val: vec![false, true] }),
        (5_u64, DataBlock::Str { ts: vec![1, 2], val: vec![b"ab".to_vec(), b"".to_vec()] }),
    ];
    let bytes = write_all(fields);
    let (_, entries) = parse_file(&bytes);
    assert_eq!(entries.len(), 5);
    for e in &entries {
        let (ts, val_payload) = read_chunk(&bytes, &e.metas[0]);
        assert_eq!(ts, vec![1, 2]);
        match ValueType::from_u8(e.value_type) {
            ValueType::Float => {
                let bits = decode_u64s(&val_payload).unwrap();
                assert_eq!(f64::from_bits(bits[0]), 1.5);
                assert_eq!(f64::from_bits(bits[1]), 2.5);
            },
            ValueType::Integer => {
                assert_eq!(decode_i64s(&val_payload).unwrap(), vec![-7, 8]);
            },
            ValueType::Unsigned => {
                assert_eq!(decode_u64s(&val_payload).unwrap(), vec![7, 8]);
            },
            ValueType::Boolean => {
                assert_eq!(val_payload, vec![0, 1]);
            },
            ValueType::Str => {
                let strs = tskv::block::decode_strs(&val_payload).unwrap();
                assert_eq!(strs, vec![b"ab".to_vec(), b"".to_vec()]);
            },
            ValueType::Unknown => panic!("unknown type in file"),
        }
    }
}

#[test]
fn orchestrator_total_is_the_file_size() {
    let data = vec![(1_u64, DataBlock::U64 { ts: vec![2, 3, 4], val: vec![12, 13, 15] })];
    let mut writer = TsmCacheWriter::new(FileCursor::new(), data);
    let total = writer.write().unwrap();
    let bytes = writer.into_sink().into_bytes();
    assert_eq!(total, bytes.len());
}

#[test]
fn write_one_block_records_exact_metadata() {
    let mut cursor = FileCursor::new();
    let mut index_buf = IndexBuf::new();
    let blk = DataBlock::U64 { ts: vec![1, 2, 3], val: vec![7, 8, 9] };
    let n = write_one_block(&mut cursor, &mut index_buf, 42, &blk).unwrap();
    // One chunk: two 4-byte checksums and two 24-byte payloads.
    assert_eq!(n, 56);
    assert_eq!(cursor.len(), 56);
    assert!(index_buf.bloom_filter().contains(42));
    // Serialize the accumulated index and check the single entry by hand.
    let mut out = FileCursor::new();
    let m = index_buf.write_to(&mut out).unwrap();
    assert_eq!(m, 51);
    let bytes = out.into_bytes();
    assert_eq!(be_u64(&bytes, 0), 42); // field id
    assert_eq!(bytes[8], ValueType::Unsigned.to_u8());
    assert_eq!(be_u16(&bytes, 9), 1); // block count: one chunk for 3 points
    assert_eq!(be_i64(&bytes, 11), 1); // min timestamp
    assert_eq!(be_i64(&bytes, 19), 3); // max timestamp
    assert_eq!(be_u64(&bytes, 27), 0); // chunk offset
    assert_eq!(be_u64(&bytes, 35), 56); // chunk size: checksums plus payloads
    assert_eq!(be_u64(&bytes, 43), 28); // value section offset
}
