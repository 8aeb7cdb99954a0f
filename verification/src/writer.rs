//! The format writer: the four-phase pipeline — header, blocks, index,
//! footer — over a sequential file sink, with a durable flush at the end.
//!
//! Two variants share the phase contract: a buffered variant that takes the
//! whole working set up front and emits fields sorted by identifier, and a
//! streaming variant that is fed one field at a time and buffers only the
//! index metadata.  Both produce the identical on-disk layout.

use vstd::prelude::*;

use crate::block::{
    lemma_chunk_layout, spec_block_count, spec_chunk_end, spec_chunk_start, spec_first_chunk_len,
    DataBlock,
};
use crate::bloom::{spec_bit_set, spec_filter_insert, spec_filter_slot, BloomFilter};
use crate::codec::{put_u32_be, put_u64_be, spec_u32_to_be_bytes, spec_u64_to_be_bytes};
use crate::index::{
    spec_index_bytes, BlockMeta, IndexBuf, IndexEntry,
};
use crate::sink::{FileCursor, FileSync};
use crate::{TsmError, HEADER_LEN, MAX_BLOCK_VALUES, TSM_MAGIC, VERSION};

verus! {

/// The 32-bit cyclic-redundancy checksum of a byte sequence, a deterministic
/// function of the bytes alone.
pub uninterp spec fn crc32_of(data: Seq<u8>) -> u32;

/// Relies on `crc32fast::hash`: the standard CRC-32 checksum, deterministic
/// in its input bytes.
#[verifier::external_body]
fn crc32(data: &Vec<u8>) -> (r: u32)
    ensures
        r == crc32_of(data@),
{
    crc32fast::hash(data.as_slice())
}

/// The five header bytes: the big-endian magic number, then the version.
pub open spec fn spec_header_bytes() -> Seq<u8> {
    spec_u32_to_be_bytes(TSM_MAGIC) + seq![VERSION]
}

/// The footer: the membership filter's raw bytes followed by the big-endian
/// absolute offset of the index region's start.
pub open spec fn spec_footer_bytes(filter_bytes: Seq<u8>, index_offset: u64) -> Seq<u8> {
    filter_bytes + spec_u64_to_be_bytes(index_offset)
}

/// The bytes of one chunk: the CRC of the encoded timestamps, the encoded
/// timestamps, the CRC of the encoded values, the encoded values.
pub open spec fn spec_chunk_payload(ts_buf: Seq<u8>, val_buf: Seq<u8>) -> Seq<u8> {
    spec_u32_to_be_bytes(crc32_of(ts_buf)) + ts_buf + spec_u32_to_be_bytes(crc32_of(val_buf))
        + val_buf
}

/// The bytes chunk `i` of a field contributes to the blocks region.
pub open spec fn spec_chunk_bytes_of(b: DataBlock, cap: int, i: int) -> Seq<u8> {
    let n = b.spec_len() as int;
    let s = spec_chunk_start(n, cap, i);
    let e = spec_chunk_end(n, cap, i);
    spec_chunk_payload(b.spec_encode_ts_range(s, e), b.spec_encode_val_range(s, e))
}

/// The bytes of a field's chunks `[0, i)`, in order.
pub open spec fn spec_field_bytes_upto(b: DataBlock, cap: int, i: int) -> Seq<u8>
    decreases i,
{
    if i <= 0 {
        Seq::empty()
    } else {
        spec_field_bytes_upto(b, cap, i - 1) + spec_chunk_bytes_of(b, cap, i - 1)
    }
}

/// Everything a field contributes to the blocks region.
pub open spec fn spec_field_bytes(b: DataBlock, cap: int) -> Seq<u8> {
    spec_field_bytes_upto(b, cap, spec_block_count(b.spec_len() as int, cap))
}

/// The metadata of chunk `i` of a field whose first chunk starts at absolute
/// file position `pos0`.
pub open spec fn spec_chunk_meta(b: DataBlock, cap: int, pos0: int, i: int) -> BlockMeta {
    let n = b.spec_len() as int;
    let s = spec_chunk_start(n, cap, i);
    let e = spec_chunk_end(n, cap, i);
    let off = pos0 + spec_field_bytes_upto(b, cap, i).len();
    BlockMeta {
        min_ts: b.ts_seq()[s],
        max_ts: b.ts_seq()[e - 1],
        offset: off as u64,
        size: spec_chunk_bytes_of(b, cap, i).len() as u64,
        val_off: (off + 4 + b.spec_encode_ts_range(s, e).len()) as u64,
    }
}

/// The metadata of every chunk of a field starting at position `pos0`.
pub open spec fn spec_chunk_metas(b: DataBlock, cap: int, pos0: int) -> Seq<BlockMeta> {
    Seq::new(
        spec_block_count(b.spec_len() as int, cap) as nat,
        |i: int| spec_chunk_meta(b, cap, pos0, i),
    )
}

/// A block the writer accepts: well-formed, non-empty, and small enough that
/// its chunk count fits the index record's 16-bit count field.
pub open spec fn spec_block_writable(b: DataBlock, cap: int) -> bool {
    &&& b.wf()
    &&& 1 <= b.spec_len()
    &&& spec_block_count(b.spec_len() as int, cap) <= u16::MAX
}

/// Chunk-byte prefixes of a field only grow.
pub proof fn lemma_field_bytes_upto_mono(b: DataBlock, cap: int, i: int, j: int)
    requires
        0 <= i <= j,
    ensures
        spec_field_bytes_upto(b, cap, i).len() <= spec_field_bytes_upto(b, cap, j).len(),
    decreases j - i,
{
    if i < j {
        lemma_field_bytes_upto_mono(b, cap, i, j - 1);
    }
}

/// Writes the five header bytes — the magic number big-endian, then the
/// version byte — and returns how many bytes were written.  Succeeds exactly
/// when the sink accepts all five bytes; on failure the sink holds at most a
/// prefix of the header.
pub fn write_header_to(writer: &mut FileCursor) -> (r: Result<usize, TsmError>)
    requires
        old(writer).wf(),
    ensures
        final(writer).wf(),
        final(writer).spec_fail_at() == old(writer).spec_fail_at(),
        final(writer).is_synced() == old(writer).is_synced(),
        old(writer).bytes().is_prefix_of(final(writer).bytes()),
        final(writer).bytes().is_prefix_of(old(writer).bytes() + spec_header_bytes()),
        r is Ok <==> old(writer).can_write(HEADER_LEN as int),
        r matches Ok(n) ==> final(writer).bytes() == old(writer).bytes() + spec_header_bytes()
            && n == HEADER_LEN,
{
    let ghost base = writer.bytes();
    let mut magic: Vec<u8> = Vec::new();
    put_u32_be(&mut magic, TSM_MAGIC);
    let mut version: Vec<u8> = Vec::new();
    version.push(VERSION);
    proof {
        assert(base.is_prefix_of(base));
        assert(magic@ + version@ =~= spec_header_bytes());
    }
    match writer.write(magic.as_slice()) {
        Ok(_) => {},
        Err(e) => {
            proof {
                assert(base.is_prefix_of(base + spec_header_bytes()));
            }
            return Err(e);
        },
    }
    proof {
        assert((base + magic@).is_prefix_of(base + spec_header_bytes())) by {
            assert((base + spec_header_bytes()).subrange(0, base.len() as int + 4) =~= base + magic@);
        }
        assert(base.is_prefix_of(base + magic@)) by {
            assert((base + magic@).subrange(0, base.len() as int) =~= base);
        }
    }
    match writer.write(version.as_slice()) {
        Ok(_) => {},
        Err(e) => {
            return Err(e);
        },
    }
    proof {
        assert(writer.bytes() =~= base + spec_header_bytes());
        assert(base.is_prefix_of(writer.bytes())) by {
            assert(writer.bytes().subrange(0, base.len() as int) =~= base);
        }
        assert(writer.bytes().is_prefix_of(writer.bytes()));
    }
    Ok(5)
}

/// Writes the footer: the membership filter's raw bytes, then the big-endian
/// absolute offset of the index region.  Succeeds exactly when the sink
/// accepts the whole footer.
pub fn write_footer_to(writer: &mut FileCursor, bloom_filter: &BloomFilter, index_offset: u64) -> (r:
    Result<usize, TsmError>)
    requires
        old(writer).wf(),
    ensures
        final(writer).wf(),
        final(writer).spec_fail_at() == old(writer).spec_fail_at(),
        final(writer).is_synced() == old(writer).is_synced(),
        old(writer).bytes().is_prefix_of(final(writer).bytes()),
        final(writer).bytes().is_prefix_of(old(writer).bytes() + spec_footer_bytes(
            bloom_filter@,
            index_offset,
        )),
        r is Ok <==> old(writer).can_write(spec_footer_bytes(bloom_filter@, index_offset).len() as int),
        r matches Ok(n) ==> final(writer).bytes() == old(writer).bytes() + spec_footer_bytes(
            bloom_filter@,
            index_offset,
        ) && n == spec_footer_bytes(bloom_filter@, index_offset).len(),
{
    let ghost base = writer.bytes();
    let ghost footer = spec_footer_bytes(bloom_filter@, index_offset);
    let base_len = writer.len();
    let mut off_buf: Vec<u8> = Vec::new();
    put_u64_be(&mut off_buf, index_offset);
    let filter_bytes = bloom_filter.bytes();
    proof {
        assert(filter_bytes@ + off_buf@ =~= footer);
        assert(base.is_prefix_of(base));
        assert(base.is_prefix_of(base + footer));
    }
    match writer.write(filter_bytes.as_slice()) {
        Ok(_) => {},
        Err(e) => {
            return Err(e);
        },
    }
    proof {
        assert(base.is_prefix_of(writer.bytes())) by {
            assert(writer.bytes().subrange(0, base.len() as int) =~= base);
        }
        assert((base + bloom_filter@).is_prefix_of(base + footer)) by {
            assert((base + footer).subrange(0, base.len() as int + bloom_filter@.len() as int) =~= base
                + bloom_filter@);
        }
    }
    match writer.write(off_buf.as_slice()) {
        Ok(_) => {},
        Err(e) => {
            return Err(e);
        },
    }
    proof {
        assert(writer.bytes() =~= base + footer);
        assert(base.is_prefix_of(writer.bytes())) by {
            assert(writer.bytes().subrange(0, base.len() as int) =~= base);
        }
        assert(writer.bytes().is_prefix_of(writer.bytes()));
    }
    let end_len = writer.len();
    Ok(end_len - base_len)
}

/// Splits one field's points into chunks of at most `MAX_BLOCK_VALUES`
/// points — the first chunk absorbs the remainder — encodes and checksums
/// each chunk, appends it to the sink, records one block-meta record per
/// chunk, and finally appends the field's index record and inserts the field
/// identifier into the membership filter.  Returns the total bytes written
/// for the field.  Succeeds exactly when the sink accepts all the field's
/// bytes; on failure the whole write is aborted and the sink holds a prefix
/// of the field's bytes.
pub fn write_one_block(
    writer: &mut FileCursor,
    index_buf: &mut IndexBuf,
    field_id: u64,
    block: &DataBlock,
) -> (r: Result<usize, TsmError>)
    requires
        old(writer).wf(),
        old(index_buf).wf(),
        old(index_buf).pending().len() == 0,
        spec_block_writable(*block, MAX_BLOCK_VALUES as int),
    ensures
        final(writer).wf(),
        final(index_buf).wf(),
        final(writer).spec_fail_at() == old(writer).spec_fail_at(),
        final(writer).is_synced() == old(writer).is_synced(),
        old(writer).bytes().is_prefix_of(final(writer).bytes()),
        final(index_buf).spec_index_offset() == old(index_buf).spec_index_offset(),
        r is Ok <==> old(writer).can_write(
            spec_field_bytes(*block, MAX_BLOCK_VALUES as int).len() as int,
        ),
        r matches Ok(n) ==> {
            &&& final(writer).bytes() == old(writer).bytes() + spec_field_bytes(
                *block,
                MAX_BLOCK_VALUES as int,
            )
            &&& n == spec_field_bytes(*block, MAX_BLOCK_VALUES as int).len()
            &&& final(index_buf).entries() == old(index_buf).entries().push(
                IndexEntry {
                    field_id,
                    block_type: block.vtype(),
                    block_count: spec_block_count(
                        block.spec_len() as int,
                        MAX_BLOCK_VALUES as int,
                    ) as u16,
                    metas: spec_chunk_metas(
                        *block,
                        MAX_BLOCK_VALUES as int,
                        old(writer).bytes().len() as int,
                    ),
                },
            )
            &&& final(index_buf).pending().len() == 0
            &&& final(index_buf).filter_bytes() == spec_filter_insert(
                old(index_buf).filter_bytes(),
                field_id,
            )
        },
        r is Err ==> final(index_buf).entries() == old(index_buf).entries()
            && final(index_buf).filter_bytes() == old(index_buf).filter_bytes(),
{
    let ghost cap = MAX_BLOCK_VALUES as int;
    let ghost b = *block;
    let ghost n_int = block.spec_len() as int;
    let ghost base = writer.bytes();
    let ghost f0 = writer.spec_fail_at();
    let ghost sync0 = writer.is_synced();
    let ghost entries0 = index_buf.entries();
    let ghost filter0 = index_buf.filter_bytes();
    let ghost off0 = index_buf.spec_index_offset();
    let ghost pos0 = base.len() as int;
    let ghost count = spec_block_count(n_int, cap);
    let ghost total = spec_field_bytes(b, cap).len() as int;
    proof {
        lemma_chunk_layout(n_int, cap);
    }
    let point_cnt = block.len();
    let block_count: usize = (point_cnt - 1) / MAX_BLOCK_VALUES + 1;
    let rem: usize = point_cnt % MAX_BLOCK_VALUES;
    let first_len: usize = if rem == 0 {
        MAX_BLOCK_VALUES
    } else {
        rem
    };
    let base_len = writer.len();
    let mut i: usize = 0;
    let mut last_index: usize = 0;
    proof {
        assert(base + Seq::<u8>::empty() =~= base);
        assert(index_buf.pending() =~= Seq::new(0, |j: int| spec_chunk_meta(b, cap, pos0, j)));
    }
    while i < block_count
        invariant
            spec_block_writable(b, cap),
            b == *block,
            cap == MAX_BLOCK_VALUES as int,
            n_int == b.spec_len(),
            point_cnt == n_int,
            count == spec_block_count(n_int, cap),
            block_count == count,
            first_len == spec_first_chunk_len(n_int, cap),
            total == spec_field_bytes(b, cap).len(),
            0 <= i <= block_count,
            last_index == spec_chunk_start(n_int, cap, i as int),
            writer.bytes() == base + spec_field_bytes_upto(b, cap, i as int),
            base == old(writer).bytes(),
            base_len == base.len(),
            pos0 == base.len(),
            writer.spec_fail_at() == f0,
            f0 == old(writer).spec_fail_at(),
            writer.is_synced() == sync0,
            sync0 == old(writer).is_synced(),
            writer.wf(),
            index_buf.wf(),
            index_buf.entries() == entries0,
            entries0 == old(index_buf).entries(),
            index_buf.pending() == Seq::new(i as nat, |j: int| spec_chunk_meta(b, cap, pos0, j)),
            index_buf.spec_index_offset() == off0,
            off0 == old(index_buf).spec_index_offset(),
            index_buf.filter_bytes() == filter0,
            filter0 == old(index_buf).filter_bytes(),
        decreases block_count - i,
    {
        let ghost k = i as int;
        proof {
            assert(spec_chunk_start(n_int, cap, k) < spec_chunk_end(n_int, cap, k) <= n_int);
            assert(spec_chunk_end(n_int, cap, k) == first_len + k * MAX_BLOCK_VALUES);
            lemma_field_bytes_upto_mono(b, cap, k + 1, count);
        }
        let start = last_index;
        let end: usize = first_len + i * MAX_BLOCK_VALUES;
        let min_ts = block.ts_at(start);
        let max_ts = block.ts_at(end - 1);
        let offset: u64 = writer.pos();
        let chunk_base = writer.len();
        let ghost upto_k = spec_field_bytes_upto(b, cap, k);
        let ghost chunk_k = spec_chunk_bytes_of(b, cap, k);
        let (ts_buf, data_buf) = match block.encode(start, end) {
            Ok(bufs) => bufs,
            Err(e) => {
                return Err(e);
            },
        };
        proof {
            assert(chunk_k =~= spec_u32_to_be_bytes(crc32_of(ts_buf@)) + ts_buf@
                + spec_u32_to_be_bytes(crc32_of(data_buf@)) + data_buf@);
            assert(total >= upto_k.len() + chunk_k.len()) by {
                assert(spec_field_bytes_upto(b, cap, k + 1) == upto_k + chunk_k);
            }
        }
        let mut crc_ts: Vec<u8> = Vec::new();
        put_u32_be(&mut crc_ts, crc32(&ts_buf));
        match writer.write(crc_ts.as_slice()) {
            Ok(_) => {},
            Err(e) => {
                proof {
                    lemma_prefix_of_append(base, spec_field_bytes_upto(b, cap, k));
                }
                return Err(e);
            },
        }
        match writer.write(ts_buf.as_slice()) {
            Ok(_) => {},
            Err(e) => {
                proof {
                    lemma_prefix_of_append(base, spec_field_bytes_upto(b, cap, k) + crc_ts@);
                    assert(writer.bytes() =~= base + (spec_field_bytes_upto(b, cap, k) + crc_ts@));
                }
                return Err(e);
            },
        }
        let val_off: u64 = writer.pos();
        let mut crc_val: Vec<u8> = Vec::new();
        put_u32_be(&mut crc_val, crc32(&data_buf));
        match writer.write(crc_val.as_slice()) {
            Ok(_) => {},
            Err(e) => {
                proof {
                    lemma_prefix_of_append(
                        base,
                        spec_field_bytes_upto(b, cap, k) + crc_ts@ + ts_buf@,
                    );
                    assert(writer.bytes() =~= base + (spec_field_bytes_upto(b, cap, k) + crc_ts@
                        + ts_buf@));
                }
                return Err(e);
            },
        }
        match writer.write(data_buf.as_slice()) {
            Ok(_) => {},
            Err(e) => {
                proof {
                    lemma_prefix_of_append(
                        base,
                        spec_field_bytes_upto(b, cap, k) + crc_ts@ + ts_buf@ + crc_val@,
                    );
                    assert(writer.bytes() =~= base + (spec_field_bytes_upto(b, cap, k) + crc_ts@
                        + ts_buf@ + crc_val@));
                }
                return Err(e);
            },
        }
        let chunk_end_len = writer.len();
        let blk_size = chunk_end_len - chunk_base;
        proof {
            assert(writer.bytes() =~= base + spec_field_bytes_upto(b, cap, k + 1));
            assert(min_ts <= max_ts) by {
                assert(b.ts_seq()[start as int] <= b.ts_seq()[end - 1]);
            }
        }
        index_buf.insert_block_meta(min_ts, max_ts, offset, blk_size as u64, val_off);
        proof {
            let m = BlockMeta {
                min_ts,
                max_ts,
                offset,
                size: blk_size as u64,
                val_off,
            };
            assert(m == spec_chunk_meta(b, cap, pos0, k));
            assert(index_buf.pending() =~= Seq::new(
                (i + 1) as nat,
                |j: int| spec_chunk_meta(b, cap, pos0, j),
            ));
        }
        last_index = end;
        i = i + 1;
    }
    proof {
        assert(index_buf.pending() =~= spec_chunk_metas(b, cap, pos0));
    }
    index_buf.insert_index_meta(field_id, block.field_type(), block_count as u16);
    let end_len = writer.len();
    proof {
        lemma_prefix_of_append(base, spec_field_bytes(b, cap));
        assert(writer.bytes() =~= base + spec_field_bytes(b, cap));
    }
    Ok(end_len - base_len)
}

/// Appending bytes to a buffer keeps the buffer as a prefix.
proof fn lemma_prefix_of_append(base: Seq<u8>, rest: Seq<u8>)
    ensures
        base.is_prefix_of(base + rest),
{
    assert((base + rest).subrange(0, base.len() as int) =~= base);
}


/// The strictly sequential phases of one file write.  A failure in any phase
/// is terminal: the writer moves to `Failed` and the file must be discarded.
#[derive(Clone, Copy, PartialEq, Eq, Structural, Debug)]
pub enum WritePhase {
    Header,
    Blocks,
    Index,
    Footer,
    Flush,
    Done,
    Failed,
}

/// Everything a run of fields contributes to the blocks region, in order.
pub open spec fn spec_blocks_bytes(fields: Seq<(u64, DataBlock)>, cap: int) -> Seq<u8>
    decreases fields.len(),
{
    if fields.len() == 0 {
        Seq::empty()
    } else {
        spec_field_bytes(fields.first().1, cap) + spec_blocks_bytes(fields.drop_first(), cap)
    }
}

/// The index entry of one field whose chunks start at file position `pos`.
pub open spec fn spec_field_entry(fid: u64, b: DataBlock, cap: int, pos: int) -> IndexEntry {
    IndexEntry {
        field_id: fid,
        block_type: b.vtype(),
        block_count: spec_block_count(b.spec_len() as int, cap) as u16,
        metas: spec_chunk_metas(b, cap, pos),
    }
}

/// The index entries of a run of fields whose blocks region starts at `pos`.
pub open spec fn spec_entries_of(fields: Seq<(u64, DataBlock)>, cap: int, pos: int) -> Seq<
    IndexEntry,
>
    decreases fields.len(),
{
    if fields.len() == 0 {
        Seq::empty()
    } else {
        seq![spec_field_entry(fields.first().0, fields.first().1, cap, pos)] + spec_entries_of(
            fields.drop_first(),
            cap,
            pos + spec_field_bytes(fields.first().1, cap).len(),
        )
    }
}

/// The membership filter's bytes after inserting every field identifier of a
/// run, in order.
pub open spec fn spec_filter_fold(bits: Seq<u8>, fields: Seq<(u64, DataBlock)>) -> Seq<u8>
    decreases fields.len(),
{
    if fields.len() == 0 {
        bits
    } else {
        spec_filter_fold(spec_filter_insert(bits, fields.first().0), fields.drop_first())
    }
}

/// Every block of the run is one the writer accepts.
pub open spec fn spec_fields_writable(fields: Seq<(u64, DataBlock)>, cap: int) -> bool {
    forall|i: int| 0 <= i < fields.len() ==> spec_block_writable(#[trigger] fields[i].1, cap)
}

/// The file tail from the blocks region on — blocks, index, footer — when
/// the blocks region starts at absolute position `pos` and the membership
/// filter currently holds `filter`.
pub open spec fn spec_tail_bytes(
    fields: Seq<(u64, DataBlock)>,
    cap: int,
    pos: int,
    filter: Seq<u8>,
) -> Seq<u8> {
    let blocks = spec_blocks_bytes(fields, cap);
    blocks + spec_index_bytes(spec_entries_of(fields, cap, pos)) + spec_footer_bytes(
        spec_filter_fold(filter, fields),
        (pos + blocks.len()) as u64,
    )
}

/// The complete file the buffered writer produces for a run of fields when
/// the file starts at absolute position `pos` with filter state `filter`.
pub open spec fn spec_tsm_file_bytes(
    fields: Seq<(u64, DataBlock)>,
    cap: int,
    pos: int,
    filter: Seq<u8>,
) -> Seq<u8> {
    spec_header_bytes() + spec_tail_bytes(fields, cap, pos + 5, filter)
}

/// Appending one field extends the blocks region by that field's bytes.
pub proof fn lemma_blocks_bytes_snoc(fields: Seq<(u64, DataBlock)>, cap: int, fid: u64, b: DataBlock)
    ensures
        spec_blocks_bytes(fields.push((fid, b)), cap) == spec_blocks_bytes(fields, cap)
            + spec_field_bytes(b, cap),
    decreases fields.len(),
{
    if fields.len() == 0 {
        assert(fields.push((fid, b)).drop_first() =~= fields);
        assert(spec_blocks_bytes(fields, cap) =~= Seq::<u8>::empty());
        assert(spec_blocks_bytes(fields.push((fid, b)), cap) =~= spec_blocks_bytes(fields, cap)
            + spec_field_bytes(b, cap));
    } else {
        assert(fields.push((fid, b)).drop_first() =~= fields.drop_first().push((fid, b)));
        lemma_blocks_bytes_snoc(fields.drop_first(), cap, fid, b);
        assert(spec_blocks_bytes(fields.push((fid, b)), cap) =~= spec_blocks_bytes(fields, cap)
            + spec_field_bytes(b, cap));
    }
}

/// Appending one field appends exactly one index entry, positioned after all
/// earlier fields' bytes.
pub proof fn lemma_entries_of_snoc(
    fields: Seq<(u64, DataBlock)>,
    cap: int,
    pos: int,
    fid: u64,
    b: DataBlock,
)
    ensures
        spec_entries_of(fields.push((fid, b)), cap, pos) == spec_entries_of(fields, cap, pos).push(
            spec_field_entry(fid, b, cap, pos + spec_blocks_bytes(fields, cap).len()),
        ),
    decreases fields.len(),
{
    if fields.len() == 0 {
        assert(fields.push((fid, b)).drop_first() =~= fields);
        assert(spec_blocks_bytes(fields, cap) =~= Seq::<u8>::empty());
        assert(spec_entries_of(fields, cap, pos) =~= Seq::<IndexEntry>::empty());
        assert(spec_entries_of(fields, cap, pos + spec_field_bytes(b, cap).len() as int)
            =~= Seq::<IndexEntry>::empty());
        assert(spec_entries_of(fields.push((fid, b)), cap, pos) =~= spec_entries_of(
            fields,
            cap,
            pos,
        ).push(spec_field_entry(fid, b, cap, pos)));
    } else {
        assert(fields.push((fid, b)).drop_first() =~= fields.drop_first().push((fid, b)));
        lemma_entries_of_snoc(
            fields.drop_first(),
            cap,
            pos + spec_field_bytes(fields.first().1, cap).len(),
            fid,
            b,
        );
        assert(spec_entries_of(fields.push((fid, b)), cap, pos) =~= spec_entries_of(
            fields,
            cap,
            pos,
        ).push(
            spec_field_entry(fid, b, cap, pos + spec_blocks_bytes(fields, cap).len()),
        ));
    }
}

/// Appending one field folds one more identifier into the filter.
pub proof fn lemma_filter_fold_snoc(
    bits: Seq<u8>,
    fields: Seq<(u64, DataBlock)>,
    fid: u64,
    b: DataBlock,
)
    ensures
        spec_filter_fold(bits, fields.push((fid, b))) == spec_filter_insert(
            spec_filter_fold(bits, fields),
            fid,
        ),
    decreases fields.len(),
{
    if fields.len() == 0 {
        assert(fields.push((fid, b)).drop_first() =~= fields);
        assert(spec_filter_fold(spec_filter_insert(bits, fid), fields) == spec_filter_insert(
            bits,
            fid,
        ));
        assert(spec_filter_fold(bits, fields) == bits);
    } else {
        assert(fields.push((fid, b)).drop_first() =~= fields.drop_first().push((fid, b)));
        lemma_filter_fold_snoc(spec_filter_insert(bits, fields.first().0), fields.drop_first(), fid, b);
    }
}

/// Splits the blocks region at field `i`.
pub proof fn lemma_blocks_bytes_split(fields: Seq<(u64, DataBlock)>, cap: int, i: int)
    requires
        0 <= i <= fields.len(),
    ensures
        spec_blocks_bytes(fields, cap) == spec_blocks_bytes(fields.take(i), cap)
            + spec_blocks_bytes(fields.skip(i), cap),
    decreases i,
{
    if i == 0 {
        assert(fields.take(0) =~= Seq::<(u64, DataBlock)>::empty());
        assert(fields.skip(0) =~= fields);
        assert(spec_blocks_bytes(fields, cap) =~= spec_blocks_bytes(fields.take(0), cap)
            + spec_blocks_bytes(fields.skip(0), cap));
    } else {
        lemma_blocks_bytes_split(fields.drop_first(), cap, i - 1);
        assert(fields.take(i).drop_first() =~= fields.drop_first().take(i - 1));
        assert(fields.take(i).first() == fields.first());
        assert(fields.skip(i) =~= fields.drop_first().skip(i - 1));
        assert(spec_blocks_bytes(fields, cap) =~= spec_blocks_bytes(fields.take(i), cap)
            + spec_blocks_bytes(fields.skip(i), cap));
    }
}

/// Sequence prefixes compose: a prefix of a prefix is a prefix.
pub proof fn lemma_prefix_trans(a: Seq<u8>, b: Seq<u8>, c: Seq<u8>)
    requires
        a.is_prefix_of(b),
        b.is_prefix_of(c),
    ensures
        a.is_prefix_of(c),
{
    assert(a =~= c.subrange(0, a.len() as int));
}

/// Taking `a` then `b` more elements is taking `a + b` elements.
proof fn lemma_take_skip_chain(s: Seq<u8>, a: int, b: int)
    requires
        0 <= a,
        0 <= b,
        a + b <= s.len(),
    ensures
        s.take(a) + s.skip(a).take(b) == s.take(a + b),
{
    assert(s.take(a) + s.skip(a).take(b) =~= s.take(a + b));
}

/// The polymorphic four-phase capability set every format writer offers:
/// emit header, emit blocks, emit index, emit footer, flush — and the shared
/// orchestration that runs them strictly in sequence.
///
/// `pending_bytes` is the writer's model of everything it will still emit on
/// its success path; each phase peels its own bytes off the front, so the
/// orchestrator's total is exact whatever the variant buffers.
pub trait TsmWriter: Sized {
    /// The writer's invariant for its current phase.
    spec fn wf(&self) -> bool;

    /// The current phase.
    spec fn phase(&self) -> WritePhase;

    /// The bytes in the writer's sink.
    spec fn sink(&self) -> Seq<u8>;

    /// Whether the sink has been durably synced.
    spec fn synced(&self) -> bool;

    /// The bytes the writer will still emit on its success path.
    spec fn pending_bytes(&self) -> Seq<u8>;

    /// Whether the writer's sink will accept `n` more bytes from its current
    /// state; a sink that accepts everything still pending cannot make any
    /// phase fail.
    spec fn sink_accepts(&self, n: int) -> bool;

    /// The number of bytes in the sink so far.
    fn sink_len(&self) -> (n: usize)
        ensures
            n == self.sink().len(),
    ;

    /// Emits the file header.
    fn write_header(&mut self) -> (r: Result<usize, TsmError>)
        requires
            old(self).wf(),
            old(self).phase() == WritePhase::Header,
        ensures
            final(self).wf(),
            final(self).synced() == old(self).synced(),
            old(self).sink().is_prefix_of(final(self).sink()),
            r matches Ok(n) ==> final(self).phase() == WritePhase::Blocks && n <= old(
                self,
            ).pending_bytes().len() && final(self).sink() == old(self).sink() + old(
                self,
            ).pending_bytes().take(n as int) && final(self).pending_bytes() == old(
                self,
            ).pending_bytes().skip(n as int),
            r is Err ==> final(self).phase() == WritePhase::Failed,
            old(self).sink_accepts(old(self).pending_bytes().len() as int) ==> r is Ok
                && final(self).sink_accepts(final(self).pending_bytes().len() as int),
    ;

    /// Emits the blocks region.
    fn write_blocks(&mut self) -> (r: Result<usize, TsmError>)
        requires
            old(self).wf(),
            old(self).phase() == WritePhase::Blocks,
        ensures
            final(self).wf(),
            final(self).synced() == old(self).synced(),
            old(self).sink().is_prefix_of(final(self).sink()),
            r matches Ok(n) ==> final(self).phase() == WritePhase::Index && n <= old(
                self,
            ).pending_bytes().len() && final(self).sink() == old(self).sink() + old(
                self,
            ).pending_bytes().take(n as int) && final(self).pending_bytes() == old(
                self,
            ).pending_bytes().skip(n as int),
            r is Err ==> final(self).phase() == WritePhase::Failed,
            old(self).sink_accepts(old(self).pending_bytes().len() as int) ==> r is Ok
                && final(self).sink_accepts(final(self).pending_bytes().len() as int),
    ;

    /// Emits the index region, recording its absolute start offset for the
    /// footer.
    fn write_index(&mut self) -> (r: Result<usize, TsmError>)
        requires
            old(self).wf(),
            old(self).phase() == WritePhase::Index,
        ensures
            final(self).wf(),
            final(self).synced() == old(self).synced(),
            old(self).sink().is_prefix_of(final(self).sink()),
            r matches Ok(n) ==> final(self).phase() == WritePhase::Footer && n <= old(
                self,
            ).pending_bytes().len() && final(self).sink() == old(self).sink() + old(
                self,
            ).pending_bytes().take(n as int) && final(self).pending_bytes() == old(
                self,
            ).pending_bytes().skip(n as int),
            r is Err ==> final(self).phase() == WritePhase::Failed,
            old(self).sink_accepts(old(self).pending_bytes().len() as int) ==> r is Ok
                && final(self).sink_accepts(final(self).pending_bytes().len() as int),
    ;

    /// Emits the footer.
    fn write_footer(&mut self) -> (r: Result<usize, TsmError>)
        requires
            old(self).wf(),
            old(self).phase() == WritePhase::Footer,
        ensures
            final(self).wf(),
            final(self).synced() == old(self).synced(),
            old(self).sink().is_prefix_of(final(self).sink()),
            r matches Ok(n) ==> final(self).phase() == WritePhase::Flush && n <= old(
                self,
            ).pending_bytes().len() && final(self).sink() == old(self).sink() + old(
                self,
            ).pending_bytes().take(n as int) && final(self).pending_bytes() == old(
                self,
            ).pending_bytes().skip(n as int),
            r is Err ==> final(self).phase() == WritePhase::Failed,
            old(self).sink_accepts(old(self).pending_bytes().len() as int) ==> r is Ok
                && final(self).sink_accepts(final(self).pending_bytes().len() as int),
    ;

    /// Forces all written bytes to stable storage.  Only after a successful
    /// flush is the file a valid artifact.
    fn flush(&mut self) -> (r: Result<(), TsmError>)
        requires
            old(self).wf(),
            old(self).phase() == WritePhase::Flush,
        ensures
            final(self).wf(),
            final(self).sink() == old(self).sink(),
            r is Ok ==> final(self).phase() == WritePhase::Done && final(self).synced() && old(
                self,
            ).pending_bytes().len() == 0,
            r is Err ==> final(self).phase() == WritePhase::Failed && final(self).synced() == old(
                self,
            ).synced(),
            old(self).sink_accepts(old(self).pending_bytes().len() as int) ==> r is Ok,
    ;

    /// Runs the whole pipeline — header, blocks, index, footer, flush — in
    /// order.  Each phase must fully succeed before the next begins; the
    /// first failure is returned and every later phase is skipped.  On
    /// success the sink has gained exactly the writer's pending bytes, the
    /// write is durably synced, and the returned total is the number of
    /// bytes emitted over all phases.
    fn write(&mut self) -> (r: Result<usize, TsmError>)
        requires
            old(self).wf(),
            old(self).phase() == WritePhase::Header,
        ensures
            final(self).wf(),
            old(self).sink().is_prefix_of(final(self).sink()),
            r matches Ok(sz) ==> final(self).phase() == WritePhase::Done && final(self).synced()
                && final(self).sink() == old(self).sink() + old(self).pending_bytes() && sz == old(
                self,
            ).pending_bytes().len(),
            r is Err ==> final(self).phase() == WritePhase::Failed && final(self).synced() == old(
                self,
            ).synced(),
            old(self).sink_accepts(old(self).pending_bytes().len() as int) ==> r is Ok,
    {
        let ghost s0 = self.sink();
        let ghost p0 = self.pending_bytes();
        let start = self.sink_len();
        let n1 = match self.write_header() {
            Ok(n) => n,
            Err(e) => {
                return Err(e);
            },
        };
        let ghost s1 = self.sink();
        let n2 = match self.write_blocks() {
            Ok(n) => n,
            Err(e) => {
                proof {
                    lemma_prefix_trans(s0, s1, self.sink());
                }
                return Err(e);
            },
        };
        proof {
            lemma_take_skip_chain(p0, n1 as int, n2 as int);
            assert(self.sink() =~= s0 + p0.take(n1 + n2));
        }
        let ghost s2 = self.sink();
        let n3 = match self.write_index() {
            Ok(n) => n,
            Err(e) => {
                proof {
                    lemma_prefix_trans(s0, s1, s2);
                    lemma_prefix_trans(s0, s2, self.sink());
                }
                return Err(e);
            },
        };
        proof {
            lemma_take_skip_chain(p0, n1 + n2, n3 as int);
            assert(self.sink() =~= s0 + p0.take(n1 + n2 + n3));
        }
        let ghost s3 = self.sink();
        let n4 = match self.write_footer() {
            Ok(n) => n,
            Err(e) => {
                proof {
                    lemma_prefix_trans(s0, s1, s2);
                    lemma_prefix_trans(s0, s2, s3);
                    lemma_prefix_trans(s0, s3, self.sink());
                }
                return Err(e);
            },
        };
        proof {
            lemma_take_skip_chain(p0, n1 + n2 + n3, n4 as int);
            assert(self.sink() =~= s0 + p0.take(n1 + n2 + n3 + n4));
        }
        let ghost s4 = self.sink();
        match self.flush() {
            Ok(()) => {},
            Err(e) => {
                proof {
                    lemma_prefix_trans(s0, s1, s2);
                    lemma_prefix_trans(s0, s2, s3);
                    lemma_prefix_trans(s0, s3, s4);
                    lemma_prefix_trans(s0, s4, self.sink());
                }
                return Err(e);
            },
        }
        let end = self.sink_len();
        proof {
            assert(n1 + n2 + n3 + n4 == p0.len());
            assert(p0.take(p0.len() as int) =~= p0);
            assert(self.sink() == s0 + p0);
            assert(s0.is_prefix_of(self.sink())) by {
                assert(self.sink().subrange(0, s0.len() as int) =~= s0);
            }
        }
        Ok(end - start)
    }
}


/// The index of the first pair with the smallest field identifier.
pub open spec fn spec_min_id_idx(s: Seq<(u64, DataBlock)>) -> int
    decreases s.len(),
{
    if s.len() <= 1 {
        0
    } else {
        let m = spec_min_id_idx(s.drop_first());
        if s[0].0 <= s[1 + m].0 {
            0
        } else {
            1 + m
        }
    }
}

/// The first-minimum index of a non-empty run is in range.
pub proof fn lemma_min_id_idx_range(s: Seq<(u64, DataBlock)>)
    requires
        s.len() >= 1,
    ensures
        0 <= spec_min_id_idx(s) < s.len(),
    decreases s.len(),
{
    if s.len() > 1 {
        lemma_min_id_idx_range(s.drop_first());
    }
}

/// The run sorted by ascending field identifier: repeatedly move the first
/// pair with the smallest identifier to the front.
pub open spec fn spec_sort_by_id(s: Seq<(u64, DataBlock)>) -> Seq<(u64, DataBlock)>
    decreases s.len(),
{
    if s.len() == 0 {
        Seq::empty()
    } else {
        let m0 = spec_min_id_idx(s);
        let m = if 0 <= m0 < s.len() {
            m0
        } else {
            0
        };
        seq![s[m]] + spec_sort_by_id(s.remove(m))
    }
}

/// Sorting a run of writable fields yields writable fields.
pub proof fn lemma_sort_by_id_writable(s: Seq<(u64, DataBlock)>, cap: int)
    requires
        spec_fields_writable(s, cap),
    ensures
        spec_fields_writable(spec_sort_by_id(s), cap),
    decreases s.len(),
{
    if s.len() > 0 {
        lemma_min_id_idx_range(s);
        let m = spec_min_id_idx(s);
        assert forall|i: int| 0 <= i < s.remove(m).len() implies spec_block_writable(
            #[trigger] s.remove(m)[i].1,
            cap,
        ) by {
            if i < m {
                assert(s.remove(m)[i] == s[i]);
            } else {
                assert(s.remove(m)[i] == s[i + 1]);
            }
        }
        lemma_sort_by_id_writable(s.remove(m), cap);
        let r = spec_sort_by_id(s);
        assert forall|i: int| 0 <= i < r.len() implies spec_block_writable(
            #[trigger] r[i].1,
            cap,
        ) by {
            if i == 0 {
                assert(r[0] == s[m]);
            } else {
                assert(r[i] == spec_sort_by_id(s.remove(m))[i - 1]);
            }
        }
    }
}

/// Sorts a run of fields by ascending identifier, smallest first; among
/// equal identifiers the earlier pair comes first.
fn sort_fields(blocks: Vec<(u64, DataBlock)>) -> (r: Vec<(u64, DataBlock)>)
    ensures
        r@ == spec_sort_by_id(blocks@),
{
    let ghost orig = blocks@;
    let mut rest = blocks;
    let mut out: Vec<(u64, DataBlock)> = Vec::new();
    proof {
        assert(out@ + spec_sort_by_id(rest@) =~= spec_sort_by_id(orig));
    }
    while rest.len() > 0
        invariant
            spec_sort_by_id(orig) == out@ + spec_sort_by_id(rest@),
        decreases rest@.len(),
    {
        let mut m: usize = rest.len() - 1;
        let mut i: usize = rest.len() - 1;
        proof {
            assert(rest@.skip(i as int).len() == 1);
            assert(m == i + spec_min_id_idx(rest@.skip(i as int)));
        }
        while i > 0
            invariant
                0 < rest@.len(),
                0 <= i < rest@.len(),
                i <= m < rest@.len(),
                m == i + spec_min_id_idx(rest@.skip(i as int)),
            decreases i,
        {
            i = i - 1;
            proof {
                let sk = rest@.skip(i as int);
                assert(sk.drop_first() =~= rest@.skip(i + 1));
                lemma_min_id_idx_range(rest@.skip(i + 1));
                assert(sk[0] == rest@[i as int]);
                assert(sk[1 + spec_min_id_idx(rest@.skip(i + 1))] == rest@[i + 1
                    + spec_min_id_idx(rest@.skip(i + 1))]);
            }
            if rest[i].0 <= rest[m].0 {
                m = i;
            }
        }
        proof {
            assert(rest@.skip(0) =~= rest@);
            assert(m == spec_min_id_idx(rest@));
            lemma_min_id_idx_range(rest@);
        }
        let ghost pre = rest@;
        let pair = rest.remove(m);
        out.push(pair);
        proof {
            assert(spec_sort_by_id(pre) =~= seq![pre[m as int]] + spec_sort_by_id(
                pre.remove(m as int),
            ));
            assert(out@ + spec_sort_by_id(rest@) =~= spec_sort_by_id(orig));
        }
    }
    proof {
        assert(spec_sort_by_id(rest@) =~= Seq::<(u64, DataBlock)>::empty());
        assert(out@ + spec_sort_by_id(rest@) =~= out@);
    }
    out
}

/// One step of the blocks phase: extending the emitted prefix of fields by
/// field `k` extends the blocks region, the index entries and the filter by
/// exactly that field's contribution.
proof fn lemma_blocks_step(
    fields: Seq<(u64, DataBlock)>,
    cap: int,
    pos: int,
    filter0: Seq<u8>,
    k: int,
)
    requires
        0 <= k < fields.len(),
    ensures
        spec_blocks_bytes(fields.take(k + 1), cap) == spec_blocks_bytes(fields.take(k), cap)
            + spec_field_bytes(fields[k].1, cap),
        spec_entries_of(fields.take(k + 1), cap, pos) == spec_entries_of(
            fields.take(k),
            cap,
            pos,
        ).push(
            spec_field_entry(
                fields[k].0,
                fields[k].1,
                cap,
                pos + spec_blocks_bytes(fields.take(k), cap).len(),
            ),
        ),
        spec_filter_fold(filter0, fields.take(k + 1)) == spec_filter_insert(
            spec_filter_fold(filter0, fields.take(k)),
            fields[k].0,
        ),
        spec_blocks_bytes(fields, cap).len() >= spec_blocks_bytes(fields.take(k), cap).len()
            + spec_field_bytes(fields[k].1, cap).len(),
{
    assert(fields.take(k + 1) =~= fields.take(k).push(fields[k]));
    assert(fields[k] == (fields[k].0, fields[k].1));
    lemma_blocks_bytes_snoc(fields.take(k), cap, fields[k].0, fields[k].1);
    lemma_entries_of_snoc(fields.take(k), cap, pos, fields[k].0, fields[k].1);
    lemma_filter_fold_snoc(filter0, fields.take(k), fields[k].0, fields[k].1);
    lemma_blocks_bytes_split(fields, cap, k);
    assert(fields.skip(k).first() == fields[k]);
    assert(fields.skip(k).drop_first() =~= fields.skip(k + 1));
    assert(spec_blocks_bytes(fields.skip(k), cap) == spec_field_bytes(fields[k].1, cap)
        + spec_blocks_bytes(fields.skip(k + 1), cap));
}

/// The membership filter's bytes when a file is created: all zero.
pub open spec fn spec_zero_filter() -> Seq<u8> {
    Seq::new((crate::BLOOM_FILTER_BITS / 8) as nat, |i: int| 0u8)
}

/// The buffered variant: takes the whole working set — one typed block per
/// field — up front, sorts the fields by identifier so that the on-disk
/// layout is deterministic, and emits them in one pass.
pub struct TsmCacheWriter {
    writer: FileCursor,
    cached_blocks: Vec<(u64, DataBlock)>,
    index_buf: IndexBuf,
    state: WritePhase,
}

impl TsmCacheWriter {
    /// The fields still to be emitted, sorted by identifier.
    pub closed spec fn fields(&self) -> Seq<(u64, DataBlock)> {
        self.cached_blocks@
    }

    /// The writer's sink.
    pub closed spec fn spec_cursor(&self) -> FileCursor {
        self.writer
    }

    /// The accumulated index entries.
    pub closed spec fn entries(&self) -> Seq<IndexEntry> {
        self.index_buf.entries()
    }

    /// The membership filter's current bytes.
    pub closed spec fn filter_bytes(&self) -> Seq<u8> {
        self.index_buf.filter_bytes()
    }

    /// The recorded absolute offset of the index region.
    pub closed spec fn spec_index_offset(&self) -> u64 {
        self.index_buf.spec_index_offset()
    }

    /// Creates a buffered writer over a sink.  The fields are sorted by
    /// ascending identifier before anything is emitted, so two writers given
    /// the same mapping produce byte-for-byte identical files.
    pub fn new(writer: FileCursor, blocks: Vec<(u64, DataBlock)>) -> (r: TsmCacheWriter)
        requires
            writer.wf(),
            spec_fields_writable(blocks@, MAX_BLOCK_VALUES as int),
        ensures
            r.wf(),
            r.phase() == WritePhase::Header,
            r.sink() == writer.bytes(),
            r.synced() == writer.is_synced(),
            r.fields() == spec_sort_by_id(blocks@),
            r.spec_cursor() == writer,
            forall|n: int| #[trigger] r.sink_accepts(n) == writer.can_write(n),
            r.pending_bytes() == spec_tsm_file_bytes(
                spec_sort_by_id(blocks@),
                MAX_BLOCK_VALUES as int,
                writer.bytes().len() as int,
                spec_zero_filter(),
            ),
    {
        proof {
            lemma_sort_by_id_writable(blocks@, MAX_BLOCK_VALUES as int);
        }
        let sorted = sort_fields(blocks);
        let r = TsmCacheWriter {
            writer,
            cached_blocks: sorted,
            index_buf: IndexBuf::new(),
            state: WritePhase::Header,
        };
        proof {
            assert(r.pending_bytes() =~= spec_tsm_file_bytes(
                spec_sort_by_id(blocks@),
                MAX_BLOCK_VALUES as int,
                writer.bytes().len() as int,
                spec_zero_filter(),
            ));
        }
        r
    }

    /// Consumes the writer, handing back its sink.
    pub fn into_sink(self) -> (r: FileCursor)
        ensures
            r.bytes() == self.sink(),
            r.is_synced() == self.synced(),
    {
        self.writer
    }
}

impl TsmWriter for TsmCacheWriter {
    closed spec fn wf(&self) -> bool {
        &&& self.writer.wf()
        &&& self.index_buf.wf()
        &&& match self.state {
            WritePhase::Header | WritePhase::Blocks => self.index_buf.entries().len() == 0
                && self.index_buf.pending().len() == 0 && spec_fields_writable(
                self.cached_blocks@,
                MAX_BLOCK_VALUES as int,
            ),
            WritePhase::Index => self.index_buf.pending().len() == 0,
            _ => true,
        }
    }

    closed spec fn phase(&self) -> WritePhase {
        self.state
    }

    closed spec fn sink(&self) -> Seq<u8> {
        self.writer.bytes()
    }

    closed spec fn synced(&self) -> bool {
        self.writer.is_synced()
    }

    closed spec fn pending_bytes(&self) -> Seq<u8> {
        match self.state {
            WritePhase::Header => spec_header_bytes() + spec_tail_bytes(
                self.cached_blocks@,
                MAX_BLOCK_VALUES as int,
                self.writer.bytes().len() as int + 5,
                self.index_buf.filter_bytes(),
            ),
            WritePhase::Blocks => spec_tail_bytes(
                self.cached_blocks@,
                MAX_BLOCK_VALUES as int,
                self.writer.bytes().len() as int,
                self.index_buf.filter_bytes(),
            ),
            WritePhase::Index => spec_index_bytes(self.index_buf.entries()) + spec_footer_bytes(
                self.index_buf.filter_bytes(),
                self.writer.bytes().len() as u64,
            ),
            WritePhase::Footer => spec_footer_bytes(
                self.index_buf.filter_bytes(),
                self.index_buf.spec_index_offset(),
            ),
            _ => Seq::empty(),
        }
    }

    closed spec fn sink_accepts(&self, n: int) -> bool {
        self.writer.can_write(n)
    }

    fn sink_len(&self) -> (n: usize) {
        self.writer.len()
    }

    fn write_header(&mut self) -> (r: Result<usize, TsmError>)
        ensures
            r is Ok <==> old(self).spec_cursor().can_write(HEADER_LEN as int),
            final(self).fields() == old(self).fields(),
            final(self).entries() == old(self).entries(),
            final(self).filter_bytes() == old(self).filter_bytes(),
            final(self).spec_index_offset() == old(self).spec_index_offset(),
    {
        let ghost pend0 = self.pending_bytes();
        proof {
            assert(pend0.len() >= HEADER_LEN);
        }
        match write_header_to(&mut self.writer) {
            Ok(n) => {
                self.state = WritePhase::Blocks;
                proof {
                    assert(pend0.take(HEADER_LEN as int) =~= spec_header_bytes());
                    assert(self.pending_bytes() =~= pend0.skip(HEADER_LEN as int));
                }
                Ok(n)
            },
            Err(e) => {
                self.state = WritePhase::Failed;
                Err(e)
            },
        }
    }

    #[verifier::rlimit(100)]
    #[verifier::spinoff_prover]
    fn write_blocks(&mut self) -> (r: Result<usize, TsmError>)
        ensures
            r is Ok <==> old(self).spec_cursor().can_write(
                spec_blocks_bytes(old(self).fields(), MAX_BLOCK_VALUES as int).len() as int,
            ),
            final(self).fields() == old(self).fields(),
            final(self).spec_index_offset() == old(self).spec_index_offset(),
            r is Ok ==> final(self).entries() == spec_entries_of(
                old(self).fields(),
                MAX_BLOCK_VALUES as int,
                old(self).sink().len() as int,
            ) && final(self).filter_bytes() == spec_filter_fold(
                old(self).filter_bytes(),
                old(self).fields(),
            ),
    {
        let ghost cap = MAX_BLOCK_VALUES as int;
        let ghost fields = self.cached_blocks@;
        let ghost base = self.writer.bytes();
        let ghost f0 = self.writer.spec_fail_at();
        let ghost sync0 = self.writer.is_synced();
        let ghost filter0 = self.index_buf.filter_bytes();
        let ghost off0 = self.index_buf.spec_index_offset();
        let ghost total = spec_blocks_bytes(fields, cap).len() as int;
        let ghost pend_len = self.pending_bytes().len() as int;
        let base_len = self.writer.len();
        let n_fields = self.cached_blocks.len();
        let mut fi: usize = 0;
        proof {
            assert(fields.take(0) =~= Seq::<(u64, DataBlock)>::empty());
            assert(spec_blocks_bytes(fields.take(0), cap) =~= Seq::<u8>::empty());
            assert(base + Seq::<u8>::empty() =~= base);
            assert(spec_entries_of(fields.take(0), cap, base.len() as int)
                =~= Seq::<IndexEntry>::empty());
            assert(spec_filter_fold(filter0, fields.take(0)) == filter0);
        }
        while fi < n_fields
            invariant
                0 <= fi <= n_fields,
                n_fields == fields.len(),
                cap == MAX_BLOCK_VALUES as int,
                fields == self.cached_blocks@,
                fields == old(self).fields(),
                spec_fields_writable(fields, cap),
                total == spec_blocks_bytes(fields, cap).len(),
                self.writer.bytes() == base + spec_blocks_bytes(fields.take(fi as int), cap),
                base == old(self).spec_cursor().bytes(),
                base_len == base.len(),
                self.writer.spec_fail_at() == f0,
                f0 == old(self).spec_cursor().spec_fail_at(),
                self.writer.is_synced() == sync0,
                sync0 == old(self).synced(),
                self.writer.wf(),
                self.index_buf.wf(),
                self.index_buf.pending().len() == 0,
                self.index_buf.entries() == spec_entries_of(
                    fields.take(fi as int),
                    cap,
                    base.len() as int,
                ),
                self.index_buf.filter_bytes() == spec_filter_fold(filter0, fields.take(fi as int)),
                filter0 == old(self).filter_bytes(),
                self.index_buf.spec_index_offset() == off0,
                off0 == old(self).spec_index_offset(),
                self.state == WritePhase::Blocks,
                pend_len == old(self).pending_bytes().len(),
                total <= pend_len,
            decreases n_fields - fi,
        {
            let ghost k = fi as int;
            proof {
                lemma_blocks_step(fields, cap, base.len() as int, filter0, k);
            }
            let ghost pre_w = self.writer;
            let pair = &self.cached_blocks[fi];
            let fid = pair.0;
            match write_one_block(&mut self.writer, &mut self.index_buf, fid, &pair.1) {
                Ok(_) => {},
                Err(e) => {
                    self.state = WritePhase::Failed;
                    proof {
                        lemma_prefix_of_append(base, spec_blocks_bytes(fields.take(k), cap));
                        lemma_prefix_trans(base, base + spec_blocks_bytes(fields.take(k), cap),
                            self.writer.bytes());
                        assert(!pre_w.can_write(
                            spec_field_bytes(fields[k].1, cap).len() as int,
                        ));
                        assert(pre_w.spec_fail_at() == f0);
                        assert(f0 is Some);
                        assert(f0 matches Some(f) ==> base.len() + total > f);
                        assert(!old(self).spec_cursor().can_write(total));
                    }
                    return Err(e);
                },
            }
            proof {
                assert(self.writer.bytes() =~= base + spec_blocks_bytes(fields.take(k + 1), cap));
            }
            fi = fi + 1;
        }
        let ghost fold_all = spec_filter_fold(filter0, fields);
        proof {
            assert(fields.take(fields.len() as int) =~= fields);
        }
        self.state = WritePhase::Index;
        let end_len = self.writer.len();
        proof {
            let pend0 = old(self).pending_bytes();
            assert(pend0 == spec_tail_bytes(fields, cap, base.len() as int, filter0));
            assert(pend0.take(total) =~= spec_blocks_bytes(fields, cap));
            assert(self.pending_bytes() =~= pend0.skip(total));
            lemma_prefix_of_append(base, spec_blocks_bytes(fields, cap));
        }
        Ok(end_len - base_len)
    }

    fn write_index(&mut self) -> (r: Result<usize, TsmError>)
        ensures
            r is Ok <==> old(self).spec_cursor().can_write(
                spec_index_bytes(old(self).entries()).len() as int,
            ),
            final(self).fields() == old(self).fields(),
            final(self).entries() == old(self).entries(),
            final(self).filter_bytes() == old(self).filter_bytes(),
            r matches Ok(n) ==> n == spec_index_bytes(old(self).entries()).len()
                && final(self).spec_index_offset() == old(self).sink().len() as u64
                && final(self).sink() == old(self).sink() + spec_index_bytes(old(self).entries()),
    {
        let ghost pend0 = self.pending_bytes();
        let ghost ib = spec_index_bytes(self.index_buf.entries());
        let pos = self.writer.pos();
        self.index_buf.set_index_offset(pos);
        match IndexBuf::write_to(&self.index_buf, &mut self.writer) {
            Ok(n) => {
                self.state = WritePhase::Footer;
                proof {
                    assert(pend0.take(ib.len() as int) =~= ib);
                    assert(self.pending_bytes() =~= pend0.skip(ib.len() as int));
                }
                Ok(n)
            },
            Err(e) => {
                self.state = WritePhase::Failed;
                Err(e)
            },
        }
    }

    fn write_footer(&mut self) -> (r: Result<usize, TsmError>)
        ensures
            r is Ok <==> old(self).spec_cursor().can_write(
                spec_footer_bytes(
                    old(self).filter_bytes(),
                    old(self).spec_index_offset(),
                ).len() as int,
            ),
            final(self).fields() == old(self).fields(),
            final(self).entries() == old(self).entries(),
            final(self).filter_bytes() == old(self).filter_bytes(),
            final(self).spec_index_offset() == old(self).spec_index_offset(),
            r matches Ok(n) ==> n == spec_footer_bytes(
                old(self).filter_bytes(),
                old(self).spec_index_offset(),
            ).len() && final(self).sink() == old(self).sink() + spec_footer_bytes(
                old(self).filter_bytes(),
                old(self).spec_index_offset(),
            ),
    {
        let ghost pend0 = self.pending_bytes();
        let off = self.index_buf.index_offset();
        let r = write_footer_to(&mut self.writer, self.index_buf.bloom_filter(), off);
        match r {
            Ok(n) => {
                self.state = WritePhase::Flush;
                proof {
                    assert(pend0.take(pend0.len() as int) =~= pend0);
                    assert(pend0.skip(pend0.len() as int) =~= Seq::<u8>::empty());
                    assert(self.pending_bytes() =~= Seq::<u8>::empty());
                }
                Ok(n)
            },
            Err(e) => {
                self.state = WritePhase::Failed;
                Err(e)
            },
        }
    }

    fn flush(&mut self) -> (r: Result<(), TsmError>)
        ensures
            r is Ok,
            final(self).fields() == old(self).fields(),
            final(self).entries() == old(self).entries(),
            final(self).filter_bytes() == old(self).filter_bytes(),
            final(self).spec_index_offset() == old(self).spec_index_offset(),
    {
        match self.writer.sync_all(FileSync::Hard) {
            Ok(()) => {
                self.state = WritePhase::Done;
                Ok(())
            },
            Err(e) => {
                self.state = WritePhase::Failed;
                Err(e)
            },
        }
    }
}


/// The streaming variant: accepts an incrementally produced sequence of
/// (field, block) pairs during the blocks phase, writing each field's chunks
/// to the sink as it arrives and buffering only the index metadata, so the
/// working set never has to be resident in memory at once.  Fed the same
/// fields in the same order, it produces exactly the layout the buffered
/// variant produces.
pub struct DefaultTsmWriter {
    writer: FileCursor,
    index_buf: IndexBuf,
    state: WritePhase,
}

impl DefaultTsmWriter {
    /// The accumulated index entries, one per field fed so far.
    pub closed spec fn entries(&self) -> Seq<IndexEntry> {
        self.index_buf.entries()
    }

    /// The writer's sink.
    pub closed spec fn spec_cursor(&self) -> FileCursor {
        self.writer
    }

    /// The membership filter's current bytes.
    pub closed spec fn filter_bytes(&self) -> Seq<u8> {
        self.index_buf.filter_bytes()
    }

    /// The recorded absolute offset of the index region.
    pub closed spec fn spec_index_offset(&self) -> u64 {
        self.index_buf.spec_index_offset()
    }

    /// Creates a streaming writer over a sink.
    pub fn new(writer: FileCursor) -> (r: DefaultTsmWriter)
        requires
            writer.wf(),
        ensures
            r.wf(),
            r.phase() == WritePhase::Header,
            r.sink() == writer.bytes(),
            r.synced() == writer.is_synced(),
            r.entries() == Seq::<IndexEntry>::empty(),
            r.filter_bytes() == spec_zero_filter(),
            r.spec_cursor() == writer,
            forall|n: int| #[trigger] r.sink_accepts(n) == writer.can_write(n),
    {
        let r = DefaultTsmWriter {
            writer,
            index_buf: IndexBuf::new(),
            state: WritePhase::Header,
        };
        proof {
            assert(r.filter_bytes() =~= spec_zero_filter());
        }
        r
    }

    /// Streams one field through the writer during the blocks phase: its
    /// chunks are encoded, checksummed and appended to the sink at once, and
    /// one index entry is accumulated.  Succeeds, returning the bytes
    /// written, exactly when the sink accepts all the field's bytes; a
    /// failure is terminal.
    pub fn write_series(&mut self, field_id: u64, block: &DataBlock) -> (r: Result<usize, TsmError>)
        requires
            old(self).wf(),
            old(self).phase() == WritePhase::Blocks,
            spec_block_writable(*block, MAX_BLOCK_VALUES as int),
        ensures
            final(self).wf(),
            final(self).synced() == old(self).synced(),
            old(self).sink().is_prefix_of(final(self).sink()),
            r is Ok <==> old(self).spec_cursor().can_write(
                spec_field_bytes(*block, MAX_BLOCK_VALUES as int).len() as int,
            ),
            r matches Ok(n) ==> final(self).phase() == WritePhase::Blocks && final(self).sink()
                == old(self).sink() + spec_field_bytes(*block, MAX_BLOCK_VALUES as int) && n
                == spec_field_bytes(*block, MAX_BLOCK_VALUES as int).len() && final(self).entries()
                == old(self).entries().push(
                spec_field_entry(
                    field_id,
                    *block,
                    MAX_BLOCK_VALUES as int,
                    old(self).sink().len() as int,
                ),
            ) && final(self).filter_bytes() == spec_filter_insert(
                old(self).filter_bytes(),
                field_id,
            ),
            r is Err ==> final(self).phase() == WritePhase::Failed,
    {
        match write_one_block(&mut self.writer, &mut self.index_buf, field_id, block) {
            Ok(n) => Ok(n),
            Err(e) => {
                self.state = WritePhase::Failed;
                Err(e)
            },
        }
    }

    /// Consumes the writer, handing back its sink.
    pub fn into_sink(self) -> (r: FileCursor)
        ensures
            r.bytes() == self.sink(),
            r.is_synced() == self.synced(),
    {
        self.writer
    }
}

impl TsmWriter for DefaultTsmWriter {
    closed spec fn wf(&self) -> bool {
        &&& self.writer.wf()
        &&& self.index_buf.wf()
        &&& match self.state {
            WritePhase::Header => self.index_buf.entries().len() == 0
                && self.index_buf.pending().len() == 0,
            WritePhase::Blocks | WritePhase::Index => self.index_buf.pending().len() == 0,
            _ => true,
        }
    }

    closed spec fn phase(&self) -> WritePhase {
        self.state
    }

    closed spec fn sink(&self) -> Seq<u8> {
        self.writer.bytes()
    }

    closed spec fn synced(&self) -> bool {
        self.writer.is_synced()
    }

    closed spec fn pending_bytes(&self) -> Seq<u8> {
        match self.state {
            WritePhase::Header => spec_header_bytes() + spec_footer_bytes(
                self.index_buf.filter_bytes(),
                (self.writer.bytes().len() + 5) as u64,
            ),
            WritePhase::Blocks | WritePhase::Index => spec_index_bytes(self.index_buf.entries())
                + spec_footer_bytes(
                self.index_buf.filter_bytes(),
                self.writer.bytes().len() as u64,
            ),
            WritePhase::Footer => spec_footer_bytes(
                self.index_buf.filter_bytes(),
                self.index_buf.spec_index_offset(),
            ),
            _ => Seq::empty(),
        }
    }

    closed spec fn sink_accepts(&self, n: int) -> bool {
        self.writer.can_write(n)
    }

    fn sink_len(&self) -> (n: usize) {
        self.writer.len()
    }

    fn write_header(&mut self) -> (r: Result<usize, TsmError>)
        ensures
            r is Ok <==> old(self).spec_cursor().can_write(HEADER_LEN as int),
            final(self).entries() == old(self).entries(),
            final(self).filter_bytes() == old(self).filter_bytes(),
            final(self).spec_index_offset() == old(self).spec_index_offset(),
    {
        let ghost pend0 = self.pending_bytes();
        proof {
            assert(pend0.len() >= HEADER_LEN);
        }
        match write_header_to(&mut self.writer) {
            Ok(n) => {
                self.state = WritePhase::Blocks;
                proof {
                    assert(spec_index_bytes(self.index_buf.entries())
                        =~= Seq::<u8>::empty());
                    assert(pend0.take(HEADER_LEN as int) =~= spec_header_bytes());
                    assert(self.pending_bytes() =~= pend0.skip(HEADER_LEN as int));
                }
                Ok(n)
            },
            Err(e) => {
                self.state = WritePhase::Failed;
                Err(e)
            },
        }
    }

    fn write_blocks(&mut self) -> (r: Result<usize, TsmError>)
        ensures
            r is Ok,
            final(self).entries() == old(self).entries(),
            final(self).filter_bytes() == old(self).filter_bytes(),
            final(self).spec_index_offset() == old(self).spec_index_offset(),
            final(self).sink() == old(self).sink(),
    {
        self.state = WritePhase::Index;
        proof {
            assert(self.pending_bytes() =~= old(self).pending_bytes().skip(0));
            assert(self.sink() =~= old(self).sink() + old(self).pending_bytes().take(0));
        }
        Ok(0)
    }

    fn write_index(&mut self) -> (r: Result<usize, TsmError>)
        ensures
            r is Ok <==> old(self).spec_cursor().can_write(
                spec_index_bytes(old(self).entries()).len() as int,
            ),
            final(self).entries() == old(self).entries(),
            final(self).filter_bytes() == old(self).filter_bytes(),
            r matches Ok(n) ==> n == spec_index_bytes(old(self).entries()).len()
                && final(self).spec_index_offset() == old(self).sink().len() as u64
                && final(self).sink() == old(self).sink() + spec_index_bytes(old(self).entries()),
    {
        let ghost pend0 = self.pending_bytes();
        let ghost ib = spec_index_bytes(self.index_buf.entries());
        let pos = self.writer.pos();
        self.index_buf.set_index_offset(pos);
        match IndexBuf::write_to(&self.index_buf, &mut self.writer) {
            Ok(n) => {
                self.state = WritePhase::Footer;
                proof {
                    assert(pend0.take(ib.len() as int) =~= ib);
                    assert(self.pending_bytes() =~= pend0.skip(ib.len() as int));
                }
                Ok(n)
            },
            Err(e) => {
                self.state = WritePhase::Failed;
                Err(e)
            },
        }
    }

    fn write_footer(&mut self) -> (r: Result<usize, TsmError>)
        ensures
            r is Ok <==> old(self).spec_cursor().can_write(
                spec_footer_bytes(
                    old(self).filter_bytes(),
                    old(self).spec_index_offset(),
                ).len() as int,
            ),
            final(self).entries() == old(self).entries(),
            final(self).filter_bytes() == old(self).filter_bytes(),
            final(self).spec_index_offset() == old(self).spec_index_offset(),
            r matches Ok(n) ==> n == spec_footer_bytes(
                old(self).filter_bytes(),
                old(self).spec_index_offset(),
            ).len() && final(self).sink() == old(self).sink() + spec_footer_bytes(
                old(self).filter_bytes(),
                old(self).spec_index_offset(),
            ),
    {
        let ghost pend0 = self.pending_bytes();
        let off = self.index_buf.index_offset();
        let r = write_footer_to(&mut self.writer, self.index_buf.bloom_filter(), off);
        match r {
            Ok(n) => {
                self.state = WritePhase::Flush;
                proof {
                    assert(pend0.take(pend0.len() as int) =~= pend0);
                    assert(pend0.skip(pend0.len() as int) =~= Seq::<u8>::empty());
                    assert(self.pending_bytes() =~= Seq::<u8>::empty());
                }
                Ok(n)
            },
            Err(e) => {
                self.state = WritePhase::Failed;
                Err(e)
            },
        }
    }

    fn flush(&mut self) -> (r: Result<(), TsmError>)
        ensures
            r is Ok,
            final(self).entries() == old(self).entries(),
            final(self).filter_bytes() == old(self).filter_bytes(),
            final(self).spec_index_offset() == old(self).spec_index_offset(),
    {
        match self.writer.sync_all(FileSync::Hard) {
            Ok(()) => {
                self.state = WritePhase::Done;
                Ok(())
            },
            Err(e) => {
                self.state = WritePhase::Failed;
                Err(e)
            },
        }
    }
}


/// The block-meta layout law for one field starting at position `pos0`:
/// every chunk's recorded size is exactly the bytes emitted for it (both
/// checksums and both payloads); each chunk's timestamp range is ordered and
/// its value section starts after its start; consecutive chunks are adjacent
/// — the later chunk's offset equals the former's offset plus its size, and
/// offsets grow strictly.
#[verifier::rlimit(100)]
#[verifier::spinoff_prover]
pub proof fn lemma_chunk_metas_layout(b: DataBlock, cap: int, pos0: int)
    requires
        spec_block_writable(b, cap),
        cap >= 1,
        0 <= pos0,
        pos0 + spec_field_bytes(b, cap).len() <= u64::MAX,
    ensures
        spec_chunk_metas(b, cap, pos0).len() == spec_block_count(b.spec_len() as int, cap),
        forall|i: int|
            0 <= i < spec_chunk_metas(b, cap, pos0).len() ==> (#[trigger] spec_chunk_metas(
                b,
                cap,
                pos0,
            )[i]).size == spec_chunk_bytes_of(b, cap, i).len(),
        forall|i: int|
            0 <= i < spec_chunk_metas(b, cap, pos0).len() ==> (#[trigger] spec_chunk_metas(
                b,
                cap,
                pos0,
            )[i]).min_ts <= spec_chunk_metas(b, cap, pos0)[i].max_ts && spec_chunk_metas(
                b,
                cap,
                pos0,
            )[i].offset <= spec_chunk_metas(b, cap, pos0)[i].val_off,
        forall|i: int|
            0 <= i < spec_chunk_metas(b, cap, pos0).len() - 1 ==> (#[trigger] spec_chunk_metas(
                b,
                cap,
                pos0,
            )[i + 1]).offset == spec_chunk_metas(b, cap, pos0)[i].offset + spec_chunk_metas(
                b,
                cap,
                pos0,
            )[i].size && spec_chunk_metas(b, cap, pos0)[i].offset < spec_chunk_metas(
                b,
                cap,
                pos0,
            )[i + 1].offset,
{
    let n = b.spec_len() as int;
    let count = spec_block_count(n, cap);
    let ms = spec_chunk_metas(b, cap, pos0);
    lemma_chunk_layout(n, cap);
    assert forall|i: int| 0 <= i < count implies 0 <= (#[trigger] spec_field_bytes_upto(
        b,
        cap,
        i,
    )).len() && pos0 + spec_field_bytes_upto(b, cap, i + 1).len() <= u64::MAX by {
        lemma_field_bytes_upto_mono(b, cap, i, count);
        lemma_field_bytes_upto_mono(b, cap, i + 1, count);
    }
    assert forall|i: int| 0 <= i < count implies (#[trigger] ms[i]).size == spec_chunk_bytes_of(
        b,
        cap,
        i,
    ).len() by {
        lemma_field_bytes_upto_mono(b, cap, i + 1, count);
        assert(spec_field_bytes_upto(b, cap, i + 1) == spec_field_bytes_upto(b, cap, i)
            + spec_chunk_bytes_of(b, cap, i));
    }
    assert forall|i: int| 0 <= i < count implies (#[trigger] ms[i]).min_ts <= ms[i].max_ts
        && ms[i].offset <= ms[i].val_off by {
        let s = spec_chunk_start(n, cap, i);
        let e = spec_chunk_end(n, cap, i);
        assert(0 <= s < e <= n);
        assert(b.ts_seq()[s] <= b.ts_seq()[e - 1]);
        lemma_field_bytes_upto_mono(b, cap, i + 1, count);
        assert(spec_field_bytes_upto(b, cap, i + 1) == spec_field_bytes_upto(b, cap, i)
            + spec_chunk_bytes_of(b, cap, i));
    }
    assert forall|i: int| 0 <= i < count - 1 implies (#[trigger] ms[i + 1]).offset == ms[i].offset
        + ms[i].size && ms[i].offset < ms[i + 1].offset by {
        lemma_field_bytes_upto_mono(b, cap, i + 2, count);
        assert(spec_field_bytes_upto(b, cap, i + 1) == spec_field_bytes_upto(b, cap, i)
            + spec_chunk_bytes_of(b, cap, i));
        assert(spec_field_bytes_upto(b, cap, i + 2) == spec_field_bytes_upto(b, cap, i + 1)
            + spec_chunk_bytes_of(b, cap, i + 1));
    }
}

/// Filter soundness for a whole write: after every field identifier of a run
/// has been folded into the membership filter, each one's bit is set — an
/// inserted key is never reported absent — and bits set before stay set.
pub proof fn lemma_filter_fold_no_false_negatives(bits: Seq<u8>, fields: Seq<(u64, DataBlock)>)
    requires
        1 <= bits.len() <= 0x1000_0000,
    ensures
        spec_filter_fold(bits, fields).len() == bits.len(),
        forall|i: int|
            0 <= i < fields.len() ==> spec_bit_set(
                spec_filter_fold(bits, fields),
                spec_filter_slot((#[trigger] fields[i]).0, bits.len() as int * 8),
            ),
        forall|k2: u64|
            spec_bit_set(bits, #[trigger] spec_filter_slot(k2, bits.len() as int * 8))
                ==> spec_bit_set(
                spec_filter_fold(bits, fields),
                spec_filter_slot(k2, bits.len() as int * 8),
            ),
    decreases fields.len(),
{
    if fields.len() > 0 {
        let fid = fields.first().0;
        let bits1 = spec_filter_insert(bits, fid);
        crate::bloom::lemma_filter_insert_marks(bits, fid);
        lemma_filter_fold_no_false_negatives(bits1, fields.drop_first());
        assert forall|i: int| 0 <= i < fields.len() implies spec_bit_set(
            spec_filter_fold(bits, fields),
            spec_filter_slot((#[trigger] fields[i]).0, bits.len() as int * 8),
        ) by {
            if i == 0 {
                assert(spec_bit_set(bits1, spec_filter_slot(fid, bits.len() as int * 8)));
            } else {
                assert(fields[i] == fields.drop_first()[i - 1]);
            }
        }
    }
}


} // verus!
