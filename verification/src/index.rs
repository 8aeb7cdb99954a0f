//! The index builder: accumulates, for every field written, one fixed-width
//! index record and its variable number of fixed-width block-meta records,
//! plus a membership filter over field identifiers, and serializes the whole
//! index region.
//!
//! Records are accumulated into two flat byte buffers with an explicit
//! per-field offset table, and the serializer slices each field's exact range
//! of block-meta bytes back out — an off-by-one in that slicing would corrupt
//! every index entry after it, so the slicing is proved exact.

use vstd::prelude::*;

use crate::block::ValueType;
use crate::bloom::{spec_filter_insert, BloomFilter};
use crate::codec::{
    put_u16_be, put_u64_be, spec_i64_to_be_bytes, spec_u16_to_be_bytes, spec_u64_to_be_bytes,
    put_i64_be,
};
use crate::sink::FileCursor;
use crate::{TsmError, BLOCK_META_SIZE, BLOOM_FILTER_BITS, INDEX_META_SIZE};

verus! {

/// The metadata of one emitted chunk: its timestamp range, where its bytes
/// begin in the file, how many bytes it spans, and where its value section
/// begins.
#[derive(Clone, Copy, PartialEq, Eq, Structural, Debug)]
pub struct BlockMeta {
    pub min_ts: i64,
    pub max_ts: i64,
    pub offset: u64,
    pub size: u64,
    pub val_off: u64,
}

/// One field's accumulated index data: its identifier, value type, chunk
/// count and the metadata of each chunk, in emission order.
pub struct IndexEntry {
    pub field_id: u64,
    pub block_type: ValueType,
    pub block_count: u16,
    pub metas: Seq<BlockMeta>,
}

/// The forty bytes of one block-meta record: five big-endian 8-byte fields.
pub open spec fn spec_block_meta_bytes(m: BlockMeta) -> Seq<u8> {
    spec_i64_to_be_bytes(m.min_ts) + spec_i64_to_be_bytes(m.max_ts) + spec_u64_to_be_bytes(
        m.offset,
    ) + spec_u64_to_be_bytes(m.size) + spec_u64_to_be_bytes(m.val_off)
}

/// The bytes of a run of block-meta records, concatenated with no separator.
pub open spec fn spec_metas_bytes(ms: Seq<BlockMeta>) -> Seq<u8>
    decreases ms.len(),
{
    if ms.len() == 0 {
        Seq::empty()
    } else {
        spec_block_meta_bytes(ms.first()) + spec_metas_bytes(ms.drop_first())
    }
}

/// The eleven bytes of one index record: field id, value type byte, count.
pub open spec fn spec_index_meta_bytes(e: IndexEntry) -> Seq<u8> {
    spec_u64_to_be_bytes(e.field_id) + seq![e.block_type.spec_to_u8()] + spec_u16_to_be_bytes(
        e.block_count,
    )
}

/// The index records of a run of entries, concatenated.
pub open spec fn spec_index_records(es: Seq<IndexEntry>) -> Seq<u8>
    decreases es.len(),
{
    if es.len() == 0 {
        Seq::empty()
    } else {
        spec_index_meta_bytes(es.first()) + spec_index_records(es.drop_first())
    }
}

/// Every block-meta record of a run of entries, flattened in entry order.
pub open spec fn spec_all_metas(es: Seq<IndexEntry>) -> Seq<BlockMeta>
    decreases es.len(),
{
    if es.len() == 0 {
        Seq::empty()
    } else {
        es.first().metas + spec_all_metas(es.drop_first())
    }
}

/// The serialized index region: for every field, in accumulation order, its
/// index record immediately followed by its block-meta records.
pub open spec fn spec_index_bytes(es: Seq<IndexEntry>) -> Seq<u8>
    decreases es.len(),
{
    if es.len() == 0 {
        Seq::empty()
    } else {
        spec_index_meta_bytes(es.first()) + spec_metas_bytes(es.first().metas)
            + spec_index_bytes(es.drop_first())
    }
}

/// Block-meta serialization distributes over concatenation.
pub proof fn lemma_metas_bytes_concat(a: Seq<BlockMeta>, b: Seq<BlockMeta>)
    ensures
        spec_metas_bytes(a + b) == spec_metas_bytes(a) + spec_metas_bytes(b),
    decreases a.len(),
{
    if a.len() == 0 {
        assert(a + b =~= b);
        assert(spec_metas_bytes(a) + spec_metas_bytes(b) =~= spec_metas_bytes(b));
    } else {
        assert((a + b).drop_first() =~= a.drop_first() + b);
        lemma_metas_bytes_concat(a.drop_first(), b);
        assert(spec_metas_bytes(a + b) =~= spec_metas_bytes(a) + spec_metas_bytes(b));
    }
}

/// A run of block-meta records is forty bytes per record.
pub proof fn lemma_metas_bytes_len(ms: Seq<BlockMeta>)
    ensures
        spec_metas_bytes(ms).len() == BLOCK_META_SIZE * ms.len(),
    decreases ms.len(),
{
    if ms.len() > 0 {
        lemma_metas_bytes_len(ms.drop_first());
    }
}

/// Index-record serialization distributes over concatenation.
pub proof fn lemma_index_records_concat(a: Seq<IndexEntry>, b: Seq<IndexEntry>)
    ensures
        spec_index_records(a + b) == spec_index_records(a) + spec_index_records(b),
    decreases a.len(),
{
    if a.len() == 0 {
        assert(a + b =~= b);
        assert(spec_index_records(a) + spec_index_records(b) =~= spec_index_records(b));
    } else {
        assert((a + b).drop_first() =~= a.drop_first() + b);
        lemma_index_records_concat(a.drop_first(), b);
        assert(spec_index_records(a + b) =~= spec_index_records(a) + spec_index_records(b));
    }
}

/// A run of index records is eleven bytes per entry.
pub proof fn lemma_index_records_len(es: Seq<IndexEntry>)
    ensures
        spec_index_records(es).len() == INDEX_META_SIZE * es.len(),
    decreases es.len(),
{
    if es.len() > 0 {
        lemma_index_records_len(es.drop_first());
    }
}

/// Flattening block metas distributes over concatenation of entry runs.
pub proof fn lemma_all_metas_concat(a: Seq<IndexEntry>, b: Seq<IndexEntry>)
    ensures
        spec_all_metas(a + b) == spec_all_metas(a) + spec_all_metas(b),
    decreases a.len(),
{
    if a.len() == 0 {
        assert(a + b =~= b);
        assert(spec_all_metas(a) + spec_all_metas(b) =~= spec_all_metas(b));
    } else {
        assert((a + b).drop_first() =~= a.drop_first() + b);
        lemma_all_metas_concat(a.drop_first(), b);
        assert((a + b).first().metas + spec_all_metas(a.drop_first() + b) =~= spec_all_metas(a)
            + spec_all_metas(b));
    }
}

/// Index-region serialization distributes over concatenation of entry runs.
pub proof fn lemma_index_bytes_concat(a: Seq<IndexEntry>, b: Seq<IndexEntry>)
    ensures
        spec_index_bytes(a + b) == spec_index_bytes(a) + spec_index_bytes(b),
    decreases a.len(),
{
    if a.len() == 0 {
        assert(a + b =~= b);
        assert(spec_index_bytes(a) + spec_index_bytes(b) =~= spec_index_bytes(b));
    } else {
        assert((a + b).drop_first() =~= a.drop_first() + b);
        lemma_index_bytes_concat(a.drop_first(), b);
        assert(spec_index_bytes(a + b) =~= spec_index_bytes(a) + spec_index_bytes(b));
    }
}

/// A single block-meta record serializes to exactly its own bytes.
pub proof fn lemma_metas_bytes_singleton(m: BlockMeta)
    ensures
        spec_metas_bytes(seq![m]) == spec_block_meta_bytes(m),
{
    assert(seq![m].drop_first() =~= Seq::<BlockMeta>::empty());
    assert(spec_metas_bytes(Seq::<BlockMeta>::empty()) =~= Seq::<u8>::empty());
    assert(spec_metas_bytes(seq![m]) =~= spec_block_meta_bytes(m));
}

/// A single entry's index record serializes to exactly its own bytes.
pub proof fn lemma_index_records_singleton(e: IndexEntry)
    ensures
        spec_index_records(seq![e]) == spec_index_meta_bytes(e),
{
    assert(seq![e].drop_first() =~= Seq::<IndexEntry>::empty());
    assert(spec_index_records(Seq::<IndexEntry>::empty()) =~= Seq::<u8>::empty());
    assert(spec_index_records(seq![e]) =~= spec_index_meta_bytes(e));
}

/// A single entry's flattened metas are its own metas.
pub proof fn lemma_all_metas_singleton(e: IndexEntry)
    ensures
        spec_all_metas(seq![e]) == e.metas,
{
    assert(seq![e].drop_first() =~= Seq::<IndexEntry>::empty());
    assert(spec_all_metas(Seq::<IndexEntry>::empty()) =~= Seq::<BlockMeta>::empty());
    assert(spec_all_metas(seq![e]) =~= e.metas);
}

/// A single entry's slice of the index region is its record then its metas.
pub proof fn lemma_index_bytes_singleton(e: IndexEntry)
    ensures
        spec_index_bytes(seq![e]) == spec_index_meta_bytes(e) + spec_metas_bytes(e.metas),
{
    assert(seq![e].drop_first() =~= Seq::<IndexEntry>::empty());
    assert(spec_index_bytes(Seq::<IndexEntry>::empty()) =~= Seq::<u8>::empty());
    assert(spec_index_bytes(seq![e]) =~= spec_index_meta_bytes(e) + spec_metas_bytes(e.metas));
}

/// The accumulator of the index region.  Index records and block-meta
/// records live in two flat byte buffers; `block_meta_offsets[i]` is the
/// byte offset where field `i`'s block-meta records start inside the flat
/// block-meta buffer, and `last_block_meta_offset` is where the next field's
/// will start.
pub struct IndexBuf {
    index_offset: u64,
    index_meta: Vec<u8>,
    last_block_meta_offset: usize,
    block_meta_offsets: Vec<usize>,
    block_meta: Vec<u8>,
    bloom_filter: BloomFilter,
    entries: Ghost<Seq<IndexEntry>>,
    pending: Ghost<Seq<BlockMeta>>,
}

impl IndexBuf {
    /// The completed entries, one per field, in accumulation order.
    pub closed spec fn entries(&self) -> Seq<IndexEntry> {
        self.entries@
    }

    /// Block metas inserted since the last index record; the next index
    /// record claims exactly these.
    pub closed spec fn pending(&self) -> Seq<BlockMeta> {
        self.pending@
    }

    /// The absolute file offset recorded for the start of the index region.
    pub closed spec fn spec_index_offset(&self) -> u64 {
        self.index_offset
    }

    /// Whether the membership filter has the bit for `field_id` set.
    pub closed spec fn filter_marked(&self, field_id: u64) -> bool {
        self.bloom_filter.marked(field_id)
    }

    /// The membership filter's raw bytes, as the footer serializes them.
    pub closed spec fn filter_bytes(&self) -> Seq<u8> {
        self.bloom_filter@
    }

    /// The two flat buffers and the offset table agree exactly with the
    /// accumulated entries and the pending metas.
    pub closed spec fn wf(&self) -> bool {
        &&& self.index_meta@ == spec_index_records(self.entries@)
        &&& self.block_meta@ == spec_metas_bytes(spec_all_metas(self.entries@) + self.pending@)
        &&& self.block_meta_offsets@.len() == self.entries@.len()
        &&& forall|i: int|
            0 <= i < self.entries@.len() ==> #[trigger] self.block_meta_offsets@[i]
                == BLOCK_META_SIZE * spec_all_metas(self.entries@.take(i)).len()
        &&& self.last_block_meta_offset == BLOCK_META_SIZE * spec_all_metas(self.entries@).len()
        &&& forall|i: int|
            0 <= i < self.entries@.len() ==> #[trigger] self.entries@[i].block_count
                == self.entries@[i].metas.len()
        &&& self.bloom_filter.wf()
        &&& self.bloom_filter@.len() == BLOOM_FILTER_BITS / 8
    }

    /// A fresh, empty index builder with an all-zero membership filter.
    pub fn new() -> (r: IndexBuf)
        ensures
            r.wf(),
            r.entries() == Seq::<IndexEntry>::empty(),
            r.pending() == Seq::<BlockMeta>::empty(),
            r.spec_index_offset() == 0,
            forall|id: u64| !r.filter_marked(id),
            r.filter_bytes() =~= Seq::new((BLOOM_FILTER_BITS / 8) as nat, |i: int| 0u8),
    {
        let r = IndexBuf {
            index_offset: 0,
            index_meta: Vec::new(),
            last_block_meta_offset: 0,
            block_meta_offsets: Vec::new(),
            block_meta: Vec::new(),
            bloom_filter: BloomFilter::new(BLOOM_FILTER_BITS),
            entries: Ghost(Seq::empty()),
            pending: Ghost(Seq::empty()),
        };
        proof {
            assert(spec_all_metas(r.entries@) + r.pending@ =~= Seq::<BlockMeta>::empty());
            assert(r.filter_bytes() =~= Seq::new((BLOOM_FILTER_BITS / 8) as nat, |i: int| 0u8));
        }
        r
    }

    /// Records the absolute file offset where the index region will start.
    pub fn set_index_offset(&mut self, index_offset: u64)
        ensures
            final(self).spec_index_offset() == index_offset,
            final(self).wf() == old(self).wf(),
            final(self).entries() == old(self).entries(),
            final(self).pending() == old(self).pending(),
            forall|id: u64| final(self).filter_marked(id) == old(self).filter_marked(id),
            final(self).filter_bytes() == old(self).filter_bytes(),
    {
        self.index_offset = index_offset;
    }

    /// Appends one block-meta record to the pending run.  The caller
    /// guarantees the chunk invariants: the timestamp range is ordered and
    /// the value section starts at or after the chunk start.
    pub fn insert_block_meta(&mut self, min_ts: i64, max_ts: i64, offset: u64, size: u64, val_off: u64)
        requires
            old(self).wf(),
            old(self).pending().len() < 0xffff,
            min_ts <= max_ts,
            offset <= val_off,
        ensures
            final(self).wf(),
            final(self).pending() == old(self).pending().push(
                BlockMeta { min_ts, max_ts, offset, size, val_off },
            ),
            final(self).entries() == old(self).entries(),
            final(self).spec_index_offset() == old(self).spec_index_offset(),
            forall|id: u64| final(self).filter_marked(id) == old(self).filter_marked(id),
            final(self).filter_bytes() == old(self).filter_bytes(),
    {
        let m = BlockMeta { min_ts, max_ts, offset, size, val_off };
        put_i64_be(&mut self.block_meta, min_ts);
        put_i64_be(&mut self.block_meta, max_ts);
        put_u64_be(&mut self.block_meta, offset);
        put_u64_be(&mut self.block_meta, size);
        put_u64_be(&mut self.block_meta, val_off);
        proof {
            let all = spec_all_metas(self.entries@);
            let oldrun = all + old(self).pending@;
            let newrun = all + self.pending@.push(m);
            assert(newrun =~= oldrun + seq![m]);
            lemma_metas_bytes_concat(oldrun, seq![m]);
            lemma_metas_bytes_singleton(m);
            assert(self.block_meta@ =~= spec_metas_bytes(newrun));
        }
        self.pending = Ghost(self.pending@.push(m));
    }

    /// Completes one field: appends its eleven-byte index record, claims the
    /// pending block metas as this field's, records where they start in the
    /// flat buffer, and inserts the field identifier into the membership
    /// filter.  `block_count` must be exactly the number of pending metas.
    pub fn insert_index_meta(&mut self, field_id: u64, block_type: ValueType, block_count: u16)
        requires
            old(self).wf(),
            block_count as int == old(self).pending().len(),
            block_type != ValueType::Unknown,
        ensures
            final(self).wf(),
            final(self).entries() == old(self).entries().push(
                IndexEntry { field_id, block_type, block_count, metas: old(self).pending() },
            ),
            final(self).pending() == Seq::<BlockMeta>::empty(),
            final(self).spec_index_offset() == old(self).spec_index_offset(),
            final(self).filter_marked(field_id),
            forall|id: u64| old(self).filter_marked(id) ==> final(self).filter_marked(id),
            final(self).filter_bytes() == spec_filter_insert(
                old(self).filter_bytes(),
                field_id,
            ),
    {
        let ghost e = IndexEntry {
            field_id,
            block_type,
            block_count,
            metas: self.pending@,
        };
        put_u64_be(&mut self.index_meta, field_id);
        self.index_meta.push(block_type.to_u8());
        put_u16_be(&mut self.index_meta, block_count);
        self.block_meta_offsets.push(self.last_block_meta_offset);
        self.last_block_meta_offset = self.block_meta.len();
        self.bloom_filter.insert(field_id);
        proof {
            let olde = old(self).entries@;
            let newe = olde.push(e);
            assert(newe =~= olde + seq![e]);
            lemma_index_records_concat(olde, seq![e]);
            lemma_index_records_singleton(e);
            assert(self.index_meta@ =~= spec_index_records(newe));
            lemma_all_metas_concat(olde, seq![e]);
            lemma_all_metas_singleton(e);
            assert(spec_all_metas(newe) =~= spec_all_metas(olde) + e.metas);
            lemma_metas_bytes_len(spec_all_metas(newe));
            lemma_metas_bytes_len(spec_all_metas(olde) + old(self).pending@);
            assert(self.block_meta@ =~= spec_metas_bytes(spec_all_metas(newe)
                + Seq::<BlockMeta>::empty()));
            assert forall|i: int| 0 <= i < newe.len() implies #[trigger] self.block_meta_offsets@[
                i
            ] == BLOCK_META_SIZE * spec_all_metas(newe.take(i)).len() by {
                if i < olde.len() {
                    assert(newe.take(i) =~= olde.take(i));
                } else {
                    assert(newe.take(i) =~= olde);
                }
            }
        }
        self.entries = Ghost(self.entries@.push(e));
        self.pending = Ghost(Seq::empty());
    }

    /// Serializes the index region: every field's index record immediately
    /// followed by exactly that field's block-meta records, sliced out of
    /// the flat buffer by the offset table.  Succeeds, returning the number
    /// of bytes written, exactly when the sink accepts the whole region.
    pub fn write_to(&self, writer: &mut FileCursor) -> (r: Result<usize, TsmError>)
        requires
            self.wf(),
            self.pending().len() == 0,
            old(writer).wf(),
        ensures
            final(writer).wf(),
            final(writer).spec_fail_at() == old(writer).spec_fail_at(),
            final(writer).is_synced() == old(writer).is_synced(),
            old(writer).bytes().is_prefix_of(final(writer).bytes()),
            r is Ok <==> old(writer).can_write(spec_index_bytes(self.entries()).len() as int),
            r matches Ok(n) ==> final(writer).bytes() == old(writer).bytes() + spec_index_bytes(
                self.entries(),
            ) && n == spec_index_bytes(self.entries()).len(),
    {
        let ghost es = self.entries@;
        let ghost base = writer.bytes();
        let ghost f0 = writer.spec_fail_at();
        let ghost sync0 = writer.is_synced();
        let ghost total = spec_index_bytes(es).len() as int;
        let base_len = writer.len();
        let im_len = self.index_meta.len();
        let mut index_pos: usize = 0;
        let mut index_idx: usize = 0;
        let nfields = self.block_meta_offsets.len();
        proof {
            assert(es.take(0) =~= Seq::<IndexEntry>::empty());
            assert(base + Seq::<u8>::empty() =~= base);
        }
        while index_idx < nfields
            invariant
                self.wf(),
                self.pending@.len() == 0,
                es == self.entries@,
                nfields == es.len(),
                0 <= index_idx <= nfields,
                index_pos == INDEX_META_SIZE * index_idx,
                im_len == self.index_meta@.len(),
                writer.bytes() == base + spec_index_bytes(es.take(index_idx as int)),
                base_len == base.len(),
                writer.spec_fail_at() == f0,
                writer.is_synced() == sync0,
                base == old(writer).bytes(),
                f0 == old(writer).spec_fail_at(),
                sync0 == old(writer).is_synced(),
                writer.wf(),
                total == spec_index_bytes(es).len(),
            decreases nfields - index_idx,
        {
            let ghost k = index_idx as int;
            proof {
                lemma_index_bytes_split(es, k);
                lemma_index_bytes_prefix_len(es, k);
                lemma_index_records_split(es, k);
                lemma_all_metas_split(es, k);
                lemma_index_records_len(es);
                lemma_index_records_len(es.skip(k + 1));
                lemma_metas_bytes_len(es[k].metas);
                lemma_metas_bytes_len(spec_all_metas(es.take(k)));
                lemma_metas_bytes_len(spec_all_metas(es.skip(k + 1)));
                lemma_metas_bytes_len(spec_all_metas(es));
                lemma_metas_bytes_concat(spec_all_metas(es.take(k)), es[k].metas);
                lemma_metas_bytes_concat(spec_all_metas(es.take(k)) + es[k].metas,
                    spec_all_metas(es.skip(k + 1)));
                assert(spec_all_metas(es) + self.pending@ =~= (spec_all_metas(es.take(k))
                    + es[k].metas) + spec_all_metas(es.skip(k + 1)));
            }
            // The eleven-byte index record of field `index_idx`.
            let rec = vstd::slice::slice_subrange(
                self.index_meta.as_slice(),
                index_pos,
                index_pos + INDEX_META_SIZE,
            );
            proof {
                assert(rec@ =~= spec_index_meta_bytes(es[k]));
            }
            proof {
                assert(total >= spec_index_bytes(es.take(k)).len() + INDEX_META_SIZE
                    + spec_metas_bytes(es[k].metas).len());
            }
            match writer.write(rec) {
                Ok(_) => {},
                Err(e) => {
                    proof {
                        assert((base + spec_index_bytes(es.take(k))).subrange(
                            0,
                            base.len() as int,
                        ) =~= base);
                        assert(base.is_prefix_of(writer.bytes()));
                        assert(!writer.can_write(rec@.len() as int));
                        assert(rec@.len() == INDEX_META_SIZE);
                        assert(writer.bytes().len() == base.len() + spec_index_bytes(
                            es.take(k),
                        ).len());
                        assert(total >= spec_index_bytes(es.take(k)).len() + INDEX_META_SIZE);
                        assert(f0 matches Some(f) ==> base.len() + total > f);
                    }
                    return Err(e);
                },
            }
            // Exactly this field's block-meta records, sliced from the flat
            // buffer by the offset table.
            let meta_beg = self.block_meta_offsets[index_idx];
            let meta_end = if index_idx + 1 < nfields {
                self.block_meta_offsets[index_idx + 1]
            } else {
                self.block_meta.len()
            };
            proof {
                if k + 1 < es.len() {
                    assert(spec_all_metas(es.take(k + 1)) =~= spec_all_metas(es.take(k))
                        + es[k].metas) by {
                        assert(es.take(k + 1) =~= es.take(k) + seq![es[k]]);
                        lemma_all_metas_concat(es.take(k), seq![es[k]]);
                        lemma_all_metas_singleton(es[k]);
                    }
                    lemma_metas_bytes_len(spec_all_metas(es.take(k + 1)));
                } else {
                    assert(es.skip(k + 1) =~= Seq::<IndexEntry>::empty());
                    assert(spec_all_metas(es) =~= spec_all_metas(es.take(k)) + es[k].metas);
                }
                assert(meta_end - meta_beg == BLOCK_META_SIZE * es[k].metas.len());
                assert(meta_end <= self.block_meta@.len());
            }
            let metas_sli = vstd::slice::slice_subrange(
                self.block_meta.as_slice(),
                meta_beg,
                meta_end,
            );
            proof {
                assert(metas_sli@ =~= spec_metas_bytes(es[k].metas));
            }
            match writer.write(metas_sli) {
                Ok(_) => {},
                Err(e) => {
                    proof {
                        assert(writer.bytes().len() == base.len() + spec_index_bytes(
                            es.take(k),
                        ).len() + INDEX_META_SIZE);
                        assert(writer.bytes().subrange(0, base.len() as int) =~= base);
                        assert(base.is_prefix_of(writer.bytes()));
                        assert(f0 matches Some(f) ==> base.len() + total > f);
                    }
                    return Err(e);
                },
            }
            proof {
                assert(es.take(k + 1) =~= es.take(k) + seq![es[k]]);
                lemma_index_bytes_concat(es.take(k), seq![es[k]]);
                lemma_index_bytes_singleton(es[k]);
                assert(writer.bytes() =~= base + spec_index_bytes(es.take(k + 1)));
            }
            index_pos = index_pos + INDEX_META_SIZE;
            index_idx = index_idx + 1;
        }
        proof {
            assert(es.take(es.len() as int) =~= es);
        }
        let end_len = writer.len();
        Ok(end_len - base_len)
    }

    /// Grants the writer access to the membership filter for queries and
    /// the footer's serialization.
    pub fn bloom_filter(&self) -> (r: &BloomFilter)
        ensures
            r@ == self.filter_bytes(),
            forall|id: u64| r.marked(id) == self.filter_marked(id),
    {
        &self.bloom_filter
    }

    /// The recorded index-region offset.
    pub fn index_offset(&self) -> (r: u64)
        ensures
            r == self.spec_index_offset(),
    {
        self.index_offset
    }
}

/// Splits the serialized index region at entry `k`: everything before it,
/// its own record and metas, and everything after it.
pub proof fn lemma_index_bytes_split(es: Seq<IndexEntry>, k: int)
    requires
        0 <= k < es.len(),
    ensures
        spec_index_bytes(es) == spec_index_bytes(es.take(k)) + spec_index_meta_bytes(es[k])
            + spec_metas_bytes(es[k].metas) + spec_index_bytes(es.skip(k + 1)),
{
    assert(es =~= es.take(k) + seq![es[k]] + es.skip(k + 1));
    lemma_index_bytes_concat(es.take(k) + seq![es[k]], es.skip(k + 1));
    lemma_index_bytes_concat(es.take(k), seq![es[k]]);
    lemma_index_bytes_singleton(es[k]);
}

/// Splits the flat run of index records at entry `k`.
pub proof fn lemma_index_records_split(es: Seq<IndexEntry>, k: int)
    requires
        0 <= k < es.len(),
    ensures
        spec_index_records(es) == spec_index_records(es.take(k)) + spec_index_meta_bytes(es[k])
            + spec_index_records(es.skip(k + 1)),
        spec_index_records(es.take(k)).len() == INDEX_META_SIZE * k,
{
    assert(es =~= es.take(k) + seq![es[k]] + es.skip(k + 1));
    lemma_index_records_concat(es.take(k) + seq![es[k]], es.skip(k + 1));
    lemma_index_records_concat(es.take(k), seq![es[k]]);
    lemma_index_records_singleton(es[k]);
    lemma_index_records_len(es.take(k));
}

/// Splits the flattened block metas at entry `k`.
pub proof fn lemma_all_metas_split(es: Seq<IndexEntry>, k: int)
    requires
        0 <= k < es.len(),
    ensures
        spec_all_metas(es) == spec_all_metas(es.take(k)) + es[k].metas + spec_all_metas(
            es.skip(k + 1),
        ),
{
    assert(es =~= es.take(k) + seq![es[k]] + es.skip(k + 1));
    lemma_all_metas_concat(es.take(k) + seq![es[k]], es.skip(k + 1));
    lemma_all_metas_concat(es.take(k), seq![es[k]]);
    lemma_all_metas_singleton(es[k]);
}

/// A prefix of entries serializes to a prefix of the index region, and the
/// prefix is never longer than the whole.
pub proof fn lemma_index_bytes_prefix_len(es: Seq<IndexEntry>, k: int)
    requires
        0 <= k <= es.len(),
    ensures
        spec_index_bytes(es.take(k)).len() <= spec_index_bytes(es).len(),
{
    assert(es =~= es.take(k) + es.skip(k));
    lemma_index_bytes_concat(es.take(k), es.skip(k));
}

} // verus!
