//! Typed in-memory blocks of timestamp/value pairs, the encoders that turn a
//! contiguous range of a block into compact byte sequences, the inverse
//! decoders, and the chunking arithmetic that splits a block into chunks of at
//! most `MAX_BLOCK_VALUES` points.

use vstd::prelude::*;

use crate::codec::{
    get_i64_be, get_u32_be, get_u64_be, lemma_i64_be_bytes_round_trip,
    lemma_u32_be_bytes_round_trip, lemma_u64_be_bytes_round_trip, put_i64_be, put_u32_be,
    put_u64_be, spec_i64_from_be_bytes, spec_i64_to_be_bytes, spec_u32_from_be_bytes,
    spec_u32_to_be_bytes, spec_u64_from_be_bytes, spec_u64_to_be_bytes,
};
use crate::TsmError;

verus! {

/// The value type of one field.  `Unknown` is invalid for writing and is
/// rejected when a block is created.
#[derive(Clone, Copy, PartialEq, Eq, Structural, Debug)]
pub enum ValueType {
    Float,
    Integer,
    Unsigned,
    Boolean,
    Str,
    Unknown,
}

impl ValueType {
    /// The byte that stands for this value type in the index region.
    pub open spec fn spec_to_u8(self) -> u8 {
        match self {
            ValueType::Float => 0u8,
            ValueType::Integer => 1u8,
            ValueType::Unsigned => 2u8,
            ValueType::Boolean => 3u8,
            ValueType::Str => 4u8,
            ValueType::Unknown => 5u8,
        }
    }

    /// Encodes this value type as its index-region byte.
    pub fn to_u8(self) -> (r: u8)
        ensures
            r == self.spec_to_u8(),
    {
        match self {
            ValueType::Float => 0u8,
            ValueType::Integer => 1u8,
            ValueType::Unsigned => 2u8,
            ValueType::Boolean => 3u8,
            ValueType::Str => 4u8,
            ValueType::Unknown => 5u8,
        }
    }

    /// The value type a byte stands for; bytes outside the five concrete
    /// types map to `Unknown`.
    pub open spec fn spec_from_u8(v: u8) -> ValueType {
        if v == 0 {
            ValueType::Float
        } else if v == 1 {
            ValueType::Integer
        } else if v == 2 {
            ValueType::Unsigned
        } else if v == 3 {
            ValueType::Boolean
        } else if v == 4 {
            ValueType::Str
        } else {
            ValueType::Unknown
        }
    }

    /// Decodes an index-region byte back into a value type.
    pub fn from_u8(v: u8) -> (r: ValueType)
        ensures
            r == ValueType::spec_from_u8(v),
    {
        if v == 0 {
            ValueType::Float
        } else if v == 1 {
            ValueType::Integer
        } else if v == 2 {
            ValueType::Unsigned
        } else if v == 3 {
            ValueType::Boolean
        } else if v == 4 {
            ValueType::Str
        } else {
            ValueType::Unknown
        }
    }
}

/// One timestamped point handed to `DataBlock::insert`.  Floating-point
/// values travel as their raw IEEE-754 bit pattern.
pub enum DataType {
    F64(i64, u64),
    I64(i64, i64),
    U64(i64, u64),
    Bool(i64, bool),
    Str(i64, Vec<u8>),
}

impl DataType {
    /// The point's timestamp.
    pub open spec fn spec_ts(&self) -> i64 {
        match self {
            DataType::F64(ts, _) => *ts,
            DataType::I64(ts, _) => *ts,
            DataType::U64(ts, _) => *ts,
            DataType::Bool(ts, _) => *ts,
            DataType::Str(ts, _) => *ts,
        }
    }
}

/// One field's in-memory column: a sequence of timestamps and a sequence of
/// values of a single value type, associated one to one.  The writer only
/// ever reads ranges of a block.  Floating-point values are stored as their
/// raw IEEE-754 bit patterns, which is exactly what the on-disk format holds.
pub enum DataBlock {
    F64 { ts: Vec<i64>, val: Vec<u64> },
    I64 { ts: Vec<i64>, val: Vec<i64> },
    U64 { ts: Vec<i64>, val: Vec<u64> },
    Bool { ts: Vec<i64>, val: Vec<bool> },
    Str { ts: Vec<i64>, val: Vec<Vec<u8>> },
}

/// The bytes of a sequence of signed 64-bit integers, each big-endian.
pub open spec fn spec_encode_i64s(v: Seq<i64>) -> Seq<u8>
    decreases v.len(),
{
    if v.len() == 0 {
        Seq::empty()
    } else {
        spec_i64_to_be_bytes(v.first()) + spec_encode_i64s(v.drop_first())
    }
}

/// The bytes of a sequence of unsigned 64-bit integers, each big-endian.
pub open spec fn spec_encode_u64s(v: Seq<u64>) -> Seq<u8>
    decreases v.len(),
{
    if v.len() == 0 {
        Seq::empty()
    } else {
        spec_u64_to_be_bytes(v.first()) + spec_encode_u64s(v.drop_first())
    }
}

/// The bytes of a sequence of booleans, one byte each: 1 for true, 0 for
/// false.
pub open spec fn spec_encode_bools(v: Seq<bool>) -> Seq<u8>
    decreases v.len(),
{
    if v.len() == 0 {
        Seq::empty()
    } else {
        seq![if v.first() { 1u8 } else { 0u8 }] + spec_encode_bools(v.drop_first())
    }
}

/// The bytes of a sequence of byte strings: each string is its big-endian
/// 32-bit length followed by its bytes.
pub open spec fn spec_encode_strs(v: Seq<Seq<u8>>) -> Seq<u8>
    decreases v.len(),
{
    if v.len() == 0 {
        Seq::empty()
    } else {
        spec_u32_to_be_bytes(v.first().len() as u32) + v.first() + spec_encode_strs(v.drop_first())
    }
}

impl DataBlock {
    /// The block's timestamps.
    pub open spec fn ts_seq(&self) -> Seq<i64> {
        match self {
            DataBlock::F64 { ts, .. } => ts@,
            DataBlock::I64 { ts, .. } => ts@,
            DataBlock::U64 { ts, .. } => ts@,
            DataBlock::Bool { ts, .. } => ts@,
            DataBlock::Str { ts, .. } => ts@,
        }
    }

    /// The number of points in the block.
    pub open spec fn spec_len(&self) -> nat {
        self.ts_seq().len()
    }

    /// The block's value type.
    pub open spec fn vtype(&self) -> ValueType {
        match self {
            DataBlock::F64 { .. } => ValueType::Float,
            DataBlock::I64 { .. } => ValueType::Integer,
            DataBlock::U64 { .. } => ValueType::Unsigned,
            DataBlock::Bool { .. } => ValueType::Boolean,
            DataBlock::Str { .. } => ValueType::Str,
        }
    }

    /// Timestamps and values are associated one to one, and every byte
    /// string's length fits the 32-bit length prefix of the encoding.
    pub open spec fn vals_wf(&self) -> bool {
        match self {
            DataBlock::F64 { ts, val } => ts@.len() == val@.len(),
            DataBlock::I64 { ts, val } => ts@.len() == val@.len(),
            DataBlock::U64 { ts, val } => ts@.len() == val@.len(),
            DataBlock::Bool { ts, val } => ts@.len() == val@.len(),
            DataBlock::Str { ts, val } => ts@.len() == val@.len() && forall|i: int|
                0 <= i < val@.len() ==> #[trigger] val@[i]@.len() <= u32::MAX,
        }
    }

    /// Timestamps never decrease, so a chunk's first and last timestamps are
    /// its minimum and maximum.
    pub open spec fn ts_sorted(&self) -> bool {
        forall|i: int, j: int|
            0 <= i <= j < self.ts_seq().len() ==> self.ts_seq()[i] <= self.ts_seq()[j]
    }

    /// A block the writer accepts: associated lengths, bounded strings,
    /// non-decreasing timestamps.
    pub open spec fn wf(&self) -> bool {
        self.vals_wf() && self.ts_sorted()
    }

    /// The encoded timestamp bytes of the point range `[start, end)`.
    pub open spec fn spec_encode_ts_range(&self, start: int, end: int) -> Seq<u8>
        recommends
            0 <= start <= end <= self.spec_len(),
    {
        spec_encode_i64s(self.ts_seq().subrange(start, end))
    }

    /// The encoded value bytes of the point range `[start, end)`.
    pub open spec fn spec_encode_val_range(&self, start: int, end: int) -> Seq<u8>
        recommends
            0 <= start <= end <= self.spec_len(),
            self.vals_wf(),
    {
        match self {
            DataBlock::F64 { val, .. } => spec_encode_u64s(val@.subrange(start, end)),
            DataBlock::I64 { val, .. } => spec_encode_i64s(val@.subrange(start, end)),
            DataBlock::U64 { val, .. } => spec_encode_u64s(val@.subrange(start, end)),
            DataBlock::Bool { val, .. } => spec_encode_bools(val@.subrange(start, end)),
            DataBlock::Str { val, .. } => spec_encode_strs(val.deep_view().subrange(start, end)),
        }
    }

    /// Creates an empty block of the given value type, sized for `capacity`
    /// points.  `Unknown` is invalid for writing and is rejected.
    pub fn new(capacity: usize, vtype: ValueType) -> (r: Result<DataBlock, TsmError>)
        ensures
            r is Ok <==> vtype != ValueType::Unknown,
            r matches Ok(b) ==> b.vtype() == vtype && b.spec_len() == 0 && b.wf(),
    {
        match vtype {
            ValueType::Float => Ok(
                DataBlock::F64 { ts: Vec::with_capacity(capacity), val: Vec::with_capacity(capacity) },
            ),
            ValueType::Integer => Ok(
                DataBlock::I64 { ts: Vec::with_capacity(capacity), val: Vec::with_capacity(capacity) },
            ),
            ValueType::Unsigned => Ok(
                DataBlock::U64 { ts: Vec::with_capacity(capacity), val: Vec::with_capacity(capacity) },
            ),
            ValueType::Boolean => Ok(
                DataBlock::Bool { ts: Vec::with_capacity(capacity), val: Vec::with_capacity(capacity) },
            ),
            ValueType::Str => Ok(
                DataBlock::Str { ts: Vec::with_capacity(capacity), val: Vec::with_capacity(capacity) },
            ),
            ValueType::Unknown => Err(TsmError::write_err("value type is unknown")),
        }
    }

    /// The values of a floating-point block, as raw bit patterns.
    pub open spec fn f64_vals(&self) -> Seq<u64> {
        match self {
            DataBlock::F64 { val, .. } => val@,
            _ => Seq::empty(),
        }
    }

    /// The values of a signed integer block.
    pub open spec fn i64_vals(&self) -> Seq<i64> {
        match self {
            DataBlock::I64 { val, .. } => val@,
            _ => Seq::empty(),
        }
    }

    /// The values of an unsigned integer block.
    pub open spec fn u64_vals(&self) -> Seq<u64> {
        match self {
            DataBlock::U64 { val, .. } => val@,
            _ => Seq::empty(),
        }
    }

    /// The values of a boolean block.
    pub open spec fn bool_vals(&self) -> Seq<bool> {
        match self {
            DataBlock::Bool { val, .. } => val@,
            _ => Seq::empty(),
        }
    }

    /// The values of a byte-string block.
    pub open spec fn str_vals(&self) -> Seq<Seq<u8>> {
        match self {
            DataBlock::Str { val, .. } => val.deep_view(),
            _ => Seq::empty(),
        }
    }

    /// Appends one point to the block if its variant matches the block's
    /// value type; a mismatched point is ignored.
    pub fn insert(&mut self, data: &DataType)
        ensures
            final(self).vtype() == old(self).vtype(),
            final(self).ts_seq() == if old(self).vtype() == spec_data_vtype(*data) {
                old(self).ts_seq().push(data.spec_ts())
            } else {
                old(self).ts_seq()
            },
            old(self).vtype() == ValueType::Float ==> (*data matches DataType::F64(_, v)
                ==> final(self).f64_vals() == old(self).f64_vals().push(v)),
            old(self).vtype() == ValueType::Integer ==> (*data matches DataType::I64(_, v)
                ==> final(self).i64_vals() == old(self).i64_vals().push(v)),
            old(self).vtype() == ValueType::Unsigned ==> (*data matches DataType::U64(_, v)
                ==> final(self).u64_vals() == old(self).u64_vals().push(v)),
            old(self).vtype() == ValueType::Boolean ==> (*data matches DataType::Bool(_, v)
                ==> final(self).bool_vals() == old(self).bool_vals().push(v)),
            old(self).vtype() == ValueType::Str ==> (*data matches DataType::Str(_, v)
                ==> final(self).str_vals() == old(self).str_vals().push(v@)),
            old(self).vtype() != spec_data_vtype(*data) ==> *final(self) == *old(self),
    {
        match (self, data) {
            (DataBlock::F64 { ts, val }, DataType::F64(t, v)) => {
                ts.push(*t);
                val.push(*v);
            },
            (DataBlock::I64 { ts, val }, DataType::I64(t, v)) => {
                ts.push(*t);
                val.push(*v);
            },
            (DataBlock::U64 { ts, val }, DataType::U64(t, v)) => {
                ts.push(*t);
                val.push(*v);
            },
            (DataBlock::Bool { ts, val }, DataType::Bool(t, v)) => {
                ts.push(*t);
                val.push(*v);
            },
            (DataBlock::Str { ts, val }, DataType::Str(t, v)) => {
                ts.push(*t);
                let c = clone_bytes(v);
                val.push(c);
                proof {
                    assert(val.deep_view() =~~= old(self).str_vals().push(v@));
                }
            },
            _ => {},
        }
    }

    /// The number of points in the block.
    pub fn len(&self) -> (n: usize)
        ensures
            n == self.spec_len(),
    {
        match self {
            DataBlock::F64 { ts, .. } => ts.len(),
            DataBlock::I64 { ts, .. } => ts.len(),
            DataBlock::U64 { ts, .. } => ts.len(),
            DataBlock::Bool { ts, .. } => ts.len(),
            DataBlock::Str { ts, .. } => ts.len(),
        }
    }

    /// The block's value type.
    pub fn field_type(&self) -> (t: ValueType)
        ensures
            t == self.vtype(),
    {
        match self {
            DataBlock::F64 { .. } => ValueType::Float,
            DataBlock::I64 { .. } => ValueType::Integer,
            DataBlock::U64 { .. } => ValueType::Unsigned,
            DataBlock::Bool { .. } => ValueType::Boolean,
            DataBlock::Str { .. } => ValueType::Str,
        }
    }

    /// The timestamp of the point at index `i`.
    pub fn ts_at(&self, i: usize) -> (t: i64)
        requires
            i < self.spec_len(),
        ensures
            t == self.ts_seq()[i as int],
    {
        match self {
            DataBlock::F64 { ts, .. } => ts[i],
            DataBlock::I64 { ts, .. } => ts[i],
            DataBlock::U64 { ts, .. } => ts[i],
            DataBlock::Bool { ts, .. } => ts[i],
            DataBlock::Str { ts, .. } => ts[i],
        }
    }

    /// Independently encodes the timestamps and the values of the point range
    /// `[start, end)` into two byte sequences.  A well-formed block never
    /// fails to encode.
    pub fn encode(&self, start: usize, end: usize) -> (r: Result<(Vec<u8>, Vec<u8>), TsmError>)
        requires
            self.vals_wf(),
            start <= end <= self.spec_len(),
        ensures
            r is Ok,
            r matches Ok((t, v)) ==> t@ == self.spec_encode_ts_range(start as int, end as int)
                && v@ == self.spec_encode_val_range(start as int, end as int),
    {
        match self {
            DataBlock::F64 { ts, val } => {
                Ok((encode_i64s(ts, start, end), encode_u64s(val, start, end)))
            },
            DataBlock::I64 { ts, val } => {
                Ok((encode_i64s(ts, start, end), encode_i64s(val, start, end)))
            },
            DataBlock::U64 { ts, val } => {
                Ok((encode_i64s(ts, start, end), encode_u64s(val, start, end)))
            },
            DataBlock::Bool { ts, val } => {
                Ok((encode_i64s(ts, start, end), encode_bools(val, start, end)))
            },
            DataBlock::Str { ts, val } => {
                let mut out: Vec<u8> = Vec::new();
                match encode_strs_range(val, start, end, &mut out) {
                    Ok(()) => Ok((encode_i64s(ts, start, end), out)),
                    Err(e) => Err(e),
                }
            },
        }
    }
}

/// The value type that a single point's variant carries.
pub open spec fn spec_data_vtype(data: DataType) -> ValueType {
    match data {
        DataType::F64(..) => ValueType::Float,
        DataType::I64(..) => ValueType::Integer,
        DataType::U64(..) => ValueType::Unsigned,
        DataType::Bool(..) => ValueType::Boolean,
        DataType::Str(..) => ValueType::Str,
    }
}

/// Copies a byte string.
fn clone_bytes(v: &Vec<u8>) -> (r: Vec<u8>)
    ensures
        r@ == v@,
{
    let mut r: Vec<u8> = Vec::new();
    let mut i: usize = 0;
    while i < v.len()
        invariant
            0 <= i <= v@.len(),
            r@ == v@.take(i as int),
        decreases v@.len() - i,
    {
        r.push(v[i]);
        proof {
            assert(v@.take(i + 1) =~= v@.take(i as int).push(v@[i as int]));
        }
        i = i + 1;
    }
    proof {
        assert(v@.take(v@.len() as int) =~= v@);
    }
    r
}

/// Encoding a sequence of signed integers distributes over concatenation.
pub proof fn lemma_encode_i64s_concat(a: Seq<i64>, b: Seq<i64>)
    ensures
        spec_encode_i64s(a + b) == spec_encode_i64s(a) + spec_encode_i64s(b),
    decreases a.len(),
{
    if a.len() == 0 {
        assert(a + b =~= b);
        assert(spec_encode_i64s(a) + spec_encode_i64s(b) =~= spec_encode_i64s(b));
    } else {
        assert((a + b).drop_first() =~= a.drop_first() + b);
        lemma_encode_i64s_concat(a.drop_first(), b);
        assert(spec_encode_i64s(a + b) =~= spec_encode_i64s(a) + spec_encode_i64s(b));
    }
}

/// Encoding a sequence of unsigned integers distributes over concatenation.
pub proof fn lemma_encode_u64s_concat(a: Seq<u64>, b: Seq<u64>)
    ensures
        spec_encode_u64s(a + b) == spec_encode_u64s(a) + spec_encode_u64s(b),
    decreases a.len(),
{
    if a.len() == 0 {
        assert(a + b =~= b);
        assert(spec_encode_u64s(a) + spec_encode_u64s(b) =~= spec_encode_u64s(b));
    } else {
        assert((a + b).drop_first() =~= a.drop_first() + b);
        lemma_encode_u64s_concat(a.drop_first(), b);
        assert(spec_encode_u64s(a + b) =~= spec_encode_u64s(a) + spec_encode_u64s(b));
    }
}

/// Encoding a sequence of booleans distributes over concatenation.
pub proof fn lemma_encode_bools_concat(a: Seq<bool>, b: Seq<bool>)
    ensures
        spec_encode_bools(a + b) == spec_encode_bools(a) + spec_encode_bools(b),
    decreases a.len(),
{
    if a.len() == 0 {
        assert(a + b =~= b);
        assert(spec_encode_bools(a) + spec_encode_bools(b) =~= spec_encode_bools(b));
    } else {
        assert((a + b).drop_first() =~= a.drop_first() + b);
        lemma_encode_bools_concat(a.drop_first(), b);
        assert(spec_encode_bools(a + b) =~= spec_encode_bools(a) + spec_encode_bools(b));
    }
}

/// Encoding a sequence of byte strings distributes over concatenation.
pub proof fn lemma_encode_strs_concat(a: Seq<Seq<u8>>, b: Seq<Seq<u8>>)
    ensures
        spec_encode_strs(a + b) == spec_encode_strs(a) + spec_encode_strs(b),
    decreases a.len(),
{
    if a.len() == 0 {
        assert(a + b =~= b);
        assert(spec_encode_strs(a) + spec_encode_strs(b) =~= spec_encode_strs(b));
    } else {
        assert((a + b).drop_first() =~= a.drop_first() + b);
        lemma_encode_strs_concat(a.drop_first(), b);
        assert(spec_encode_strs(a + b) =~= spec_encode_strs(a) + spec_encode_strs(b));
    }
}

/// An encoded integer sequence is eight bytes per element.
pub proof fn lemma_encode_i64s_len(v: Seq<i64>)
    ensures
        spec_encode_i64s(v).len() == 8 * v.len(),
    decreases v.len(),
{
    if v.len() > 0 {
        lemma_encode_i64s_len(v.drop_first());
    }
}

/// An encoded unsigned sequence is eight bytes per element.
pub proof fn lemma_encode_u64s_len(v: Seq<u64>)
    ensures
        spec_encode_u64s(v).len() == 8 * v.len(),
    decreases v.len(),
{
    if v.len() > 0 {
        lemma_encode_u64s_len(v.drop_first());
    }
}

/// An encoded boolean sequence is one byte per element.
pub proof fn lemma_encode_bools_len(v: Seq<bool>)
    ensures
        spec_encode_bools(v).len() == v.len(),
    decreases v.len(),
{
    if v.len() > 0 {
        lemma_encode_bools_len(v.drop_first());
    }
}

/// Encodes the range `[start, end)` of a signed integer column, eight
/// big-endian bytes per element.
pub fn encode_i64s(v: &Vec<i64>, start: usize, end: usize) -> (out: Vec<u8>)
    requires
        start <= end <= v@.len(),
    ensures
        out@ == spec_encode_i64s(v@.subrange(start as int, end as int)),
{
    let mut out: Vec<u8> = Vec::new();
    let mut i: usize = start;
    while i < end
        invariant
            start <= i <= end <= v@.len(),
            out@ == spec_encode_i64s(v@.subrange(start as int, i as int)),
        decreases end - i,
    {
        put_i64_be(&mut out, v[i]);
        proof {
            let pre = v@.subrange(start as int, i as int);
            let post = v@.subrange(start as int, i + 1);
            assert(post =~= pre + seq![v@[i as int]]);
            lemma_encode_i64s_concat(pre, seq![v@[i as int]]);
            assert(seq![v@[i as int]].drop_first() =~= Seq::<i64>::empty());
            assert(spec_encode_i64s(Seq::<i64>::empty()) =~= Seq::<u8>::empty());
            assert(spec_encode_i64s(seq![v@[i as int]]) =~= spec_i64_to_be_bytes(v@[i as int]));
        }
        i = i + 1;
    }
    out
}

/// Encodes the range `[start, end)` of an unsigned integer column, eight
/// big-endian bytes per element.
pub fn encode_u64s(v: &Vec<u64>, start: usize, end: usize) -> (out: Vec<u8>)
    requires
        start <= end <= v@.len(),
    ensures
        out@ == spec_encode_u64s(v@.subrange(start as int, end as int)),
{
    let mut out: Vec<u8> = Vec::new();
    let mut i: usize = start;
    while i < end
        invariant
            start <= i <= end <= v@.len(),
            out@ == spec_encode_u64s(v@.subrange(start as int, i as int)),
        decreases end - i,
    {
        put_u64_be(&mut out, v[i]);
        proof {
            let pre = v@.subrange(start as int, i as int);
            let post = v@.subrange(start as int, i + 1);
            assert(post =~= pre + seq![v@[i as int]]);
            lemma_encode_u64s_concat(pre, seq![v@[i as int]]);
            assert(seq![v@[i as int]].drop_first() =~= Seq::<u64>::empty());
            assert(spec_encode_u64s(Seq::<u64>::empty()) =~= Seq::<u8>::empty());
            assert(spec_encode_u64s(seq![v@[i as int]]) =~= spec_u64_to_be_bytes(v@[i as int]));
        }
        i = i + 1;
    }
    out
}

/// Encodes the range `[start, end)` of a boolean column, one byte per
/// element.
pub fn encode_bools(v: &Vec<bool>, start: usize, end: usize) -> (out: Vec<u8>)
    requires
        start <= end <= v@.len(),
    ensures
        out@ == spec_encode_bools(v@.subrange(start as int, end as int)),
{
    let mut out: Vec<u8> = Vec::new();
    let mut i: usize = start;
    while i < end
        invariant
            start <= i <= end <= v@.len(),
            out@ == spec_encode_bools(v@.subrange(start as int, i as int)),
        decreases end - i,
    {
        if v[i] {
            out.push(1u8);
        } else {
            out.push(0u8);
        }
        proof {
            let pre = v@.subrange(start as int, i as int);
            let post = v@.subrange(start as int, i + 1);
            assert(post =~= pre + seq![v@[i as int]]);
            lemma_encode_bools_concat(pre, seq![v@[i as int]]);
            assert(seq![v@[i as int]].drop_first() =~= Seq::<bool>::empty());
            assert(spec_encode_bools(Seq::<bool>::empty()) =~= Seq::<u8>::empty());
            assert(spec_encode_bools(seq![v@[i as int]]) =~= seq![
                if v@[i as int] {
                    1u8
                } else {
                    0u8
                },
            ]);
        }
        i = i + 1;
    }
    out
}

/// Appends the encoding of the range `[start, end)` of a byte-string column:
/// each string as its big-endian 32-bit length followed by its bytes.  Fails
/// exactly when some string in the range is longer than the length prefix
/// can hold.
pub fn encode_strs_range(v: &Vec<Vec<u8>>, start: usize, end: usize, out: &mut Vec<u8>) -> (r:
    Result<(), TsmError>)
    requires
        start <= end <= v@.len(),
    ensures
        r is Ok <==> (forall|i: int| start <= i < end ==> #[trigger] v@[i]@.len() <= u32::MAX),
        r is Ok ==> final(out)@ == old(out)@ + spec_encode_strs(
            v.deep_view().subrange(start as int, end as int),
        ),
{
    let ghost base = out@;
    let mut i: usize = start;
    while i < end
        invariant
            start <= i <= end <= v@.len(),
            out@ == base + spec_encode_strs(v.deep_view().subrange(start as int, i as int)),
            forall|j: int| start <= j < i ==> #[trigger] v@[j]@.len() <= u32::MAX,
        decreases end - i,
    {
        let s = &v[i];
        if s.len() > 0xffff_ffffusize {
            return Err(TsmError::write_err("string value too long to encode"));
        }
        put_u32_be(out, s.len() as u32);
        let mut k: usize = 0;
        let ghost mid = out@;
        while k < s.len()
            invariant
                0 <= k <= s@.len(),
                out@ == mid + s@.take(k as int),
            decreases s@.len() - k,
        {
            out.push(s[k]);
            proof {
                assert(s@.take(k + 1) =~= s@.take(k as int).push(s@[k as int]));
                assert(out@ =~= mid + s@.take(k + 1));
            }
            k = k + 1;
        }
        proof {
            let dv = v.deep_view();
            assert(s@.take(s@.len() as int) =~= s@);
            let pre = dv.subrange(start as int, i as int);
            let post = dv.subrange(start as int, i + 1);
            assert(post =~= pre + seq![dv[i as int]]);
            lemma_encode_strs_concat(pre, seq![dv[i as int]]);
            assert(seq![dv[i as int]].drop_first() =~= Seq::<Seq<u8>>::empty());
            assert(spec_encode_strs(Seq::<Seq<u8>>::empty()) =~= Seq::<u8>::empty());
            assert(spec_encode_strs(seq![dv[i as int]]) =~= spec_u32_to_be_bytes(
                dv[i as int].len() as u32,
            ) + dv[i as int]);
            assert(dv[i as int] == s@);
            assert(out@ =~= base + spec_encode_strs(post));
        }
        i = i + 1;
    }
    Ok(())
}

/// Encodes a whole byte-string column, as the writer does for a chunk that
/// spans it entirely.
pub fn encode_strs(v: &Vec<Vec<u8>>, out: &mut Vec<u8>) -> (r: Result<(), TsmError>)
    ensures
        r is Ok <==> (forall|i: int| 0 <= i < v@.len() ==> #[trigger] v@[i]@.len() <= u32::MAX),
        r is Ok ==> final(out)@ == old(out)@ + spec_encode_strs(v.deep_view()),
    {
    let n = v.len();
    let r = encode_strs_range(v, 0, n, out);
    proof {
        assert(v.deep_view().subrange(0, v@.len() as int) =~= v.deep_view());
    }
    r
}


/// Prepends already-decoded elements onto the result of decoding the rest.
pub open spec fn spec_prepend<T>(a: Seq<T>, rest: Option<Seq<T>>) -> Option<Seq<T>> {
    match rest {
        Some(r) => Some(a + r),
        None => None,
    }
}

/// The signed integer sequence a byte sequence decodes to, eight bytes per
/// element; fails when the length is not a multiple of eight.
pub open spec fn spec_decode_i64s(b: Seq<u8>) -> Option<Seq<i64>>
    decreases b.len(),
{
    if b.len() == 0 {
        Some(Seq::empty())
    } else if b.len() < 8 {
        None
    } else {
        spec_prepend(seq![spec_i64_from_be_bytes(b.take(8))], spec_decode_i64s(b.skip(8)))
    }
}

/// The unsigned integer sequence a byte sequence decodes to.
pub open spec fn spec_decode_u64s(b: Seq<u8>) -> Option<Seq<u64>>
    decreases b.len(),
{
    if b.len() == 0 {
        Some(Seq::empty())
    } else if b.len() < 8 {
        None
    } else {
        spec_prepend(seq![spec_u64_from_be_bytes(b.take(8))], spec_decode_u64s(b.skip(8)))
    }
}

/// The boolean sequence a byte sequence decodes to, one byte per element.
pub open spec fn spec_decode_bools(b: Seq<u8>) -> Option<Seq<bool>>
    decreases b.len(),
{
    if b.len() == 0 {
        Some(Seq::empty())
    } else {
        spec_prepend(seq![b.first() == 1u8], spec_decode_bools(b.drop_first()))
    }
}

/// The byte-string sequence a byte sequence decodes to: each element is a
/// big-endian 32-bit length followed by that many bytes.
pub open spec fn spec_decode_strs(b: Seq<u8>) -> Option<Seq<Seq<u8>>>
    decreases b.len(),
{
    if b.len() == 0 {
        Some(Seq::empty())
    } else if b.len() < 4 {
        None
    } else {
        let n = spec_u32_from_be_bytes(b.take(4)) as int;
        if b.len() < 4 + n {
            None
        } else {
            spec_prepend(seq![b.subrange(4, 4 + n)], spec_decode_strs(b.skip(4 + n)))
        }
    }
}

/// Decoding inverts encoding for signed integer sequences.
pub proof fn lemma_decode_encode_i64s(v: Seq<i64>)
    ensures
        spec_decode_i64s(spec_encode_i64s(v)) == Some(v),
    decreases v.len(),
{
    let b = spec_encode_i64s(v);
    if v.len() == 0 {
        assert(spec_decode_i64s(b) =~= Some(Seq::<i64>::empty()));
        assert(Seq::<i64>::empty() =~= v);
    } else {
        lemma_encode_i64s_len(v.drop_first());
        lemma_i64_be_bytes_round_trip(v.first());
        assert(b.take(8) =~= spec_i64_to_be_bytes(v.first()));
        assert(b.skip(8) =~= spec_encode_i64s(v.drop_first()));
        lemma_decode_encode_i64s(v.drop_first());
        assert(seq![v.first()] + v.drop_first() =~= v);
    }
}

/// Decoding inverts encoding for unsigned integer sequences.
pub proof fn lemma_decode_encode_u64s(v: Seq<u64>)
    ensures
        spec_decode_u64s(spec_encode_u64s(v)) == Some(v),
    decreases v.len(),
{
    let b = spec_encode_u64s(v);
    if v.len() == 0 {
        assert(spec_decode_u64s(b) =~= Some(Seq::<u64>::empty()));
        assert(Seq::<u64>::empty() =~= v);
    } else {
        lemma_encode_u64s_len(v.drop_first());
        lemma_u64_be_bytes_round_trip(v.first(), spec_u64_to_be_bytes(v.first()));
        assert(b.take(8) =~= spec_u64_to_be_bytes(v.first()));
        assert(b.skip(8) =~= spec_encode_u64s(v.drop_first()));
        lemma_decode_encode_u64s(v.drop_first());
        assert(seq![v.first()] + v.drop_first() =~= v);
    }
}

/// Decoding inverts encoding for boolean sequences.
pub proof fn lemma_decode_encode_bools(v: Seq<bool>)
    ensures
        spec_decode_bools(spec_encode_bools(v)) == Some(v),
    decreases v.len(),
{
    let b = spec_encode_bools(v);
    if v.len() == 0 {
        assert(spec_decode_bools(b) =~= Some(Seq::<bool>::empty()));
        assert(Seq::<bool>::empty() =~= v);
    } else {
        lemma_encode_bools_len(v.drop_first());
        assert(b.first() == if v.first() { 1u8 } else { 0u8 });
        assert(b.drop_first() =~= spec_encode_bools(v.drop_first()));
        lemma_decode_encode_bools(v.drop_first());
        assert((b.first() == 1u8) == v.first());
        assert(seq![v.first()] + v.drop_first() =~= v);
    }
}

/// Decoding inverts encoding for byte-string sequences whose strings fit the
/// 32-bit length prefix.
#[verifier::rlimit(80)]
#[verifier::spinoff_prover]
pub proof fn lemma_decode_encode_strs(v: Seq<Seq<u8>>)
    requires
        forall|i: int| 0 <= i < v.len() ==> #[trigger] v[i].len() <= u32::MAX,
    ensures
        spec_decode_strs(spec_encode_strs(v)) == Some(v),
    decreases v.len(),
{
    let b = spec_encode_strs(v);
    if v.len() == 0 {
        assert(spec_decode_strs(b) =~= Some(Seq::<Seq<u8>>::empty()));
        assert(Seq::<Seq<u8>>::empty() =~= v);
    } else {
        let first = v.first();
        assert(v[0] == first);
        let n = first.len() as int;
        lemma_u32_be_bytes_round_trip(first.len() as u32, spec_u32_to_be_bytes(first.len() as u32));
        assert(b.take(4) =~= spec_u32_to_be_bytes(first.len() as u32));
        assert(spec_u32_from_be_bytes(b.take(4)) as int == n);
        assert(b.len() >= 4 + n);
        assert(b.subrange(4, 4 + n) =~= first);
        assert(b.skip(4 + n) =~= spec_encode_strs(v.drop_first()));
        assert forall|i: int| 0 <= i < v.drop_first().len() implies #[trigger] v.drop_first()[
            i
        ].len() <= u32::MAX by {
            assert(v.drop_first()[i] == v[i + 1]);
        }
        lemma_decode_encode_strs(v.drop_first());
        assert(seq![first] + v.drop_first() =~= v);
    }
}

/// Decodes a byte sequence as eight-byte big-endian signed integers; the
/// exact inverse of `encode_i64s` over a whole buffer.
pub fn decode_i64s(buf: &Vec<u8>) -> (r: Option<Vec<i64>>)
    ensures
        r is Some <==> spec_decode_i64s(buf@) is Some,
        r matches Some(v) ==> Some(v@) == spec_decode_i64s(buf@),
{
    let n = buf.len();
    let mut acc: Vec<i64> = Vec::new();
    let mut pos: usize = 0;
    proof {
        assert(buf@.skip(0) =~= buf@);
        if spec_decode_i64s(buf@) is Some {
            assert(Seq::<i64>::empty() + spec_decode_i64s(buf@)->0 =~= spec_decode_i64s(buf@)->0);
        }
    }
    while n - pos >= 8
        invariant
            n == buf@.len(),
            0 <= pos <= n,
            spec_decode_i64s(buf@) == spec_prepend(acc@, spec_decode_i64s(buf@.skip(pos as int))),
        decreases n - pos,
    {
        let x = get_i64_be(buf, pos);
        proof {
            let rem = buf@.skip(pos as int);
            assert(rem.take(8) =~= buf@.subrange(pos as int, pos + 8));
            assert(rem.skip(8) =~= buf@.skip(pos + 8));
            assert(spec_decode_i64s(rem) == spec_prepend(
                seq![spec_i64_from_be_bytes(rem.take(8))],
                spec_decode_i64s(buf@.skip(pos + 8)),
            ));
            if spec_decode_i64s(buf@.skip(pos + 8)) is Some {
                let tail = spec_decode_i64s(buf@.skip(pos + 8))->0;
                assert(acc@ + (seq![x] + tail) =~= acc@.push(x) + tail);
            }
        }
        acc.push(x);
        pos = pos + 8;
    }
    if pos == n {
        proof {
            assert(buf@.skip(n as int) =~= Seq::<u8>::empty());
            assert(acc@ + Seq::<i64>::empty() =~= acc@);
        }
        Some(acc)
    } else {
        None
    }
}

/// Decodes a byte sequence as eight-byte big-endian unsigned integers.
pub fn decode_u64s(buf: &Vec<u8>) -> (r: Option<Vec<u64>>)
    ensures
        r is Some <==> spec_decode_u64s(buf@) is Some,
        r matches Some(v) ==> Some(v@) == spec_decode_u64s(buf@),
{
    let n = buf.len();
    let mut acc: Vec<u64> = Vec::new();
    let mut pos: usize = 0;
    proof {
        assert(buf@.skip(0) =~= buf@);
        if spec_decode_u64s(buf@) is Some {
            assert(Seq::<u64>::empty() + spec_decode_u64s(buf@)->0 =~= spec_decode_u64s(buf@)->0);
        }
    }
    while n - pos >= 8
        invariant
            n == buf@.len(),
            0 <= pos <= n,
            spec_decode_u64s(buf@) == spec_prepend(acc@, spec_decode_u64s(buf@.skip(pos as int))),
        decreases n - pos,
    {
        let x = get_u64_be(buf, pos);
        proof {
            let rem = buf@.skip(pos as int);
            assert(rem.take(8) =~= buf@.subrange(pos as int, pos + 8));
            assert(rem.skip(8) =~= buf@.skip(pos + 8));
            assert(spec_decode_u64s(rem) == spec_prepend(
                seq![spec_u64_from_be_bytes(rem.take(8))],
                spec_decode_u64s(buf@.skip(pos + 8)),
            ));
            if spec_decode_u64s(buf@.skip(pos + 8)) is Some {
                let tail = spec_decode_u64s(buf@.skip(pos + 8))->0;
                assert(acc@ + (seq![x] + tail) =~= acc@.push(x) + tail);
            }
        }
        acc.push(x);
        pos = pos + 8;
    }
    if pos == n {
        proof {
            assert(buf@.skip(n as int) =~= Seq::<u8>::empty());
            assert(acc@ + Seq::<u64>::empty() =~= acc@);
        }
        Some(acc)
    } else {
        None
    }
}

/// Decodes a byte sequence as booleans, one byte per element.
pub fn decode_bools(buf: &Vec<u8>) -> (r: Vec<bool>)
    ensures
        Some(r@) == spec_decode_bools(buf@),
{
    let n = buf.len();
    let mut acc: Vec<bool> = Vec::new();
    let mut pos: usize = 0;
    proof {
        assert(buf@.skip(0) =~= buf@);
        if spec_decode_bools(buf@) is Some {
            assert(Seq::<bool>::empty() + spec_decode_bools(buf@)->0 =~= spec_decode_bools(
                buf@,
            )->0);
        }
    }
    while pos < n
        invariant
            n == buf@.len(),
            0 <= pos <= n,
            spec_decode_bools(buf@) == spec_prepend(acc@, spec_decode_bools(buf@.skip(pos as int))),
        decreases n - pos,
    {
        let x: bool = buf[pos] == 1u8;
        proof {
            let rem = buf@.skip(pos as int);
            assert(rem.first() == buf@[pos as int]);
            assert(rem.drop_first() =~= buf@.skip(pos + 1));
            if spec_decode_bools(buf@.skip(pos + 1)) is Some {
                let tail = spec_decode_bools(buf@.skip(pos + 1))->0;
                assert(acc@ + (seq![x] + tail) =~= acc@.push(x) + tail);
            }
        }
        acc.push(x);
        pos = pos + 1;
    }
    proof {
        assert(buf@.skip(n as int) =~= Seq::<u8>::empty());
        assert(acc@ + Seq::<bool>::empty() =~= acc@);
    }
    acc
}

/// Decodes a byte sequence as length-prefixed byte strings.
pub fn decode_strs(buf: &Vec<u8>) -> (r: Option<Vec<Vec<u8>>>)
    ensures
        r is Some <==> spec_decode_strs(buf@) is Some,
        r matches Some(v) ==> Some(v.deep_view()) == spec_decode_strs(buf@),
{
    let n = buf.len();
    let mut acc: Vec<Vec<u8>> = Vec::new();
    let mut pos: usize = 0;
    proof {
        assert(buf@.skip(0) =~= buf@);
        if spec_decode_strs(buf@) is Some {
            assert(Seq::<Seq<u8>>::empty() + spec_decode_strs(buf@)->0 =~= spec_decode_strs(
                buf@,
            )->0);
        }
    }
    while pos < n
        invariant
            n == buf@.len(),
            0 <= pos <= n,
            spec_decode_strs(buf@) == spec_prepend(
                acc.deep_view(),
                spec_decode_strs(buf@.skip(pos as int)),
            ),
        decreases n - pos,
    {
        if n - pos < 4 {
            proof {
                let rem = buf@.skip(pos as int);
                assert(rem.len() < 4 && rem.len() > 0);
            }
            return None;
        }
        let len32 = get_u32_be(buf, pos);
        let len: usize = len32 as usize;
        proof {
            let rem = buf@.skip(pos as int);
            assert(rem.take(4) =~= buf@.subrange(pos as int, pos + 4));
        }
        if n - pos - 4 < len {
            proof {
                let rem = buf@.skip(pos as int);
                assert(rem.len() < 4 + len32 as int);
            }
            return None;
        }
        let mut s: Vec<u8> = Vec::new();
        let mut k: usize = 0;
        while k < len
            invariant
                n == buf@.len(),
                pos + 4 + len <= n,
                0 <= k <= len,
                s@ == buf@.subrange(pos + 4, pos + 4 + k),
            decreases len - k,
        {
            s.push(buf[pos + 4 + k]);
            proof {
                assert(buf@.subrange(pos + 4, pos + 4 + (k + 1)) =~= buf@.subrange(
                    pos + 4,
                    pos + 4 + k,
                ).push(buf@[pos + 4 + k]));
            }
            k = k + 1;
        }
        proof {
            let rem = buf@.skip(pos as int);
            let m = len as int;
            assert(rem.subrange(4, 4 + m) =~= buf@.subrange(pos + 4, pos + 4 + m));
            assert(rem.skip(4 + m) =~= buf@.skip(pos + 4 + m));
            assert(spec_decode_strs(rem) == spec_prepend(
                seq![s@],
                spec_decode_strs(buf@.skip(pos + 4 + m)),
            ));
            if spec_decode_strs(buf@.skip(pos + 4 + m)) is Some {
                let tail = spec_decode_strs(buf@.skip(pos + 4 + m))->0;
                assert(acc.deep_view() + (seq![s@] + tail) =~~= acc.deep_view().push(s@) + tail);
            }
            let ghost prev = acc.deep_view();
            assert(prev.push(s@) =~~= acc.deep_view().push(s@));
        }
        let ghost prev_acc = acc.deep_view();
        acc.push(s);
        proof {
            assert(acc.deep_view() =~~= prev_acc.push(buf@.subrange(
                pos + 4,
                pos + 4 + len as int,
            )));
        }
        pos = pos + 4 + len;
    }
    proof {
        assert(buf@.skip(n as int) =~= Seq::<u8>::empty());
        assert(acc.deep_view() + Seq::<Seq<u8>>::empty() =~~= acc.deep_view());
    }
    Some(acc)
}

/// How many chunks a field of `n` points yields under chunk cap `cap`:
/// the ceiling of `n / cap`.
pub open spec fn spec_block_count(n: int, cap: int) -> int
    recommends
        n >= 1,
        cap >= 1,
{
    (n + cap - 1) / cap
}

/// The length of the first chunk: the remainder `n % cap`, except that a
/// field whose point count is an exact multiple of the cap starts with a
/// full chunk.
pub open spec fn spec_first_chunk_len(n: int, cap: int) -> int
    recommends
        n >= 1,
        cap >= 1,
{
    if n % cap == 0 {
        cap
    } else {
        n % cap
    }
}

/// The point index one past chunk `i`: the first chunk absorbs the
/// remainder, every later chunk is exactly `cap` points.
pub open spec fn spec_chunk_end(n: int, cap: int, i: int) -> int {
    spec_first_chunk_len(n, cap) + i * cap
}

/// The point index where chunk `i` begins.
pub open spec fn spec_chunk_start(n: int, cap: int, i: int) -> int {
    if i == 0 {
        0
    } else {
        spec_chunk_end(n, cap, i - 1)
    }
}

/// The chunk layout law: a field of `n` points splits into exactly
/// `ceil(n / cap)` chunks; consecutive chunks tile `[0, n)` with no gap and
/// no overlap, in order; every chunk is non-empty and at most `cap` points;
/// and the count also equals `(n - 1) / cap + 1`, the form the writer
/// computes.
pub proof fn lemma_chunk_layout(n: int, cap: int)
    requires
        n >= 1,
        cap >= 1,
    ensures
        spec_block_count(n, cap) == (n - 1) / cap + 1,
        1 <= spec_block_count(n, cap) <= n,
        spec_chunk_start(n, cap, 0) == 0,
        spec_chunk_end(n, cap, spec_block_count(n, cap) - 1) == n,
        forall|i: int|
            0 <= i < spec_block_count(n, cap) ==> #[trigger] spec_chunk_start(n, cap, i)
                < spec_chunk_end(n, cap, i) <= n,
        forall|i: int|
            0 <= i < spec_block_count(n, cap) ==> #[trigger] spec_chunk_end(n, cap, i)
                - spec_chunk_start(n, cap, i) <= cap,
        forall|i: int|
            1 <= i < spec_block_count(n, cap) ==> #[trigger] spec_chunk_start(n, cap, i)
                == spec_chunk_end(n, cap, i - 1),
{
    vstd::arithmetic::div_mod::lemma_fundamental_div_mod(n, cap);
    let q = n / cap;
    let r = n % cap;
    assert(cap * q + r == n);
    let c = spec_block_count(n, cap);
    let first = spec_first_chunk_len(n, cap);
    if r == 0 {
        assert(n == q * cap) by (nonlinear_arith)
            requires
                cap * q + r == n && r == 0,
        ;
        assert(q >= 1) by (nonlinear_arith)
            requires
                n == q * cap && n >= 1 && cap >= 1,
        ;
        assert((q - 1) * cap == q * cap - cap && q * cap == cap * q) by (nonlinear_arith);
        vstd::arithmetic::div_mod::lemma_fundamental_div_mod_converse(n + cap - 1, cap, q, cap - 1);
        assert(c == q);
        vstd::arithmetic::div_mod::lemma_fundamental_div_mod_converse(n - 1, cap, q - 1, cap - 1);
        assert((n - 1) / cap + 1 == q);
        assert(first == cap);
        assert(spec_chunk_end(n, cap, c - 1) == cap + (q - 1) * cap);
        assert(cap + (q - 1) * cap == q * cap) by (nonlinear_arith);
    } else {
        assert(n == q * cap + r) by (nonlinear_arith)
            requires
                cap * q + r == n,
        ;
        assert(q >= 0) by (nonlinear_arith)
            requires
                n == q * cap + r && n >= 1 && cap >= 1 && 0 <= r < cap,
        ;
        assert((q + 1) * cap == q * cap + cap && q * cap == cap * q) by (nonlinear_arith);
        vstd::arithmetic::div_mod::lemma_fundamental_div_mod_converse(n + cap - 1, cap, q + 1, r - 1);
        assert(c == q + 1);
        vstd::arithmetic::div_mod::lemma_fundamental_div_mod_converse(n - 1, cap, q, r - 1);
        assert((n - 1) / cap + 1 == q + 1);
        assert(first == r);
        assert(spec_chunk_end(n, cap, c - 1) == r + q * cap);
    }
    assert(1 <= first <= cap);
    assert(c <= n) by (nonlinear_arith)
        requires
            first + (c - 1) * cap == n && 1 <= first <= cap && cap >= 1 && c >= 1,
    ;
    assert forall|i: int| 0 <= i < c implies #[trigger] spec_chunk_start(n, cap, i)
        < spec_chunk_end(n, cap, i) <= n by {
        assert(spec_chunk_end(n, cap, i) == first + i * cap);
        if i == 0 {
            assert(spec_chunk_start(n, cap, i) == 0);
        } else {
            assert(spec_chunk_start(n, cap, i) == first + (i - 1) * cap);
            assert((i - 1) * cap < i * cap) by (nonlinear_arith)
                requires
                    cap >= 1,
            ;
        }
        assert(i * cap <= (c - 1) * cap) by (nonlinear_arith)
            requires
                i <= c - 1 && cap >= 1,
        ;
    }
    assert forall|i: int| 0 <= i < c implies #[trigger] spec_chunk_end(n, cap, i)
        - spec_chunk_start(n, cap, i) <= cap by {
        if i > 0 {
            assert(i * cap - (i - 1) * cap == cap) by (nonlinear_arith);
        }
    }
}


/// Round trip: encoding any range of a well-formed block and decoding the
/// two byte sequences yields exactly the original timestamps and values of
/// that range, for every supported value type.
pub proof fn lemma_block_round_trip(b: DataBlock, start: int, end: int)
    requires
        b.vals_wf(),
        0 <= start <= end <= b.spec_len(),
    ensures
        spec_decode_i64s(b.spec_encode_ts_range(start, end)) == Some(
            b.ts_seq().subrange(start, end),
        ),
        b.vtype() == ValueType::Float ==> spec_decode_u64s(b.spec_encode_val_range(start, end))
            == Some(b.f64_vals().subrange(start, end)),
        b.vtype() == ValueType::Integer ==> spec_decode_i64s(b.spec_encode_val_range(start, end))
            == Some(b.i64_vals().subrange(start, end)),
        b.vtype() == ValueType::Unsigned ==> spec_decode_u64s(b.spec_encode_val_range(start, end))
            == Some(b.u64_vals().subrange(start, end)),
        b.vtype() == ValueType::Boolean ==> spec_decode_bools(b.spec_encode_val_range(start, end))
            == Some(b.bool_vals().subrange(start, end)),
        b.vtype() == ValueType::Str ==> spec_decode_strs(b.spec_encode_val_range(start, end))
            == Some(b.str_vals().subrange(start, end)),
{
    lemma_decode_encode_i64s(b.ts_seq().subrange(start, end));
    match b {
        DataBlock::F64 { val, .. } => {
            lemma_decode_encode_u64s(val@.subrange(start, end));
        },
        DataBlock::I64 { val, .. } => {
            lemma_decode_encode_i64s(val@.subrange(start, end));
        },
        DataBlock::U64 { val, .. } => {
            lemma_decode_encode_u64s(val@.subrange(start, end));
        },
        DataBlock::Bool { val, .. } => {
            lemma_decode_encode_bools(val@.subrange(start, end));
        },
        DataBlock::Str { val, .. } => {
            let dv = val.deep_view();
            let sub = dv.subrange(start, end);
            assert forall|i: int| 0 <= i < sub.len() implies #[trigger] sub[i].len()
                <= u32::MAX by {
                assert(sub[i] == dv[start + i]);
                assert(dv[start + i] == val@[start + i]@);
            }
            lemma_decode_encode_strs(sub);
        },
    }
}

/// Adjacent subranges concatenate to the enclosing subrange; with the chunk
/// layout law this says reading every chunk of a field back in order yields
/// the full original series exactly once.
pub proof fn lemma_subrange_concat<T>(s: Seq<T>, a: int, mid: int, c: int)
    requires
        0 <= a <= mid <= c <= s.len(),
    ensures
        s.subrange(a, mid) + s.subrange(mid, c) == s.subrange(a, c),
{
    assert(s.subrange(a, mid) + s.subrange(mid, c) =~= s.subrange(a, c));
}


/// Round trip through the chunked layout: chunk `i` of a well-formed field
/// decodes back to exactly its slice of the original series, and the chunks
/// tile the series contiguously in order — the first starts at zero, each
/// later one starts where the previous ended, the last ends at the point
/// count — so decoding every chunk in order reproduces the whole field, for
/// every supported value type.
pub proof fn lemma_field_round_trip(b: DataBlock, cap: int, i: int)
    requires
        b.wf(),
        b.spec_len() >= 1,
        cap >= 1,
        0 <= i < spec_block_count(b.spec_len() as int, cap),
    ensures
        ({
            let n = b.spec_len() as int;
            let s = spec_chunk_start(n, cap, i);
            let e = spec_chunk_end(n, cap, i);
            &&& 0 <= s < e <= n
            &&& e - s <= cap
            &&& (i == 0 ==> s == 0)
            &&& (i > 0 ==> s == spec_chunk_end(n, cap, i - 1))
            &&& (i == spec_block_count(n, cap) - 1 ==> e == n)
            &&& spec_decode_i64s(b.spec_encode_ts_range(s, e)) == Some(b.ts_seq().subrange(s, e))
            &&& (b.vtype() == ValueType::Float ==> spec_decode_u64s(
                b.spec_encode_val_range(s, e),
            ) == Some(b.f64_vals().subrange(s, e)))
            &&& (b.vtype() == ValueType::Integer ==> spec_decode_i64s(
                b.spec_encode_val_range(s, e),
            ) == Some(b.i64_vals().subrange(s, e)))
            &&& (b.vtype() == ValueType::Unsigned ==> spec_decode_u64s(
                b.spec_encode_val_range(s, e),
            ) == Some(b.u64_vals().subrange(s, e)))
            &&& (b.vtype() == ValueType::Boolean ==> spec_decode_bools(
                b.spec_encode_val_range(s, e),
            ) == Some(b.bool_vals().subrange(s, e)))
            &&& (b.vtype() == ValueType::Str ==> spec_decode_strs(b.spec_encode_val_range(s, e))
                == Some(b.str_vals().subrange(s, e)))
        }),
{
    let n = b.spec_len() as int;
    lemma_chunk_layout(n, cap);
    let s = spec_chunk_start(n, cap, i);
    let e = spec_chunk_end(n, cap, i);
    lemma_block_round_trip(b, s, e);
}


/// The concatenation of a column's chunk slices `[0, i)`, in chunk order.
pub open spec fn spec_chunk_slices<T>(s: Seq<T>, n: int, cap: int, i: int) -> Seq<T>
    decreases i,
{
    if i <= 0 {
        Seq::empty()
    } else {
        spec_chunk_slices(s, n, cap, i - 1) + s.subrange(
            spec_chunk_start(n, cap, i - 1),
            spec_chunk_end(n, cap, i - 1),
        )
    }
}

/// The chunk slices of a column concatenate, in order, to exactly the prefix
/// they tile; over all chunks, to the whole column — no duplication, no gap.
pub proof fn lemma_chunk_slices_cover<T>(s: Seq<T>, cap: int, i: int)
    requires
        s.len() >= 1,
        cap >= 1,
        0 <= i <= spec_block_count(s.len() as int, cap),
    ensures
        spec_chunk_slices(s, s.len() as int, cap, i) == s.subrange(
            0,
            if i == 0 {
                0int
            } else {
                spec_chunk_end(s.len() as int, cap, i - 1)
            },
        ),
        i == spec_block_count(s.len() as int, cap) ==> spec_chunk_slices(
            s,
            s.len() as int,
            cap,
            i,
        ) == s,
    decreases i,
{
    let n = s.len() as int;
    lemma_chunk_layout(n, cap);
    if i == 0 {
        assert(spec_chunk_slices(s, n, cap, 0) =~= s.subrange(0, 0));
    } else {
        lemma_chunk_slices_cover(s, cap, i - 1);
        let e_prev: int = if i - 1 == 0 {
            0
        } else {
            spec_chunk_end(n, cap, i - 2)
        };
        assert(spec_chunk_start(n, cap, i - 1) == e_prev);
        assert(0 <= e_prev <= spec_chunk_end(n, cap, i - 1) <= n);
        lemma_subrange_concat(s, 0, e_prev, spec_chunk_end(n, cap, i - 1));
    }
    if i == spec_block_count(n, cap) {
        assert(s.subrange(0, n) =~= s);
    }
}

/// Chunk `i` of a field decodes back to exactly its slice of the original
/// series: the timestamps, and the values for the field's value type.
pub open spec fn spec_chunk_decodes(b: DataBlock, cap: int, i: int) -> bool {
    let n = b.spec_len() as int;
    let s = spec_chunk_start(n, cap, i);
    let e = spec_chunk_end(n, cap, i);
    &&& spec_decode_i64s(b.spec_encode_ts_range(s, e)) == Some(b.ts_seq().subrange(s, e))
    &&& (b.vtype() == ValueType::Float ==> spec_decode_u64s(b.spec_encode_val_range(s, e)) == Some(
        b.f64_vals().subrange(s, e),
    ))
    &&& (b.vtype() == ValueType::Integer ==> spec_decode_i64s(b.spec_encode_val_range(s, e))
        == Some(b.i64_vals().subrange(s, e)))
    &&& (b.vtype() == ValueType::Unsigned ==> spec_decode_u64s(b.spec_encode_val_range(s, e))
        == Some(b.u64_vals().subrange(s, e)))
    &&& (b.vtype() == ValueType::Boolean ==> spec_decode_bools(b.spec_encode_val_range(s, e))
        == Some(b.bool_vals().subrange(s, e)))
    &&& (b.vtype() == ValueType::Str ==> spec_decode_strs(b.spec_encode_val_range(s, e)) == Some(
        b.str_vals().subrange(s, e),
    ))
}

/// The whole-field round trip: every chunk of a well-formed field decodes
/// back to exactly its slice of the original series, and the chunk slices
/// concatenate, in order, to exactly the whole series — writing a field and
/// reading it back is the identity, for every supported value type.
pub proof fn lemma_whole_field_round_trip(b: DataBlock, cap: int)
    requires
        b.wf(),
        1 <= b.spec_len(),
        cap >= 1,
    ensures
        ({
            let n = b.spec_len() as int;
            let count = spec_block_count(n, cap);
            &&& spec_chunk_slices(b.ts_seq(), n, cap, count) == b.ts_seq()
            &&& (b.vtype() == ValueType::Float ==> spec_chunk_slices(b.f64_vals(), n, cap, count)
                == b.f64_vals())
            &&& (b.vtype() == ValueType::Integer ==> spec_chunk_slices(b.i64_vals(), n, cap, count)
                == b.i64_vals())
            &&& (b.vtype() == ValueType::Unsigned ==> spec_chunk_slices(b.u64_vals(), n, cap, count)
                == b.u64_vals())
            &&& (b.vtype() == ValueType::Boolean ==> spec_chunk_slices(b.bool_vals(), n, cap, count)
                == b.bool_vals())
            &&& (b.vtype() == ValueType::Str ==> spec_chunk_slices(b.str_vals(), n, cap, count)
                == b.str_vals())
            &&& forall|i: int| 0 <= i < count ==> #[trigger] spec_chunk_decodes(b, cap, i)
        }),
{
    let n = b.spec_len() as int;
    let count = spec_block_count(n, cap);
    lemma_chunk_layout(n, cap);
    lemma_chunk_slices_cover(b.ts_seq(), cap, count);
    match b {
        DataBlock::F64 { .. } => {
            lemma_chunk_slices_cover(b.f64_vals(), cap, count);
        },
        DataBlock::I64 { .. } => {
            lemma_chunk_slices_cover(b.i64_vals(), cap, count);
        },
        DataBlock::U64 { .. } => {
            lemma_chunk_slices_cover(b.u64_vals(), cap, count);
        },
        DataBlock::Bool { .. } => {
            lemma_chunk_slices_cover(b.bool_vals(), cap, count);
        },
        DataBlock::Str { .. } => {
            lemma_chunk_slices_cover(b.str_vals(), cap, count);
        },
    }
    assert forall|i: int| 0 <= i < count implies #[trigger] spec_chunk_decodes(b, cap, i) by {
        lemma_block_round_trip(b, spec_chunk_start(n, cap, i), spec_chunk_end(n, cap, i));
    }
}

} // verus!
