//! Big-endian byte-level encoding of the fixed-width integers that appear in
//! the file format, together with the inverse readers and round-trip proofs.

use vstd::prelude::*;

verus! {

/// The two big-endian bytes of a 16-bit integer, most significant first.
pub open spec fn spec_u16_to_be_bytes(x: u16) -> Seq<u8> {
    seq![((x >> 8) & 0xff) as u8, (x & 0xff) as u8]
}

/// The 16-bit integer read big-endian from two bytes.
pub open spec fn spec_u16_from_be_bytes(s: Seq<u8>) -> u16
    recommends
        s.len() == 2,
{
    ((s[0] as u16) << 8 | (s[1] as u16)) as u16
}

/// The four big-endian bytes of a 32-bit integer, most significant first.
pub open spec fn spec_u32_to_be_bytes(x: u32) -> Seq<u8> {
    seq![
        ((x >> 24) & 0xff) as u8,
        ((x >> 16) & 0xff) as u8,
        ((x >> 8) & 0xff) as u8,
        (x & 0xff) as u8,
    ]
}

/// The 32-bit integer read big-endian from four bytes.
pub open spec fn spec_u32_from_be_bytes(s: Seq<u8>) -> u32
    recommends
        s.len() == 4,
{
    ((s[0] as u32) << 24 | (s[1] as u32) << 16 | (s[2] as u32) << 8 | (s[3] as u32)) as u32
}

/// The eight big-endian bytes of a 64-bit integer, most significant first.
pub open spec fn spec_u64_to_be_bytes(x: u64) -> Seq<u8> {
    seq![
        ((x >> 56) & 0xff) as u8,
        ((x >> 48) & 0xff) as u8,
        ((x >> 40) & 0xff) as u8,
        ((x >> 32) & 0xff) as u8,
        ((x >> 24) & 0xff) as u8,
        ((x >> 16) & 0xff) as u8,
        ((x >> 8) & 0xff) as u8,
        (x & 0xff) as u8,
    ]
}

/// The 64-bit integer read big-endian from eight bytes.
pub open spec fn spec_u64_from_be_bytes(s: Seq<u8>) -> u64
    recommends
        s.len() == 8,
{
    ((s[0] as u64) << 56 | (s[1] as u64) << 48 | (s[2] as u64) << 40 | (s[3] as u64) << 32 | (
    s[4] as u64) << 24 | (s[5] as u64) << 16 | (s[6] as u64) << 8 | (s[7] as u64)) as u64
}

/// Signed 64-bit integers are laid out as the big-endian bytes of their
/// two's-complement bit pattern.
pub open spec fn spec_i64_to_be_bytes(x: i64) -> Seq<u8> {
    spec_u64_to_be_bytes(x as u64)
}

/// The signed 64-bit integer read big-endian from eight bytes.
pub open spec fn spec_i64_from_be_bytes(s: Seq<u8>) -> i64
    recommends
        s.len() == 8,
{
    spec_u64_from_be_bytes(s) as i64
}

/// Writing two big-endian bytes and reading them back yields the original
/// 16-bit integer; reading then writing reproduces the bytes.
pub proof fn lemma_u16_be_bytes_round_trip(x: u16, s: Seq<u8>)
    requires
        s.len() == 2,
    ensures
        spec_u16_to_be_bytes(x).len() == 2,
        spec_u16_from_be_bytes(spec_u16_to_be_bytes(x)) == x,
        spec_u16_to_be_bytes(spec_u16_from_be_bytes(s)) == s,
{
    assert(((((x >> 8) & 0xff) as u8) as u16) << 8 | (((x & 0xff) as u8) as u16) == x)
        by (bit_vector);
    let s0 = s[0] as u16;
    let s1 = s[1] as u16;
    let y = spec_u16_from_be_bytes(s);
    assert((y == (s0 << 8 | s1) as u16 && s0 < 256 && s1 < 256) ==> ((y >> 8) & 0xff) == s0 && (y
        & 0xff) == s1) by (bit_vector);
    assert(spec_u16_to_be_bytes(spec_u16_from_be_bytes(s)) =~= s);
}

/// Writing four big-endian bytes and reading them back yields the original
/// 32-bit integer; reading then writing reproduces the bytes.
pub proof fn lemma_u32_be_bytes_round_trip(x: u32, s: Seq<u8>)
    requires
        s.len() == 4,
    ensures
        spec_u32_to_be_bytes(x).len() == 4,
        spec_u32_from_be_bytes(spec_u32_to_be_bytes(x)) == x,
        spec_u32_to_be_bytes(spec_u32_from_be_bytes(s)) == s,
{
    assert(((((x >> 24) & 0xff) as u8) as u32) << 24 | ((((x >> 16) & 0xff) as u8) as u32) << 16
        | ((((x >> 8) & 0xff) as u8) as u32) << 8 | (((x & 0xff) as u8) as u32) == x)
        by (bit_vector);
    let s0 = s[0] as u32;
    let s1 = s[1] as u32;
    let s2 = s[2] as u32;
    let s3 = s[3] as u32;
    let y = spec_u32_from_be_bytes(s);
    assert((y == (s0 << 24 | s1 << 16 | s2 << 8 | s3) as u32 && s0 < 256 && s1 < 256 && s2 < 256
        && s3 < 256) ==> ((y >> 24) & 0xff) == s0 && ((y >> 16) & 0xff) == s1 && ((y >> 8)
        & 0xff) == s2 && (y & 0xff) == s3) by (bit_vector);
    assert(spec_u32_to_be_bytes(spec_u32_from_be_bytes(s)) =~= s);
}

/// Writing eight big-endian bytes and reading them back yields the original
/// 64-bit integer; reading then writing reproduces the bytes.
pub proof fn lemma_u64_be_bytes_round_trip(x: u64, s: Seq<u8>)
    requires
        s.len() == 8,
    ensures
        spec_u64_to_be_bytes(x).len() == 8,
        spec_u64_from_be_bytes(spec_u64_to_be_bytes(x)) == x,
        spec_u64_to_be_bytes(spec_u64_from_be_bytes(s)) == s,
{
    assert(((((x >> 56) & 0xff) as u8) as u64) << 56 | ((((x >> 48) & 0xff) as u8) as u64) << 48
        | ((((x >> 40) & 0xff) as u8) as u64) << 40 | ((((x >> 32) & 0xff) as u8) as u64) << 32
        | ((((x >> 24) & 0xff) as u8) as u64) << 24 | ((((x >> 16) & 0xff) as u8) as u64) << 16
        | ((((x >> 8) & 0xff) as u8) as u64) << 8 | (((x & 0xff) as u8) as u64) == x)
        by (bit_vector);
    let s0 = s[0] as u64;
    let s1 = s[1] as u64;
    let s2 = s[2] as u64;
    let s3 = s[3] as u64;
    let s4 = s[4] as u64;
    let s5 = s[5] as u64;
    let s6 = s[6] as u64;
    let s7 = s[7] as u64;
    let y = spec_u64_from_be_bytes(s);
    assert((y == (s0 << 56 | s1 << 48 | s2 << 40 | s3 << 32 | s4 << 24 | s5 << 16 | s6 << 8
        | s7) as u64 && s0 < 256 && s1 < 256 && s2 < 256 && s3 < 256 && s4 < 256 && s5 < 256 && s6
        < 256 && s7 < 256) ==> ((y >> 56) & 0xff) == s0 && ((y >> 48) & 0xff) == s1 && ((y >> 40)
        & 0xff) == s2 && ((y >> 32) & 0xff) == s3 && ((y >> 24) & 0xff) == s4 && ((y >> 16)
        & 0xff) == s5 && ((y >> 8) & 0xff) == s6 && (y & 0xff) == s7) by (bit_vector);
    assert(spec_u64_to_be_bytes(spec_u64_from_be_bytes(s)) =~= s);
}

/// Writing eight big-endian bytes and reading them back yields the original
/// signed 64-bit integer.
pub proof fn lemma_i64_be_bytes_round_trip(x: i64)
    ensures
        spec_i64_to_be_bytes(x).len() == 8,
        spec_i64_from_be_bytes(spec_i64_to_be_bytes(x)) == x,
{
    let u = x as u64;
    lemma_u64_be_bytes_round_trip(u, spec_u64_to_be_bytes(u));
    assert((x as u64) as i64 == x) by (bit_vector);
}

/// Appends the two big-endian bytes of a 16-bit integer to a byte buffer.
pub fn put_u16_be(out: &mut Vec<u8>, x: u16)
    ensures
        final(out)@ == old(out)@ + spec_u16_to_be_bytes(x),
{
    out.push(((x >> 8) & 0xff) as u8);
    out.push((x & 0xff) as u8);
    assert(out@ =~= old(out)@ + spec_u16_to_be_bytes(x));
}

/// Appends the four big-endian bytes of a 32-bit integer to a byte buffer.
pub fn put_u32_be(out: &mut Vec<u8>, x: u32)
    ensures
        final(out)@ == old(out)@ + spec_u32_to_be_bytes(x),
{
    out.push(((x >> 24) & 0xff) as u8);
    out.push(((x >> 16) & 0xff) as u8);
    out.push(((x >> 8) & 0xff) as u8);
    out.push((x & 0xff) as u8);
    assert(out@ =~= old(out)@ + spec_u32_to_be_bytes(x));
}

/// Appends the eight big-endian bytes of a 64-bit integer to a byte buffer.
pub fn put_u64_be(out: &mut Vec<u8>, x: u64)
    ensures
        final(out)@ == old(out)@ + spec_u64_to_be_bytes(x),
{
    out.push(((x >> 56) & 0xff) as u8);
    out.push(((x >> 48) & 0xff) as u8);
    out.push(((x >> 40) & 0xff) as u8);
    out.push(((x >> 32) & 0xff) as u8);
    out.push(((x >> 24) & 0xff) as u8);
    out.push(((x >> 16) & 0xff) as u8);
    out.push(((x >> 8) & 0xff) as u8);
    out.push((x & 0xff) as u8);
    assert(out@ =~= old(out)@ + spec_u64_to_be_bytes(x));
}

/// Appends the eight big-endian bytes of a signed 64-bit integer.
pub fn put_i64_be(out: &mut Vec<u8>, x: i64)
    ensures
        final(out)@ == old(out)@ + spec_i64_to_be_bytes(x),
{
    put_u64_be(out, x as u64);
}

/// Reads a big-endian 16-bit integer from a byte buffer at a position.
pub fn get_u16_be(buf: &Vec<u8>, pos: usize) -> (x: u16)
    requires
        pos + 2 <= buf@.len(),
    ensures
        x == spec_u16_from_be_bytes(buf@.subrange(pos as int, pos + 2)),
{
    let n: usize = buf.len();
    let b0: u8 = buf[pos];
    let b1: u8 = buf[pos + 1];
    (b0 as u16) << 8 | (b1 as u16)
}

/// Reads a big-endian 32-bit integer from a byte buffer at a position.
pub fn get_u32_be(buf: &Vec<u8>, pos: usize) -> (x: u32)
    requires
        pos + 4 <= buf@.len(),
    ensures
        x == spec_u32_from_be_bytes(buf@.subrange(pos as int, pos + 4)),
{
    let n: usize = buf.len();
    let b0: u8 = buf[pos];
    let b1: u8 = buf[pos + 1];
    let b2: u8 = buf[pos + 2];
    let b3: u8 = buf[pos + 3];
    (b0 as u32) << 24 | (b1 as u32) << 16 | (b2 as u32) << 8 | (b3 as u32)
}

/// Reads a big-endian 64-bit integer from a byte buffer at a position.
pub fn get_u64_be(buf: &Vec<u8>, pos: usize) -> (x: u64)
    requires
        pos + 8 <= buf@.len(),
    ensures
        x == spec_u64_from_be_bytes(buf@.subrange(pos as int, pos + 8)),
{
    let n: usize = buf.len();
    let b0: u8 = buf[pos];
    let b1: u8 = buf[pos + 1];
    let b2: u8 = buf[pos + 2];
    let b3: u8 = buf[pos + 3];
    let b4: u8 = buf[pos + 4];
    let b5: u8 = buf[pos + 5];
    let b6: u8 = buf[pos + 6];
    let b7: u8 = buf[pos + 7];
    (b0 as u64) << 56 | (b1 as u64) << 48 | (b2 as u64) << 40 | (b3 as u64) << 32 | (b4 as u64)
        << 24 | (b5 as u64) << 16 | (b6 as u64) << 8 | (b7 as u64)
}

/// Reads a big-endian signed 64-bit integer from a byte buffer at a position.
pub fn get_i64_be(buf: &Vec<u8>, pos: usize) -> (x: i64)
    requires
        pos + 8 <= buf@.len(),
    ensures
        x == spec_i64_from_be_bytes(buf@.subrange(pos as int, pos + 8)),
{
    get_u64_be(buf, pos) as i64
}

} // verus!
