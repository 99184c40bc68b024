//! Fixed-width big-endian integers as they appear on the wire.

use vstd::prelude::*;

verus! {

/// The two bytes of `v`, most significant first.
pub open spec fn be16(v: u16) -> Seq<u8> {
    seq![(v / 256) as u8, (v % 256) as u8]
}

/// The four bytes of `v`, most significant first.
pub open spec fn be32(v: u32) -> Seq<u8> {
    seq![
        (v / 16777216) as u8,
        ((v / 65536) % 256) as u8,
        ((v / 256) % 256) as u8,
        (v % 256) as u8,
    ]
}

/// The eight bytes of `v`, most significant first.
pub open spec fn be64(v: u64) -> Seq<u8> {
    be32((v / 4294967296) as u32) + be32((v % 4294967296) as u32)
}

/// The number whose big-endian bytes stand in `s` at `at` and `at + 1`.
pub open spec fn read_be16(s: Seq<u8>, at: int) -> u16 {
    (s[at] * 256 + s[at + 1]) as u16
}

/// The number whose big-endian bytes stand in `s` from `at` to `at + 3`.
pub open spec fn read_be32(s: Seq<u8>, at: int) -> u32 {
    (s[at] * 16777216 + s[at + 1] * 65536 + s[at + 2] * 256 + s[at + 3]) as u32
}

/// The number whose big-endian bytes stand in `s` from `at` to `at + 7`.
pub open spec fn read_be64(s: Seq<u8>, at: int) -> u64 {
    (read_be32(s, at) * 4294967296 + read_be32(s, at + 4)) as u64
}

/// The two's complement bit pattern of a signed 32-bit number.
pub open spec fn i32_bits(v: i32) -> u32 {
    if v >= 0 {
        v as u32
    } else {
        (v + 4294967296) as u32
    }
}

/// The signed number that a 32-bit two's complement pattern stands for.
pub open spec fn i32_of_bits(u: u32) -> i32 {
    if u < 2147483648 {
        u as i32
    } else {
        (u - 4294967296) as i32
    }
}

/// Appends the big-endian bytes of `v`.
pub fn push_be16(buf: &mut Vec<u8>, v: u16)
    ensures
        final(buf)@ == old(buf)@ + be16(v),
{
    buf.push((v / 256) as u8);
    buf.push((v % 256) as u8);
    assert(buf@ =~= old(buf)@ + be16(v));
}

/// Appends the big-endian bytes of `v`.
pub fn push_be32(buf: &mut Vec<u8>, v: u32)
    ensures
        final(buf)@ == old(buf)@ + be32(v),
{
    buf.push((v / 16777216) as u8);
    buf.push(((v / 65536) % 256) as u8);
    buf.push(((v / 256) % 256) as u8);
    buf.push((v % 256) as u8);
    assert(buf@ =~= old(buf)@ + be32(v));
}

/// Appends the big-endian bytes of `v`.
pub fn push_be64(buf: &mut Vec<u8>, v: u64)
    ensures
        final(buf)@ == old(buf)@ + be64(v),
{
    let ghost before = buf@;
    push_be32(buf, (v / 4294967296) as u32);
    push_be32(buf, (v % 4294967296) as u32);
    assert(buf@ =~= before + be64(v));
}

/// Appends every byte of `bytes`.
pub fn push_all(buf: &mut Vec<u8>, bytes: &Vec<u8>)
    ensures
        final(buf)@ == old(buf)@ + bytes@,
{
    let mut i: usize = 0;
    while i < bytes.len()
        invariant
            i <= bytes.len(),
            buf@ == old(buf)@ + bytes@.take(i as int),
        decreases bytes.len() - i,
    {
        buf.push(bytes[i]);
        i += 1;
        assert(buf@ =~= old(buf)@ + bytes@.take(i as int));
    }
    assert(bytes@.take(i as int) =~= bytes@);
}

/// Reads the big-endian number at `at`.
pub fn get_be16(buf: &[u8], at: usize) -> (v: u16)
    requires
        at + 2 <= buf.len(),
    ensures
        v == read_be16(buf@, at as int),
{
    let hi: u16 = buf[at] as u16;
    let lo: u16 = buf[at + 1] as u16;
    hi * 256 + lo
}

/// Reads the big-endian number at `at`.
pub fn get_be32(buf: &[u8], at: usize) -> (v: u32)
    requires
        at + 4 <= buf.len(),
    ensures
        v == read_be32(buf@, at as int),
{
    let a: u32 = buf[at] as u32;
    let b: u32 = buf[at + 1] as u32;
    let c: u32 = buf[at + 2] as u32;
    let d: u32 = buf[at + 3] as u32;
    a * 16777216 + b * 65536 + c * 256 + d
}

/// Reads the big-endian number at `at`.
pub fn get_be64(buf: &[u8], at: usize) -> (v: u64)
    requires
        at + 8 <= buf.len(),
    ensures
        v == read_be64(buf@, at as int),
{
    let hi: u64 = get_be32(buf, at) as u64;
    let lo: u64 = get_be32(buf, at + 4) as u64;
    hi * 4294967296 + lo
}

/// The bit pattern of `v` as an unsigned number.
pub fn bits_of_i32(v: i32) -> (u: u32)
    ensures
        u == i32_bits(v),
{
    if v >= 0 {
        v as u32
    } else {
        ((v + 2147483647 + 1) as u32) + 2147483648u32
    }
}

/// The signed number with the bit pattern `u`.
pub fn i32_from_bits(u: u32) -> (v: i32)
    ensures
        v == i32_of_bits(u),
{
    if u < 2147483648 {
        u as i32
    } else {
        ((u - 2147483648u32) as i32) - 2147483647 - 1
    }
}

/// Reading back what `be16` wrote gives the number again.
pub proof fn lemma_be16_read(s: Seq<u8>, at: int, v: u16)
    requires
        0 <= at,
        at + 2 <= s.len(),
        s.subrange(at, at + 2) == be16(v),
    ensures
        read_be16(s, at) == v,
{
    assert(s[at] == s.subrange(at, at + 2)[0]);
    assert(s[at + 1] == s.subrange(at, at + 2)[1]);
}

/// Reading back what `be32` wrote gives the number again.
pub proof fn lemma_be32_read(s: Seq<u8>, at: int, v: u32)
    requires
        0 <= at,
        at + 4 <= s.len(),
        s.subrange(at, at + 4) == be32(v),
    ensures
        read_be32(s, at) == v,
{
    let w = s.subrange(at, at + 4);
    assert(s[at] == w[0]);
    assert(s[at + 1] == w[1]);
    assert(s[at + 2] == w[2]);
    assert(s[at + 3] == w[3]);
}

/// Reading back what `be64` wrote gives the number again.
pub proof fn lemma_be64_read(s: Seq<u8>, at: int, v: u64)
    requires
        0 <= at,
        at + 8 <= s.len(),
        s.subrange(at, at + 8) == be64(v),
    ensures
        read_be64(s, at) == v,
{
    let w = s.subrange(at, at + 8);
    let hi = (v / 4294967296) as u32;
    let lo = (v % 4294967296) as u32;
    assert(s.subrange(at, at + 4) =~= be32(hi)) by {
        assert forall|i: int| 0 <= i < 4 implies s.subrange(at, at + 4)[i] == be32(hi)[i] by {
            assert(s[at + i] == w[i]);
        }
    }
    assert(s.subrange(at + 4, at + 8) =~= be32(lo)) by {
        assert forall|i: int| 0 <= i < 4 implies s.subrange(at + 4, at + 8)[i] == be32(lo)[i] by {
            assert(s[at + 4 + i] == w[4 + i]);
        }
    }
    lemma_be32_read(s, at, hi);
    lemma_be32_read(s, at + 4, lo);
}

/// A signed number and its bit pattern determine each other.
pub proof fn lemma_i32_bits(v: i32)
    ensures
        i32_of_bits(i32_bits(v)) == v,
{
}

} // verus!
