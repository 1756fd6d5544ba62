//! Little-endian encoding of the integers stored in tables.
use vstd::prelude::*;

verus! {

/// The four little-endian bytes of `x`.
pub open spec fn le32(x: u32) -> Seq<u8> {
    seq![
        (x % 256) as u8,
        ((x / 256) % 256) as u8,
        ((x / 65536) % 256) as u8,
        ((x / 16777216) % 256) as u8,
    ]
}

/// The eight little-endian bytes of `x`.
pub open spec fn le64(x: u64) -> Seq<u8> {
    seq![
        (x % 256) as u8,
        ((x / 0x100) % 256) as u8,
        ((x / 0x1_0000) % 256) as u8,
        ((x / 0x100_0000) % 256) as u8,
        ((x / 0x1_0000_0000) % 256) as u8,
        ((x / 0x100_0000_0000) % 256) as u8,
        ((x / 0x1_0000_0000_0000) % 256) as u8,
        ((x / 0x100_0000_0000_0000) % 256) as u8,
    ]
}

/// The `u32` whose little-endian bytes are `s[pos..pos + 4]`.
pub open spec fn read_le32(s: Seq<u8>, pos: int) -> u32 {
    (s[pos] as int + s[pos + 1] as int * 256 + s[pos + 2] as int * 65536 + s[pos + 3] as int
        * 16777216) as u32
}

/// The `u64` whose little-endian bytes are `s[pos..pos + 8]`.
pub open spec fn read_le64(s: Seq<u8>, pos: int) -> u64 {
    (s[pos] as int + s[pos + 1] as int * 0x100 + s[pos + 2] as int * 0x1_0000 + s[pos + 3] as int
        * 0x100_0000 + s[pos + 4] as int * 0x1_0000_0000 + s[pos + 5] as int * 0x100_0000_0000
        + s[pos + 6] as int * 0x1_0000_0000_0000 + s[pos + 7] as int * 0x100_0000_0000_0000) as u64
}

/// Decoding the encoding of a `u32` gives it back.
pub proof fn lemma_le32_roundtrip(x: u32)
    ensures
        le32(x).len() == 4,
        read_le32(le32(x), 0) == x,
{
    let s = le32(x);
    assert(s[0] as int + s[1] as int * 256 + s[2] as int * 65536 + s[3] as int * 16777216 == x)
        by (nonlinear_arith)
        requires
            s[0] as int == x % 256,
            s[1] as int == (x / 256) % 256,
            s[2] as int == (x / 65536) % 256,
            s[3] as int == (x / 16777216) % 256,
            0 <= x < 0x1_0000_0000,
    ;
}

/// One step of peeling a byte off `x / d`.
proof fn lemma_byte_step(x: int, d: int)
    requires
        0 <= x,
        0 < d,
    ensures
        x / d == (x / d) % 256 + 256 * (x / (d * 256)),
{
    vstd::arithmetic::div_mod::lemma_fundamental_div_mod(x / d, 256);
    vstd::arithmetic::div_mod::lemma_div_denominator(x, d, 256);
}

/// Decoding the encoding of a `u64` gives it back.
pub proof fn lemma_le64_roundtrip(x: u64)
    ensures
        le64(x).len() == 8,
        read_le64(le64(x), 0) == x,
{
    let s = le64(x);
    let v = x as int;
    lemma_byte_step(v, 1);
    lemma_byte_step(v, 0x100);
    lemma_byte_step(v, 0x1_0000);
    lemma_byte_step(v, 0x100_0000);
    lemma_byte_step(v, 0x1_0000_0000);
    lemma_byte_step(v, 0x100_0000_0000);
    lemma_byte_step(v, 0x1_0000_0000_0000);
    lemma_byte_step(v, 0x100_0000_0000_0000);
    assert(v / 0x1_0000_0000_0000_0000 == 0);
    assert(v / 1 == v);
}

/// Decoding reads only the four bytes at `pos`.
pub proof fn lemma_read_le32_window(s: Seq<u8>, pos: int, t: Seq<u8>, tpos: int)
    requires
        0 <= pos,
        pos + 4 <= s.len(),
        0 <= tpos,
        tpos + 4 <= t.len(),
        s.subrange(pos, pos + 4) == t.subrange(tpos, tpos + 4),
    ensures
        read_le32(s, pos) == read_le32(t, tpos),
{
    assert(s[pos] == s.subrange(pos, pos + 4)[0]);
    assert(s[pos] == t[tpos]);
    assert(s[pos + 1] == s.subrange(pos, pos + 4)[1]);
    assert(s[pos + 1] == t[tpos + 1]);
    assert(s[pos + 2] == s.subrange(pos, pos + 4)[2]);
    assert(s[pos + 2] == t[tpos + 2]);
    assert(s[pos + 3] == s.subrange(pos, pos + 4)[3]);
    assert(s[pos + 3] == t[tpos + 3]);
}

/// Decoding reads only the eight bytes at `pos`.
pub proof fn lemma_read_le64_window(s: Seq<u8>, pos: int, t: Seq<u8>, tpos: int)
    requires
        0 <= pos,
        pos + 8 <= s.len(),
        0 <= tpos,
        tpos + 8 <= t.len(),
        s.subrange(pos, pos + 8) == t.subrange(tpos, tpos + 8),
    ensures
        read_le64(s, pos) == read_le64(t, tpos),
{
    assert(s[pos] == s.subrange(pos, pos + 8)[0]);
    assert(s[pos] == t[tpos]);
    assert(s[pos + 1] == s.subrange(pos, pos + 8)[1]);
    assert(s[pos + 1] == t[tpos + 1]);
    assert(s[pos + 2] == s.subrange(pos, pos + 8)[2]);
    assert(s[pos + 2] == t[tpos + 2]);
    assert(s[pos + 3] == s.subrange(pos, pos + 8)[3]);
    assert(s[pos + 3] == t[tpos + 3]);
    assert(s[pos + 4] == s.subrange(pos, pos + 8)[4]);
    assert(s[pos + 4] == t[tpos + 4]);
    assert(s[pos + 5] == s.subrange(pos, pos + 8)[5]);
    assert(s[pos + 5] == t[tpos + 5]);
    assert(s[pos + 6] == s.subrange(pos, pos + 8)[6]);
    assert(s[pos + 6] == t[tpos + 6]);
    assert(s[pos + 7] == s.subrange(pos, pos + 8)[7]);
    assert(s[pos + 7] == t[tpos + 7]);
}

/// The little-endian bytes of `x`.
pub fn u32_to_le(x: u32) -> (b: [u8; 4])
    ensures
        b@ == le32(x),
{
    let b = [
        (x % 256) as u8,
        ((x / 256) % 256) as u8,
        ((x / 65536) % 256) as u8,
        ((x / 16777216) % 256) as u8,
    ];
    assert(b@ =~= le32(x));
    b
}

/// The little-endian bytes of `x`.
pub fn u64_to_le(x: u64) -> (b: [u8; 8])
    ensures
        b@ == le64(x),
{
    let b = [
        (x % 256) as u8,
        ((x / 0x100) % 256) as u8,
        ((x / 0x1_0000) % 256) as u8,
        ((x / 0x100_0000) % 256) as u8,
        ((x / 0x1_0000_0000) % 256) as u8,
        ((x / 0x100_0000_0000) % 256) as u8,
        ((x / 0x1_0000_0000_0000) % 256) as u8,
        ((x / 0x100_0000_0000_0000) % 256) as u8,
    ];
    assert(b@ =~= le64(x));
    b
}

/// The `u32` stored little-endian at `data[pos..pos + 4]`.
pub fn u32_from_le(data: &[u8], pos: usize) -> (x: u32)
    requires
        pos + 4 <= data@.len(),
    ensures
        x == read_le32(data@, pos as int),
{
    data[pos] as u32 + data[pos + 1] as u32 * 256 + data[pos + 2] as u32 * 65536 + data[pos + 3]
        as u32 * 16777216
}

/// The `u64` stored little-endian at `data[pos..pos + 8]`.
pub fn u64_from_le(data: &[u8], pos: usize) -> (x: u64)
    requires
        pos + 8 <= data@.len(),
    ensures
        x == read_le64(data@, pos as int),
{
    data[pos] as u64 + data[pos + 1] as u64 * 0x100 + data[pos + 2] as u64 * 0x1_0000 + data[pos
        + 3] as u64 * 0x100_0000 + data[pos + 4] as u64 * 0x1_0000_0000 + data[pos + 5] as u64
        * 0x100_0000_0000 + data[pos + 6] as u64 * 0x1_0000_0000_0000 + data[pos + 7] as u64
        * 0x100_0000_0000_0000
}

} // verus!
