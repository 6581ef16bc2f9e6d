//! Big-endian integers on byte sequences.
use vstd::prelude::*;

verus! {

/// The big-endian 16-bit value at `s[i..i+2]`.
pub open spec fn be16(s: Seq<u8>, i: int) -> int {
    s[i] as int * 256 + s[i + 1] as int
}

/// The big-endian 24-bit value at `s[i..i+3]`.
pub open spec fn be24(s: Seq<u8>, i: int) -> int {
    s[i] as int * 65536 + s[i + 1] as int * 256 + s[i + 2] as int
}

/// The big-endian 32-bit value at `s[i..i+4]`.
pub open spec fn be32(s: Seq<u8>, i: int) -> int {
    s[i] as int * 16777216 + s[i + 1] as int * 65536 + s[i + 2] as int * 256 + s[i + 3] as int
}

pub fn read_u16(data: &[u8], pos: usize) -> (r: u16)
    requires
        pos + 2 <= data@.len(),
    ensures
        r as int == be16(data@, pos as int),
{
    (data[pos] as u16) * 256 + data[pos + 1] as u16
}

pub fn read_u24(data: &[u8], pos: usize) -> (r: u32)
    requires
        pos + 3 <= data@.len(),
    ensures
        r as int == be24(data@, pos as int),
{
    (data[pos] as u32) * 65536 + (data[pos + 1] as u32) * 256 + data[pos + 2] as u32
}

pub fn read_u32(data: &[u8], pos: usize) -> (r: u32)
    requires
        pos + 4 <= data@.len(),
    ensures
        r as int == be32(data@, pos as int),
{
    (data[pos] as u32) * 16777216 + (data[pos + 1] as u32) * 65536 + (data[pos + 2] as u32) * 256
        + data[pos + 3] as u32
}

/// Copies `data[start..end]` into a new vector.
pub fn copy_range(data: &[u8], start: usize, end: usize) -> (r: Vec<u8>)
    requires
        start <= end <= data@.len(),
    ensures
        r@ == data@.subrange(start as int, end as int),
{
    let mut r: Vec<u8> = Vec::with_capacity(end - start);
    let mut i: usize = start;
    while i < end
        invariant
            start <= i <= end,
            end <= data@.len(),
            r@ == data@.subrange(start as int, i as int),
        decreases end - i,
    {
        r.push(data[i]);
        i = i + 1;
    }
    r
}


pub fn read_array4(data: &[u8], pos: usize) -> (r: [u8; 4])
    requires
        pos + 4 <= data@.len(),
    ensures
        r@ == data@.subrange(pos as int, pos + 4),
{
    let r = [data[pos], data[pos + 1], data[pos + 2], data[pos + 3]];
    assert(r@ =~= data@.subrange(pos as int, pos + 4));
    r
}

pub fn read_array6(data: &[u8], pos: usize) -> (r: [u8; 6])
    requires
        pos + 6 <= data@.len(),
    ensures
        r@ == data@.subrange(pos as int, pos + 6),
{
    let r = [data[pos], data[pos + 1], data[pos + 2], data[pos + 3], data[pos + 4], data[pos + 5]];
    assert(r@ =~= data@.subrange(pos as int, pos + 6));
    r
}

pub fn read_array16(data: &[u8], pos: usize) -> (r: [u8; 16])
    requires
        pos + 16 <= data@.len(),
    ensures
        r@ == data@.subrange(pos as int, pos + 16),
{
    let r = [data[pos], data[pos + 1], data[pos + 2], data[pos + 3], data[pos + 4], data[pos + 5], data[pos + 6], data[pos + 7], data[pos + 8], data[pos + 9], data[pos + 10], data[pos + 11], data[pos + 12], data[pos + 13], data[pos + 14], data[pos + 15]];
    assert(r@ =~= data@.subrange(pos as int, pos + 16));
    r
}


/// Appends `src` to `dst`.
pub fn append_bytes(dst: &mut Vec<u8>, src: &[u8])
    ensures
        final(dst)@ == old(dst)@ + src@,
{
    let ghost d0 = dst@;
    let mut i: usize = 0;
    while i < src.len()
        invariant
            i <= src@.len(),
            dst@ == d0 + src@.subrange(0, i as int),
        decreases src@.len() - i,
    {
        dst.push(src[i]);
        i = i + 1;
        assert(dst@ =~= d0 + src@.subrange(0, i as int));
    }
    assert(src@.subrange(0, src@.len() as int) =~= src@);
}

} // verus!
