//! Little-endian encodings of the integers that travel in every packet of the
//! project, with the statements that decoding undoes encoding.
use vstd::prelude::*;

verus! {

/// The two bytes of `x`, least significant first.
pub open spec fn le16(x: u16) -> Seq<u8> {
    seq![(x % 256) as u8, (x / 256) as u8]
}

/// The value of two bytes read least significant first.
pub open spec fn from_le16(lo: u8, hi: u8) -> u16 {
    (lo + 256 * hi) as u16
}

/// The four bytes of `x`, least significant first.
pub open spec fn le32(x: u32) -> Seq<u8> {
    seq![
        (x % 256) as u8,
        ((x / 256) % 256) as u8,
        ((x / 65536) % 256) as u8,
        (x / 16777216) as u8,
    ]
}

/// The value of four bytes read least significant first.
pub open spec fn from_le32(b0: u8, b1: u8, b2: u8, b3: u8) -> u32 {
    (b0 + 256 * b1 + 65536 * b2 + 16777216 * b3) as u32
}

/// Decoding the encoding of a 16-bit value gives it back.
pub proof fn lemma_le16_roundtrip(x: u16)
    ensures
        from_le16(le16(x)[0], le16(x)[1]) == x,
        le16(x).len() == 2,
{
}

/// Encoding the value of two bytes gives the same two bytes.
pub proof fn lemma_from_le16_roundtrip(lo: u8, hi: u8)
    ensures
        le16(from_le16(lo, hi)) == seq![lo, hi],
{
    let v = from_le16(lo, hi);
    assert(v == lo + 256 * hi);
    assert(v % 256 == lo);
    assert(v / 256 == hi);
}

/// Decoding the encoding of a 32-bit value gives it back.
pub proof fn lemma_le32_roundtrip(x: u32)
    ensures
        from_le32(le32(x)[0], le32(x)[1], le32(x)[2], le32(x)[3]) == x,
        le32(x).len() == 4,
{
}

/// Encoding the value of four bytes gives the same four bytes.
pub proof fn lemma_from_le32_roundtrip(b0: u8, b1: u8, b2: u8, b3: u8)
    ensures
        le32(from_le32(b0, b1, b2, b3)) == seq![b0, b1, b2, b3],
{
    let v = from_le32(b0, b1, b2, b3);
    assert(v == b0 + 256 * b1 + 65536 * b2 + 16777216 * b3);
    assert(v % 256 == b0);
    assert((v / 256) % 256 == b1);
    assert((v / 65536) % 256 == b2);
    assert(v / 16777216 == b3);
}

/// The two bytes of `x`, least significant first.
pub fn u16_to_le(x: u16) -> (r: [u8; 2])
    ensures
        r@ == le16(x),
{
    let r = [(x % 256) as u8, (x / 256) as u8];
    assert(r@ =~= le16(x));
    r
}

/// The four bytes of `x`, least significant first.
pub fn u32_to_le(x: u32) -> (r: [u8; 4])
    ensures
        r@ == le32(x),
{
    let r = [(x % 256) as u8, ((x / 256) % 256) as u8, ((x / 65536) % 256) as u8, (x / 16777216) as u8];
    assert(r@ =~= le32(x));
    r
}

/// The 16-bit value of two bytes read least significant first.
pub fn u16_from_le(lo: u8, hi: u8) -> (r: u16)
    ensures
        r == from_le16(lo, hi),
{
    lo as u16 + 256 * (hi as u16)
}

/// The 32-bit value of four bytes read least significant first.
pub fn u32_from_le(b0: u8, b1: u8, b2: u8, b3: u8) -> (r: u32)
    ensures
        r == from_le32(b0, b1, b2, b3),
{
    b0 as u32 + 256 * (b1 as u32) + 65536 * (b2 as u32) + 16777216 * (b3 as u32)
}

/// Appends the two bytes of `x`, least significant first.
pub fn push_le16(out: &mut Vec<u8>, x: u16)
    ensures
        final(out)@ == old(out)@ + le16(x),
{
    out.push((x % 256) as u8);
    out.push((x / 256) as u8);
    assert(final(out)@ =~= old(out)@ + le16(x));
}

/// Appends the four bytes of `x`, least significant first.
pub fn push_le32(out: &mut Vec<u8>, x: u32)
    ensures
        final(out)@ == old(out)@ + le32(x),
{
    out.push((x % 256) as u8);
    out.push(((x / 256) % 256) as u8);
    out.push(((x / 65536) % 256) as u8);
    out.push((x / 16777216) as u8);
    assert(final(out)@ =~= old(out)@ + le32(x));
}

/// Appends every byte of `data`.
pub fn push_all(out: &mut Vec<u8>, data: &[u8])
    ensures
        final(out)@ == old(out)@ + data@,
{
    let ghost start = out@;
    let mut i: usize = 0;
    while i < data.len()
        invariant
            i <= data.len(),
            out@ == start + data@.subrange(0, i as int),
        decreases data.len() - i,
    {
        out.push(data[i]);
        i = i + 1;
        assert(out@ =~= start + data@.subrange(0, i as int));
    }
    assert(data@.subrange(0, data@.len() as int) =~= data@);
}

} // verus!
