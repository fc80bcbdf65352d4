//! Big-endian integers on the wire, and bytes as text.
use vstd::prelude::*;
use vstd::string::StringSliceAdditionalSpecFns;
use vstd::utf8::valid_utf8;

verus! {

/// The two big-endian bytes of `v`.
pub open spec fn u16_bytes(v: u16) -> Seq<u8> {
    seq![(v / 256) as u8, (v % 256) as u8]
}

/// The four big-endian bytes of `v`.
pub open spec fn u32_bytes(v: u32) -> Seq<u8> {
    seq![(v / 16777216) as u8, ((v / 65536) % 256) as u8, ((v / 256) % 256) as u8, (v % 256) as u8]
}

/// The two's-complement bytes of `v`.
pub open spec fn i16_bytes(v: i16) -> Seq<u8> {
    u16_bytes(v as u16)
}

/// The two's-complement bytes of `v`.
pub open spec fn i32_bytes(v: i32) -> Seq<u8> {
    u32_bytes(v as u32)
}

/// The `u16` stored big-endian at `p`.
pub open spec fn be16(b: Seq<u8>, p: int) -> u16 {
    (b[p] as int * 256 + b[p + 1] as int) as u16
}

/// The `u32` stored big-endian at `p`.
pub open spec fn be32(b: Seq<u8>, p: int) -> u32 {
    (b[p] as int * 16777216 + b[p + 1] as int * 65536 + b[p + 2] as int * 256
        + b[p + 3] as int) as u32
}

/// Reads a big-endian `u16` at `pos`.
pub fn read_u16(buf: &[u8], pos: usize) -> (r: u16)
    requires
        pos + 2 <= buf@.len(),
    ensures
        r == be16(buf@, pos as int),
{
    (buf[pos] as u16) * 256 + buf[pos + 1] as u16
}

/// Reads a big-endian `u32` at `pos`.
pub fn read_u32(buf: &[u8], pos: usize) -> (r: u32)
    requires
        pos + 4 <= buf@.len(),
    ensures
        r == be32(buf@, pos as int),
{
    (buf[pos] as u32) * 16777216 + (buf[pos + 1] as u32) * 65536 + (buf[pos + 2] as u32) * 256
        + buf[pos + 3] as u32
}

/// Appends `v` in big-endian order.
pub fn put_u16(out: &mut Vec<u8>, v: u16)
    ensures
        final(out)@ == old(out)@ + u16_bytes(v),
{
    out.push((v / 256) as u8);
    out.push((v % 256) as u8);
}

/// Appends `v` in big-endian order.
pub fn put_u32(out: &mut Vec<u8>, v: u32)
    ensures
        final(out)@ == old(out)@ + u32_bytes(v),
{
    out.push((v / 16777216) as u8);
    out.push(((v / 65536) % 256) as u8);
    out.push(((v / 256) % 256) as u8);
    out.push((v % 256) as u8);
}

/// Appends the bytes of `src` from `from` up to `to`.
pub fn put_range(out: &mut Vec<u8>, src: &[u8], from: usize, to: usize)
    requires
        from <= to <= src@.len(),
    ensures
        final(out)@ == old(out)@ + src@.subrange(from as int, to as int),
{
    let ghost start = out@;
    let mut i: usize = from;
    while i < to
        invariant
            from <= i <= to <= src@.len(),
            out@ == start + src@.subrange(from as int, i as int),
        decreases to - i,
    {
        out.push(src[i]);
        i = i + 1;
        assert(out@ =~= start + src@.subrange(from as int, i as int));
    }
}

/// A `u16` written with `u16_bytes` reads back at its offset.
pub proof fn lemma_u16_round_trip(v: u16, pre: Seq<u8>, post: Seq<u8>)
    ensures
        be16(pre + u16_bytes(v) + post, pre.len() as int) == v,
{
    let b = pre + u16_bytes(v) + post;
    assert(b[pre.len() as int] == u16_bytes(v)[0]);
    assert(b[pre.len() as int + 1] == u16_bytes(v)[1]);
}

/// A `u32` written with `u32_bytes` reads back at its offset.
pub proof fn lemma_u32_round_trip(v: u32, pre: Seq<u8>, post: Seq<u8>)
    ensures
        be32(pre + u32_bytes(v) + post, pre.len() as int) == v,
{
    let b = pre + u32_bytes(v) + post;
    assert(b[pre.len() as int] == u32_bytes(v)[0]);
    assert(b[pre.len() as int + 1] == u32_bytes(v)[1]);
    assert(b[pre.len() as int + 2] == u32_bytes(v)[2]);
    assert(b[pre.len() as int + 3] == u32_bytes(v)[3]);
}

/// Reinterpreting the bits of an `i32` as `u32` and back gives the same value.
pub proof fn lemma_i32_bits(v: i32)
    ensures
        ((v as u32) as i32) == v,
{
    assert(((v as u32) as i32) == v) by (bit_vector);
}

/// Reinterpreting the bits of an `i16` as `u16` and back gives the same value.
pub proof fn lemma_i16_bits(v: i16)
    ensures
        ((v as u16) as i16) == v,
{
    assert(((v as u16) as i16) == v) by (bit_vector);
}

/// Relies on std::str::from_utf8: it succeeds exactly on valid UTF-8, and the
/// text it returns is encoded by exactly the given bytes.
#[verifier::external_body]
pub(crate) fn text_of(b: &[u8]) -> (r: Option<&str>)
    ensures
        r is Some <==> valid_utf8(b@),
        r is Some ==> r->0.spec_bytes() == b@,
{
    std::str::from_utf8(b).ok()
}

} // verus!
