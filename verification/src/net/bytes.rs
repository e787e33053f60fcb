use vstd::prelude::*;
use byteorder::{BigEndian, LittleEndian, ReadBytesExt, WriteBytesExt};

verus! {

/// The eight bytes of `v`, most significant first.
pub open spec fn u64_be_bytes(v: u64) -> Seq<u8> {
    seq![
        (v >> 56u64) as u8,
        (v >> 48u64) as u8,
        (v >> 40u64) as u8,
        (v >> 32u64) as u8,
        (v >> 24u64) as u8,
        (v >> 16u64) as u8,
        (v >> 8u64) as u8,
        v as u8,
    ]
}

/// The value of the first eight bytes of `s`, most significant first.
pub open spec fn u64_from_be(s: Seq<u8>) -> u64 {
    (s[0] as u64) << 56u64 | (s[1] as u64) << 48u64 | (s[2] as u64) << 40u64 | (s[3] as u64)
        << 32u64 | (s[4] as u64) << 24u64 | (s[5] as u64) << 16u64 | (s[6] as u64) << 8u64
        | (s[7] as u64)
}

/// The two bytes of `v`, most significant first.
pub open spec fn u16_be_bytes(v: u16) -> Seq<u8> {
    seq![(v >> 8u16) as u8, v as u8]
}

/// The two bytes of `v`, least significant first.
pub open spec fn u16_le_bytes(v: u16) -> Seq<u8> {
    seq![v as u8, (v >> 8u16) as u8]
}

/// The value of the first two bytes of `s`, most significant first.
pub open spec fn u16_from_be(s: Seq<u8>) -> u16 {
    (s[0] as u16) << 8u16 | (s[1] as u16)
}

/// Reading back the big-endian bytes of a value gives the value.
pub proof fn lemma_u64_be_roundtrip(v: u64)
    ensures
        u64_from_be(u64_be_bytes(v)) == v,
{
    let s = u64_be_bytes(v);
    assert(s[0] == (v >> 56u64) as u8 && s[1] == (v >> 48u64) as u8 && s[2] == (v >> 40u64) as u8
        && s[3] == (v >> 32u64) as u8 && s[4] == (v >> 24u64) as u8 && s[5] == (v >> 16u64) as u8
        && s[6] == (v >> 8u64) as u8 && s[7] == v as u8);
    assert((((v >> 56u64) as u8) as u64) << 56u64 | (((v >> 48u64) as u8) as u64) << 48u64 | (((v
        >> 40u64) as u8) as u64) << 40u64 | (((v >> 32u64) as u8) as u64) << 32u64 | (((v
        >> 24u64) as u8) as u64) << 24u64 | (((v >> 16u64) as u8) as u64) << 16u64 | (((v
        >> 8u64) as u8) as u64) << 8u64 | ((v as u8) as u64) == v) by (bit_vector);
}

/// Reading back the big-endian bytes of a 16-bit value gives the value.
pub proof fn lemma_u16_be_roundtrip(v: u16)
    ensures
        u16_from_be(u16_be_bytes(v)) == v,
{
    let s = u16_be_bytes(v);
    assert(s[0] == (v >> 8u16) as u8 && s[1] == v as u8);
    assert((((v >> 8u16) as u8) as u16) << 8u16 | ((v as u8) as u16) == v) by (bit_vector);
}

/// `ReadBytesExt::read_u64::<BigEndian>` on a byte slice: reads the first eight bytes as a
/// big-endian value, and fails when fewer than eight bytes are there.
#[verifier::external_body]
pub(crate) fn read_u64_be(buf: &[u8]) -> (r: Result<u64, std::io::Error>)
    ensures
        r is Ok <==> buf@.len() >= 8,
        r matches Ok(v) ==> v == u64_from_be(buf@),
{
    let mut reader = buf;
    reader.read_u64::<BigEndian>()
}

/// `std::io::Read::read_exact` from a byte slice into a buffer of `n` bytes: the first `n`
/// bytes, and a failure when fewer are there.
#[verifier::external_body]
pub(crate) fn read_exact(buf: &[u8], n: usize) -> (r: Result<Vec<u8>, std::io::Error>)
    ensures
        r is Ok <==> buf@.len() >= n,
        r matches Ok(v) ==> v@ == buf@.take(n as int),
{
    let mut reader = buf;
    let mut out = vec![0u8; n];
    std::io::Read::read_exact(&mut reader, &mut out).map(|_| out)
}

/// `ReadBytesExt::read_u16::<BigEndian>` on a byte slice: reads the first two bytes as a
/// big-endian value, and fails when fewer than two bytes are there.
#[verifier::external_body]
pub(crate) fn read_u16_be(buf: &[u8]) -> (r: Result<u16, std::io::Error>)
    ensures
        r is Ok <==> buf@.len() >= 2,
        r matches Ok(v) ==> v == u16_from_be(buf@),
{
    let mut reader = buf;
    reader.read_u16::<BigEndian>()
}

/// `WriteBytesExt::write_u64::<BigEndian>` into a vector: appends the eight bytes of the value,
/// most significant first. Writing into a vector does not fail.
#[verifier::external_body]
pub(crate) fn write_u64_be(out: &mut Vec<u8>, v: u64)
    ensures
        final(out)@ == old(out)@ + u64_be_bytes(v),
{
    out.write_u64::<BigEndian>(v).unwrap()
}

/// `WriteBytesExt::write_u16::<BigEndian>` into a vector: appends the two bytes of the value,
/// most significant first. Writing into a vector does not fail.
#[verifier::external_body]
pub(crate) fn write_u16_be(out: &mut Vec<u8>, v: u16)
    ensures
        final(out)@ == old(out)@ + u16_be_bytes(v),
{
    out.write_u16::<BigEndian>(v).unwrap()
}

/// The eight bytes of `v`, least significant first.
pub open spec fn u64_le_bytes(v: u64) -> Seq<u8> {
    seq![
        v as u8,
        (v >> 8u64) as u8,
        (v >> 16u64) as u8,
        (v >> 24u64) as u8,
        (v >> 32u64) as u8,
        (v >> 40u64) as u8,
        (v >> 48u64) as u8,
        (v >> 56u64) as u8,
    ]
}

/// `WriteBytesExt::write_u64::<LittleEndian>` into a vector: appends the eight bytes of the
/// value, least significant first. Writing into a vector does not fail.
#[verifier::external_body]
pub(crate) fn write_u64_le(out: &mut Vec<u8>, v: u64)
    ensures
        final(out)@ == old(out)@ + u64_le_bytes(v),
{
    out.write_u64::<LittleEndian>(v).unwrap()
}

/// `WriteBytesExt::write_u16::<LittleEndian>` into a vector: appends the two bytes of the value,
/// least significant first. Writing into a vector does not fail.
#[verifier::external_body]
pub(crate) fn write_u16_le(out: &mut Vec<u8>, v: u16)
    ensures
        final(out)@ == old(out)@ + u16_le_bytes(v),
{
    out.write_u16::<LittleEndian>(v).unwrap()
}

} // verus!
