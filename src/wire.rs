//! Big-endian integers and the 8-byte frame envelope.
use vstd::prelude::*;

verus! {

/// The fixed value that opens every frame, in both directions.
pub const EXPECTED_MAGIC_NUMBER: u32 = 12345;

/// Errors of the frame and message codecs.
#[derive(Debug, Clone, Copy, PartialEq, Eq, Structural)]
pub enum Error {
    /// The output buffer is too small for the value.
    EncodeError,
    /// The input bytes do not hold a value.
    DecodeError,
}

/// The four bytes of `v`, most significant first.
pub open spec fn be_bytes(v: u32) -> Seq<u8> {
    seq![
        (v / 0x100_0000) as u8,
        ((v / 0x1_0000) % 0x100) as u8,
        ((v / 0x100) % 0x100) as u8,
        (v % 0x100) as u8,
    ]
}

/// The number that the first four bytes of `s` spell, most significant first.
pub open spec fn be_value(s: Seq<u8>) -> u32
    recommends
        s.len() >= 4,
{
    (s[0] as int * 0x100_0000 + s[1] as int * 0x1_0000 + s[2] as int * 0x100 + s[3] as int) as u32
}

/// The envelope header: the magic number, then the payload length.
pub open spec fn header_bytes(magic: u32, length: u32) -> Seq<u8> {
    be_bytes(magic) + be_bytes(length)
}

/// A whole frame around `payload`.
pub open spec fn frame_bytes(magic: u32, payload: Seq<u8>) -> Seq<u8>
    recommends
        payload.len() <= u32::MAX,
{
    header_bytes(magic, payload.len() as u32) + payload
}

/// Reading back the bytes of a number gives the number.
pub proof fn lemma_be_round_trip(v: u32)
    ensures
        be_value(be_bytes(v)) == v,
        be_bytes(v).len() == 4,
{
    let b = be_bytes(v);
    assert(b[0] as int == v / 0x100_0000);
    assert(b[1] as int == (v / 0x1_0000) % 0x100);
    assert(b[2] as int == (v / 0x100) % 0x100);
    assert(b[3] as int == v % 0x100);
}

/// Four bytes are the bytes of the number that they spell.
pub proof fn lemma_be_bytes_of_value(s: Seq<u8>)
    requires
        s.len() == 4,
    ensures
        be_bytes(be_value(s)) == s,
{
    let (a, b, c, d) = (s[0] as int, s[1] as int, s[2] as int, s[3] as int);
    let v = a * 0x100_0000 + b * 0x1_0000 + c * 0x100 + d;
    assert(0 <= v < 0x1_0000_0000) by (nonlinear_arith)
        requires
            0 <= a < 256,
            0 <= b < 256,
            0 <= c < 256,
            0 <= d < 256,
            v == a * 0x100_0000 + b * 0x1_0000 + c * 0x100 + d,
    ;
    assert(v / 0x100_0000 == a && (v / 0x1_0000) % 0x100 == b && (v / 0x100) % 0x100 == c && v % 0x100 == d)
        by (nonlinear_arith)
        requires
            0 <= a < 256,
            0 <= b < 256,
            0 <= c < 256,
            0 <= d < 256,
            v == a * 0x100_0000 + b * 0x1_0000 + c * 0x100 + d,
    ;
    assert(be_value(s) == v);
    assert(be_bytes(be_value(s)) =~= s);
}

/// Writes `value` into the first four bytes of `buffer`, most significant first.
pub fn encode_u32_to_be(value: u32, buffer: &mut [u8]) -> (r: Result<(), Error>)
    ensures
        old(buffer)@.len() < 4 ==> r == Err::<(), Error>(Error::EncodeError) && final(buffer)@ == old(buffer)@,
        old(buffer)@.len() >= 4 ==> r is Ok && final(buffer)@ == be_bytes(value) + old(buffer)@.skip(4),
{
    if buffer.len() < 4 {
        return Err(Error::EncodeError);
    }
    buffer[0] = (value / 0x100_0000) as u8;
    buffer[1] = ((value / 0x1_0000) % 0x100) as u8;
    buffer[2] = ((value / 0x100) % 0x100) as u8;
    buffer[3] = (value % 0x100) as u8;
    assert(buffer@ =~= be_bytes(value) + old(buffer)@.skip(4));
    Ok(())
}

/// Reads the number held in the first four bytes of `buffer`, most significant first.
pub fn decode_u32_from_be(buffer: &[u8]) -> (r: Result<u32, Error>)
    ensures
        buffer@.len() < 4 ==> r == Err::<u32, Error>(Error::DecodeError),
        buffer@.len() >= 4 ==> r == Ok::<u32, Error>(be_value(buffer@)),
{
    if buffer.len() < 4 {
        return Err(Error::DecodeError);
    }
    let mut result: u32 = buffer[0] as u32;
    result = result * 0x100 + buffer[1] as u32;
    result = result * 0x100 + buffer[2] as u32;
    result = result * 0x100 + buffer[3] as u32;
    Ok(result)
}

/// The 8-byte header of a frame that carries `length` payload bytes.
pub fn encode_header(magic: u32, length: u32) -> (r: Vec<u8>)
    ensures
        r@ == header_bytes(magic, length),
{
    let mut out: Vec<u8> = vec![0u8; 4];
    let mut tail: Vec<u8> = vec![0u8; 4];
    let _ = encode_u32_to_be(magic, out.as_mut_slice());
    let _ = encode_u32_to_be(length, tail.as_mut_slice());
    out.append(&mut tail);
    assert(out@ =~= header_bytes(magic, length));
    out
}

} // verus!
