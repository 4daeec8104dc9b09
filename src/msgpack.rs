//! The MessagePack framings that state-stream records use: unsigned integers,
//! array headers and binary headers. Writing and reading go through `rmp`; the
//! spec functions here say which bytes each framing occupies.
use vstd::prelude::*;

verus! {

/// Why a MessagePack value could not be read.
#[derive(Debug, Clone, Copy, PartialEq, Eq, Structural)]
pub enum Fault {
    /// The input ended inside the value.
    Truncated,
    /// The marker byte is not one of the expected family, or the value is out of range.
    Malformed,
}

pub open spec fn be16(v: u16) -> Seq<u8> {
    seq![(v >> 8u16) as u8, v as u8]
}

pub open spec fn be32(v: u32) -> Seq<u8> {
    seq![(v >> 24u32) as u8, (v >> 16u32) as u8, (v >> 8u32) as u8, v as u8]
}

pub open spec fn be64(v: u64) -> Seq<u8> {
    be32((v >> 32u64) as u32) + be32(v as u32)
}

pub open spec fn from_be16(b: Seq<u8>) -> u16 {
    ((b[0] as u16) << 8u16) | (b[1] as u16)
}

pub open spec fn from_be32(b: Seq<u8>) -> u32 {
    ((b[0] as u32) << 24u32) | ((b[1] as u32) << 16u32) | ((b[2] as u32) << 8u32) | (b[3] as u32)
}

pub open spec fn from_be64(b: Seq<u8>) -> u64 {
    ((from_be32(b.subrange(0, 4)) as u64) << 32u64) | (from_be32(b.subrange(4, 8)) as u64)
}

/// Two's complement reading of an unsigned value of `bits` bits.
pub open spec fn signed(u: int, bits: nat) -> int {
    if u < pow2(bits) / 2 {
        u
    } else {
        u - pow2(bits)
    }
}

pub open spec fn pow2(bits: nat) -> int
    decreases bits,
{
    if bits == 0 {
        1
    } else {
        2 * pow2((bits - 1) as nat)
    }
}

/// A value of `n` bytes in total, present only if the input holds them.
pub open spec fn sized<T>(b: Seq<u8>, n: nat, v: T) -> Result<(T, nat), Fault> {
    if b.len() < n {
        Err(Fault::Truncated)
    } else {
        Ok((v, n))
    }
}

/// The integer that starts `b`, in any of MessagePack's integer framings, and
/// the number of bytes it occupies.
#[verifier::opaque]
pub open spec fn int_at(b: Seq<u8>) -> Result<(int, nat), Fault> {
    if b.len() == 0 {
        Err(Fault::Truncated)
    } else {
        let m = b[0];
        if m <= 0x7f {
            Ok((m as int, 1))
        } else if m >= 0xe0 {
            Ok((m as int - 256, 1))
        } else if m == 0xcc {
            sized(b, 2, b[1] as int)
        } else if m == 0xcd {
            sized(b, 3, from_be16(b.subrange(1, 3)) as int)
        } else if m == 0xce {
            sized(b, 5, from_be32(b.subrange(1, 5)) as int)
        } else if m == 0xcf {
            sized(b, 9, from_be64(b.subrange(1, 9)) as int)
        } else if m == 0xd0 {
            sized(b, 2, signed(b[1] as int, 8))
        } else if m == 0xd1 {
            sized(b, 3, signed(from_be16(b.subrange(1, 3)) as int, 16))
        } else if m == 0xd2 {
            sized(b, 5, signed(from_be32(b.subrange(1, 5)) as int, 32))
        } else if m == 0xd3 {
            sized(b, 9, signed(from_be64(b.subrange(1, 9)) as int, 64))
        } else {
            Err(Fault::Malformed)
        }
    }
}

/// The integer that starts `b`, where it fits in a `u64`.
pub open spec fn uint_at(b: Seq<u8>) -> Result<(u64, nat), Fault> {
    match int_at(b) {
        Ok((v, n)) => if 0 <= v <= u64::MAX {
            Ok((v as u64, n))
        } else {
            Err(Fault::Malformed)
        },
        Err(f) => Err(f),
    }
}

/// The array length that starts `b`, and the size of its header.
#[verifier::opaque]
pub open spec fn array_len_at(b: Seq<u8>) -> Result<(u32, nat), Fault> {
    if b.len() == 0 {
        Err(Fault::Truncated)
    } else {
        let m = b[0];
        if 0x90 <= m <= 0x9f {
            Ok(((m - 0x90) as u32, 1))
        } else if m == 0xdc {
            sized(b, 3, from_be16(b.subrange(1, 3)) as u32)
        } else if m == 0xdd {
            sized(b, 5, from_be32(b.subrange(1, 5)))
        } else {
            Err(Fault::Malformed)
        }
    }
}

/// The binary length that starts `b`, and the size of its header.
#[verifier::opaque]
pub open spec fn bin_len_at(b: Seq<u8>) -> Result<(u32, nat), Fault> {
    if b.len() == 0 {
        Err(Fault::Truncated)
    } else {
        let m = b[0];
        if m == 0xc4 {
            sized(b, 2, b[1] as u32)
        } else if m == 0xc5 {
            sized(b, 3, from_be16(b.subrange(1, 3)) as u32)
        } else if m == 0xc6 {
            sized(b, 5, from_be32(b.subrange(1, 5)))
        } else {
            Err(Fault::Malformed)
        }
    }
}

/// The shortest framing of an unsigned integer.
pub open spec fn uint_bytes(v: u64) -> Seq<u8> {
    if v < 128 {
        seq![v as u8]
    } else if v < 256 {
        seq![0xccu8, v as u8]
    } else if v < 65536 {
        seq![0xcdu8] + be16(v as u16)
    } else if v < 0x1_0000_0000 {
        seq![0xceu8] + be32(v as u32)
    } else {
        seq![0xcfu8] + be64(v)
    }
}

/// The shortest array header for `n` elements.
pub open spec fn array_len_bytes(n: u32) -> Seq<u8> {
    if n < 16 {
        seq![(0x90 + n) as u8]
    } else if n < 65536 {
        seq![0xdcu8] + be16(n as u16)
    } else {
        seq![0xddu8] + be32(n)
    }
}

/// The shortest binary header for `n` bytes.
pub open spec fn bin_len_bytes(n: u32) -> Seq<u8> {
    if n < 256 {
        seq![0xc4u8, n as u8]
    } else if n < 65536 {
        seq![0xc5u8] + be16(n as u16)
    } else {
        seq![0xc6u8] + be32(n)
    }
}

proof fn lemma_be16(v: u16, b: Seq<u8>)
    requires
        b.len() >= 2,
        b[0] == (v >> 8u16) as u8,
        b[1] == v as u8,
    ensures
        from_be16(b) == v,
{
    assert((((v >> 8u16) as u8) as u16) << 8u16 | ((v as u8) as u16) == v) by (bit_vector);
}

proof fn lemma_be32(v: u32, b: Seq<u8>)
    requires
        b.len() >= 4,
        b[0] == (v >> 24u32) as u8,
        b[1] == (v >> 16u32) as u8,
        b[2] == (v >> 8u32) as u8,
        b[3] == v as u8,
    ensures
        from_be32(b) == v,
{
    assert((((v >> 24u32) as u8) as u32) << 24u32 | (((v >> 16u32) as u8) as u32) << 16u32 | (((v
        >> 8u32) as u8) as u32) << 8u32 | ((v as u8) as u32) == v) by (bit_vector);
}

proof fn lemma_be64(v: u64, b: Seq<u8>)
    requires
        b =~= be64(v),
    ensures
        from_be64(b) == v,
{
    lemma_be32((v >> 32u64) as u32, b.subrange(0, 4));
    lemma_be32(v as u32, b.subrange(4, 8));
    assert((((v >> 32u64) as u32) as u64) << 32u64 | ((v as u32) as u64) == v) by (bit_vector);
}

/// Reading back the framing that `uint_bytes` gives yields the value and its size.
pub proof fn lemma_uint_round_trip(v: u64, rest: Seq<u8>)
    ensures
        uint_at(uint_bytes(v) + rest) == Ok::<(u64, nat), Fault>((v, uint_bytes(v).len())),
{
    reveal(int_at);
    let e = uint_bytes(v);
    let b = e + rest;
    if v < 128 {
        assert(b[0] == v as u8);
    } else if v < 256 {
        assert(b[0] == 0xcc && b[1] == v as u8);
    } else if v < 65536 {
        assert(b[0] == 0xcd);
        lemma_be16(v as u16, b.subrange(1, 3));
    } else if v < 0x1_0000_0000 {
        assert(b[0] == 0xce);
        lemma_be32(v as u32, b.subrange(1, 5));
    } else {
        assert(b[0] == 0xcf);
        lemma_be64(v, b.subrange(1, 9));
        assert(from_be64(b.subrange(1, 9)) <= u64::MAX);
    }
}

/// Reading back an array header yields the length and the header's size.
pub proof fn lemma_array_len_round_trip(n: u32, rest: Seq<u8>)
    ensures
        array_len_at(array_len_bytes(n) + rest) == Ok::<(u32, nat), Fault>(
            (n, array_len_bytes(n).len()),
        ),
{
    reveal(array_len_at);
    let b = array_len_bytes(n) + rest;
    if n < 16 {
        assert(b[0] == (0x90 + n) as u8);
    } else if n < 65536 {
        assert(b[0] == 0xdc);
        lemma_be16(n as u16, b.subrange(1, 3));
    } else {
        assert(b[0] == 0xdd);
        lemma_be32(n, b.subrange(1, 5));
    }
}

/// Reading back a binary header yields the length and the header's size.
pub proof fn lemma_bin_len_round_trip(n: u32, rest: Seq<u8>)
    ensures
        bin_len_at(bin_len_bytes(n) + rest) == Ok::<(u32, nat), Fault>((n, bin_len_bytes(n).len())),
{
    reveal(bin_len_at);
    let b = bin_len_bytes(n) + rest;
    if n < 256 {
        assert(b[0] == 0xc4 && b[1] == n as u8);
    } else if n < 65536 {
        assert(b[0] == 0xc5);
        lemma_be16(n as u16, b.subrange(1, 3));
    } else {
        assert(b[0] == 0xc6);
        lemma_be32(n, b.subrange(1, 5));
    }
}

/// Relies on `rmp::encode::write_uint`: it writes the shortest unsigned framing
/// of `v` (a positive fixint below 128, else the `u8`, `u16`, `u32` or `u64`
/// marker and the value big-endian), and writing to a `Vec` does not fail.
#[verifier::external_body]
pub(crate) fn put_uint(out: &mut Vec<u8>, v: u64)
    ensures
        final(out)@ == old(out)@ + uint_bytes(v),
{
    let _ = rmp::encode::write_uint(out, v);
}

/// Relies on `rmp::encode::write_array_len`: a fixarray marker below 16
/// elements, else the `array16` or `array32` marker and the length big-endian.
#[verifier::external_body]
pub(crate) fn put_array_len(out: &mut Vec<u8>, n: u32)
    ensures
        final(out)@ == old(out)@ + array_len_bytes(n),
{
    let _ = rmp::encode::write_array_len(out, n);
}

/// Relies on `rmp::encode::write_bin_len`: the `bin8` marker below 256 bytes,
/// else the `bin16` or `bin32` marker, and the length big-endian.
#[verifier::external_body]
pub(crate) fn put_bin_len(out: &mut Vec<u8>, n: u32)
    ensures
        final(out)@ == old(out)@ + bin_len_bytes(n),
{
    let _ = rmp::encode::write_bin_len(out, n);
}

/// Relies on `rmp::decode::read_int::<u64>`: it accepts every integer marker,
/// reads the value big-endian, fails on a short input while reading the marker
/// or the data, and fails on another marker or a negative value. On success it
/// returns the value and leaves the reader after it; the count returned here
/// is what is left of `b`.
#[verifier::external_body]
pub(crate) fn read_uint(b: &[u8]) -> (r: Result<(u64, usize), Fault>)
    ensures
        match r {
            Ok((v, left)) => left <= b@.len() && uint_at(b@) == Ok::<(u64, nat), Fault>((v, (b@.len() - left) as nat)),
            Err(f) => uint_at(b@) == Err::<(u64, nat), Fault>(f),
        },
{
    let mut rd: &[u8] = b;
    match rmp::decode::read_int::<u64, _>(&mut rd) {
        Ok(v) => Ok((v, rd.len())),
        Err(rmp::decode::NumValueReadError::InvalidMarkerRead(_))
        | Err(rmp::decode::NumValueReadError::InvalidDataRead(_)) => Err(Fault::Truncated),
        Err(_) => Err(Fault::Malformed),
    }
}

/// Relies on `rmp::decode::read_array_len`: a fixarray, `array16` or `array32`
/// header, read big-endian; a short input or another marker fails.
#[verifier::external_body]
pub(crate) fn read_array_len(b: &[u8]) -> (r: Result<(u32, usize), Fault>)
    ensures
        match r {
            Ok((v, left)) => left <= b@.len() && array_len_at(b@) == Ok::<(u32, nat), Fault>(
                (v, (b@.len() - left) as nat),
            ),
            Err(f) => array_len_at(b@) == Err::<(u32, nat), Fault>(f),
        },
{
    let mut rd: &[u8] = b;
    match rmp::decode::read_array_len(&mut rd) {
        Ok(v) => Ok((v, rd.len())),
        Err(rmp::decode::ValueReadError::InvalidMarkerRead(_))
        | Err(rmp::decode::ValueReadError::InvalidDataRead(_)) => Err(Fault::Truncated),
        Err(_) => Err(Fault::Malformed),
    }
}

/// Relies on `rmp::decode::read_bin_len`: a `bin8`, `bin16` or `bin32` header,
/// read big-endian; a short input or another marker fails.
#[verifier::external_body]
pub(crate) fn read_bin_len(b: &[u8]) -> (r: Result<(u32, usize), Fault>)
    ensures
        match r {
            Ok((v, left)) => left <= b@.len() && bin_len_at(b@) == Ok::<(u32, nat), Fault>((v, (b@.len() - left) as nat)),
            Err(f) => bin_len_at(b@) == Err::<(u32, nat), Fault>(f),
        },
{
    let mut rd: &[u8] = b;
    match rmp::decode::read_bin_len(&mut rd) {
        Ok(v) => Ok((v, rd.len())),
        Err(rmp::decode::ValueReadError::InvalidMarkerRead(_))
        | Err(rmp::decode::ValueReadError::InvalidDataRead(_)) => Err(Fault::Truncated),
        Err(_) => Err(Fault::Malformed),
    }
}

} // verus!
