//! The replay container: a versioned header, an initial checkpoint, and frame
//! records that hold input events and optional checkpoints.
use vstd::prelude::*;

use crate::le::{from_le16, from_le32, from_le64, get_u16, get_u32, get_u64, le16, le32, le64};
use crate::le::{push_u16, push_u32, push_u64, push_u8};
use crate::compress::{
    zlib_compress, zlib_decompress, zlib_packed, zlib_unpacked, zstd_compress, zstd_decompress,
    zstd_packed, zstd_unpacked,
};
use crate::le::{copy_range, push_all};
use crate::msgpack::Fault;
use crate::statestream::{encode_model, parse_tokens, superblock_count, Ctx, CtxModel, SSError};
use crate::blockindex::{distinct, zeros};

verus! {

/// The length of a version 2 header, and where the initial checkpoint starts.
pub const HEADERV2_LEN_BYTES: usize = 40;

/// The length of a version 0 or 1 header.
pub const HEADERV1_LEN_BYTES: usize = 24;

/// "BSV2", little-endian.
pub const MAGIC: u32 = 0x4253_5632;

/// What follows the input events of a frame.
#[derive(Debug, Clone, Copy, PartialEq, Eq, Structural)]
pub enum FrameToken {
    Invalid,
    Regular,
    Checkpoint,
    Checkpoint2,
}

impl FrameToken {
    pub open spec fn spec_from_byte(v: u8) -> FrameToken {
        if v == 0x66 {
            FrameToken::Regular
        } else if v == 0x63 {
            FrameToken::Checkpoint
        } else if v == 0x43 {
            FrameToken::Checkpoint2
        } else {
            FrameToken::Invalid
        }
    }

    /// The token that byte `v` stands for: 'f', 'c' or 'C', else `Invalid`.
    pub fn from_byte(v: u8) -> (r: FrameToken)
        ensures
            r == Self::spec_from_byte(v),
    {
        if v == 0x66 {
            FrameToken::Regular
        } else if v == 0x63 {
            FrameToken::Checkpoint
        } else if v == 0x43 {
            FrameToken::Checkpoint2
        } else {
            FrameToken::Invalid
        }
    }

    pub open spec fn spec_byte(self) -> u8 {
        match self {
            FrameToken::Invalid => 0,
            FrameToken::Regular => 0x66,
            FrameToken::Checkpoint => 0x63,
            FrameToken::Checkpoint2 => 0x43,
        }
    }

    /// The byte that stands for the token.
    pub fn to_byte(self) -> (r: u8)
        ensures
            r == self.spec_byte(),
    {
        match self {
            FrameToken::Invalid => 0,
            FrameToken::Regular => 0x66,
            FrameToken::Checkpoint => 0x63,
            FrameToken::Checkpoint2 => 0x43,
        }
    }
}

/// How a checkpoint payload is compressed.
#[derive(Debug, Clone, Copy, PartialEq, Eq, Structural)]
pub enum Compression {
    Uncompressed,
    Zlib,
    Zstd,
}

impl Compression {
    pub open spec fn spec_from_byte(v: u8) -> Option<Compression> {
        if v == 0 {
            Some(Compression::Uncompressed)
        } else if v == 1 {
            Some(Compression::Zlib)
        } else if v == 2 {
            Some(Compression::Zstd)
        } else {
            None
        }
    }

    pub fn from_byte(v: u8) -> (r: Option<Compression>)
        ensures
            r == Self::spec_from_byte(v),
    {
        if v == 0 {
            Some(Compression::Uncompressed)
        } else if v == 1 {
            Some(Compression::Zlib)
        } else if v == 2 {
            Some(Compression::Zstd)
        } else {
            None
        }
    }

    pub open spec fn spec_byte(self) -> u8 {
        match self {
            Compression::Uncompressed => 0,
            Compression::Zlib => 1,
            Compression::Zstd => 2,
        }
    }

    pub fn to_byte(self) -> (r: u8)
        ensures
            r == self.spec_byte(),
    {
        match self {
            Compression::Uncompressed => 0,
            Compression::Zlib => 1,
            Compression::Zstd => 2,
        }
    }
}

/// How a checkpoint payload is encoded before compression.
#[derive(Debug, Clone, Copy, PartialEq, Eq, Structural)]
pub enum Encoding {
    Raw,
    Statestream,
}

impl Encoding {
    pub open spec fn spec_from_byte(v: u8) -> Option<Encoding> {
        if v == 0 {
            Some(Encoding::Raw)
        } else if v == 1 {
            Some(Encoding::Statestream)
        } else {
            None
        }
    }

    pub fn from_byte(v: u8) -> (r: Option<Encoding>)
        ensures
            r == Self::spec_from_byte(v),
    {
        if v == 0 {
            Some(Encoding::Raw)
        } else if v == 1 {
            Some(Encoding::Statestream)
        } else {
            None
        }
    }

    pub open spec fn spec_byte(self) -> u8 {
        match self {
            Encoding::Raw => 0,
            Encoding::Statestream => 1,
        }
    }

    pub fn to_byte(self) -> (r: u8)
        ensures
            r == self.spec_byte(),
    {
        match self {
            Encoding::Raw => 0,
            Encoding::Statestream => 1,
        }
    }
}

/// The fields that every version of the header has.
#[derive(Debug, Clone, Copy, PartialEq, Eq, Structural)]
pub struct HeaderBase {
    pub version: u32,
    pub content_crc: u32,
    pub initial_state_size: u32,
    pub identifier: u64,
}

/// A version 2 header.
#[derive(Debug, Clone, Copy, PartialEq, Eq, Structural)]
pub struct HeaderV2 {
    pub base: HeaderBase,
    pub frame_count: u32,
    pub block_size: u32,
    pub superblock_size: u32,
    pub checkpoint_commit_interval: u8,
    pub checkpoint_commit_threshold: u8,
    pub checkpoint_compression: Compression,
}

#[derive(Debug, Clone, Copy, PartialEq, Eq, Structural)]
pub enum Header {
    V0V1(HeaderBase),
    V2(HeaderV2),
}

/// The kind of an input failure.
#[derive(Debug, Clone, Copy, PartialEq, Eq, Structural)]
pub enum IoErrorKind {
    /// The input ended inside a field.
    UnexpectedEof,
    /// Compressed data could not be decompressed, or compression failed.
    InvalidData,
}

#[derive(Debug, Clone, Copy, PartialEq, Eq, Structural)]
pub enum ReplayError {
    /// The header does not start with the magic number.
    Magic(u32),
    /// A version above 2 on reading, or other than 2 for the encoder.
    Version(u32),
    /// An unknown compression byte.
    Compression(u8),
    /// An unknown encoding byte.
    Encoding(u8),
    IO(IoErrorKind),
    /// The frame count no longer fits the header.
    TooManyFrames(u64),
    /// Version 0 frames can only be read with an emulator at hand.
    NoCoreRead,
    /// A size that does not fit its field.
    CheckpointTooBig(u64),
    /// A back reference that does not fit 32 bits.
    FrameTooLong(u64),
    TooManyKeyEvents(u64),
    TooManyInputEvents(u64),
    BadFrameToken(u8),
    /// A malformed state-stream record.
    Statestream(SSError),
    /// The block or superblock index would need an id past 32 bits.
    IndexFull,
}

pub open spec fn base_of(h: Header) -> HeaderBase {
    match h {
        Header::V0V1(b) => b,
        Header::V2(v2) => v2.base,
    }
}

pub open spec fn with_base(h: Header, b: HeaderBase) -> Header {
    match h {
        Header::V0V1(_) => Header::V0V1(b),
        Header::V2(v2) => Header::V2(HeaderV2 { base: b, ..v2 }),
    }
}

/// The version 2 form of a header: a version 0 or 1 header keeps its base
/// fields and gets zero for the others.
pub open spec fn upgraded(h: Header) -> HeaderV2 {
    match h {
        Header::V0V1(b) => HeaderV2 {
            base: b,
            frame_count: 0,
            block_size: 0,
            superblock_size: 0,
            checkpoint_commit_interval: 0,
            checkpoint_commit_threshold: 0,
            checkpoint_compression: Compression::Uncompressed,
        },
        Header::V2(v2) => v2,
    }
}

impl Header {
    pub fn version(&self) -> (r: u32)
        ensures
            r == base_of(*self).version,
    {
        match self {
            Header::V0V1(b) => b.version,
            Header::V2(h) => h.base.version,
        }
    }

    pub fn content_crc(&self) -> (r: u32)
        ensures
            r == base_of(*self).content_crc,
    {
        match self {
            Header::V0V1(b) => b.content_crc,
            Header::V2(h) => h.base.content_crc,
        }
    }

    pub fn identifier(&self) -> (r: u64)
        ensures
            r == base_of(*self).identifier,
    {
        match self {
            Header::V0V1(b) => b.identifier,
            Header::V2(h) => h.base.identifier,
        }
    }

    pub fn initial_state_size(&self) -> (r: u32)
        ensures
            r == base_of(*self).initial_state_size,
    {
        match self {
            Header::V0V1(b) => b.initial_state_size,
            Header::V2(h) => h.base.initial_state_size,
        }
    }

    fn set_base(&mut self, b: HeaderBase)
        ensures
            *final(self) == with_base(*old(self), b),
    {
        match self {
            Header::V0V1(_) => {
                *self = Header::V0V1(b);
            },
            Header::V2(h) => {
                *self = Header::V2(HeaderV2 { base: b, ..*h });
            },
        }
    }

    pub fn set_content_crc(&mut self, crc: u32)
        ensures
            *final(self) == with_base(*old(self), HeaderBase { content_crc: crc, ..base_of(*old(self)) }),
    {
        let b = HeaderBase { content_crc: crc, ..self.base() };
        self.set_base(b);
    }

    pub fn set_identifier(&mut self, id: u64)
        ensures
            *final(self) == with_base(*old(self), HeaderBase { identifier: id, ..base_of(*old(self)) }),
    {
        let b = HeaderBase { identifier: id, ..self.base() };
        self.set_base(b);
    }

    pub fn set_initial_state_size(&mut self, sz: u32)
        ensures
            *final(self) == with_base(
                *old(self),
                HeaderBase { initial_state_size: sz, ..base_of(*old(self)) },
            ),
    {
        let b = HeaderBase { initial_state_size: sz, ..self.base() };
        self.set_base(b);
    }

    pub fn base(&self) -> (r: HeaderBase)
        ensures
            r == base_of(*self),
    {
        match self {
            Header::V0V1(b) => *b,
            Header::V2(h) => h.base,
        }
    }

    /// The frame count, which only a version 2 header has.
    pub fn frame_count(&self) -> (r: Option<u64>)
        ensures
            r == match *self {
                Header::V0V1(_) => None::<u64>,
                Header::V2(h) => Some(h.frame_count as u64),
            },
    {
        match self {
            Header::V0V1(_) => None,
            Header::V2(h) => Some(h.frame_count as u64),
        }
    }

    /// Turns the header into its version 2 form; the version field keeps its value.
    pub fn upgrade(&mut self)
        ensures
            *final(self) == Header::V2(upgraded(*old(self))),
    {
        if let Header::V0V1(b) = self {
            *self = Header::V2(
                HeaderV2 {
                    base: *b,
                    frame_count: 0,
                    block_size: 0,
                    superblock_size: 0,
                    checkpoint_commit_interval: 0,
                    checkpoint_commit_threshold: 0,
                    checkpoint_compression: Compression::Uncompressed,
                },
            );
        }
    }

    fn v2(&self) -> (r: HeaderV2)
        ensures
            r == upgraded(*self),
    {
        match self {
            Header::V0V1(b) => HeaderV2 {
                base: *b,
                frame_count: 0,
                block_size: 0,
                superblock_size: 0,
                checkpoint_commit_interval: 0,
                checkpoint_commit_threshold: 0,
                checkpoint_compression: Compression::Uncompressed,
            },
            Header::V2(h) => *h,
        }
    }

    pub fn set_frame_count(&mut self, frames: u32)
        ensures
            *final(self) == Header::V2(HeaderV2 { frame_count: frames, ..upgraded(*old(self)) }),
    {
        let h = self.v2();
        *self = Header::V2(HeaderV2 { frame_count: frames, ..h });
    }

    pub fn block_size(&self) -> (r: u32)
        ensures
            r == upgraded(*self).block_size,
    {
        self.v2().block_size
    }

    pub fn set_block_size(&mut self, sz: u32)
        ensures
            *final(self) == Header::V2(HeaderV2 { block_size: sz, ..upgraded(*old(self)) }),
    {
        let h = self.v2();
        *self = Header::V2(HeaderV2 { block_size: sz, ..h });
    }

    pub fn superblock_size(&self) -> (r: u32)
        ensures
            r == upgraded(*self).superblock_size,
    {
        self.v2().superblock_size
    }

    pub fn set_superblock_size(&mut self, sz: u32)
        ensures
            *final(self) == Header::V2(HeaderV2 { superblock_size: sz, ..upgraded(*old(self)) }),
    {
        let h = self.v2();
        *self = Header::V2(HeaderV2 { superblock_size: sz, ..h });
    }

    pub fn checkpoint_commit_interval(&self) -> (r: u8)
        ensures
            r == upgraded(*self).checkpoint_commit_interval,
    {
        self.v2().checkpoint_commit_interval
    }

    pub fn checkpoint_commit_threshold(&self) -> (r: u8)
        ensures
            r == upgraded(*self).checkpoint_commit_threshold,
    {
        self.v2().checkpoint_commit_threshold
    }

    pub fn set_checkpoint_commit_settings(&mut self, interval: u8, threshold: u8)
        ensures
            *final(self) == Header::V2(
                HeaderV2 {
                    checkpoint_commit_interval: interval,
                    checkpoint_commit_threshold: threshold,
                    ..upgraded(*old(self))
                },
            ),
    {
        let h = self.v2();
        *self = Header::V2(
            HeaderV2 {
                checkpoint_commit_interval: interval,
                checkpoint_commit_threshold: threshold,
                ..h
            },
        );
    }

    pub fn checkpoint_compression(&self) -> (r: Compression)
        ensures
            r == upgraded(*self).checkpoint_compression,
    {
        self.v2().checkpoint_compression
    }

    pub fn set_checkpoint_compression(&mut self, compression: Compression)
        ensures
            *final(self) == Header::V2(
                HeaderV2 { checkpoint_compression: compression, ..upgraded(*old(self)) },
            ),
    {
        let h = self.v2();
        *self = Header::V2(HeaderV2 { checkpoint_compression: compression, ..h });
    }
}

/// The bytes of a version 2 header; the version written is always 2.
pub open spec fn header_bytes(h: HeaderV2) -> Seq<u8> {
    le32(MAGIC) + le32(2) + le32(h.base.content_crc) + le32(h.base.initial_state_size) + le64(
        h.base.identifier,
    ) + le32(h.frame_count) + le32(h.block_size) + le32(h.superblock_size) + seq![
        0u8,
        h.checkpoint_compression.spec_byte(),
        h.checkpoint_commit_threshold,
        h.checkpoint_commit_interval,
    ]
}

pub open spec fn eof<T>() -> Result<T, ReplayError> {
    Err(ReplayError::IO(IoErrorKind::UnexpectedEof))
}

/// The header that starts `b`, and its length; fields are read in order, so
/// a bad magic number is reported before anything past it is looked at.
pub open spec fn parse_header(b: Seq<u8>) -> Result<(Header, nat), ReplayError> {
    if b.len() < 4 {
        eof()
    } else if from_le32(b.subrange(0, 4)) != MAGIC {
        Err(ReplayError::Magic(from_le32(b.subrange(0, 4))))
    } else if b.len() < 8 {
        eof()
    } else if from_le32(b.subrange(4, 8)) > 2 {
        Err(ReplayError::Version(from_le32(b.subrange(4, 8))))
    } else if b.len() < 24 {
        eof()
    } else {
        let base = HeaderBase {
            version: from_le32(b.subrange(4, 8)),
            content_crc: from_le32(b.subrange(8, 12)),
            initial_state_size: from_le32(b.subrange(12, 16)),
            identifier: from_le64(b.subrange(16, 24)),
        };
        if base.version < 2 {
            Ok((Header::V0V1(base), 24))
        } else if b.len() < 40 {
            eof()
        } else {
            match Compression::spec_from_byte(b[37]) {
                None => Err(ReplayError::Compression(b[37])),
                Some(c) => Ok(
                    (
                        Header::V2(
                            HeaderV2 {
                                base,
                                frame_count: from_le32(b.subrange(24, 28)),
                                block_size: from_le32(b.subrange(28, 32)),
                                superblock_size: from_le32(b.subrange(32, 36)),
                                checkpoint_commit_interval: b[39],
                                checkpoint_commit_threshold: b[38],
                                checkpoint_compression: c,
                            },
                        ),
                        40,
                    ),
                ),
            }
        }
    }
}

/// The bytes of a version 2 header.
pub fn write_header(h: &HeaderV2) -> (r: Vec<u8>)
    ensures
        r@ == header_bytes(*h),
{
    let mut out: Vec<u8> = Vec::new();
    push_u32(&mut out, MAGIC);
    push_u32(&mut out, 2);
    push_u32(&mut out, h.base.content_crc);
    push_u32(&mut out, h.base.initial_state_size);
    push_u64(&mut out, h.base.identifier);
    push_u32(&mut out, h.frame_count);
    push_u32(&mut out, h.block_size);
    push_u32(&mut out, h.superblock_size);
    push_u8(&mut out, 0);
    push_u8(&mut out, h.checkpoint_compression.to_byte());
    push_u8(&mut out, h.checkpoint_commit_threshold);
    push_u8(&mut out, h.checkpoint_commit_interval);
    assert(out@ =~= header_bytes(*h));
    out
}

/// Reads the header that starts `b`, as `parse_header` gives it, with the
/// number of bytes it takes.
pub fn read_header(b: &[u8]) -> (r: Result<(Header, usize), ReplayError>)
    ensures
        match parse_header(b@) {
            Ok((h, n)) => r matches Ok((h2, n2)) && h2 == h && n2 == n,
            Err(e) => r == Err::<(Header, usize), ReplayError>(e),
        },
{
    let n = b.len();
    if n < 4 {
        return Err(ReplayError::IO(IoErrorKind::UnexpectedEof));
    }
    let magic = get_u32(b, 0);
    if magic != MAGIC {
        return Err(ReplayError::Magic(magic));
    }
    if n < 8 {
        return Err(ReplayError::IO(IoErrorKind::UnexpectedEof));
    }
    let version = get_u32(b, 4);
    if version > 2 {
        return Err(ReplayError::Version(version));
    }
    if n < 24 {
        return Err(ReplayError::IO(IoErrorKind::UnexpectedEof));
    }
    let base = HeaderBase {
        version,
        content_crc: get_u32(b, 8),
        initial_state_size: get_u32(b, 12),
        identifier: get_u64(b, 16),
    };
    if version < 2 {
        return Ok((Header::V0V1(base), 24));
    }
    if n < 40 {
        return Err(ReplayError::IO(IoErrorKind::UnexpectedEof));
    }
    let c = match Compression::from_byte(b[37]) {
        Some(c) => c,
        None => {
            return Err(ReplayError::Compression(b[37]));
        },
    };
    Ok(
        (
            Header::V2(
                HeaderV2 {
                    base,
                    frame_count: get_u32(b, 24),
                    block_size: get_u32(b, 28),
                    superblock_size: get_u32(b, 32),
                    checkpoint_commit_interval: b[39],
                    checkpoint_commit_threshold: b[38],
                    checkpoint_compression: c,
                },
            ),
            40,
        ),
    )
}

/// A key event.
#[derive(Debug, Clone, Copy, PartialEq, Eq, Structural, Default)]
pub struct KeyData {
    pub down: u8,
    pub modf: u16,
    pub code: u32,
    pub chr: u32,
}

/// An input event.
#[derive(Debug, Clone, Copy, PartialEq, Eq, Structural, Default)]
pub struct InputData {
    pub port: u8,
    pub device: u8,
    pub idx: u8,
    pub id: u16,
    pub val: i16,
}

/// The two's complement bits of a 16-bit value.
pub open spec fn i16_bits(v: i16) -> u16 {
    if v >= 0 {
        v as u16
    } else {
        (v + 65536) as u16
    }
}

/// The 16-bit value whose two's complement bits are `u`.
pub open spec fn bits_i16(u: u16) -> i16 {
    if u < 32768 {
        u as i16
    } else {
        (u - 65536) as i16
    }
}

fn to_bits(v: i16) -> (r: u16)
    ensures
        r == i16_bits(v),
{
    if v >= 0 {
        v as u16
    } else {
        (v as i32 + 65536) as u16
    }
}

fn from_bits(u: u16) -> (r: i16)
    ensures
        r == bits_i16(u),
{
    if u < 32768 {
        u as i16
    } else {
        (u as i32 - 65536) as i16
    }
}

/// A key event on disk: down, a zero byte, modifiers, code, character.
pub open spec fn key_bytes(k: KeyData) -> Seq<u8> {
    seq![k.down, 0u8] + le16(k.modf) + le32(k.code) + le32(k.chr)
}

/// An input event on disk: port, device, index, a zero byte, id, value.
pub open spec fn input_bytes(i: InputData) -> Seq<u8> {
    seq![i.port, i.device, i.idx, 0u8] + le16(i.id) + le16(i16_bits(i.val))
}

pub open spec fn keys_bytes(s: Seq<KeyData>) -> Seq<u8>
    decreases s.len(),
{
    if s.len() == 0 {
        Seq::empty()
    } else {
        keys_bytes(s.drop_last()) + key_bytes(s.last())
    }
}

pub open spec fn inputs_bytes(s: Seq<InputData>) -> Seq<u8>
    decreases s.len(),
{
    if s.len() == 0 {
        Seq::empty()
    } else {
        inputs_bytes(s.drop_last()) + input_bytes(s.last())
    }
}

/// The key event stored at `p`.
pub open spec fn key_at(b: Seq<u8>, p: int) -> KeyData {
    KeyData {
        down: b[p],
        modf: from_le16(b.subrange(p + 2, p + 4)),
        code: from_le32(b.subrange(p + 4, p + 8)),
        chr: from_le32(b.subrange(p + 8, p + 12)),
    }
}

/// The input event stored at `p`.
pub open spec fn input_at(b: Seq<u8>, p: int) -> InputData {
    InputData {
        port: b[p],
        device: b[p + 1],
        idx: b[p + 2],
        id: from_le16(b.subrange(p + 4, p + 6)),
        val: bits_i16(from_le16(b.subrange(p + 6, p + 8))),
    }
}

pub open spec fn keys_at(b: Seq<u8>, p: int, n: nat) -> Seq<KeyData> {
    Seq::new(n, |k: int| key_at(b, p + 12 * k))
}

pub open spec fn inputs_at(b: Seq<u8>, p: int, n: nat) -> Seq<InputData> {
    Seq::new(n, |k: int| input_at(b, p + 8 * k))
}

fn put_keys(out: &mut Vec<u8>, s: &Vec<KeyData>)
    ensures
        final(out)@ == old(out)@ + keys_bytes(s@),
{
    let mut i: usize = 0;
    while i < s.len()
        invariant
            i <= s@.len(),
            out@ == old(out)@ + keys_bytes(s@.subrange(0, i as int)),
        decreases s@.len() - i,
    {
        let k = s[i];
        push_u8(out, k.down);
        push_u8(out, 0);
        push_u16(out, k.modf);
        push_u32(out, k.code);
        push_u32(out, k.chr);
        assert(s@.subrange(0, i + 1).drop_last() =~= s@.subrange(0, i as int));
        assert(out@ =~= old(out)@ + keys_bytes(s@.subrange(0, i + 1)));
        i += 1;
    }
    assert(s@.subrange(0, s@.len() as int) =~= s@);
}

fn put_inputs(out: &mut Vec<u8>, s: &Vec<InputData>)
    ensures
        final(out)@ == old(out)@ + inputs_bytes(s@),
{
    let mut i: usize = 0;
    while i < s.len()
        invariant
            i <= s@.len(),
            out@ == old(out)@ + inputs_bytes(s@.subrange(0, i as int)),
        decreases s@.len() - i,
    {
        let e = s[i];
        push_u8(out, e.port);
        push_u8(out, e.device);
        push_u8(out, e.idx);
        push_u8(out, 0);
        push_u16(out, e.id);
        push_u16(out, to_bits(e.val));
        assert(s@.subrange(0, i + 1).drop_last() =~= s@.subrange(0, i as int));
        assert(out@ =~= old(out)@ + inputs_bytes(s@.subrange(0, i + 1)));
        i += 1;
    }
    assert(s@.subrange(0, s@.len() as int) =~= s@);
}

fn get_keys(b: &[u8], p: usize, n: usize) -> (r: Vec<KeyData>)
    requires
        p + 12 * n <= b@.len(),
    ensures
        r@ == keys_at(b@, p as int, n as nat),
{
    let mut r: Vec<KeyData> = Vec::new();
    let mut k: usize = 0;
    let mut q: usize = p;
    while k < n
        invariant
            k <= n,
            q == p + 12 * k,
            p + 12 * n <= b@.len(),
            r@ == keys_at(b@, p as int, k as nat),
        decreases n - k,
    {
        r.push(KeyData { down: b[q], modf: get_u16(b, q + 2), code: get_u32(b, q + 4), chr: get_u32(b, q + 8) });
        assert(r@ =~= keys_at(b@, p as int, (k + 1) as nat));
        k += 1;
        q += 12;
    }
    r
}

fn get_inputs(b: &[u8], p: usize, n: usize) -> (r: Vec<InputData>)
    requires
        p + 8 * n <= b@.len(),
    ensures
        r@ == inputs_at(b@, p as int, n as nat),
{
    let mut r: Vec<InputData> = Vec::new();
    let mut k: usize = 0;
    let mut q: usize = p;
    while k < n
        invariant
            k <= n,
            q == p + 8 * k,
            p + 8 * n <= b@.len(),
            r@ == inputs_at(b@, p as int, k as nat),
        decreases n - k,
    {
        r.push(
            InputData {
                port: b[q],
                device: b[q + 1],
                idx: b[q + 2],
                id: get_u16(b, q + 4),
                val: from_bits(get_u16(b, q + 6)),
            },
        );
        assert(r@ =~= inputs_at(b@, p as int, (k + 1) as nat));
        k += 1;
        q += 8;
    }
    r
}

/// A context with only the zero block and the zero superblock.
pub open spec fn fresh_ctx(bs: u32, sbs: u32) -> CtxModel {
    CtxModel {
        block_size: bs as nat,
        superblock_size: sbs as nat,
        blocks: seq![zeros::<u8>(bs as nat)],
        supers: seq![zeros::<u32>(sbs as nat)],
        last_state: Seq::empty(),
        last_superseq: Seq::empty(),
    }
}

/// Checkpoints are state-stream encoded when both sizes are positive, and
/// stored raw otherwise.
pub open spec fn uses_statestream(m: CtxModel) -> bool {
    m.block_size > 0 && m.superblock_size > 0
}

/// Encoding `n` bytes needs no id past 32 bits.
pub open spec fn ss_fits(m: CtxModel, n: nat) -> bool {
    let k = superblock_count(n, m.block_size, m.superblock_size);
    &&& m.blocks.len() + k * m.superblock_size <= u32::MAX + 1
    &&& m.supers.len() + k <= u32::MAX + 1
}

pub open spec fn pack(c: Compression, p: Seq<u8>) -> Option<Seq<u8>> {
    match c {
        Compression::Uncompressed => Some(p),
        Compression::Zlib => zlib_packed(p),
        Compression::Zstd => zstd_packed(p),
    }
}

pub open spec fn unpack(c: Compression, z: Seq<u8>) -> Option<Seq<u8>> {
    match c {
        Compression::Uncompressed => Some(z),
        Compression::Zlib => zlib_unpacked(z),
        Compression::Zstd => zstd_unpacked(z),
    }
}

/// The checkpoint record of state `s` for `frame`, compressed with `c`: the
/// context afterwards and the record's bytes (compression, encoding, the three
/// sizes, the payload).
pub open spec fn checkpoint_record(m: CtxModel, s: Seq<u8>, frame: u64, c: Compression) -> Result<
    (CtxModel, Seq<u8>),
    ReplayError,
> {
    if s.len() > u32::MAX {
        Err(ReplayError::CheckpointTooBig(s.len() as u64))
    } else if uses_statestream(m) && !ss_fits(m, s.len()) {
        Err(ReplayError::IndexFull)
    } else {
        let e = encode_model(m.blocks, m.supers, s, m.block_size, m.superblock_size, frame);
        let ss = uses_statestream(m);
        let enc = if ss {
            Encoding::Statestream
        } else {
            Encoding::Raw
        };
        let m2 = if ss {
            CtxModel { blocks: e.blocks, supers: e.supers, last_superseq: e.seq, ..m }
        } else {
            m
        };
        let payload = if ss {
            e.out
        } else {
            s
        };
        if payload.len() > u32::MAX {
            Err(ReplayError::CheckpointTooBig(payload.len() as u64))
        } else {
            match pack(c, payload) {
                None => Err(ReplayError::IO(IoErrorKind::InvalidData)),
                Some(z) => if z.len() > u32::MAX {
                    Err(ReplayError::CheckpointTooBig(z.len() as u64))
                } else {
                    Ok(
                        (
                            m2,
                            seq![c.spec_byte(), enc.spec_byte()] + le32(s.len() as u32) + le32(
                                payload.len() as u32,
                            ) + le32(z.len() as u32) + z,
                        ),
                    )
                },
            }
        }
    }
}

/// A state-stream error as the container reports it: running out of input
/// is an unexpected end of file.
pub open spec fn ss_error(e: SSError) -> ReplayError {
    match e {
        SSError::Read(Fault::Truncated) => ReplayError::IO(IoErrorKind::UnexpectedEof),
        _ => ReplayError::Statestream(e),
    }
}

fn to_replay_error(e: SSError) -> (r: ReplayError)
    ensures
        r == ss_error(e),
{
    match e {
        SSError::Read(Fault::Truncated) => ReplayError::IO(IoErrorKind::UnexpectedEof),
        _ => ReplayError::Statestream(e),
    }
}

/// The checkpoint record at `p`: the context afterwards, the state, how it
/// was stored, and the position after the record.
pub open spec fn read_checkpoint(m: CtxModel, b: Seq<u8>, p: nat) -> Result<
    (CtxModel, Seq<u8>, Compression, Encoding, nat),
    ReplayError,
> {
    let pi = p as int;
    if pi + 1 > b.len() {
        eof()
    } else if Compression::spec_from_byte(b[pi]) is None {
        Err(ReplayError::Compression(b[pi]))
    } else if pi + 2 > b.len() {
        eof()
    } else if Encoding::spec_from_byte(b[pi + 1]) is None {
        Err(ReplayError::Encoding(b[pi + 1]))
    } else if pi + 14 > b.len() {
        eof()
    } else {
        let c = Compression::spec_from_byte(b[pi]).unwrap();
        let enc = Encoding::spec_from_byte(b[pi + 1]).unwrap();
        let n = from_le32(b.subrange(pi + 2, pi + 6)) as int;
        let zlen = from_le32(b.subrange(pi + 10, pi + 14)) as int;
        let q = pi + 14;
        if c == Compression::Uncompressed {
            if enc == Encoding::Raw {
                if q + n > b.len() {
                    eof()
                } else {
                    Ok((m, b.subrange(q, q + n), c, enc, (q + n) as nat))
                }
            } else {
                match parse_tokens(m, b, q as nat, n as nat, false, 0) {
                    Ok((m2, q2)) => Ok((m2, m2.last_state, c, enc, q2)),
                    Err(e) => Err(ss_error(e)),
                }
            }
        } else if q + zlen > b.len() {
            eof()
        } else {
            match unpack(c, b.subrange(q, q + zlen)) {
                None => Err(ReplayError::IO(IoErrorKind::InvalidData)),
                Some(u) => if enc == Encoding::Raw {
                    if n > u.len() {
                        eof()
                    } else {
                        Ok((m, u.subrange(0, n), c, enc, (q + zlen) as nat))
                    }
                } else {
                    match parse_tokens(m, u, 0, n as nat, false, 0) {
                        Ok((m2, q2)) => Ok((m2, m2.last_state, c, enc, (q + zlen) as nat)),
                        Err(e) => Err(ss_error(e)),
                    }
                },
            }
        }
    }
}

/// Writes the checkpoint record of `s`, as `checkpoint_record` gives it.
fn encode_checkpoint(ctx: &mut Ctx, s: &[u8], frame: u64, c: Compression) -> (r: Result<
    Vec<u8>,
    ReplayError,
>)
    requires
        old(ctx).wf(),
        distinct(old(ctx)@.blocks),
        distinct(old(ctx)@.supers),
    ensures
        final(ctx).wf(),
        distinct(final(ctx)@.blocks),
        distinct(final(ctx)@.supers),
        final(ctx)@.block_size == old(ctx)@.block_size,
        final(ctx)@.superblock_size == old(ctx)@.superblock_size,
        match checkpoint_record(old(ctx)@, s@, frame, c) {
            Ok((m, bytes)) => r matches Ok(v) && v@ == bytes && final(ctx)@ == m,
            Err(e) => r == Err::<Vec<u8>, ReplayError>(e),
        },
{
    let n = s.len();
    if n > u32::MAX as usize {
        return Err(ReplayError::CheckpointTooBig(n as u64));
    }
    let bs = ctx.block_size();
    let sbs = ctx.superblock_size();
    let ss = bs > 0 && sbs > 0;
    let mut payload: Vec<u8> = Vec::new();
    let enc;
    if ss {
        assert(1 <= bs as u64 * sbs as u64 <= 0xFFFF_FFFE_0000_0001u64) by (nonlinear_arith)
            requires 1 <= bs <= 0xFFFF_FFFFu64, 1 <= sbs <= 0xFFFF_FFFFu64;
        let sbb: u64 = bs as u64 * sbs as u64;
        let k: u64 = (n as u64 + sbb - 1) / sbb;
        assert(k <= n) by (nonlinear_arith)
            requires k as int == (n as int + sbb as int - 1) / (sbb as int), sbb >= 1;
        assert(k * (sbs as u64) <= 0xFFFF_FFFE_0000_0001u64) by (nonlinear_arith)
            requires k <= 0xFFFF_FFFFu64, sbs <= 0xFFFF_FFFFu64;
        let nb = ctx.block_count() as u64;
        let ns = ctx.superblock_count() as u64;
        proof {
            ctx.lemma_counts();
        }
        if nb + k * (sbs as u64) > 0x1_0000_0000u64 || ns + k > 0x1_0000_0000u64 {
            return Err(ReplayError::IndexFull);
        }
        ctx.encode_checkpoint(s, frame, &mut payload);
        enc = Encoding::Statestream;
    } else {
        payload = crate::le::copy_range(s, 0, n);
        assert(s@.subrange(0, n as int) =~= s@);
        enc = Encoding::Raw;
    }
    if payload.len() > u32::MAX as usize {
        return Err(ReplayError::CheckpointTooBig(payload.len() as u64));
    }
    let packed = match c {
        Compression::Uncompressed => Some(crate::le::copy_range(payload.as_slice(), 0, payload.len())),
        Compression::Zlib => zlib_compress(payload.as_slice()),
        Compression::Zstd => zstd_compress(payload.as_slice()),
    };
    proof {
        assert(payload@.subrange(0, payload@.len() as int) =~= payload@);
    }
    let z = match packed {
        Some(z) => z,
        None => {
            return Err(ReplayError::IO(IoErrorKind::InvalidData));
        },
    };
    if z.len() > u32::MAX as usize {
        return Err(ReplayError::CheckpointTooBig(z.len() as u64));
    }
    let mut out: Vec<u8> = Vec::new();
    push_u8(&mut out, c.to_byte());
    push_u8(&mut out, enc.to_byte());
    push_u32(&mut out, n as u32);
    push_u32(&mut out, payload.len() as u32);
    push_u32(&mut out, z.len() as u32);
    push_all(&mut out, z.as_slice());
    proof {
        assert(out@ =~= seq![c.spec_byte(), enc.spec_byte()] + le32(n as u32) + le32(
            payload@.len() as u32,
        ) + le32(z@.len() as u32) + z@);
    }
    Ok(out)
}

/// Reads the checkpoint record at `p`, as `read_checkpoint` gives it; returns
/// the state, how it was stored, and the position after the record.
fn decode_checkpoint(ctx: &mut Ctx, b: &[u8], p: usize) -> (r: Result<
    (Vec<u8>, Compression, Encoding, usize),
    ReplayError,
>)
    requires
        old(ctx).wf(),
        p <= b@.len(),
    ensures
        final(ctx).wf(),
        final(ctx)@.block_size == old(ctx)@.block_size,
        final(ctx)@.superblock_size == old(ctx)@.superblock_size,
        match read_checkpoint(old(ctx)@, b@, p as nat) {
            Ok((m, st, c, e, q)) => r matches Ok((v, c2, e2, q2)) && v@ == st && c2 == c && e2 == e
                && q2 == q && final(ctx)@ == m && p <= q <= b@.len(),
            Err(e) => r == Err::<(Vec<u8>, Compression, Encoding, usize), ReplayError>(e),
        },
{
    let len = b.len();
    if p >= len {
        return Err(ReplayError::IO(IoErrorKind::UnexpectedEof));
    }
    let c = match Compression::from_byte(b[p]) {
        Some(c) => c,
        None => {
            return Err(ReplayError::Compression(b[p]));
        },
    };
    if len - p < 2 {
        return Err(ReplayError::IO(IoErrorKind::UnexpectedEof));
    }
    let enc = match Encoding::from_byte(b[p + 1]) {
        Some(e) => e,
        None => {
            return Err(ReplayError::Encoding(b[p + 1]));
        },
    };
    if len - p < 14 {
        return Err(ReplayError::IO(IoErrorKind::UnexpectedEof));
    }
    let n = get_u32(b, p + 2);
    let zlen = get_u32(b, p + 10);
    let q = p + 14;
    match c {
        Compression::Uncompressed => {
            if enc == Encoding::Raw {
                if n as usize > len - q {
                    return Err(ReplayError::IO(IoErrorKind::UnexpectedEof));
                }
                let st = copy_range(b, q, q + n as usize);
                Ok((st, c, enc, q + n as usize))
            } else {
                match ctx.decode_checkpoint(b, q, n) {
                    Ok(q2) => {
                        let st = copy_range(ctx.last_state().as_slice(), 0, ctx.last_state().len());
                        proof {
                            assert(ctx@.last_state.subrange(0, ctx@.last_state.len() as int)
                                =~= ctx@.last_state);
                        }
                        Ok((st, c, enc, q2))
                    },
                    Err(e) => Err(to_replay_error(e)),
                }
            }
        },
        _ => {
            if zlen as usize > len - q {
                return Err(ReplayError::IO(IoErrorKind::UnexpectedEof));
            }
            let z = copy_range(b, q, q + zlen as usize);
            let unpacked = match c {
                Compression::Zlib => zlib_decompress(z.as_slice()),
                _ => zstd_decompress(z.as_slice()),
            };
            let u = match unpacked {
                Some(u) => u,
                None => {
                    return Err(ReplayError::IO(IoErrorKind::InvalidData));
                },
            };
            if enc == Encoding::Raw {
                if n as usize > u.len() {
                    return Err(ReplayError::IO(IoErrorKind::UnexpectedEof));
                }
                let st = copy_range(u.as_slice(), 0, n as usize);
                Ok((st, c, enc, q + zlen as usize))
            } else {
                match ctx.decode_checkpoint(u.as_slice(), 0, n) {
                    Ok(_) => {
                        let st = copy_range(ctx.last_state().as_slice(), 0, ctx.last_state().len());
                        proof {
                            assert(ctx@.last_state.subrange(0, ctx@.last_state.len() as int)
                                =~= ctx@.last_state);
                        }
                        Ok((st, c, enc, q + zlen as usize))
                    },
                    Err(e) => Err(to_replay_error(e)),
                }
            }
        },
    }
}

/// One frame: its events and, if a checkpoint was taken, the full state, with
/// how that state was stored.
#[derive(Debug, Clone)]
pub struct Frame {
    pub key_events: Vec<KeyData>,
    pub input_events: Vec<InputData>,
    pub checkpoint_bytes: Vec<u8>,
    pub checkpoint_compression: Compression,
    pub checkpoint_encoding: Encoding,
}

pub struct FrameView {
    pub key_events: Seq<KeyData>,
    pub input_events: Seq<InputData>,
    pub checkpoint_bytes: Seq<u8>,
    pub checkpoint_compression: Compression,
    pub checkpoint_encoding: Encoding,
}

impl View for Frame {
    type V = FrameView;

    open spec fn view(&self) -> FrameView {
        FrameView {
            key_events: self.key_events@,
            input_events: self.input_events@,
            checkpoint_bytes: self.checkpoint_bytes@,
            checkpoint_compression: self.checkpoint_compression,
            checkpoint_encoding: self.checkpoint_encoding,
        }
    }
}

impl Default for Frame {
    fn default() -> (r: Frame)
        ensures
            r@.key_events.len() == 0,
            r@.input_events.len() == 0,
            r@.checkpoint_bytes.len() == 0,
            r@.checkpoint_compression == Compression::Uncompressed,
            r@.checkpoint_encoding == Encoding::Raw,
    {
        Frame {
            key_events: Vec::new(),
            input_events: Vec::new(),
            checkpoint_bytes: Vec::new(),
            checkpoint_compression: Compression::Uncompressed,
            checkpoint_encoding: Encoding::Raw,
        }
    }
}

/// The part of a frame record before its token: back reference, key events,
/// input events, each list after its count.
pub open spec fn frame_head(backref: u32, keys: Seq<KeyData>, inputs: Seq<InputData>) -> Seq<u8> {
    le32(backref) + seq![keys.len() as u8] + keys_bytes(keys) + le16(inputs.len() as u16)
        + inputs_bytes(inputs)
}

/// The record of frame `f` at `backref` bytes from the previous one, as frame
/// number `frame_no`: the context afterwards and the bytes.
pub open spec fn frame_record(
    m: CtxModel,
    f: FrameView,
    backref: nat,
    frame_no: u64,
    c: Compression,
) -> Result<(CtxModel, Seq<u8>), ReplayError> {
    if frame_no >= u32::MAX {
        Err(ReplayError::TooManyFrames(frame_no))
    } else if backref > u32::MAX {
        Err(ReplayError::FrameTooLong(backref as u64))
    } else if f.key_events.len() > 255 {
        Err(ReplayError::TooManyKeyEvents(f.key_events.len() as u64))
    } else if f.input_events.len() > 65535 {
        Err(ReplayError::TooManyInputEvents(f.input_events.len() as u64))
    } else {
        let head = frame_head(backref as u32, f.key_events, f.input_events);
        if f.checkpoint_bytes.len() == 0 {
            Ok((m, head + seq![FrameToken::Regular.spec_byte()]))
        } else {
            match checkpoint_record(m, f.checkpoint_bytes, frame_no, c) {
                Ok((m2, rec)) => Ok((m2, head + seq![FrameToken::Checkpoint2.spec_byte()] + rec)),
                Err(e) => Err(e),
            }
        }
    }
}

/// The frame record at `p` in a file of version `version`: the frame, the
/// context afterwards, and the position after the record.
pub open spec fn read_frame_model(version: u32, m: CtxModel, b: Seq<u8>, p: nat) -> Result<
    (FrameView, CtxModel, nat),
    ReplayError,
> {
    let p1 = if version > 1 {
        p + 4int
    } else {
        p as int
    };
    if version == 0 {
        Err(ReplayError::NoCoreRead)
    } else if p1 + 1 > b.len() {
        eof()
    } else {
        let kc = b[p1] as nat;
        let p2 = p1 + 1;
        if p2 + 12 * kc + 2 > b.len() {
            eof()
        } else {
            let keys = keys_at(b, p2, kc);
            let p3 = p2 + 12 * kc;
            let ic = from_le16(b.subrange(p3, p3 + 2)) as nat;
            let p4 = p3 + 2;
            if p4 + 8 * ic + 1 > b.len() {
                eof()
            } else {
                let inputs = inputs_at(b, p4, ic);
                let p5 = p4 + 8 * ic;
                let tok = b[p5];
                let p6 = p5 + 1;
                match FrameToken::spec_from_byte(tok) {
                    FrameToken::Invalid => Err(ReplayError::BadFrameToken(tok)),
                    FrameToken::Regular => Ok(
                        (
                            FrameView {
                                key_events: keys,
                                input_events: inputs,
                                checkpoint_bytes: Seq::empty(),
                                checkpoint_compression: Compression::Uncompressed,
                                checkpoint_encoding: Encoding::Raw,
                            },
                            m,
                            p6 as nat,
                        ),
                    ),
                    FrameToken::Checkpoint => if p6 + 8 > b.len() {
                        eof()
                    } else {
                        let sz = from_le64(b.subrange(p6, p6 + 8)) as int;
                        if p6 + 8 + sz > b.len() {
                            eof()
                        } else {
                            Ok(
                                (
                                    FrameView {
                                        key_events: keys,
                                        input_events: inputs,
                                        checkpoint_bytes: b.subrange(p6 + 8, p6 + 8 + sz),
                                        checkpoint_compression: Compression::Uncompressed,
                                        checkpoint_encoding: Encoding::Raw,
                                    },
                                    m,
                                    (p6 + 8 + sz) as nat,
                                ),
                            )
                        }
                    },
                    FrameToken::Checkpoint2 => match read_checkpoint(m, b, p6 as nat) {
                        Ok((m2, st, c, e, q)) => Ok(
                            (
                                FrameView {
                                    key_events: keys,
                                    input_events: inputs,
                                    checkpoint_bytes: st,
                                    checkpoint_compression: c,
                                    checkpoint_encoding: e,
                                },
                                m2,
                                q,
                            ),
                        ),
                        Err(e) => Err(e),
                    },
                }
            }
        }
    }
}

/// The header that the encoder writes at first: the given one in version 2
/// form, with `iss` as the initial state size and no frames yet.
pub open spec fn start_header(h: Header, iss: u32) -> HeaderV2 {
    HeaderV2 {
        base: HeaderBase { initial_state_size: iss, ..base_of(h) },
        frame_count: 0,
        ..upgraded(h)
    }
}

/// What creating an encoder for header `h` and initial state `init` gives:
/// the header it keeps, its context, and the bytes written so far (the
/// header, then the initial checkpoint record unless `init` is empty).
pub open spec fn start_model(h: Header, init: Seq<u8>) -> Result<
    (HeaderV2, CtxModel, Seq<u8>),
    ReplayError,
> {
    if base_of(h).version != 2 {
        Err(ReplayError::Version(base_of(h).version))
    } else {
        let v2 = upgraded(h);
        let m = fresh_ctx(v2.block_size, v2.superblock_size);
        if init.len() == 0 {
            Ok((start_header(h, 0), m, header_bytes(start_header(h, 0))))
        } else {
            match checkpoint_record(m, init, 0, v2.checkpoint_compression) {
                Err(e) => Err(e),
                Ok((m2, rec)) => if rec.len() > u32::MAX {
                    Err(ReplayError::CheckpointTooBig(rec.len() as u64))
                } else {
                    let h2 = start_header(h, rec.len() as u32);
                    Ok((h2, m2, header_bytes(h2) + rec))
                },
            }
        }
    }
}

/// What opening a file gives: its header, the initial state, the context,
/// and where the first frame starts. A version 2 header with an initial
/// state size of zero has no initial checkpoint.
pub open spec fn open_model(b: Seq<u8>) -> Result<(Header, Seq<u8>, CtxModel, nat), ReplayError> {
    match parse_header(b) {
        Err(e) => Err(e),
        Ok((h, p)) => match h {
            Header::V0V1(base) => if p + base.initial_state_size > b.len() {
                eof()
            } else {
                Ok(
                    (
                        h,
                        b.subrange(p as int, p + base.initial_state_size),
                        fresh_ctx(1, 1),
                        (p + base.initial_state_size) as nat,
                    ),
                )
            },
            Header::V2(v2) => {
                let m = fresh_ctx(v2.block_size, v2.superblock_size);
                if v2.base.initial_state_size == 0 {
                    Ok((h, Seq::empty(), m, p))
                } else {
                    match read_checkpoint(m, b, p) {
                        Ok((m2, st, c, e, q)) => Ok((h, st, m2, q)),
                        Err(e) => Err(e),
                    }
                }
            },
        },
    }
}

/// Reads a replay held in memory, frame by frame.
pub struct ReplayDecoder {
    data: Vec<u8>,
    pos: usize,
    pub header: Header,
    pub initial_state: Vec<u8>,
    pub frame_number: u64,
    ss_state: Ctx,
}

impl ReplayDecoder {
    pub closed spec fn data(&self) -> Seq<u8> {
        self.data@
    }

    /// Where the next frame record starts.
    pub closed spec fn pos(&self) -> nat {
        self.pos as nat
    }

    pub closed spec fn ctx(&self) -> CtxModel {
        self.ss_state@
    }

    pub closed spec fn header_view(&self) -> Header {
        self.header
    }

    pub closed spec fn initial_view(&self) -> Seq<u8> {
        self.initial_state@
    }

    /// The number of frames read so far.
    pub closed spec fn frames_read(&self) -> u64 {
        self.frame_number
    }

    pub closed spec fn wf(&self) -> bool {
        &&& self.ss_state.wf()
        &&& self.pos <= self.data@.len()
        &&& self.frame_number <= self.pos
    }

    /// Opens the replay in `data`, as `open_model` gives it.
    pub fn new(data: Vec<u8>) -> (r: Result<ReplayDecoder, ReplayError>)
        ensures
            match open_model(data@) {
                Ok((h, init, m, p)) => r matches Ok(d) && d.wf() && d.header_view() == h
                    && d.initial_view() == init && d.ctx() == m && d.pos() == p && d.data()
                    == data@ && d.frames_read() == 0,
                Err(e) => r matches Err(x) && x == e,
            },
    {
        let (h, p) = match read_header(data.as_slice()) {
            Ok(x) => x,
            Err(e) => {
                return Err(e);
            },
        };
        match h {
            Header::V0V1(base) => {
                let iss = base.initial_state_size as usize;
                if iss > data.len() - p {
                    return Err(ReplayError::IO(IoErrorKind::UnexpectedEof));
                }
                let initial_state = copy_range(data.as_slice(), p, p + iss);
                let ss_state = Ctx::new(1, 1);
                Ok(ReplayDecoder { data, pos: p + iss, header: h, initial_state, frame_number: 0, ss_state })
            },
            Header::V2(v2) => {
                let mut ss_state = Ctx::new(v2.block_size, v2.superblock_size);
                if v2.base.initial_state_size == 0 {
                    return Ok(
                        ReplayDecoder {
                            data,
                            pos: p,
                            header: h,
                            initial_state: Vec::new(),
                            frame_number: 0,
                            ss_state,
                        },
                    );
                }
                match decode_checkpoint(&mut ss_state, data.as_slice(), p) {
                    Ok((initial_state, _, _, q)) => Ok(
                        ReplayDecoder { data, pos: q, header: h, initial_state, frame_number: 0, ss_state },
                    ),
                    Err(e) => Err(e),
                }
            },
        }
    }

    /// Reads the next frame into `frame`, as `read_frame_model` gives it. On
    /// an error neither `frame` nor the position changes.
    pub fn read_frame(&mut self, frame: &mut Frame) -> (r: Result<(), ReplayError>)
        requires
            old(self).wf(),
        ensures
            final(self).wf(),
            final(self).header_view() == old(self).header_view(),
            final(self).initial_view() == old(self).initial_view(),
            final(self).data() == old(self).data(),
            match read_frame_model(
                base_of(old(self).header_view()).version,
                old(self).ctx(),
                old(self).data(),
                old(self).pos(),
            ) {
                Ok((f, m, q)) => r is Ok && final(frame)@ == f && final(self).ctx() == m
                    && final(self).pos() == q && final(self).frames_read() == old(self).frames_read()
                    + 1,
                Err(e) => r == Err::<(), ReplayError>(e) && *final(frame) == *old(frame)
                    && final(self).pos() == old(self).pos() && final(self).frames_read() == old(self).frames_read(),
            },
    {
        let v = self.header.version();
        if v == 0 {
            return Err(ReplayError::NoCoreRead);
        }
        let len = self.data.len();
        let mut p = self.pos;
        if v > 1 {
            if len - p < 4 {
                return Err(ReplayError::IO(IoErrorKind::UnexpectedEof));
            }
            p = p + 4;
        }
        if p >= len {
            return Err(ReplayError::IO(IoErrorKind::UnexpectedEof));
        }
        let kc = self.data[p] as usize;
        p = p + 1;
        if len - p < 12 * kc + 2 {
            return Err(ReplayError::IO(IoErrorKind::UnexpectedEof));
        }
        let keys = get_keys(self.data.as_slice(), p, kc);
        p = p + 12 * kc;
        let ic = get_u16(self.data.as_slice(), p) as usize;
        p = p + 2;
        if len - p < 8 * ic + 1 {
            return Err(ReplayError::IO(IoErrorKind::UnexpectedEof));
        }
        let inputs = get_inputs(self.data.as_slice(), p, ic);
        p = p + 8 * ic;
        let tok = self.data[p];
        p = p + 1;
        let (bytes, c, e, q) = match FrameToken::from_byte(tok) {
            FrameToken::Invalid => {
                return Err(ReplayError::BadFrameToken(tok));
            },
            FrameToken::Regular => (Vec::new(), Compression::Uncompressed, Encoding::Raw, p),
            FrameToken::Checkpoint => {
                if len - p < 8 {
                    return Err(ReplayError::IO(IoErrorKind::UnexpectedEof));
                }
                let sz = get_u64(self.data.as_slice(), p);
                p = p + 8;
                if sz > (len - p) as u64 {
                    return Err(ReplayError::IO(IoErrorKind::UnexpectedEof));
                }
                let bytes = copy_range(self.data.as_slice(), p, p + sz as usize);
                (bytes, Compression::Uncompressed, Encoding::Raw, p + sz as usize)
            },
            FrameToken::Checkpoint2 => match decode_checkpoint(
                &mut self.ss_state,
                self.data.as_slice(),
                p,
            ) {
                Ok(x) => x,
                Err(e) => {
                    return Err(e);
                },
            },
        };
        frame.key_events = keys;
        frame.input_events = inputs;
        frame.checkpoint_bytes = bytes;
        frame.checkpoint_compression = c;
        frame.checkpoint_encoding = e;
        self.pos = q;
        self.frame_number = self.frame_number + 1;
        Ok(())
    }
}

/// Opens the replay held in `data`; see `ReplayDecoder::new`.
pub fn decode(data: Vec<u8>) -> (r: Result<ReplayDecoder, ReplayError>)
    ensures
        match open_model(data@) {
            Ok((h, init, m, p)) => r matches Ok(d) && d.wf() && d.header_view() == h && d.initial_view()
                == init && d.ctx() == m && d.pos() == p && d.data() == data@ && d.frames_read() == 0,
            Err(e) => r matches Err(x) && x == e,
        },
{
    ReplayDecoder::new(data)
}

/// Writes a replay into memory: the header, the initial checkpoint, then one
/// record per frame; `finish` writes the final frame count into the header.
pub struct ReplayEncoder {
    out: Vec<u8>,
    pub header: Header,
    pub frame_number: u64,
    last_pos: usize,
    ss_state: Ctx,
    finished: bool,
}

impl ReplayEncoder {
    /// The bytes written so far.
    pub closed spec fn written(&self) -> Seq<u8> {
        self.out@
    }

    pub closed spec fn ctx(&self) -> CtxModel {
        self.ss_state@
    }

    /// Where the last frame record, or the initial checkpoint, ends.
    pub closed spec fn last_pos(&self) -> nat {
        self.last_pos as nat
    }

    pub closed spec fn is_finished(&self) -> bool {
        self.finished
    }

    pub closed spec fn header_view(&self) -> Header {
        self.header
    }

    /// The number of frames written so far.
    pub closed spec fn frames_written(&self) -> u64 {
        self.frame_number
    }

    pub closed spec fn wf(&self) -> bool {
        &&& self.ss_state.wf()
        &&& distinct(self.ss_state@.blocks)
        &&& distinct(self.ss_state@.supers)
        &&& self.last_pos <= self.out@.len()
        &&& self.out@.len() >= HEADERV2_LEN_BYTES
        &&& self.frame_number <= u32::MAX
    }

    /// Starts a replay with `header`, which must be version 2, and the
    /// initial state, as `start_model` gives it.
    pub fn new(header: Header, initial_state: &[u8]) -> (r: Result<ReplayEncoder, ReplayError>)
        ensures
            match start_model(header, initial_state@) {
                Ok((h, m, bytes)) => r matches Ok(e) && e.wf() && e.header_view() == Header::V2(h)
                    && e.ctx() == m && e.written() == bytes && e.frames_written() == 0
                    && e.last_pos() == bytes.len() && !e.is_finished(),
                Err(x) => r matches Err(y) && y == x,
            },
    {
        let version = header.version();
        if version != 2 {
            return Err(ReplayError::Version(version));
        }
        let v2 = header.v2();
        let mut ss_state = Ctx::new(v2.block_size, v2.superblock_size);
        let mut iss: u32 = 0;
        let mut rec: Vec<u8> = Vec::new();
        if initial_state.len() > 0 {
            rec = match encode_checkpoint(
                &mut ss_state,
                initial_state,
                0,
                v2.checkpoint_compression,
            ) {
                Ok(v) => v,
                Err(e) => {
                    return Err(e);
                },
            };
            if rec.len() > u32::MAX as usize {
                return Err(ReplayError::CheckpointTooBig(rec.len() as u64));
            }
            iss = rec.len() as u32;
        }
        let h2 = HeaderV2 {
            base: HeaderBase { initial_state_size: iss, ..header.base() },
            frame_count: 0,
            ..v2
        };
        let mut out = write_header(&h2);
        push_all(&mut out, rec.as_slice());
        proof {
            if initial_state@.len() == 0 {
                assert(out@ =~= header_bytes(h2));
            }
        }
        let last_pos = out.len();
        Ok(
            ReplayEncoder {
                out,
                header: Header::V2(h2),
                frame_number: 0,
                last_pos,
                ss_state,
                finished: false,
            },
        )
    }

    /// Appends the record of `frame`, as `frame_record` gives it. On an error
    /// nothing is appended.
    pub fn write_frame(&mut self, frame: &Frame) -> (r: Result<(), ReplayError>)
        requires
            old(self).wf(),
        ensures
            final(self).wf(),
            final(self).header_view() == old(self).header_view(),
            final(self).is_finished() == old(self).is_finished(),
            match frame_record(
                old(self).ctx(),
                frame@,
                (old(self).written().len() - old(self).last_pos()) as nat,
                old(self).frames_written(),
                upgraded(old(self).header_view()).checkpoint_compression,
            ) {
                Ok((m, bytes)) => r is Ok && final(self).written() == old(self).written() + bytes
                    && final(self).ctx() == m && final(self).frames_written()
                    == old(self).frames_written() + 1 && final(self).last_pos()
                    == old(self).written().len(),
                Err(e) => r == Err::<(), ReplayError>(e) && final(self).written() == old(
                    self,
                ).written() && final(self).frames_written() == old(self).frames_written()
                    && final(self).last_pos() == old(self).last_pos(),
            },
    {
        if self.frame_number >= u32::MAX as u64 {
            return Err(ReplayError::TooManyFrames(self.frame_number));
        }
        let start_pos = self.out.len();
        let backref = start_pos - self.last_pos;
        if backref > u32::MAX as usize {
            return Err(ReplayError::FrameTooLong(backref as u64));
        }
        let kc = frame.key_events.len();
        if kc > 255 {
            return Err(ReplayError::TooManyKeyEvents(kc as u64));
        }
        let ic = frame.input_events.len();
        if ic > 65535 {
            return Err(ReplayError::TooManyInputEvents(ic as u64));
        }
        let mut rec: Vec<u8> = Vec::new();
        push_u32(&mut rec, backref as u32);
        push_u8(&mut rec, kc as u8);
        put_keys(&mut rec, &frame.key_events);
        push_u16(&mut rec, ic as u16);
        put_inputs(&mut rec, &frame.input_events);
        let ghost head = rec@;
        proof {
            assert(head =~= frame_head(backref as u32, frame@.key_events, frame@.input_events));
        }
        if frame.checkpoint_bytes.len() == 0 {
            push_u8(&mut rec, FrameToken::Regular.to_byte());
        } else {
            push_u8(&mut rec, FrameToken::Checkpoint2.to_byte());
            let c = self.header.checkpoint_compression();
            match encode_checkpoint(
                &mut self.ss_state,
                frame.checkpoint_bytes.as_slice(),
                self.frame_number,
                c,
            ) {
                Ok(v) => {
                    push_all(&mut rec, v.as_slice());
                },
                Err(e) => {
                    return Err(e);
                },
            }
        }
        push_all(&mut self.out, rec.as_slice());
        self.frame_number = self.frame_number + 1;
        self.last_pos = start_pos;
        Ok(())
    }

    /// Writes the frame count into the header, once; later calls change nothing.
    pub fn finish(&mut self) -> (r: Result<(), ReplayError>)
        requires
            old(self).wf(),
        ensures
            r is Ok,
            final(self).wf(),
            final(self).is_finished(),
            final(self).frames_written() == old(self).frames_written(),
            final(self).ctx() == old(self).ctx(),
            old(self).is_finished() ==> final(self).written() == old(self).written()
                && final(self).header_view() == old(self).header_view(),
            !old(self).is_finished() ==> {
                let h = HeaderV2 {
                    frame_count: old(self).frames_written() as u32,
                    ..upgraded(old(self).header_view())
                };
                &&& final(self).header_view() == Header::V2(h)
                &&& final(self).written() == header_bytes(h) + old(self).written().subrange(
                    HEADERV2_LEN_BYTES as int,
                    old(self).written().len() as int,
                )
            },
    {
        if self.finished {
            return Ok(());
        }
        self.header.set_frame_count(self.frame_number as u32);
        let hb = write_header(&self.header.v2());
        crate::le::overwrite_prefix(&mut self.out, hb.as_slice());
        self.finished = true;
        Ok(())
    }

    /// The bytes of the replay, finished if `finish` was not called.
    pub fn into_bytes(self) -> (r: Vec<u8>)
        requires
            self.wf(),
        ensures
            self.is_finished() ==> r@ == self.written(),
            !self.is_finished() ==> r@ == header_bytes(
                HeaderV2 { frame_count: self.frames_written() as u32, ..upgraded(self.header_view()) },
            ) + self.written().subrange(HEADERV2_LEN_BYTES as int, self.written().len() as int),
    {
        let mut e = self;
        let _ = e.finish();
        e.out
    }
}

/// Starts a replay; see `ReplayEncoder::new`.
pub fn encode(header: Header, initial_state: &[u8]) -> (r: Result<ReplayEncoder, ReplayError>)
    ensures
        match start_model(header, initial_state@) {
            Ok((h, m, bytes)) => r matches Ok(e) && e.wf() && e.header_view() == Header::V2(h)
                && e.ctx() == m && e.written() == bytes && e.frames_written() == 0 && e.last_pos()
                == bytes.len() && !e.is_finished(),
            Err(x) => r matches Err(y) && y == x,
        },
{
    ReplayEncoder::new(header, initial_state)
}

pub open spec fn digit_char(d: nat) -> char {
    if d == 0 {
        '0'
    } else if d == 1 {
        '1'
    } else if d == 2 {
        '2'
    } else if d == 3 {
        '3'
    } else if d == 4 {
        '4'
    } else if d == 5 {
        '5'
    } else if d == 6 {
        '6'
    } else if d == 7 {
        '7'
    } else if d == 8 {
        '8'
    } else {
        '9'
    }
}

/// The decimal digits of `v`.
pub open spec fn decimal(v: nat) -> Seq<char>
    decreases v,
{
    if v < 10 {
        seq![digit_char(v)]
    } else {
        decimal(v / 10).push(digit_char(v % 10))
    }
}

/// `v` in decimal, zero-padded to at least three digits.
pub open spec fn padded3(v: u16) -> Seq<char> {
    if v < 10 {
        seq!['0', '0'] + decimal(v as nat)
    } else if v < 100 {
        seq!['0'] + decimal(v as nat)
    } else {
        decimal(v as nat)
    }
}

/// The sixteen bits of `u`, most significant first.
pub open spec fn binary16(u: u16) -> Seq<char> {
    Seq::new(16, |k: int| if (u >> ((15 - k) as u16)) & 1u16 == 1u16 { '1' } else { '0' })
}

/// An input event as text: its id, then its value's bits.
pub open spec fn event_text(e: InputData) -> Seq<char> {
    padded3(e.id) + seq![':'] + binary16(i16_bits(e.val))
}

/// The input events as text, separated by `--`.
pub open spec fn inputs_text(s: Seq<InputData>) -> Seq<char>
    decreases s.len(),
{
    if s.len() == 0 {
        Seq::empty()
    } else if s.len() == 1 {
        event_text(s[0])
    } else {
        inputs_text(s.drop_last()) + seq!['-', '-'] + event_text(s.last())
    }
}

/// Relies on `String::push`: the character is appended.
#[verifier::external_body]
fn push_char(s: &mut String, c: char)
    ensures
        final(s)@ == old(s)@.push(c),
{
    s.push(c)
}

fn digit(d: u16) -> (r: char)
    requires
        d < 10,
    ensures
        r == digit_char(d as nat),
{
    if d == 0 {
        '0'
    } else if d == 1 {
        '1'
    } else if d == 2 {
        '2'
    } else if d == 3 {
        '3'
    } else if d == 4 {
        '4'
    } else if d == 5 {
        '5'
    } else if d == 6 {
        '6'
    } else if d == 7 {
        '7'
    } else if d == 8 {
        '8'
    } else {
        '9'
    }
}

fn push_decimal(s: &mut String, v: u16)
    ensures
        final(s)@ == old(s)@ + decimal(v as nat),
    decreases v,
{
    if v >= 10 {
        push_decimal(s, v / 10);
    }
    push_char(s, digit(v % 10));
    assert(final(s)@ =~= old(s)@ + decimal(v as nat));
}

fn push_event(s: &mut String, e: InputData)
    ensures
        final(s)@ == old(s)@ + event_text(e),
{
    if e.id < 10 {
        push_char(s, '0');
        push_char(s, '0');
    } else if e.id < 100 {
        push_char(s, '0');
    }
    push_decimal(s, e.id);
    push_char(s, ':');
    let u = to_bits(e.val);
    let ghost before = s@;
    let mut k: u16 = 0;
    while k < 16
        invariant
            k <= 16,
            s@ == before + binary16(u).subrange(0, k as int),
        decreases 16 - k,
    {
        let c = if (u >> (15 - k)) & 1 == 1 {
            '1'
        } else {
            '0'
        };
        push_char(s, c);
        assert(binary16(u).subrange(0, k + 1) =~= binary16(u).subrange(0, k as int).push(c));
        k += 1;
    }
    assert(binary16(u).subrange(0, 16) =~= binary16(u));
    assert(final(s)@ =~= old(s)@ + event_text(e));
}

impl Frame {
    /// The frame's input events as text: each as its id in decimal (at least
    /// three digits), a colon and the sixteen bits of its value, separated by
    /// `--`.
    pub fn inputs(&self) -> (r: String)
        ensures
            r@ == inputs_text(self.input_events@),
    {
        let mut out = String::new();
        let mut i: usize = 0;
        while i < self.input_events.len()
            invariant
                i <= self.input_events@.len(),
                out@ == inputs_text(self.input_events@.subrange(0, i as int)),
            decreases self.input_events@.len() - i,
        {
            let ghost pre = self.input_events@.subrange(0, i as int);
            if i > 0 {
                push_char(&mut out, '-');
                push_char(&mut out, '-');
            }
            push_event(&mut out, self.input_events[i]);
            proof {
                let next = self.input_events@.subrange(0, i + 1);
                assert(next.drop_last() =~= pre);
                if i == 0 {
                    assert(next.len() == 1 && next[0] == self.input_events@[0]);
                }
            }
            i += 1;
        }
        assert(self.input_events@.subrange(0, self.input_events@.len() as int)
            =~= self.input_events@);
        out
    }
}

} // verus!
