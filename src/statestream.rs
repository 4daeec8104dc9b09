//! The state-stream encoding: a checkpoint is cut into blocks and superblocks
//! of block ids, each deduplicated against everything seen earlier in the
//! replay, and written as MessagePack tokens.
use vstd::prelude::*;

use crate::blockindex::{distinct, insert_model, zeros, BlockIndex, Insertion};
use crate::le::push_all;
use crate::msgpack::{
    array_len_at, array_len_bytes, bin_len_at, bin_len_bytes, put_array_len, put_bin_len,
    put_uint, read_array_len, read_bin_len, read_uint, uint_at, uint_bytes, Fault,
};

verus! {

/// The kinds of token in a state-stream record.
#[derive(Debug, Clone, Copy, PartialEq, Eq, Structural)]
pub enum SSToken {
    Start,
    NewBlock,
    NewSuperblock,
    SuperblockSeq,
}

impl SSToken {
    pub open spec fn spec_code(self) -> u64 {
        match self {
            SSToken::Start => 0,
            SSToken::NewBlock => 1,
            SSToken::NewSuperblock => 2,
            SSToken::SuperblockSeq => 3,
        }
    }

    /// The token's number on the wire.
    pub fn code(self) -> (r: u64)
        ensures
            r == self.spec_code(),
    {
        match self {
            SSToken::Start => 0,
            SSToken::NewBlock => 1,
            SSToken::NewSuperblock => 2,
            SSToken::SuperblockSeq => 3,
        }
    }

    pub open spec fn spec_from_code(v: u64) -> Option<SSToken> {
        if v == 0 {
            Some(SSToken::Start)
        } else if v == 1 {
            Some(SSToken::NewBlock)
        } else if v == 2 {
            Some(SSToken::NewSuperblock)
        } else if v == 3 {
            Some(SSToken::SuperblockSeq)
        } else {
            None
        }
    }

    /// The token with number `v`, if there is one.
    pub fn from_code(v: u64) -> (r: Option<SSToken>)
        ensures
            r == Self::spec_from_code(v),
    {
        if v == 0 {
            Some(SSToken::Start)
        } else if v == 1 {
            Some(SSToken::NewBlock)
        } else if v == 2 {
            Some(SSToken::NewSuperblock)
        } else if v == 3 {
            Some(SSToken::SuperblockSeq)
        } else {
            None
        }
    }
}

/// Where the decoder stands within one record.
#[derive(Debug, Clone, Copy, PartialEq, Eq, Structural)]
pub enum ParseState {
    WaitForStart,
    WaitForSuperblockSeq,
    Finished,
}

/// Why a state-stream record could not be decoded.
#[derive(Debug, Clone, Copy, PartialEq, Eq, Structural)]
pub enum SSError {
    /// A MessagePack value could not be read.
    Read(Fault),
    /// A token number that names no token.
    InvalidToken(u64),
    /// A second `Start` in one record.
    TooManyStarts,
    /// A token that may not come in this state.
    ParseError(ParseState, SSToken),
    /// A new block whose length is not the block size.
    BlockWrongSize(u32),
    /// A new superblock whose length is not the superblock size.
    SuperblockWrongSize(u32),
    /// A new block whose id is not the next one (frame, id).
    BadBlockInsert(u64, u32),
    /// A new superblock whose id is not the next one (frame, id).
    BadSuperblockInsert(u64, u32),
    /// A superblock names a block id that was never declared.
    UnknownBlock,
    /// The sequence names a superblock id that was never declared.
    UnknownSuperblock,
}

/// The state that a replay's records build up, as values.
pub struct CtxModel {
    pub block_size: nat,
    pub superblock_size: nat,
    pub blocks: Seq<Seq<u8>>,
    pub supers: Seq<Seq<u32>>,
    pub last_state: Seq<u8>,
    pub last_superseq: Seq<u32>,
}

/// Every block id that a superblock holds has been declared.
pub open spec fn refs_declared(blocks: Seq<Seq<u8>>, supers: Seq<Seq<u32>>) -> bool {
    forall|s: int, k: int|
        0 <= s < supers.len() && 0 <= k < supers[s].len() ==> (#[trigger] supers[s][k]) < blocks.len()
}

impl CtxModel {
    /// The invariant of a context: id 0 is the zero block and the zero
    /// superblock, every object has its size, ids fit in 32 bits, and every
    /// reference points to an object declared before it.
    pub open spec fn wf(self) -> bool {
        &&& 1 <= self.blocks.len() <= u32::MAX + 1
        &&& 1 <= self.supers.len() <= u32::MAX + 1
        &&& self.blocks[0] == zeros::<u8>(self.block_size)
        &&& self.supers[0] == zeros::<u32>(self.superblock_size)
        &&& forall|i: int| 0 <= i < self.blocks.len() ==> (#[trigger] self.blocks[i]).len() == self.block_size
        &&& forall|i: int| 0 <= i < self.supers.len() ==> (#[trigger] self.supers[i]).len() == self.superblock_size
        &&& refs_declared(self.blocks, self.supers)
        &&& !any_unknown(self.last_superseq, self.supers.len())
    }
}

/// The long-lived state of one replay's state-stream records: the sizes, both
/// indexes, and the last state and superblock sequence.
pub struct Ctx {
    block_size: u32,
    superblock_size: u32,
    last_state: Vec<u8>,
    last_superseq: Vec<u32>,
    block_index: BlockIndex<u8>,
    superblock_index: BlockIndex<u32>,
}

impl View for Ctx {
    type V = CtxModel;

    closed spec fn view(&self) -> CtxModel {
        CtxModel {
            block_size: self.block_size as nat,
            superblock_size: self.superblock_size as nat,
            blocks: self.block_index@,
            supers: self.superblock_index@,
            last_state: self.last_state@,
            last_superseq: self.last_superseq@,
        }
    }
}

/// `bs` bytes of `s` from `start`, zero past its end.
pub open spec fn chunk(s: Seq<u8>, start: int, bs: nat) -> Seq<u8> {
    Seq::new(bs, |x: int| if start + x < s.len() { s[start + x] } else { 0u8 })
}

/// Block number `k` of `s`.
pub open spec fn block_of(s: Seq<u8>, bs: nat, k: int) -> Seq<u8> {
    chunk(s, k * bs, bs)
}

pub open spec fn ceil_div(a: nat, b: nat) -> nat {
    if b == 0 {
        0
    } else {
        ((a + b - 1) as nat / b) as nat
    }
}

/// The number of superblocks that cover `n` bytes.
pub open spec fn superblock_count(n: nat, bs: nat, sbs: nat) -> nat {
    ceil_div(n, bs * sbs)
}

/// The framings of a sequence of unsigned integers, one after another.
pub open spec fn uints_bytes(s: Seq<u32>) -> Seq<u8>
    decreases s.len(),
{
    if s.len() == 0 {
        Seq::empty()
    } else {
        uints_bytes(s.drop_last()) + uint_bytes(s.last() as u64)
    }
}

pub open spec fn start_bytes(frame: u64) -> Seq<u8> {
    uint_bytes(SSToken::Start.spec_code()) + uint_bytes(frame)
}

pub open spec fn new_block_bytes(id: u32, blk: Seq<u8>) -> Seq<u8> {
    uint_bytes(SSToken::NewBlock.spec_code()) + uint_bytes(id as u64) + bin_len_bytes(
        blk.len() as u32,
    ) + blk
}

pub open spec fn new_superblock_bytes(id: u32, sb: Seq<u32>) -> Seq<u8> {
    uint_bytes(SSToken::NewSuperblock.spec_code()) + uint_bytes(id as u64) + array_len_bytes(
        sb.len() as u32,
    ) + uints_bytes(sb)
}

pub open spec fn superseq_bytes(seq: Seq<u32>) -> Seq<u8> {
    uint_bytes(SSToken::SuperblockSeq.spec_code()) + array_len_bytes(seq.len() as u32)
        + uints_bytes(seq)
}

/// Where the encoder stands: both stores, what it has written, the block ids
/// of the superblock under way, and the superblock ids so far.
pub struct EncStep {
    pub blocks: Seq<Seq<u8>>,
    pub supers: Seq<Seq<u32>>,
    pub out: Seq<u8>,
    pub ids: Seq<u32>,
    pub seq: Seq<u32>,
}

/// Stores one block, declaring it if it is new.
pub open spec fn enc_block(st: EncStep, blk: Seq<u8>) -> EncStep {
    let (blocks, ins) = insert_model(st.blocks, blk);
    EncStep {
        blocks,
        ids: st.ids.push(ins.index),
        out: if ins.is_new {
            st.out + new_block_bytes(ins.index, blk)
        } else {
            st.out
        },
        ..st
    }
}

/// The `j` blocks from block number `first` on stored, as one superblock.
pub open spec fn enc_blocks(st: EncStep, s: Seq<u8>, bs: nat, first: int, j: nat) -> EncStep
    decreases j,
{
    if j == 0 {
        EncStep { ids: Seq::empty(), ..st }
    } else {
        enc_block(enc_blocks(st, s, bs, first, (j - 1) as nat), block_of(s, bs, first + j - 1))
    }
}

/// Storing blocks changes neither the superblock store nor the sequence.
pub proof fn lemma_enc_blocks_keeps(st: EncStep, s: Seq<u8>, bs: nat, first: int, j: nat)
    ensures
        enc_blocks(st, s, bs, first, j).supers == st.supers,
        enc_blocks(st, s, bs, first, j).seq == st.seq,
        enc_blocks(st, s, bs, first, j).ids.len() == j,
    decreases j,
{
    if j > 0 {
        lemma_enc_blocks_keeps(st, s, bs, first, (j - 1) as nat);
    }
}

/// Stores the superblock whose block ids are under way, declaring it if new.
pub open spec fn enc_super(st: EncStep) -> EncStep {
    let (supers, ins) = insert_model(st.supers, st.ids);
    EncStep {
        supers,
        seq: st.seq.push(ins.index),
        out: if ins.is_new {
            st.out + new_superblock_bytes(ins.index, st.ids)
        } else {
            st.out
        },
        ..st
    }
}

/// The first `i` superblocks stored.
pub open spec fn enc_supers(st: EncStep, s: Seq<u8>, bs: nat, sbs: nat, i: nat) -> EncStep
    decreases i,
{
    if i == 0 {
        st
    } else {
        let prev = enc_supers(st, s, bs, sbs, (i - 1) as nat);
        enc_super(enc_blocks(prev, s, bs, (i - 1) * sbs, sbs))
    }
}

/// The state-stream record of checkpoint `s` for `frame`, against the stores
/// `blocks` and `supers`: the record's bytes in `out`, the grown stores, and
/// the superblock sequence in `seq`.
pub open spec fn encode_model(
    blocks: Seq<Seq<u8>>,
    supers: Seq<Seq<u32>>,
    s: Seq<u8>,
    bs: nat,
    sbs: nat,
    frame: u64,
) -> EncStep {
    let st0 = EncStep { blocks, supers, out: start_bytes(frame), ids: Seq::empty(), seq: Seq::empty() };
    let st = enc_supers(st0, s, bs, sbs, superblock_count(s.len(), bs, sbs));
    EncStep { out: st.out + superseq_bytes(st.seq), ..st }
}

/// What follows position `p`.
pub open spec fn tail(b: Seq<u8>, p: nat) -> Seq<u8> {
    b.subrange(p as int, b.len() as int)
}

/// The integer that starts `b`, where it fits in a `u32`.
pub open spec fn u32_at(b: Seq<u8>) -> Result<(u32, nat), Fault> {
    match uint_at(b) {
        Ok((v, n)) => if v <= u32::MAX {
            Ok((v as u32, n))
        } else {
            Err(Fault::Malformed)
        },
        Err(f) => Err(f),
    }
}

/// `count` integers that fit in a `u32`, read one after another from `p`,
/// and the position after them.
pub open spec fn u32s_at(b: Seq<u8>, p: nat, count: nat) -> Result<(Seq<u32>, nat), Fault>
    decreases count,
{
    if count == 0 {
        Ok((Seq::empty(), p))
    } else {
        match u32s_at(b, p, (count - 1) as nat) {
            Ok((s, q)) => match u32_at(tail(b, q)) {
                Ok((v, n)) => Ok((s.push(v), (q + n) as nat)),
                Err(f) => Err(f),
            },
            Err(f) => Err(f),
        }
    }
}

pub proof fn lemma_u32s_at_bounds(b: Seq<u8>, p: nat, count: nat)
    ensures
        u32s_at(b, p, count) matches Ok((s, q)) ==> s.len() == count && p <= q && (p <= b.len()
            ==> q <= b.len()),
    decreases count,
{
    if count > 0 {
        lemma_u32s_at_bounds(b, p, (count - 1) as nat);
        if let Ok((s, q)) = u32s_at(b, p, (count - 1) as nat) {
            lemma_uint_at_len(tail(b, q));
        }
    }
}

/// Some id in `ids` is not below `limit`.
pub open spec fn any_unknown(ids: Seq<u32>, limit: nat) -> bool {
    exists|k: int| 0 <= k < ids.len() && ids[k] >= limit
}

/// The state that a superblock sequence rebuilds: byte `a` comes from block
/// `a / bs`, which is entry `(a / bs) % sbs` of superblock `(a / bs) / sbs`
/// of the sequence; bytes past the sequence keep the previous state, or zero.
pub open spec fn materialize(
    prev: Seq<u8>,
    size: nat,
    seq: Seq<u32>,
    supers: Seq<Seq<u32>>,
    blocks: Seq<Seq<u8>>,
    bs: nat,
    sbs: nat,
) -> Seq<u8> {
    Seq::new(
        size,
        |a: int|
            if bs > 0 && sbs > 0 && (a / bs as int) / (sbs as int) < seq.len() {
                blocks[supers[seq[(a / bs as int) / (sbs as int)] as int][(a / bs as int) % (
                sbs as int)] as int][a % (bs as int)]
            } else if a < prev.len() {
                prev[a]
            } else {
                0u8
            },
    )
}

/// A `NewBlock` token whose number ends at `q`: the block is appended to the
/// store if its id is the next one and it has the block size.
pub open spec fn new_block_step(m: CtxModel, b: Seq<u8>, q: nat, frame: u64) -> Result<
    (CtxModel, nat),
    SSError,
> {
    match u32_at(tail(b, q)) {
        Err(f) => Err(SSError::Read(f)),
        Ok((idx, n2)) => match bin_len_at(tail(b, (q + n2) as nat)) {
            Err(f) => Err(SSError::Read(f)),
            Ok((len, n3)) => {
                let q3 = (q + n2 + n3) as nat;
                if len != m.block_size {
                    Err(SSError::BlockWrongSize(len))
                } else if q3 + len > b.len() {
                    Err(SSError::Read(Fault::Truncated))
                } else if idx != m.blocks.len() {
                    Err(SSError::BadBlockInsert(frame, idx))
                } else {
                    Ok(
                        (
                            CtxModel { blocks: m.blocks.push(b.subrange(q3 as int, q3 + len)), ..m },
                            (q3 + len) as nat,
                        ),
                    )
                }
            },
        },
    }
}

/// A `NewSuperblock` token whose number ends at `q`: the superblock is
/// appended if its id is the next one, it has the superblock size, and every
/// block it names is declared.
pub open spec fn new_superblock_step(m: CtxModel, b: Seq<u8>, q: nat, frame: u64) -> Result<
    (CtxModel, nat),
    SSError,
> {
    match u32_at(tail(b, q)) {
        Err(f) => Err(SSError::Read(f)),
        Ok((idx, n2)) => match array_len_at(tail(b, (q + n2) as nat)) {
            Err(f) => Err(SSError::Read(f)),
            Ok((len, n3)) => if len != m.superblock_size {
                Err(SSError::SuperblockWrongSize(len))
            } else {
                match u32s_at(b, (q + n2 + n3) as nat, len as nat) {
                    Err(f) => Err(SSError::Read(f)),
                    Ok((ids, q4)) => if any_unknown(ids, m.blocks.len()) {
                        Err(SSError::UnknownBlock)
                    } else if idx != m.supers.len() {
                        Err(SSError::BadSuperblockInsert(frame, idx))
                    } else {
                        Ok((CtxModel { supers: m.supers.push(ids), ..m }, q4))
                    },
                }
            },
        },
    }
}

/// A `SuperblockSeq` token whose number ends at `q`: every superblock it names
/// must be declared; the state of `size` bytes is rebuilt from them.
pub open spec fn superseq_step(m: CtxModel, b: Seq<u8>, q: nat, size: nat) -> Result<
    (CtxModel, nat),
    SSError,
> {
    match array_len_at(tail(b, q)) {
        Err(f) => Err(SSError::Read(f)),
        Ok((len, n2)) => match u32s_at(b, (q + n2) as nat, len as nat) {
            Err(f) => Err(SSError::Read(f)),
            Ok((seq, q3)) => if any_unknown(seq, m.supers.len()) {
                Err(SSError::UnknownSuperblock)
            } else {
                Ok(
                    (
                        CtxModel {
                            last_state: materialize(
                                m.last_state,
                                size,
                                seq,
                                m.supers,
                                m.blocks,
                                m.block_size,
                                m.superblock_size,
                            ),
                            last_superseq: seq,
                            ..m
                        },
                        q3,
                    ),
                )
            },
        },
    }
}

pub proof fn lemma_step_advances(m: CtxModel, b: Seq<u8>, q: nat, frame: u64)
    requires
        q <= b.len(),
    ensures
        new_block_step(m, b, q, frame) matches Ok((m2, q2)) ==> q < q2 <= b.len(),
        new_superblock_step(m, b, q, frame) matches Ok((m2, q2)) ==> q < q2 <= b.len(),
{
    lemma_uint_at_len(tail(b, q));
    if let Ok((idx, n2)) = u32_at(tail(b, q)) {
        lemma_uint_at_len(tail(b, (q + n2) as nat));
        if let Ok((len, n3)) = array_len_at(tail(b, (q + n2) as nat)) {
            lemma_u32s_at_bounds(b, (q + n2 + n3) as nat, len as nat);
        }
    }
}

/// The result of decoding the tokens of one state-stream record from
/// position `p` of `b`, for a state of `size` bytes: the context afterwards
/// and the position after the record, or the first error.
pub open spec fn parse_tokens(
    m: CtxModel,
    b: Seq<u8>,
    p: nat,
    size: nat,
    started: bool,
    frame: u64,
) -> Result<(CtxModel, nat), SSError>
    decreases b.len() - p,
{
    if p > b.len() {
        Err(SSError::Read(Fault::Truncated))
    } else {
        match uint_at(tail(b, p)) {
            Err(f) => Err(SSError::Read(f)),
            Ok((t, n)) => {
                let q = (p + n) as nat;
                match SSToken::spec_from_code(t) {
                    None => Err(SSError::InvalidToken(t)),
                    Some(tok) => if tok == SSToken::Start {
                        proof {
                            lemma_uint_at_len(tail(b, p));
                            lemma_uint_at_len(tail(b, q));
                        }
                        if started {
                            Err(SSError::TooManyStarts)
                        } else {
                            match uint_at(tail(b, q)) {
                                Err(f) => Err(SSError::Read(f)),
                                Ok((fr, n2)) => parse_tokens(m, b, (q + n2) as nat, size, true, fr),
                            }
                        }
                    } else if !started {
                        Err(SSError::ParseError(ParseState::WaitForStart, tok))
                    } else if tok == SSToken::NewBlock {
                        proof {
                            lemma_uint_at_len(tail(b, p));
                            lemma_step_advances(m, b, q, frame);
                        }
                        match new_block_step(m, b, q, frame) {
                            Err(e) => Err(e),
                            Ok((m2, q2)) => parse_tokens(m2, b, q2, size, true, frame),
                        }
                    } else if tok == SSToken::NewSuperblock {
                        proof {
                            lemma_uint_at_len(tail(b, p));
                            lemma_step_advances(m, b, q, frame);
                        }
                        match new_superblock_step(m, b, q, frame) {
                            Err(e) => Err(e),
                            Ok((m2, q2)) => parse_tokens(m2, b, q2, size, true, frame),
                        }
                    } else {
                        superseq_step(m, b, q, size)
                    },
                }
            },
        }
    }
}

pub proof fn lemma_uint_at_len(b: Seq<u8>)
    ensures
        uint_at(b) matches Ok((v, n)) ==> 1 <= n <= b.len(),
        array_len_at(b) matches Ok((v, n)) ==> 1 <= n <= b.len(),
        bin_len_at(b) matches Ok((v, n)) ==> 1 <= n <= b.len(),
{
    reveal(crate::msgpack::int_at);
    reveal(array_len_at);
    reveal(bin_len_at);
}

fn read_uint_at(b: &[u8], p: usize) -> (r: Result<(u64, usize), Fault>)
    requires
        p <= b@.len(),
    ensures
        match r {
            Ok((v, q)) => p < q <= b@.len() && uint_at(tail(b@, p as nat)) == Ok::<(u64, nat), Fault>(
                (v, (q - p) as nat),
            ),
            Err(f) => uint_at(tail(b@, p as nat)) == Err::<(u64, nat), Fault>(f),
        },
{
    let (_, rest) = b.split_at(p);
    proof {
        lemma_uint_at_len(rest@);
    }
    match read_uint(rest) {
        Ok((v, left)) => Ok((v, b.len() - left)),
        Err(f) => Err(f),
    }
}

fn read_u32_at(b: &[u8], p: usize) -> (r: Result<(u32, usize), Fault>)
    requires
        p <= b@.len(),
    ensures
        match r {
            Ok((v, q)) => p < q <= b@.len() && u32_at(tail(b@, p as nat)) == Ok::<(u32, nat), Fault>(
                (v, (q - p) as nat),
            ),
            Err(f) => u32_at(tail(b@, p as nat)) == Err::<(u32, nat), Fault>(f),
        },
{
    match read_uint_at(b, p) {
        Ok((v, q)) => if v <= u32::MAX as u64 {
            Ok((v as u32, q))
        } else {
            Err(Fault::Malformed)
        },
        Err(f) => Err(f),
    }
}

fn read_array_len_at(b: &[u8], p: usize) -> (r: Result<(u32, usize), Fault>)
    requires
        p <= b@.len(),
    ensures
        match r {
            Ok((v, q)) => p < q <= b@.len() && array_len_at(tail(b@, p as nat)) == Ok::<
                (u32, nat),
                Fault,
            >((v, (q - p) as nat)),
            Err(f) => array_len_at(tail(b@, p as nat)) == Err::<(u32, nat), Fault>(f),
        },
{
    let (_, rest) = b.split_at(p);
    proof {
        lemma_uint_at_len(rest@);
    }
    match read_array_len(rest) {
        Ok((v, left)) => Ok((v, b.len() - left)),
        Err(f) => Err(f),
    }
}

fn read_bin_len_at(b: &[u8], p: usize) -> (r: Result<(u32, usize), Fault>)
    requires
        p <= b@.len(),
    ensures
        match r {
            Ok((v, q)) => p < q <= b@.len() && bin_len_at(tail(b@, p as nat)) == Ok::<
                (u32, nat),
                Fault,
            >((v, (q - p) as nat)),
            Err(f) => bin_len_at(tail(b@, p as nat)) == Err::<(u32, nat), Fault>(f),
        },
{
    let (_, rest) = b.split_at(p);
    proof {
        lemma_uint_at_len(rest@);
    }
    match read_bin_len(rest) {
        Ok((v, left)) => Ok((v, b.len() - left)),
        Err(f) => Err(f),
    }
}

proof fn lemma_u32s_at_err(b: Seq<u8>, p: nat, i: nat, count: nat)
    requires
        i <= count,
        u32s_at(b, p, i) is Err,
    ensures
        u32s_at(b, p, count) == u32s_at(b, p, i),
    decreases count - i,
{
    if i < count {
        lemma_u32s_at_err(b, p, i, (count - 1) as nat);
    }
}

fn read_u32s(b: &[u8], p: usize, count: u32) -> (r: Result<(Vec<u32>, usize), Fault>)
    requires
        p <= b@.len(),
    ensures
        match r {
            Ok((v, q)) => p <= q <= b@.len() && u32s_at(b@, p as nat, count as nat) == Ok::<
                (Seq<u32>, nat),
                Fault,
            >((v@, q as nat)),
            Err(f) => u32s_at(b@, p as nat, count as nat) == Err::<(Seq<u32>, nat), Fault>(f),
        },
{
    let mut v: Vec<u32> = Vec::new();
    let mut q = p;
    let mut i: u32 = 0;
    while i < count
        invariant
            i <= count,
            p <= q <= b@.len(),
            u32s_at(b@, p as nat, i as nat) == Ok::<(Seq<u32>, nat), Fault>((v@, q as nat)),
        decreases count - i,
    {
        match read_u32_at(b, q) {
            Ok((x, q2)) => {
                v.push(x);
                q = q2;
            },
            Err(f) => {
                proof {
                    lemma_u32s_at_err(b@, p as nat, (i + 1) as nat, count as nat);
                }
                return Err(f);
            },
        }
        i += 1;
    }
    Ok((v, q))
}

fn resize_zero(v: &mut Vec<u8>, n: usize)
    ensures
        final(v)@ == Seq::new(n as nat, |a: int| if a < old(v)@.len() { old(v)@[a] } else { 0u8 }),
{
    if v.len() >= n {
        v.truncate(n);
    } else {
        while v.len() < n
            invariant
                old(v)@.len() <= v@.len() <= n,
                forall|a: int| 0 <= a < v@.len() ==> v@[a] == (if a < old(v)@.len() { old(v)@[a] } else { 0u8 }),
            decreases n - v@.len(),
        {
            v.push(0);
        }
    }
    assert(v@ =~= Seq::new(n as nat, |a: int| if a < old(v)@.len() { old(v)@[a] } else { 0u8 }));
}

fn put_uints(out: &mut Vec<u8>, s: &[u32])
    ensures
        final(out)@ == old(out)@ + uints_bytes(s@),
{
    let mut i: usize = 0;
    while i < s.len()
        invariant
            i <= s@.len(),
            out@ == old(out)@ + uints_bytes(s@.subrange(0, i as int)),
        decreases s@.len() - i,
    {
        put_uint(out, s[i] as u64);
        assert(s@.subrange(0, i + 1).drop_last() =~= s@.subrange(0, i as int));
        i += 1;
    }
    assert(s@.subrange(0, s@.len() as int) =~= s@);
}

/// The block of `bs` bytes of `s` from `off`, zero past the end.
fn cut_block(s: &[u8], off: usize, bs: usize) -> (r: Vec<u8>)
    requires
        off <= s@.len(),
    ensures
        r@ == chunk(s@, off as int, bs as nat),
{
    let mut r: Vec<u8> = Vec::new();
    let mut x: usize = 0;
    let avail = s.len() - off;
    while x < bs
        invariant
            x <= bs,
            off + avail <= usize::MAX,
            off <= s@.len(),
            avail == s@.len() - off,
            r@ == chunk(s@, off as int, bs as nat).subrange(0, x as int),
        decreases bs - x,
    {
        if x < avail {
            r.push(s[off + x]);
        } else {
            r.push(0);
        }
        assert(r@ =~= chunk(s@, off as int, bs as nat).subrange(0, x + 1));
        x += 1;
    }
    assert(r@ =~= chunk(s@, off as int, bs as nat));
    r
}

impl Ctx {
    pub closed spec fn wf(&self) -> bool {
        &&& self.block_index.wf()
        &&& self.superblock_index.wf()
        &&& self.block_index.object_size() == self.block_size
        &&& self.superblock_index.object_size() == self.superblock_size
        &&& self@.wf()
    }

    /// A fresh context: each index holds only its zero object.
    pub fn new(block_size: u32, superblock_size: u32) -> (r: Self)
        ensures
            r.wf(),
            r@.block_size == block_size,
            r@.superblock_size == superblock_size,
            r@.blocks == seq![zeros::<u8>(block_size as nat)],
            r@.supers == seq![zeros::<u32>(superblock_size as nat)],
            r@.last_state == Seq::<u8>::empty(),
            r@.last_superseq == Seq::<u32>::empty(),
    {
        let r = Ctx {
            block_size,
            superblock_size,
            last_state: Vec::new(),
            last_superseq: Vec::new(),
            block_index: BlockIndex::new(block_size as usize),
            superblock_index: BlockIndex::new(superblock_size as usize),
        };
        proof {
            assert forall|s: int, k: int|
                0 <= s < r@.supers.len() && 0 <= k < r@.supers[s].len() implies (
            #[trigger] r@.supers[s][k]) < r@.blocks.len() by {
                assert(r@.supers[s][k] == 0);
            }
        }
        r
    }

    pub fn block_size(&self) -> (r: u32)
        ensures
            r == self@.block_size,
    {
        self.block_size
    }

    pub fn superblock_size(&self) -> (r: u32)
        ensures
            r == self@.superblock_size,
    {
        self.superblock_size
    }

    /// What a well-formed context states of its model.
    pub proof fn lemma_counts(&self)
        requires
            self.wf(),
        ensures
            self@.wf(),
    {
    }

    /// Every block id that a stored superblock names has been declared.
    pub proof fn lemma_block_refs_declared(&self)
        requires
            self.wf(),
        ensures
            refs_declared(self@.blocks, self@.supers),
    {
    }

    /// Every superblock id of the last sequence has been declared.
    pub proof fn lemma_superblock_refs_declared(&self)
        requires
            self.wf(),
        ensures
            forall|k: int|
                0 <= k < self@.last_superseq.len() ==> (#[trigger] self@.last_superseq[k])
                    < self@.supers.len(),
    {
    }

    /// Block id 0 is `block_size` zero bytes; superblock id 0 is
    /// `superblock_size` zero block ids.
    pub proof fn lemma_zero_ids(&self)
        requires
            self.wf(),
        ensures
            self@.blocks[0] == zeros::<u8>(self@.block_size),
            self@.supers[0] == zeros::<u32>(self@.superblock_size),
    {
    }

    /// The number of blocks declared so far.
    pub fn block_count(&self) -> (r: usize)
        requires
            self.wf(),
        ensures
            r == self@.blocks.len(),
    {
        self.block_index.len()
    }

    /// The number of superblocks declared so far.
    pub fn superblock_count(&self) -> (r: usize)
        requires
            self.wf(),
        ensures
            r == self@.supers.len(),
    {
        self.superblock_index.len()
    }

    /// The state that the last decoded record rebuilt.
    pub fn last_state(&self) -> (r: &Vec<u8>)
        ensures
            r@ == self@.last_state,
    {
        &self.last_state
    }

    /// Every id in `ids` names a declared block.
    fn blocks_declared(&self, ids: &Vec<u32>) -> (r: bool)
        requires
            self.wf(),
        ensures
            r == !any_unknown(ids@, self@.blocks.len()),
    {
        let n = self.block_index.len();
        let mut k: usize = 0;
        while k < ids.len()
            invariant
                n == self@.blocks.len(),
                k <= ids@.len(),
                forall|x: int| 0 <= x < k ==> ids@[x] < n,
            decreases ids@.len() - k,
        {
            if ids[k] as usize >= n {
                return false;
            }
            k += 1;
        }
        true
    }

    /// Every id in `ids` names a declared superblock.
    fn supers_declared(&self, ids: &Vec<u32>) -> (r: bool)
        requires
            self.wf(),
        ensures
            r == !any_unknown(ids@, self@.supers.len()),
    {
        let n = self.superblock_index.len();
        let mut k: usize = 0;
        while k < ids.len()
            invariant
                n == self@.supers.len(),
                k <= ids@.len(),
                forall|x: int| 0 <= x < k ==> ids@[x] < n,
            decreases ids@.len() - k,
        {
            if ids[k] as usize >= n {
                return false;
            }
            k += 1;
        }
        true
    }

    /// Rebuilds the last state from a superblock sequence.
    fn rebuild(&mut self, seq: &Vec<u32>, size: u32)
        requires
            old(self).wf(),
            !any_unknown(seq@, old(self)@.supers.len()),
        ensures
            final(self).wf(),
            final(self)@ == (CtxModel {
                last_state: materialize(
                    old(self)@.last_state,
                    size as nat,
                    seq@,
                    old(self)@.supers,
                    old(self)@.blocks,
                    old(self)@.block_size,
                    old(self)@.superblock_size,
                ),
                ..old(self)@
            }),
    {
        let ghost m = self@;
        let ghost prev = self@.last_state;
        resize_zero(&mut self.last_state, size as usize);
        let ghost resized = self.last_state@;
        let ghost target = materialize(
            prev,
            size as nat,
            seq@,
            m.supers,
            m.blocks,
            m.block_size,
            m.superblock_size,
        );
        let bs = self.block_size;
        let sbs = self.superblock_size;
        if bs == 0 || sbs == 0 {
            assert(self.last_state@ =~= target);
            return ;
        }
        let ghost bsi = bs as int;
        let ghost sbsi = sbs as int;
        let k = seq.len();
        let mut g: u64 = 0;
        let mut start: u64 = 0;
        while start < size as u64
            invariant
                self.wf(),
                self.block_index == old(self).block_index,
                self.superblock_index == old(self).superblock_index,
                self.block_size == bs,
                self.superblock_size == sbs,
                self.last_superseq == old(self).last_superseq,
                m == old(self)@,
                m.block_size == bs && m.superblock_size == sbs,
                target == materialize(prev, size as nat, seq@, m.supers, m.blocks, m.block_size, m.superblock_size),
                resized == Seq::new(size as nat, |a: int| if a < prev.len() { prev[a] } else { 0u8 }),
                prev == m.last_state,
                target.len() == size,
                resized.len() == size,
                bs > 0 && sbs > 0,
                bsi == bs && sbsi == sbs,
                k == seq@.len(),
                !any_unknown(seq@, m.supers.len()),
                start == g * bsi,
                start <= size + bs,
                self.last_state@.len() == size,
                forall|a: int| 0 <= a < start && a < size ==> self.last_state@[a] == target[a],
                forall|a: int| start <= a < size ==> self.last_state@[a] == resized[a],
            decreases size + bs - start,
        {
            let i = g / sbs as u64;
            let j = g % sbs as u64;
            if i >= k as u64 {
                proof {
                    assert forall|a: int| start <= a < size implies self.last_state@[a]
                        == target[a] by {
                        vstd::arithmetic::div_mod::lemma_div_is_ordered(bsi * g, a, bsi);
                        vstd::arithmetic::div_mod::lemma_div_multiples_vanish(g as int, bsi);
                        assert(g <= a / bsi);
                        vstd::arithmetic::div_mod::lemma_div_is_ordered(g as int, a / bsi, sbsi);
                        assert((a / bsi) / sbsi >= seq@.len());
                        assert(self.last_state@[a] == resized[a]);
                    }
                    assert(self.last_state@ =~= target);
                }
                return ;
            }
            let sid = seq[i as usize];
            assert(sid < m.supers.len());
            let sb = self.superblock_index.get(sid);
            assert(j < sb@.len()) by {
                vstd::arithmetic::div_mod::lemma_mod_bound(g as int, sbsi);
            }
            let bid = sb[j as usize];
            assert(bid < m.blocks.len()) by {
                assert(m.supers[sid as int][j as int] == bid);
            }
            let blk = self.block_index.get(bid);
            let end: u64 = if start + bs as u64 <= size as u64 {
                start + bs as u64
            } else {
                size as u64
            };
            let mut a: u64 = start;
            while a < end
                invariant
                    self.wf(),
                    self.block_index == old(self).block_index,
                    self.superblock_index == old(self).superblock_index,
                    self.block_size == bs,
                    self.superblock_size == sbs,
                    self.last_superseq == old(self).last_superseq,
                    m == old(self)@,
                    m.block_size == bs && m.superblock_size == sbs,
                    bid < m.blocks.len(),
                    target == materialize(prev, size as nat, seq@, m.supers, m.blocks, m.block_size, m.superblock_size),
                    seq@[i as int] < m.supers.len(),
                    target.len() == size,
                    bsi == bs && sbsi == sbs && bs > 0 && sbs > 0,
                    start == g * bsi,
                    start <= a <= end,
                    end <= start + bs,
                    end <= size,
                    i as int == g as int / sbsi && j as int == g as int % sbsi && i < seq@.len(),
                    blk@ == m.blocks[bid as int],
                    bid == m.supers[seq@[i as int] as int][j as int],
                    blk@.len() == bs,
                    self.last_state@.len() == size,
                    forall|x: int| 0 <= x < a && x < size ==> self.last_state@[x] == target[x],
                    forall|x: int| a <= x < size ==> self.last_state@[x] == resized[x],
                decreases end - a,
            {
                let byte = blk[(a - start) as usize];
                self.last_state.set(a as usize, byte);
                proof {
                    vstd::arithmetic::div_mod::lemma_fundamental_div_mod_converse(
                        a as int,
                        bsi,
                        g as int,
                        a - start,
                    );
                    let ai = a as int;
                    assert(ai / bsi == g);
                    assert(ai % bsi == a - start);
                    assert((ai / bsi) / sbsi == i);
                    assert((ai / bsi) % sbsi == j);
                    assert(target[ai] == m.blocks[bid as int][ai % bsi]);
                    assert(self.last_state@[ai] == target[ai]);
                }
                a += 1;
            }
            assert(g as int <= start as int) by (nonlinear_arith)
                requires start as int == g as int * bsi, bsi >= 1;
            g += 1;
            start = start + bs as u64;
            proof {
                assert((g - 1) * bsi + bsi == g * bsi) by (nonlinear_arith);
            }
        }
        assert(self.last_state@ =~= target);
    }

    /// Decodes one state-stream record from position `pos` of `b`, for a
    /// state of `state_size` bytes, as `parse_tokens` gives it: the context
    /// takes the new blocks, superblocks, state and sequence, and the
    /// position after the record is returned.
    pub fn decode_checkpoint(&mut self, b: &[u8], pos: usize, state_size: u32) -> (r: Result<usize, SSError>)
        requires
            old(self).wf(),
            pos <= b@.len(),
        ensures
            final(self).wf(),
            final(self)@.block_size == old(self)@.block_size,
            final(self)@.superblock_size == old(self)@.superblock_size,
            match parse_tokens(old(self)@, b@, pos as nat, state_size as nat, false, 0) {
                Ok((m, q)) => r matches Ok(x) && x == q && final(self)@ == m,
                Err(e) => r == Err::<usize, SSError>(e),
            },
            r matches Ok(x) ==> pos <= x <= b@.len(),
    {
        let ghost m0 = self@;
        let ghost size = state_size as nat;
        let mut p = pos;
        let mut started = false;
        let mut frame: u64 = 0;
        loop
            invariant
                self.wf(),
                m0 == old(self)@,
                pos <= p <= b@.len(),
                self@.block_size == m0.block_size,
                self@.superblock_size == m0.superblock_size,
                size == state_size,
                parse_tokens(m0, b@, pos as nat, size, false, 0) == parse_tokens(
                    self@,
                    b@,
                    p as nat,
                    size,
                    started,
                    frame,
                ),
            decreases b@.len() - p,
        {
            let (t, q) = match read_uint_at(b, p) {
                Ok(x) => x,
                Err(f) => {
                    return Err(SSError::Read(f));
                },
            };
            let tok = match SSToken::from_code(t) {
                Some(tok) => tok,
                None => {
                    return Err(SSError::InvalidToken(t));
                },
            };
            if tok == SSToken::Start {
                if started {
                    return Err(SSError::TooManyStarts);
                }
                match read_uint_at(b, q) {
                    Ok((fr, q2)) => {
                        frame = fr;
                        p = q2;
                        started = true;
                    },
                    Err(f) => {
                        return Err(SSError::Read(f));
                    },
                }
            } else if !started {
                return Err(SSError::ParseError(ParseState::WaitForStart, tok));
            } else if tok == SSToken::NewBlock {
                proof {
                    lemma_step_advances(self@, b@, q as nat, frame);
                }
                match self.take_new_block(b, q, frame) {
                    Ok(q2) => {
                        p = q2;
                    },
                    Err(e) => {
                        return Err(e);
                    },
                }
            } else if tok == SSToken::NewSuperblock {
                proof {
                    lemma_step_advances(self@, b@, q as nat, frame);
                }
                match self.take_new_superblock(b, q, frame) {
                    Ok(q2) => {
                        p = q2;
                    },
                    Err(e) => {
                        return Err(e);
                    },
                }
            } else {
                return self.take_superseq(b, q, state_size);
            }
        }
    }

    fn take_new_block(&mut self, b: &[u8], q: usize, frame: u64) -> (r: Result<usize, SSError>)
        requires
            old(self).wf(),
            q <= b@.len(),
        ensures
            final(self).wf(),
            final(self)@.block_size == old(self)@.block_size,
            final(self)@.superblock_size == old(self)@.superblock_size,
            match new_block_step(old(self)@, b@, q as nat, frame) {
                Ok((m, q2)) => r matches Ok(x) && x == q2 && final(self)@ == m,
                Err(e) => r == Err::<usize, SSError>(e),
            },
    {
        let (idx, q2) = match read_u32_at(b, q) {
            Ok(x) => x,
            Err(f) => {
                return Err(SSError::Read(f));
            },
        };
        let (len, q3) = match read_bin_len_at(b, q2) {
            Ok(x) => x,
            Err(f) => {
                return Err(SSError::Read(f));
            },
        };
        if len != self.block_size {
            return Err(SSError::BlockWrongSize(len));
        }
        if len as usize > b.len() - q3 {
            return Err(SSError::Read(Fault::Truncated));
        }
        let bytes = crate::le::copy_range(b, q3, q3 + len as usize);
        if !self.block_index.insert_exact(idx, bytes, frame) {
            return Err(SSError::BadBlockInsert(frame, idx));
        }
        proof {
            let mm = self@;
            assert forall|x: int, y: int|
                0 <= x < mm.supers.len() && 0 <= y < mm.supers[x].len() implies (
                #[trigger] mm.supers[x][y]) < mm.blocks.len() by {
                assert(mm.supers[x][y] < mm.blocks.len() - 1);
            }
        }
        Ok(q3 + len as usize)
    }

    fn take_new_superblock(&mut self, b: &[u8], q: usize, frame: u64) -> (r: Result<
        usize,
        SSError,
    >)
        requires
            old(self).wf(),
            q <= b@.len(),
        ensures
            final(self).wf(),
            final(self)@.block_size == old(self)@.block_size,
            final(self)@.superblock_size == old(self)@.superblock_size,
            match new_superblock_step(old(self)@, b@, q as nat, frame) {
                Ok((m, q2)) => r matches Ok(x) && x == q2 && final(self)@ == m,
                Err(e) => r == Err::<usize, SSError>(e),
            },
    {
        let (idx, q2) = match read_u32_at(b, q) {
            Ok(x) => x,
            Err(f) => {
                return Err(SSError::Read(f));
            },
        };
        let (len, q3) = match read_array_len_at(b, q2) {
            Ok(x) => x,
            Err(f) => {
                return Err(SSError::Read(f));
            },
        };
        if len != self.superblock_size {
            return Err(SSError::SuperblockWrongSize(len));
        }
        let (ids, q4) = match read_u32s(b, q3, len) {
            Ok(x) => x,
            Err(f) => {
                return Err(SSError::Read(f));
            },
        };
        proof {
            lemma_u32s_at_bounds(b@, q3 as nat, len as nat);
        }
        if !self.blocks_declared(&ids) {
            return Err(SSError::UnknownBlock);
        }
        let ghost ids_view = ids@;
        if !self.superblock_index.insert_exact(idx, ids, frame) {
            return Err(SSError::BadSuperblockInsert(frame, idx));
        }
        proof {
            let mm = self@;
            assert forall|x: int, y: int|
                0 <= x < mm.supers.len() && 0 <= y < mm.supers[x].len() implies (
                #[trigger] mm.supers[x][y]) < mm.blocks.len() by {
                if x == mm.supers.len() - 1 {
                    assert(mm.supers[x] == ids_view);
                }
            }
        }
        Ok(q4)
    }

    fn take_superseq(&mut self, b: &[u8], q: usize, state_size: u32) -> (r: Result<usize, SSError>)
        requires
            old(self).wf(),
            q <= b@.len(),
        ensures
            final(self).wf(),
            final(self)@.block_size == old(self)@.block_size,
            final(self)@.superblock_size == old(self)@.superblock_size,
            match superseq_step(old(self)@, b@, q as nat, state_size as nat) {
                Ok((m, q2)) => r matches Ok(x) && x == q2 && final(self)@ == m,
                Err(e) => r == Err::<usize, SSError>(e),
            },
            r matches Ok(x) ==> q <= x <= b@.len(),
    {
        let (len, q2) = match read_array_len_at(b, q) {
            Ok(x) => x,
            Err(f) => {
                return Err(SSError::Read(f));
            },
        };
        let (seq, q3) = match read_u32s(b, q2, len) {
            Ok(x) => x,
            Err(f) => {
                return Err(SSError::Read(f));
            },
        };
        if !self.supers_declared(&seq) {
            return Err(SSError::UnknownSuperblock);
        }
        self.rebuild(&seq, state_size);
        self.last_superseq = seq;
        Ok(q3)
    }

    /// Appends to `out` the state-stream record of `checkpoint` for `frame`,
    /// as `encode_model` gives it, and grows both indexes accordingly. The
    /// caller makes sure that the new ids fit in 32 bits.
    pub fn encode_checkpoint(&mut self, checkpoint: &[u8], frame: u64, out: &mut Vec<u8>) -> (r: usize)
        requires
            old(self).wf(),
            old(self)@.block_size > 0,
            old(self)@.superblock_size > 0,
            distinct(old(self)@.blocks),
            distinct(old(self)@.supers),
            checkpoint@.len() <= u32::MAX,
            old(self)@.blocks.len() + superblock_count(
                checkpoint@.len(),
                old(self)@.block_size,
                old(self)@.superblock_size,
            ) * old(self)@.superblock_size <= u32::MAX + 1,
            old(self)@.supers.len() + superblock_count(
                checkpoint@.len(),
                old(self)@.block_size,
                old(self)@.superblock_size,
            ) <= u32::MAX + 1,
        ensures
            final(self).wf(),
            ({
                let m = encode_model(
                    old(self)@.blocks,
                    old(self)@.supers,
                    checkpoint@,
                    old(self)@.block_size,
                    old(self)@.superblock_size,
                    frame,
                );
                &&& final(out)@ == old(out)@ + m.out
                &&& final(self)@ == CtxModel {
                    blocks: m.blocks,
                    supers: m.supers,
                    last_superseq: m.seq,
                    ..old(self)@
                }
            }),
            distinct(final(self)@.blocks),
            distinct(final(self)@.supers),
            r == final(out)@.len() - old(out)@.len(),
    {
        let ghost m0 = self@;
        let ghost out0 = out@;
        let len0 = out.len();
        let bs = self.block_size;
        let sbs = self.superblock_size;
        let n = checkpoint.len();
        let ghost s = checkpoint@;
        let ghost bsn = bs as nat;
        let ghost sbsn = sbs as nat;
        let ghost nn = n as int;
        put_uint(out, SSToken::Start.code());
        put_uint(out, frame);
        assert(1 <= bs as u64 * sbs as u64 <= 0xFFFF_FFFE_0000_0001u64) by (nonlinear_arith)
            requires 1 <= bs <= 0xFFFF_FFFFu64, 1 <= sbs <= 0xFFFF_FFFFu64;
        let sbb: u64 = bs as u64 * sbs as u64;
        assert(n as u64 + sbb - 1 <= u64::MAX);
        let count: u64 = (n as u64 + sbb - 1) / sbb;
        let ghost cnt = count as nat;
        assert(cnt == superblock_count(nn as nat, bsn, sbsn));
        assert(cnt <= nn) by (nonlinear_arith)
            requires cnt == (nn + sbb - 1) / (sbb as int), sbb >= 1, nn >= 0;
        let ghost st0 = EncStep {
            blocks: m0.blocks,
            supers: m0.supers,
            out: start_bytes(frame),
            ids: Seq::empty(),
            seq: Seq::empty(),
        };
        let mut seq: Vec<u32> = Vec::new();
        let ghost seq0 = self@.last_superseq;
        let mut i: u64 = 0;
        let mut off: u64 = 0;
        let ghost mut first: int = 0;
        let ghost mut start: int = 0;
        while i < count
            invariant
                self.wf(),
                self.block_size == bs,
                self.superblock_size == sbs,
                bs > 0 && sbs > 0,
                bsn == bs && sbsn == sbs && cnt == count && nn == n,
                cnt <= nn,
                nn == s.len(),
                s == checkpoint@,
                n <= u32::MAX,
                i <= count,
                first == i as int * sbsn,
                start == first * bsn,
                off == if start < nn { start } else { nn },
                seq@.len() == i,
                !any_unknown(seq@, self@.supers.len()),
                ({
                    let st = enc_supers(st0, s, bsn, sbsn, i as nat);
                    &&& self@.blocks == st.blocks
                    &&& self@.supers == st.supers
                    &&& out@ == out0 + st.out
                    &&& seq@ == st.seq
                }),
                distinct(self@.blocks),
                distinct(self@.supers),
                self@.blocks.len() <= m0.blocks.len() + first,
                self@.supers.len() <= m0.supers.len() + i,
                m0.blocks.len() + cnt * sbsn <= u32::MAX + 1,
                m0.supers.len() + cnt <= u32::MAX + 1,
                self@.last_state == m0.last_state,
                self@.last_superseq == m0.last_superseq,
            decreases count - i,
        {
            let ghost before = enc_supers(st0, s, bsn, sbsn, i as nat);
            let mut ids: Vec<u32> = Vec::new();
            let mut j: u32 = 0;
            let ghost mut k: int = first;
            assert(first + sbsn <= cnt * sbsn) by (nonlinear_arith)
                requires first == i as int * sbsn, i < cnt, sbsn >= 1;
            while j < sbs
                invariant
                    self.wf(),
                    self.block_size == bs,
                    self.superblock_size == sbs,
                    bs > 0 && sbs > 0,
                    bsn == bs && sbsn == sbs && cnt == count && nn == n,
                    nn == s.len(),
                    s == checkpoint@,
                    n <= u32::MAX,
                    i < count,
                    j <= sbs,
                    first + sbsn <= cnt * sbsn,
                    k == first + j,
                    start == k * bsn,
                    off == if start < nn { start } else { nn },
                    seq@.len() == i,
                    !any_unknown(seq@, self@.supers.len()),
                    ({
                        let st = enc_blocks(before, s, bsn, first, j as nat);
                        &&& self@.blocks == st.blocks
                        &&& self@.supers == before.supers
                        &&& out@ == out0 + st.out
                        &&& ids@ == st.ids
                        &&& seq@ == before.seq
                    }),
                    forall|x: int| 0 <= x < ids@.len() ==> (#[trigger] ids@[x]) < self@.blocks.len(),
                    ids@.len() == j,
                    distinct(self@.blocks),
                    distinct(self@.supers),
                    self@.blocks.len() <= m0.blocks.len() + k,
                    self@.supers.len() <= m0.supers.len() + i,
                    m0.blocks.len() + cnt * sbsn <= u32::MAX + 1,
                    m0.supers.len() + cnt <= u32::MAX + 1,
                    self@.last_state == m0.last_state,
                    self@.last_superseq == m0.last_superseq,
                decreases sbs - j,
            {
                let blk = cut_block(checkpoint, off as usize, bs as usize);
                proof {
                    assert(blk@ =~= chunk(s, start, bsn));
                }
                let ghost st = enc_blocks(before, s, bsn, first, j as nat);
                let ghost blocks_before = self@.blocks;
                let ins = self.block_index.insert(blk.as_slice(), frame);
                if ins.is_new {
                    put_uint(out, SSToken::NewBlock.code());
                    put_uint(out, ins.index as u64);
                    put_bin_len(out, bs);
                    push_all(out, blk.as_slice());
                }
                ids.push(ins.index);
                proof {
                    assert((k + 1) * bsn == k * bsn + bsn) by (nonlinear_arith);
                    assert forall|x: int| 0 <= x < ids@.len() implies (#[trigger] ids@[x])
                        < self@.blocks.len() by {
                        if x < ids@.len() - 1 {
                            assert(ids@[x] < blocks_before.len());
                        }
                    }
                    assert(enc_blocks(before, s, bsn, first, (j + 1) as nat) == enc_block(
                        st,
                        block_of(s, bsn, k),
                    ));
                    if ins.is_new {
                        assert(out@ =~= out0 + st.out + new_block_bytes(ins.index, blk@));
                    }
                    start = start + bsn;
                    k = k + 1;
                }
                off = if off + (bs as u64) < n as u64 {
                    off + bs as u64
                } else {
                    n as u64
                };
                j += 1;
            }
            let ghost ids_view = ids@;
            let ghost st = enc_blocks(before, s, bsn, first, sbsn);
            let ins = self.superblock_index.insert(ids.as_slice(), frame);
            if ins.is_new {
                put_uint(out, SSToken::NewSuperblock.code());
                put_uint(out, ins.index as u64);
                put_array_len(out, sbs);
                put_uints(out, ids.as_slice());
            }
            seq.push(ins.index);
            proof {
                assert(ids_view == st.ids);
                lemma_enc_blocks_keeps(before, s, bsn, first, sbsn);
                assert((i as int + 1 - 1) * sbsn == first);
                assert(enc_supers(st0, s, bsn, sbsn, (i + 1) as nat) == enc_super(st));
                if ins.is_new {
                    assert(out@ =~= out0 + st.out + new_superblock_bytes(ins.index, ids_view));
                }
                assert(first + sbsn == (i as int + 1) * sbsn) by (nonlinear_arith)
                    requires first == i as int * sbsn;
                assert forall|x: int, y: int|
                    0 <= x < self@.supers.len() && 0 <= y < self@.supers[x].len() implies (
                    #[trigger] self@.supers[x][y]) < self@.blocks.len() by {
                    if x == self@.supers.len() - 1 && ins.is_new {
                        assert(self@.supers[x] == ids_view);
                    }
                }
                first = first + sbsn;
            }
            i += 1;
        }
        let ghost st = enc_supers(st0, s, bsn, sbsn, cnt);
        put_uint(out, SSToken::SuperblockSeq.code());
        put_array_len(out, seq.len() as u32);
        put_uints(out, seq.as_slice());
        self.last_superseq = seq;
        proof {
            assert(out@ =~= out0 + (st.out + superseq_bytes(st.seq)));
        }
        out.len() - len0
    }
}

} // verus!
