//! Properties of the state-stream encoding that hold across calls: a record
//! decodes to the state it was made from, and decoding keeps the decoder's
//! stores equal to the encoder's.
use vstd::prelude::*;

use crate::blockindex::{distinct, insert_model, Insertion};
use crate::msgpack::{
    array_len_bytes, bin_len_bytes, lemma_array_len_round_trip,
    lemma_bin_len_round_trip, lemma_uint_round_trip, uint_at, uint_bytes,
};
use crate::le::{
    from_le16, from_le32, le16, le32, lemma_le16_round_trip, lemma_le32_round_trip,
};
use crate::rply::{
    bits_i16, checkpoint_record, frame_head, frame_record, i16_bits, input_at, input_bytes,
    inputs_at, inputs_bytes, key_at, key_bytes, keys_at, keys_bytes, pack, read_checkpoint,
    read_frame_model, unpack, uses_statestream, Compression, Encoding, FrameToken,
    FrameView, InputData, KeyData, ReplayDecoder, ReplayEncoder, Header, HeaderV2,
    base_of, upgraded, start_model, start_header, open_model, parse_header, header_bytes,
    fresh_ctx, MAGIC,
};
use crate::le::{le64, lemma_le64_round_trip};
use crate::statestream::{
    any_unknown, block_of, enc_block, enc_blocks, enc_super, enc_supers, encode_model,
    materialize, new_block_bytes, new_block_step, new_superblock_bytes, new_superblock_step,
    parse_tokens, start_bytes, superblock_count, superseq_bytes, tail, u32_at, u32s_at, uints_bytes,
    lemma_enc_blocks_keeps, CtxModel, EncStep, SSError, SSToken,
};

verus! {

/// `t` occurs in `b` at position `p`.
pub open spec fn at(b: Seq<u8>, p: nat, t: Seq<u8>) -> bool {
    &&& p + t.len() <= b.len()
    &&& b.subrange(p as int, (p + t.len()) as int) == t
}

/// `b` starts with `t`.
pub open spec fn extends(b: Seq<u8>, t: Seq<u8>) -> bool {
    at(b, 0, t)
}

proof fn lemma_at_split(b: Seq<u8>, p: nat, x: Seq<u8>, y: Seq<u8>)
    requires
        at(b, p, x + y),
    ensures
        at(b, p, x),
        at(b, p + x.len(), y),
{
    assert(b.subrange(p as int, (p + x.len()) as int) =~= (x + y).subrange(0, x.len() as int));
    assert((x + y).subrange(0, x.len() as int) =~= x);
    assert(b.subrange((p + x.len()) as int, (p + x.len() + y.len()) as int) =~= (x + y).subrange(
        x.len() as int,
        (x.len() + y.len()) as int,
    ));
    assert((x + y).subrange(x.len() as int, (x.len() + y.len()) as int) =~= y);
}

proof fn lemma_tail_split(b: Seq<u8>, p: nat, t: Seq<u8>)
    requires
        at(b, p, t),
    ensures
        tail(b, p) == t + tail(b, p + t.len()),
{
    assert(tail(b, p) =~= t + tail(b, p + t.len()));
}

proof fn lemma_read_uint(b: Seq<u8>, p: nat, v: u64)
    requires
        at(b, p, uint_bytes(v)),
    ensures
        uint_at(tail(b, p)) == Ok::<(u64, nat), crate::msgpack::Fault>((v, uint_bytes(v).len())),
{
    lemma_tail_split(b, p, uint_bytes(v));
    lemma_uint_round_trip(v, tail(b, p + uint_bytes(v).len()));
}

proof fn lemma_read_u32(b: Seq<u8>, p: nat, v: u32)
    requires
        at(b, p, uint_bytes(v as u64)),
    ensures
        u32_at(tail(b, p)) == Ok::<(u32, nat), crate::msgpack::Fault>(
            (v, uint_bytes(v as u64).len()),
        ),
{
    lemma_read_uint(b, p, v as u64);
}

proof fn lemma_read_u32s(b: Seq<u8>, p: nat, s: Seq<u32>)
    requires
        at(b, p, uints_bytes(s)),
    ensures
        u32s_at(b, p, s.len()) == Ok::<(Seq<u32>, nat), crate::msgpack::Fault>(
            (s, p + uints_bytes(s).len()),
        ),
    decreases s.len(),
{
    if s.len() > 0 {
        let s2 = s.drop_last();
        let a = uints_bytes(s2);
        let c = uint_bytes(s.last() as u64);
        assert(uints_bytes(s) == a + c);
        lemma_at_split(b, p, a, c);
        lemma_read_u32s(b, p, s2);
        lemma_read_u32(b, p + a.len(), s.last());
        assert(s2.push(s.last()) =~= s);
        assert(u32s_at(b, p, s.len()) == Ok::<(Seq<u32>, nat), crate::msgpack::Fault>(
            (s2.push(s.last()), p + a.len() + c.len()),
        ));
    } else {
        assert(s =~= Seq::<u32>::empty());
    }
}

/// A `NewBlock` token for the next id is taken by the decoder as it was
/// written: the block is appended and decoding goes on after the token.
pub proof fn lemma_parse_new_block(
    m: CtxModel,
    b: Seq<u8>,
    p: nat,
    size: nat,
    frame: u64,
    id: u32,
    blk: Seq<u8>,
)
    requires
        at(b, p, new_block_bytes(id, blk)),
        blk.len() == m.block_size,
        blk.len() <= u32::MAX,
        id == m.blocks.len(),
    ensures
        parse_tokens(m, b, p, size, true, frame) == parse_tokens(
            CtxModel { blocks: m.blocks.push(blk), ..m },
            b,
            p + new_block_bytes(id, blk).len(),
            size,
            true,
            frame,
        ),
{
    let t0 = uint_bytes(1);
    let t1 = uint_bytes(id as u64);
    let t2 = bin_len_bytes(blk.len() as u32);
    let whole = new_block_bytes(id, blk);
    assert(whole == ((t0 + t1) + t2) + blk);
    lemma_at_split(b, p, (t0 + t1) + t2, blk);
    lemma_at_split(b, p, t0 + t1, t2);
    lemma_at_split(b, p, t0, t1);
    lemma_read_uint(b, p, 1);
    let q = p + t0.len();
    lemma_read_u32(b, q, id);
    let q2 = q + t1.len();
    lemma_tail_split(b, q2, t2);
    lemma_bin_len_round_trip(blk.len() as u32, tail(b, q2 + t2.len()));
    let q3 = q2 + t2.len();
    assert(SSToken::spec_from_code(1) == Some(SSToken::NewBlock));
    assert(new_block_step(m, b, q, frame) == Ok::<(CtxModel, nat), SSError>(
        (CtxModel { blocks: m.blocks.push(blk), ..m }, q3 + blk.len()),
    ));
}

/// A `NewSuperblock` token for the next id, naming declared blocks, is taken
/// by the decoder as it was written.
pub proof fn lemma_parse_new_superblock(
    m: CtxModel,
    b: Seq<u8>,
    p: nat,
    size: nat,
    frame: u64,
    id: u32,
    ids: Seq<u32>,
)
    requires
        at(b, p, new_superblock_bytes(id, ids)),
        ids.len() == m.superblock_size,
        ids.len() <= u32::MAX,
        id == m.supers.len(),
        !any_unknown(ids, m.blocks.len()),
    ensures
        parse_tokens(m, b, p, size, true, frame) == parse_tokens(
            CtxModel { supers: m.supers.push(ids), ..m },
            b,
            p + new_superblock_bytes(id, ids).len(),
            size,
            true,
            frame,
        ),
{
    let t0 = uint_bytes(2);
    let t1 = uint_bytes(id as u64);
    let t2 = array_len_bytes(ids.len() as u32);
    let t3 = uints_bytes(ids);
    let whole = new_superblock_bytes(id, ids);
    assert(whole == ((t0 + t1) + t2) + t3);
    lemma_at_split(b, p, (t0 + t1) + t2, t3);
    lemma_at_split(b, p, t0 + t1, t2);
    lemma_at_split(b, p, t0, t1);
    lemma_read_uint(b, p, 2);
    let q = p + t0.len();
    lemma_read_u32(b, q, id);
    let q2 = q + t1.len();
    lemma_tail_split(b, q2, t2);
    lemma_array_len_round_trip(ids.len() as u32, tail(b, q2 + t2.len()));
    let q3 = q2 + t2.len();
    lemma_read_u32s(b, q3, ids);
    assert(SSToken::spec_from_code(2) == Some(SSToken::NewSuperblock));
    assert(new_superblock_step(m, b, q, frame) == Ok::<(CtxModel, nat), SSError>(
        (CtxModel { supers: m.supers.push(ids), ..m }, q3 + t3.len()),
    ));
}

/// A `SuperblockSeq` naming declared superblocks ends the record: the state
/// is rebuilt from it.
pub proof fn lemma_parse_superseq(
    m: CtxModel,
    b: Seq<u8>,
    p: nat,
    size: nat,
    frame: u64,
    seq: Seq<u32>,
)
    requires
        at(b, p, superseq_bytes(seq)),
        seq.len() <= u32::MAX,
        !any_unknown(seq, m.supers.len()),
    ensures
        parse_tokens(m, b, p, size, true, frame) == Ok::<(CtxModel, nat), SSError>(
            (
                CtxModel {
                    last_state: materialize(
                        m.last_state,
                        size,
                        seq,
                        m.supers,
                        m.blocks,
                        m.block_size,
                        m.superblock_size,
                    ),
                    last_superseq: seq,
                    ..m
                },
                p + superseq_bytes(seq).len(),
            ),
        ),
{
    let t0 = uint_bytes(3);
    let t2 = array_len_bytes(seq.len() as u32);
    let t3 = uints_bytes(seq);
    let whole = superseq_bytes(seq);
    assert(whole == (t0 + t2) + t3);
    lemma_at_split(b, p, t0 + t2, t3);
    lemma_at_split(b, p, t0, t2);
    lemma_read_uint(b, p, 3);
    let q = p + t0.len();
    lemma_tail_split(b, q, t2);
    lemma_array_len_round_trip(seq.len() as u32, tail(b, q + t2.len()));
    let q3 = q + t2.len();
    lemma_read_u32s(b, q3, seq);
    assert(SSToken::spec_from_code(3) == Some(SSToken::SuperblockSeq));
}

/// `insert_model` hands out the id of an object equal to the one given,
/// appending it when there is none.
pub proof fn lemma_insert_model<T>(objs: Seq<Seq<T>>, o: Seq<T>)
    requires
        objs.len() <= u32::MAX + 1,
        !objs.contains(o) ==> objs.len() <= u32::MAX,
    ensures
        ({
            let (objs2, ins) = insert_model(objs, o);
            &&& ins.index < objs2.len()
            &&& objs2[ins.index as int] == o
            &&& ins.is_new <==> !objs.contains(o)
            &&& ins.is_new ==> objs2 == objs.push(o) && ins.index == objs.len()
            &&& !ins.is_new ==> objs2 == objs
        }),
{
}

/// What storing the blocks of one superblock does: the output grows, the
/// block store grows by at most one block per block, and each id handed out
/// names the block it was given for.
pub proof fn lemma_blocks_shape(st: EncStep, s: Seq<u8>, bs: nat, first: int, j: nat)
    requires
        st.blocks.len() + j <= u32::MAX + 1,
    ensures
        ({
            let fin = enc_blocks(st, s, bs, first, j);
            &&& extends(fin.out, st.out)
            &&& st.blocks.len() <= fin.blocks.len() <= st.blocks.len() + j
            &&& forall|k: int| 0 <= k < st.blocks.len() ==> fin.blocks[k] == st.blocks[k]
            &&& fin.supers == st.supers
            &&& fin.seq == st.seq
            &&& fin.ids.len() == j
            &&& forall|k: int|
                0 <= k < j ==> (#[trigger] fin.ids[k]) < fin.blocks.len() && fin.blocks[fin.ids[k] as int]
                    == block_of(s, bs, first + k)
        }),
    decreases j,
{
    let fin = enc_blocks(st, s, bs, first, j);
    if j == 0 {
        assert(st.out.subrange(0, st.out.len() as int) =~= st.out);
    } else {
        let prev = enc_blocks(st, s, bs, first, (j - 1) as nat);
        lemma_blocks_shape(st, s, bs, first, (j - 1) as nat);
        let blk = block_of(s, bs, first + j - 1);
        let (objs, ins) = insert_model(prev.blocks, blk);
        assert(fin == enc_block(prev, blk));
        lemma_insert_model(prev.blocks, blk);
        if ins.is_new {
            assert(fin.out.subrange(0, prev.out.len() as int) =~= prev.out);
        }
        assert(fin.out.subrange(0, st.out.len() as int) =~= prev.out.subrange(0, st.out.len() as int));
        assert forall|k: int| 0 <= k < j implies (#[trigger] fin.ids[k]) < fin.blocks.len()
            && fin.blocks[fin.ids[k] as int] == block_of(s, bs, first + k) by {
            if k < j - 1 {
                assert(fin.ids[k] == prev.ids[k]);
            }
        }
    }
}

/// The decoder takes the block tokens of one superblock as they were written.
pub proof fn lemma_parse_blocks(
    st: EncStep,
    s: Seq<u8>,
    bs: nat,
    first: int,
    j: nat,
    d: CtxModel,
    b: Seq<u8>,
    base: nat,
    n: nat,
    frame: u64,
)
    requires
        st.blocks.len() + j <= u32::MAX + 1,
        bs <= u32::MAX,
        d.blocks == st.blocks,
        d.block_size == bs,
        at(b, base, enc_blocks(st, s, bs, first, j).out),
    ensures
        parse_tokens(d, b, base + st.out.len(), n, true, frame) == parse_tokens(
            CtxModel { blocks: enc_blocks(st, s, bs, first, j).blocks, ..d },
            b,
            base + enc_blocks(st, s, bs, first, j).out.len(),
            n,
            true,
            frame,
        ),
    decreases j,
{
    let fin = enc_blocks(st, s, bs, first, j);
    if j == 0 {
        assert(CtxModel { blocks: fin.blocks, ..d } == d);
    } else {
        let prev = enc_blocks(st, s, bs, first, (j - 1) as nat);
        lemma_blocks_shape(st, s, bs, first, (j - 1) as nat);
        let blk = block_of(s, bs, first + j - 1);
        let (objs, ins) = insert_model(prev.blocks, blk);
        assert(fin == enc_block(prev, blk));
        if ins.is_new {
            assert(fin.out == prev.out + new_block_bytes(ins.index, blk));
            lemma_at_split(b, base, prev.out, new_block_bytes(ins.index, blk));
        }
        lemma_parse_blocks(st, s, bs, first, (j - 1) as nat, d, b, base, n, frame);
        lemma_insert_model(prev.blocks, blk);
        if ins.is_new {
            lemma_parse_new_block(
                CtxModel { blocks: prev.blocks, ..d },
                b,
                base + prev.out.len(),
                n,
                frame,
                ins.index,
                blk,
            );
        } else {
            assert(fin.blocks == prev.blocks);
        }
    }
}

/// The facts that hold of the first `i` superblocks stored: the output and
/// both stores grow, and every id in the sequence names a superblock whose
/// entries name the blocks of `s` in address order.
pub open spec fn supers_facts(st0: EncStep, st: EncStep, s: Seq<u8>, bs: nat, sbs: nat, i: nat) -> bool {
    &&& extends(st.out, st0.out)
    &&& st0.blocks.len() <= st.blocks.len() <= st0.blocks.len() + i * sbs
    &&& st0.supers.len() <= st.supers.len() <= st0.supers.len() + i
    &&& forall|k: int| 0 <= k < st0.blocks.len() ==> st.blocks[k] == st0.blocks[k]
    &&& forall|k: int| 0 <= k < st0.supers.len() ==> st.supers[k] == st0.supers[k]
    &&& st.seq.len() == i
    &&& forall|x: int|
        0 <= x < i ==> {
            &&& (#[trigger] st.seq[x]) < st.supers.len()
            &&& st.supers[st.seq[x] as int].len() == sbs
            &&& forall|y: int|
                0 <= y < sbs ==> {
                    &&& (#[trigger] st.supers[st.seq[x] as int][y]) < st.blocks.len()
                    &&& st.blocks[st.supers[st.seq[x] as int][y] as int] == block_of(
                        s,
                        bs,
                        x * sbs + y,
                    )
                }
        }
}

pub proof fn lemma_supers_shape(st0: EncStep, s: Seq<u8>, bs: nat, sbs: nat, i: nat)
    requires
        st0.seq.len() == 0,
        st0.blocks.len() + i * sbs <= u32::MAX + 1,
        st0.supers.len() + i <= u32::MAX + 1,
    ensures
        supers_facts(st0, enc_supers(st0, s, bs, sbs, i), s, bs, sbs, i),
    decreases i,
{
    let st = enc_supers(st0, s, bs, sbs, i);
    if i == 0 {
        assert(st.out.subrange(0, st.out.len() as int) =~= st.out);
    } else {
        let prev = enc_supers(st0, s, bs, sbs, (i - 1) as nat);
        assert(st0.blocks.len() + (i - 1) * sbs <= st0.blocks.len() + i * sbs) by (nonlinear_arith)
            requires i >= 1;
        lemma_supers_shape(st0, s, bs, sbs, (i - 1) as nat);
        let first = (i - 1) * sbs;
        let mid = enc_blocks(prev, s, bs, first, sbs);
        assert((i - 1) * sbs + sbs == i * sbs) by (nonlinear_arith);
        lemma_blocks_shape(prev, s, bs, first, sbs);
        let (supers, ins) = insert_model(mid.supers, mid.ids);
        lemma_insert_model(mid.supers, mid.ids);
        assert(st == enc_super(mid));
        if ins.is_new {
            assert(st.out.subrange(0, mid.out.len() as int) =~= mid.out);
        }
        assert(st.out.subrange(0, st0.out.len() as int) =~= mid.out.subrange(0, st0.out.len() as int));
        assert(mid.out.subrange(0, st0.out.len() as int) =~= prev.out.subrange(0, st0.out.len() as int));
        assert forall|x: int| 0 <= x < i implies {
            &&& (#[trigger] st.seq[x]) < st.supers.len()
            &&& st.supers[st.seq[x] as int].len() == sbs
            &&& forall|y: int|
                0 <= y < sbs ==> {
                    &&& (#[trigger] st.supers[st.seq[x] as int][y]) < st.blocks.len()
                    &&& st.blocks[st.supers[st.seq[x] as int][y] as int] == block_of(
                        s,
                        bs,
                        x * sbs + y,
                    )
                }
        } by {
            if x < i - 1 {
                assert(st.seq[x] == prev.seq[x]);
                assert(st.supers[st.seq[x] as int] == prev.supers[prev.seq[x] as int]);
                assert forall|y: int| 0 <= y < sbs implies {
                    &&& (#[trigger] st.supers[st.seq[x] as int][y]) < st.blocks.len()
                    &&& st.blocks[st.supers[st.seq[x] as int][y] as int] == block_of(
                        s,
                        bs,
                        x * sbs + y,
                    )
                } by {
                    let id = prev.supers[prev.seq[x] as int][y];
                    assert(st.blocks[id as int] == prev.blocks[id as int]);
                }
            } else {
                assert(st.seq[x] == ins.index);
                assert(st.supers[st.seq[x] as int] == mid.ids);
                assert forall|y: int| 0 <= y < sbs implies {
                    &&& (#[trigger] st.supers[st.seq[x] as int][y]) < st.blocks.len()
                    &&& st.blocks[st.supers[st.seq[x] as int][y] as int] == block_of(
                        s,
                        bs,
                        x * sbs + y,
                    )
                } by {
                    assert(mid.ids[y] == st.supers[st.seq[x] as int][y]);
                    assert(first + y == x * sbs + y);
                }
            }
        }
    }
}

/// The decoder takes the tokens of the first `i` superblocks as they were written.
pub proof fn lemma_parse_supers(
    st0: EncStep,
    s: Seq<u8>,
    bs: nat,
    sbs: nat,
    i: nat,
    d: CtxModel,
    b: Seq<u8>,
    base: nat,
    n: nat,
    frame: u64,
)
    requires
        st0.seq.len() == 0,
        st0.blocks.len() + i * sbs <= u32::MAX + 1,
        st0.supers.len() + i <= u32::MAX + 1,
        bs <= u32::MAX,
        sbs <= u32::MAX,
        d.blocks == st0.blocks,
        d.supers == st0.supers,
        d.block_size == bs,
        d.superblock_size == sbs,
        at(b, base, enc_supers(st0, s, bs, sbs, i).out),
    ensures
        parse_tokens(d, b, base + st0.out.len(), n, true, frame) == parse_tokens(
            CtxModel {
                blocks: enc_supers(st0, s, bs, sbs, i).blocks,
                supers: enc_supers(st0, s, bs, sbs, i).supers,
                ..d
            },
            b,
            base + enc_supers(st0, s, bs, sbs, i).out.len(),
            n,
            true,
            frame,
        ),
    decreases i,
{
    let st = enc_supers(st0, s, bs, sbs, i);
    if i == 0 {
        assert(CtxModel { blocks: st.blocks, supers: st.supers, ..d } == d);
    } else {
        let prev = enc_supers(st0, s, bs, sbs, (i - 1) as nat);
        assert(st0.blocks.len() + (i - 1) * sbs <= st0.blocks.len() + i * sbs) by (nonlinear_arith)
            requires i >= 1;
        lemma_supers_shape(st0, s, bs, sbs, (i - 1) as nat);
        let first = (i - 1) * sbs;
        let mid = enc_blocks(prev, s, bs, first, sbs);
        assert((i - 1) * sbs + sbs == i * sbs) by (nonlinear_arith);
        lemma_blocks_shape(prev, s, bs, first, sbs);
        let (supers, ins) = insert_model(mid.supers, mid.ids);
        lemma_insert_model(mid.supers, mid.ids);
        assert(st == enc_super(mid));
        if ins.is_new {
            assert(st.out == mid.out + new_superblock_bytes(ins.index, mid.ids));
            lemma_at_split(b, base, mid.out, new_superblock_bytes(ins.index, mid.ids));
        }
        assert(mid.out + st.out.subrange(mid.out.len() as int, st.out.len() as int) =~= st.out);
        lemma_at_split(b, base, mid.out, st.out.subrange(mid.out.len() as int, st.out.len() as int));
        assert(prev.out + mid.out.subrange(prev.out.len() as int, mid.out.len() as int) =~= mid.out);
        lemma_at_split(b, base, prev.out, mid.out.subrange(prev.out.len() as int, mid.out.len() as int));
        lemma_parse_supers(st0, s, bs, sbs, (i - 1) as nat, d, b, base, n, frame);
        let d1 = CtxModel { blocks: prev.blocks, supers: prev.supers, ..d };
        lemma_parse_blocks(prev, s, bs, first, sbs, d1, b, base, n, frame);
        let d2 = CtxModel { blocks: mid.blocks, ..d1 };
        if ins.is_new {
            assert(!any_unknown(mid.ids, mid.blocks.len()));
            lemma_parse_new_superblock(d2, b, base + mid.out.len(), n, frame, ins.index, mid.ids);
        } else {
            assert(st.supers == mid.supers);
        }
    }
}

proof fn lemma_count_covers(n: nat, bs: nat, sbs: nat)
    requires
        bs > 0,
        sbs > 0,
    ensures
        superblock_count(n, bs, sbs) * sbs * bs >= n,
        superblock_count(n, bs, sbs) <= n,
{
    let sbb = bs * sbs;
    assert(sbb >= 1) by (nonlinear_arith)
        requires bs > 0, sbs > 0, sbb == bs * sbs;
    let k = superblock_count(n, bs, sbs);
    let t = (n + sbb - 1) as int;
    vstd::arithmetic::div_mod::lemma_fundamental_div_mod(t, sbb as int);
    vstd::arithmetic::div_mod::lemma_mod_bound(t, sbb as int);
    assert(k == t / (sbb as int));
    assert(k * sbb >= n) by (nonlinear_arith)
        requires t == sbb * k + t % (sbb as int), t % (sbb as int) < sbb, t == n + sbb - 1;
    assert(k * sbs * bs == k * sbb) by (nonlinear_arith)
        requires sbb == bs * sbs;
    assert(k <= n) by (nonlinear_arith)
        requires t == sbb * k + t % (sbb as int), 0 <= t % (sbb as int), t == n + sbb - 1, sbb >= 1;
}

/// A superblock sequence whose entries name the blocks of `s` in address
/// order, and covers it, rebuilds exactly `s`.
proof fn lemma_materialize_rebuilds(
    prev: Seq<u8>,
    s: Seq<u8>,
    st0: EncStep,
    st: EncStep,
    bs: nat,
    sbs: nat,
)
    requires
        bs > 0,
        sbs > 0,
        supers_facts(st0, st, s, bs, sbs, superblock_count(s.len(), bs, sbs)),
    ensures
        materialize(prev, s.len(), st.seq, st.supers, st.blocks, bs, sbs) == s,
{
    let n = s.len();
    let k = superblock_count(n, bs, sbs);
    lemma_count_covers(n, bs, sbs);
    let m = materialize(prev, n, st.seq, st.supers, st.blocks, bs, sbs);
    assert forall|a: int| 0 <= a < n implies m[a] == s[a] by {
        let bi = bs as int;
        let si = sbs as int;
        let g = a / bi;
        let x = g / si;
        let y = g % si;
        assert(a < bi * (k * si)) by (nonlinear_arith)
            requires a < n, k * sbs * bs >= n, bi == bs, si == sbs;
        vstd::arithmetic::div_mod::lemma_multiply_divide_lt(a, bi, k * si);
        vstd::arithmetic::div_mod::lemma_div_pos_is_pos(a, bi);
        vstd::arithmetic::div_mod::lemma_multiply_divide_lt(g, si, k as int);
        vstd::arithmetic::div_mod::lemma_div_pos_is_pos(g, si);
        vstd::arithmetic::div_mod::lemma_fundamental_div_mod(g, si);
        vstd::arithmetic::div_mod::lemma_fundamental_div_mod(a, bi);
        vstd::arithmetic::div_mod::lemma_mod_bound(g, si);
        vstd::arithmetic::div_mod::lemma_mod_bound(a, bi);
        assert(0 <= x < k);
        assert(x * sbs + y == g) by (nonlinear_arith)
            requires g == si * x + y, si == sbs;
        assert(g * bs + a % bi == a) by (nonlinear_arith)
            requires a == bi * g + a % bi, bi == bs;
        let id = st.supers[st.seq[x] as int][y];
        assert(st.blocks[id as int] == block_of(s, bs, x * sbs + y));
        assert(m[a] == st.blocks[id as int][a % bi]);
    }
    assert(m =~= s);
}

/// Decoding the record that the encoder made for `s`, with a decoder whose
/// stores equal the encoder's, yields `s`, and leaves the decoder's stores
/// and sequence equal to the encoder's; decoding stops right after the
/// record, wherever it stands in `b`.
pub proof fn lemma_statestream_round_trip(
    enc: CtxModel,
    dec: CtxModel,
    s: Seq<u8>,
    frame: u64,
    b: Seq<u8>,
    base: nat,
)
    requires
        0 < enc.block_size <= u32::MAX,
        0 < enc.superblock_size <= u32::MAX,
        s.len() <= u32::MAX,
        enc.blocks.len() + superblock_count(s.len(), enc.block_size, enc.superblock_size)
            * enc.superblock_size <= u32::MAX + 1,
        enc.supers.len() + superblock_count(s.len(), enc.block_size, enc.superblock_size)
            <= u32::MAX + 1,
        dec.blocks == enc.blocks,
        dec.supers == enc.supers,
        dec.block_size == enc.block_size,
        dec.superblock_size == enc.superblock_size,
        at(
            b,
            base,
            encode_model(enc.blocks, enc.supers, s, enc.block_size, enc.superblock_size, frame).out,
        ),
    ensures
        ({
            let e = encode_model(
                enc.blocks,
                enc.supers,
                s,
                enc.block_size,
                enc.superblock_size,
                frame,
            );
            parse_tokens(dec, b, base, s.len(), false, 0) == Ok::<(CtxModel, nat), SSError>(
                (
                    CtxModel {
                        blocks: e.blocks,
                        supers: e.supers,
                        last_state: s,
                        last_superseq: e.seq,
                        ..dec
                    },
                    base + e.out.len(),
                ),
            )
        }),
{
    let bs = enc.block_size;
    let sbs = enc.superblock_size;
    let n = s.len();
    let k = superblock_count(n, bs, sbs);
    let e = encode_model(enc.blocks, enc.supers, s, bs, sbs, frame);
    let st0 = EncStep {
        blocks: enc.blocks,
        supers: enc.supers,
        out: start_bytes(frame),
        ids: Seq::empty(),
        seq: Seq::empty(),
    };
    let st = enc_supers(st0, s, bs, sbs, k);
    lemma_count_covers(n, bs, sbs);
    lemma_supers_shape(st0, s, bs, sbs, k);
    assert(e.out == st.out + superseq_bytes(st.seq));
    lemma_at_split(b, base, st.out, superseq_bytes(st.seq));
    assert(st.out == st0.out + st.out.subrange(st0.out.len() as int, st.out.len() as int));
    lemma_at_split(b, base, st0.out, st.out.subrange(st0.out.len() as int, st.out.len() as int));
    lemma_at_split(b, base, uint_bytes(0), uint_bytes(frame));
    lemma_read_uint(b, base, 0);
    lemma_read_uint(b, base + uint_bytes(0).len(), frame);
    assert(SSToken::spec_from_code(0) == Some(SSToken::Start));
    assert(parse_tokens(dec, b, base, n, false, 0) == parse_tokens(
        dec,
        b,
        base + st0.out.len(),
        n,
        true,
        frame,
    ));
    lemma_parse_supers(st0, s, bs, sbs, k, dec, b, base, n, frame);
    let d1 = CtxModel { blocks: st.blocks, supers: st.supers, ..dec };
    assert(!any_unknown(st.seq, st.supers.len()));
    lemma_parse_superseq(d1, b, base + st.out.len(), n, frame, st.seq);
    lemma_materialize_rebuilds(dec.last_state, s, st0, st, bs, sbs);
}

proof fn lemma_insert_keeps_distinct<T>(objs: Seq<Seq<T>>, o: Seq<T>)
    requires
        distinct(objs),
    ensures
        distinct(insert_model(objs, o).0),
{
    let (objs2, ins) = insert_model(objs, o);
    if ins.is_new {
        assert forall|i: int, j: int|
            0 <= i < objs2.len() && 0 <= j < objs2.len() && i != j implies objs2[i] != objs2[j] by {
            if i == objs.len() as int {
                assert(objs2[j] == objs[j]);
            } else if j == objs.len() as int {
                assert(objs2[i] == objs[i]);
            }
        }
    }
}

/// In a store without duplicates, an object that is stored gets its own id back.
proof fn lemma_insert_found<T>(objs: Seq<Seq<T>>, o: Seq<T>, id: int)
    requires
        distinct(objs),
        0 <= id < objs.len() <= u32::MAX + 1,
        objs[id] == o,
    ensures
        insert_model(objs, o) == (objs, Insertion { index: id as u32, is_new: false }),
{
    lemma_insert_model(objs, o);
    let ins = insert_model(objs, o).1;
    assert(objs.contains(o));
    assert(objs[ins.index as int] == o);
}

proof fn lemma_blocks_distinct(st: EncStep, s: Seq<u8>, bs: nat, first: int, j: nat)
    requires
        distinct(st.blocks),
    ensures
        distinct(enc_blocks(st, s, bs, first, j).blocks),
    decreases j,
{
    if j > 0 {
        let prev = enc_blocks(st, s, bs, first, (j - 1) as nat);
        lemma_blocks_distinct(st, s, bs, first, (j - 1) as nat);
        lemma_insert_keeps_distinct(prev.blocks, block_of(s, bs, first + j - 1));
    }
}

proof fn lemma_supers_distinct(st0: EncStep, s: Seq<u8>, bs: nat, sbs: nat, i: nat)
    requires
        distinct(st0.blocks),
        distinct(st0.supers),
    ensures
        distinct(enc_supers(st0, s, bs, sbs, i).blocks),
        distinct(enc_supers(st0, s, bs, sbs, i).supers),
    decreases i,
{
    if i > 0 {
        let prev = enc_supers(st0, s, bs, sbs, (i - 1) as nat);
        lemma_supers_distinct(st0, s, bs, sbs, (i - 1) as nat);
        let mid = enc_blocks(prev, s, bs, (i - 1) * sbs, sbs);
        lemma_blocks_distinct(prev, s, bs, (i - 1) * sbs, sbs);
        lemma_enc_blocks_keeps(prev, s, bs, (i - 1) * sbs, sbs);
        lemma_insert_keeps_distinct(mid.supers, mid.ids);
    }
}

/// Storing again the blocks of a superblock whose ids `ids` are all stored
/// already changes nothing and hands out the same ids.
proof fn lemma_blocks_again(st: EncStep, s: Seq<u8>, bs: nat, first: int, j: nat, ids: Seq<u32>)
    requires
        distinct(st.blocks),
        st.blocks.len() <= u32::MAX + 1,
        j <= ids.len(),
        forall|y: int|
            0 <= y < j ==> (#[trigger] ids[y]) < st.blocks.len() && st.blocks[ids[y] as int]
                == block_of(s, bs, first + y),
    ensures
        enc_blocks(st, s, bs, first, j) == (EncStep { ids: ids.subrange(0, j as int), ..st }),
    decreases j,
{
    if j == 0 {
        assert(ids.subrange(0, 0) =~= Seq::<u32>::empty());
    } else {
        lemma_blocks_again(st, s, bs, first, (j - 1) as nat, ids);
        let prev = enc_blocks(st, s, bs, first, (j - 1) as nat);
        lemma_insert_found(st.blocks, block_of(s, bs, first + j - 1), ids[j - 1] as int);
        assert(ids.subrange(0, j - 1).push(ids[j - 1]) =~= ids.subrange(0, j as int));
    }
}

/// Encoding a checkpoint a second time, right after the first, declares no
/// block and no superblock: the record holds only the start and the
/// superblock sequence, which is the first one's, and the stores do not change.
pub proof fn lemma_identical_checkpoints(
    blocks: Seq<Seq<u8>>,
    supers: Seq<Seq<u32>>,
    s: Seq<u8>,
    bs: nat,
    sbs: nat,
    frame1: u64,
    frame2: u64,
)
    requires
        distinct(blocks),
        distinct(supers),
        bs > 0,
        sbs > 0,
        blocks.len() + superblock_count(s.len(), bs, sbs) * sbs <= u32::MAX + 1,
        supers.len() + superblock_count(s.len(), bs, sbs) <= u32::MAX + 1,
    ensures
        ({
            let e1 = encode_model(blocks, supers, s, bs, sbs, frame1);
            let e2 = encode_model(e1.blocks, e1.supers, s, bs, sbs, frame2);
            &&& e2.out == start_bytes(frame2) + superseq_bytes(e1.seq)
            &&& e2.seq == e1.seq
            &&& e2.blocks == e1.blocks
            &&& e2.supers == e1.supers
        }),
{
    let k = superblock_count(s.len(), bs, sbs);
    let e1 = encode_model(blocks, supers, s, bs, sbs, frame1);
    let st0 = EncStep { blocks, supers, out: start_bytes(frame1), ids: Seq::empty(), seq: Seq::empty() };
    let st1 = enc_supers(st0, s, bs, sbs, k);
    lemma_supers_shape(st0, s, bs, sbs, k);
    lemma_supers_distinct(st0, s, bs, sbs, k);
    let t0 = EncStep {
        blocks: st1.blocks,
        supers: st1.supers,
        out: start_bytes(frame2),
        ids: Seq::empty(),
        seq: Seq::empty(),
    };
    lemma_second_pass(st0, st1, t0, s, bs, sbs, k, k);
    assert(st1.seq.subrange(0, k as int) =~= st1.seq);
}

proof fn lemma_second_pass(
    st0: EncStep,
    st1: EncStep,
    t0: EncStep,
    s: Seq<u8>,
    bs: nat,
    sbs: nat,
    k: nat,
    i: nat,
)
    requires
        i <= k,
        supers_facts(st0, st1, s, bs, sbs, k),
        distinct(st1.blocks),
        distinct(st1.supers),
        st1.blocks.len() <= u32::MAX + 1,
        st1.supers.len() <= u32::MAX + 1,
        t0.blocks == st1.blocks,
        t0.supers == st1.supers,
        t0.seq.len() == 0,
    ensures
        enc_supers(t0, s, bs, sbs, i) == (EncStep {
            seq: st1.seq.subrange(0, i as int),
            ids: if i == 0 {
                t0.ids
            } else {
                st1.supers[st1.seq[i - 1] as int]
            },
            ..t0
        }),
    decreases i,
{
    if i == 0 {
        assert(st1.seq.subrange(0, 0) =~= Seq::<u32>::empty());
        assert(t0.seq =~= Seq::<u32>::empty());
    } else {
        lemma_second_pass(st0, st1, t0, s, bs, sbs, k, (i - 1) as nat);
        let prev = enc_supers(t0, s, bs, sbs, (i - 1) as nat);
        let x = i - 1;
        let ids = st1.supers[st1.seq[x] as int];
        assert forall|y: int| 0 <= y < sbs implies (#[trigger] ids[y]) < prev.blocks.len()
            && prev.blocks[ids[y] as int] == block_of(s, bs, (i - 1) * sbs + y) by {
            assert(ids[y] == st1.supers[st1.seq[x] as int][y]);
        }
        lemma_blocks_again(prev, s, bs, (i - 1) * sbs, sbs, ids);
        assert(ids.subrange(0, sbs as int) =~= ids);
        let mid = enc_blocks(prev, s, bs, (i - 1) * sbs, sbs);
        lemma_insert_found(prev.supers, ids, st1.seq[x] as int);
        assert(st1.seq.subrange(0, x).push(st1.seq[x]) =~= st1.seq.subrange(0, i as int));
    }
}


/// Unpacking what packing gave yields the payload again.
pub open spec fn lossless(c: Compression) -> bool {
    forall|p: Seq<u8>| #[trigger] pack(c, p) matches Some(z) ==> unpack(c, z) == Some(p)
}

/// Storing checkpoints uncompressed loses nothing.
pub proof fn lemma_uncompressed_lossless()
    ensures
        lossless(Compression::Uncompressed),
{
}

/// A decoder context that holds the same stores as an encoder context.
pub open spec fn mirrors(d: CtxModel, e: CtxModel) -> bool {
    &&& d.blocks == e.blocks
    &&& d.supers == e.supers
    &&& d.block_size == e.block_size
    &&& d.superblock_size == e.superblock_size
}

proof fn lemma_read_le32(b: Seq<u8>, p: nat, v: u32)
    requires
        at(b, p, le32(v)),
    ensures
        from_le32(b.subrange(p as int, (p + 4) as int)) == v,
{
    lemma_le32_round_trip(v, Seq::empty());
    assert(le32(v) + Seq::<u8>::empty() =~= le32(v));
}

proof fn lemma_read_le16(b: Seq<u8>, p: nat, v: u16)
    requires
        at(b, p, le16(v)),
    ensures
        from_le16(b.subrange(p as int, (p + 2) as int)) == v,
{
    lemma_le16_round_trip(v, Seq::empty());
    assert(le16(v) + Seq::<u8>::empty() =~= le16(v));
}

/// The checkpoint record that the encoder wrote is read back, by a decoder
/// whose stores mirror the encoder's, as the same state, and the stores
/// mirror each other afterwards.
pub proof fn lemma_checkpoint_round_trip(
    enc: CtxModel,
    dec: CtxModel,
    s: Seq<u8>,
    frame: u64,
    c: Compression,
    b: Seq<u8>,
    p: nat,
)
    requires
        enc.block_size <= u32::MAX,
        enc.superblock_size <= u32::MAX,
        mirrors(dec, enc),
        lossless(c),
        checkpoint_record(enc, s, frame, c) is Ok,
        at(b, p, checkpoint_record(enc, s, frame, c)->Ok_0.1),
    ensures
        ({
            let (enc2, rec) = checkpoint_record(enc, s, frame, c)->Ok_0;
            read_checkpoint(dec, b, p) matches Ok((dec2, st, c2, e2, q)) && st == s && c2 == c
                && q == p + rec.len() && mirrors(dec2, enc2)
        }),
{
    let (enc2, rec) = checkpoint_record(enc, s, frame, c)->Ok_0;
    let ss = uses_statestream(enc);
    let e = encode_model(enc.blocks, enc.supers, s, enc.block_size, enc.superblock_size, frame);
    let enc_kind = if ss {
        Encoding::Statestream
    } else {
        Encoding::Raw
    };
    let payload = if ss {
        e.out
    } else {
        s
    };
    let z = pack(c, payload)->Some_0;
    let head = seq![c.spec_byte(), enc_kind.spec_byte()];
    assert(rec == head + le32(s.len() as u32) + le32(payload.len() as u32) + le32(z.len() as u32)
        + z);
    lemma_at_split(b, p, head + le32(s.len() as u32) + le32(payload.len() as u32) + le32(z.len() as u32), z);
    lemma_at_split(b, p, head + le32(s.len() as u32) + le32(payload.len() as u32), le32(z.len() as u32));
    lemma_at_split(b, p, head + le32(s.len() as u32), le32(payload.len() as u32));
    lemma_at_split(b, p, head, le32(s.len() as u32));
    assert(b[p as int] == head[0] && b[p + 1int] == head[1]) by {
        assert(b.subrange(p as int, (p + 2) as int)[0] == b[p as int]);
        assert(b.subrange(p as int, (p + 2) as int)[1] == b[p + 1int]);
    }
    lemma_read_le32(b, p + 2, s.len() as u32);
    lemma_read_le32(b, p + 10, z.len() as u32);
    assert(Compression::spec_from_byte(c.spec_byte()) == Some(c));
    assert(Encoding::spec_from_byte(enc_kind.spec_byte()) == Some(enc_kind));
    let q = p + 14;
    if ss {
        if c == Compression::Uncompressed {
            lemma_statestream_round_trip(enc, dec, s, frame, b, q);
        } else {
            assert(unpack(c, z) == Some(payload));
            assert(at(payload, 0, e.out)) by {
                assert(payload.subrange(0, payload.len() as int) =~= payload);
            }
            lemma_statestream_round_trip(enc, dec, s, frame, payload, 0);
        }
    } else {
        if c != Compression::Uncompressed {
            assert(unpack(c, z) == Some(payload));
            assert(payload.subrange(0, s.len() as int) =~= s);
        }
    }
}

proof fn lemma_key_read(b: Seq<u8>, p: nat, k: KeyData)
    requires
        at(b, p, key_bytes(k)),
    ensures
        key_at(b, p as int) == k,
{
    let x = seq![k.down, 0u8];
    lemma_at_split(b, p, x + le16(k.modf) + le32(k.code), le32(k.chr));
    lemma_at_split(b, p, x + le16(k.modf), le32(k.code));
    lemma_at_split(b, p, x, le16(k.modf));
    assert(b.subrange(p as int, (p + 2) as int)[0] == b[p as int]);
    lemma_read_le16(b, p + 2, k.modf);
    lemma_read_le32(b, p + 4, k.code);
    lemma_read_le32(b, p + 8, k.chr);
}

proof fn lemma_bits_round_trip(v: i16)
    ensures
        bits_i16(i16_bits(v)) == v,
{
}

proof fn lemma_input_read(b: Seq<u8>, p: nat, e: InputData)
    requires
        at(b, p, input_bytes(e)),
    ensures
        input_at(b, p as int) == e,
{
    let x = seq![e.port, e.device, e.idx, 0u8];
    lemma_at_split(b, p, x + le16(e.id), le16(i16_bits(e.val)));
    lemma_at_split(b, p, x, le16(e.id));
    assert(b.subrange(p as int, (p + 4) as int)[0] == b[p as int]);
    assert(b.subrange(p as int, (p + 4) as int)[1] == b[p + 1int]);
    assert(b.subrange(p as int, (p + 4) as int)[2] == b[p + 2int]);
    lemma_read_le16(b, p + 4, e.id);
    lemma_read_le16(b, p + 6, i16_bits(e.val));
    lemma_bits_round_trip(e.val);
}

proof fn lemma_keys_read(b: Seq<u8>, p: nat, ks: Seq<KeyData>)
    requires
        at(b, p, keys_bytes(ks)),
    ensures
        keys_bytes(ks).len() == 12 * ks.len(),
        keys_at(b, p as int, ks.len()) == ks,
    decreases ks.len(),
{
    if ks.len() > 0 {
        let k2 = ks.drop_last();
        lemma_at_split(b, p, keys_bytes(k2), key_bytes(ks.last()));
        lemma_keys_read(b, p, k2);
        lemma_key_read(b, p + keys_bytes(k2).len(), ks.last());
        assert(keys_at(b, p as int, ks.len()) =~= ks) by {
            assert forall|i: int| 0 <= i < ks.len() implies keys_at(b, p as int, ks.len())[i]
                == ks[i] by {
                if i < ks.len() - 1 {
                    assert(keys_at(b, p as int, k2.len())[i] == k2[i]);
                }
            }
        }
    } else {
        assert(keys_at(b, p as int, 0) =~= ks);
    }
}

proof fn lemma_inputs_read(b: Seq<u8>, p: nat, es: Seq<InputData>)
    requires
        at(b, p, inputs_bytes(es)),
    ensures
        inputs_bytes(es).len() == 8 * es.len(),
        inputs_at(b, p as int, es.len()) == es,
    decreases es.len(),
{
    if es.len() > 0 {
        let e2 = es.drop_last();
        lemma_at_split(b, p, inputs_bytes(e2), input_bytes(es.last()));
        lemma_inputs_read(b, p, e2);
        lemma_input_read(b, p + inputs_bytes(e2).len(), es.last());
        assert(inputs_at(b, p as int, es.len()) =~= es) by {
            assert forall|i: int| 0 <= i < es.len() implies inputs_at(b, p as int, es.len())[i]
                == es[i] by {
                if i < es.len() - 1 {
                    assert(inputs_at(b, p as int, e2.len())[i] == e2[i]);
                }
            }
        }
    } else {
        assert(inputs_at(b, p as int, 0) =~= es);
    }
}

/// The frame record that the encoder wrote is read back, by a decoder whose
/// stores mirror the encoder's, as the same events and checkpoint, and the
/// stores mirror each other afterwards.
pub proof fn lemma_frame_round_trip(
    enc: CtxModel,
    dec: CtxModel,
    f: FrameView,
    backref: nat,
    frame_no: u64,
    c: Compression,
    b: Seq<u8>,
    p: nat,
)
    requires
        enc.block_size <= u32::MAX,
        enc.superblock_size <= u32::MAX,
        mirrors(dec, enc),
        lossless(c),
        frame_record(enc, f, backref, frame_no, c) is Ok,
        at(b, p, frame_record(enc, f, backref, frame_no, c)->Ok_0.1),
    ensures
        ({
            let (enc2, rec) = frame_record(enc, f, backref, frame_no, c)->Ok_0;
            read_frame_model(2, dec, b, p) matches Ok((g, dec2, q)) && g.key_events
                == f.key_events && g.input_events == f.input_events && g.checkpoint_bytes
                == f.checkpoint_bytes && q == p + rec.len() && mirrors(dec2, enc2)
        }),
{
    let (enc2, rec) = frame_record(enc, f, backref, frame_no, c)->Ok_0;
    let ks = f.key_events;
    let es = f.input_events;
    let a0 = le32(backref as u32);
    let a1 = seq![ks.len() as u8];
    let a2 = keys_bytes(ks);
    let a3 = le16(es.len() as u16);
    let a4 = inputs_bytes(es);
    let head = frame_head(backref as u32, ks, es);
    assert(head == a0 + a1 + a2 + a3 + a4);
    let tail_bytes = rec.subrange(head.len() as int, rec.len() as int);
    assert(rec == head + tail_bytes);
    lemma_at_split(b, p, head, tail_bytes);
    lemma_at_split(b, p, a0 + a1 + a2 + a3, a4);
    lemma_at_split(b, p, a0 + a1 + a2, a3);
    lemma_at_split(b, p, a0 + a1, a2);
    lemma_at_split(b, p, a0, a1);
    assert(b.subrange((p + 4) as int, (p + 5) as int)[0] == b[p + 4int]);
    lemma_keys_read(b, p + 5, ks);
    let p3 = p + 5 + 12 * ks.len();
    lemma_read_le16(b, p3, es.len() as u16);
    lemma_inputs_read(b, p3 + 2, es);
    let p5 = p3 + 2 + 8 * es.len();
    assert(b.subrange(p5 as int, (p5 + tail_bytes.len()) as int)[0] == b[p5 as int]);
    if f.checkpoint_bytes.len() == 0 {
        assert(tail_bytes == seq![FrameToken::Regular.spec_byte()]);
        assert(FrameToken::spec_from_byte(0x66) == FrameToken::Regular);
        assert(f.checkpoint_bytes =~= Seq::<u8>::empty());
    } else {
        let cp = checkpoint_record(enc, f.checkpoint_bytes, frame_no, c)->Ok_0.1;
        assert(tail_bytes == seq![FrameToken::Checkpoint2.spec_byte()] + cp);
        lemma_at_split(b, p5, seq![FrameToken::Checkpoint2.spec_byte()], cp);
        assert(FrameToken::spec_from_byte(0x43) == FrameToken::Checkpoint2);
        lemma_checkpoint_round_trip(enc, dec, f.checkpoint_bytes, frame_no, c, b, p5 + 1);
    }
}


/// The frame records that an encoder in context `m`, having written `out`
/// with the last record ending at `last_pos`, writes for `frames`, numbered
/// from `no`: the context and the bytes afterwards.
pub open spec fn frames_model(
    m: CtxModel,
    out: Seq<u8>,
    last_pos: nat,
    frames: Seq<FrameView>,
    c: Compression,
    no: u64,
) -> Result<(CtxModel, Seq<u8>), crate::rply::ReplayError>
    decreases frames.len(),
{
    if frames.len() == 0 {
        Ok((m, out))
    } else {
        match frame_record(m, frames[0], (out.len() - last_pos) as nat, no, c) {
            Err(e) => Err(e),
            Ok((m2, rec)) => frames_model(
                m2,
                out + rec,
                out.len(),
                frames.drop_first(),
                c,
                (no + 1) as u64,
            ),
        }
    }
}

/// The bytes of a whole replay: an encoder started with `h` and `init`, the
/// frames written in order, then finished.
pub open spec fn replay_bytes(h: Header, init: Seq<u8>, frames: Seq<FrameView>) -> Result<
    Seq<u8>,
    crate::rply::ReplayError,
> {
    match start_model(h, init) {
        Err(e) => Err(e),
        Ok((h2, m, bytes)) => match frames_model(
            m,
            bytes,
            bytes.len(),
            frames,
            h2.checkpoint_compression,
            0,
        ) {
            Err(e) => Err(e),
            Ok((m2, out)) => Ok(
                header_bytes(HeaderV2 { frame_count: frames.len() as u32, ..h2 }) + out.subrange(
                    40,
                    out.len() as int,
                ),
            ),
        },
    }
}

/// The next `n` frames that a decoder in context `m` reads from position `p`.
pub open spec fn read_frames(m: CtxModel, b: Seq<u8>, p: nat, n: nat) -> Result<
    Seq<FrameView>,
    crate::rply::ReplayError,
>
    decreases n,
{
    if n == 0 {
        Ok(Seq::empty())
    } else {
        match read_frame_model(2, m, b, p) {
            Err(e) => Err(e),
            Ok((g, m2, q)) => match read_frames(m2, b, q, (n - 1) as nat) {
                Err(e) => Err(e),
                Ok(gs) => Ok(seq![g] + gs),
            },
        }
    }
}

/// Two frames hold the same events and the same checkpoint state.
pub open spec fn same_content(f: FrameView, g: FrameView) -> bool {
    &&& f.key_events == g.key_events
    &&& f.input_events == g.input_events
    &&& f.checkpoint_bytes == g.checkpoint_bytes
}

proof fn lemma_frames_extend(
    m: CtxModel,
    out: Seq<u8>,
    last_pos: nat,
    frames: Seq<FrameView>,
    c: Compression,
    no: u64,
)
    requires
        frames_model(m, out, last_pos, frames, c, no) is Ok,
    ensures
        extends(frames_model(m, out, last_pos, frames, c, no)->Ok_0.1, out),
    decreases frames.len(),
{
    if frames.len() == 0 {
        assert(out.subrange(0, out.len() as int) =~= out);
    } else {
        let (m2, rec) = frame_record(m, frames[0], (out.len() - last_pos) as nat, no, c)->Ok_0;
        lemma_frames_extend(m2, out + rec, out.len(), frames.drop_first(), c, (no + 1) as u64);
        let fin = frames_model(m, out, last_pos, frames, c, no)->Ok_0.1;
        assert(fin.subrange(0, out.len() as int) =~= (out + rec).subrange(0, out.len() as int));
        assert((out + rec).subrange(0, out.len() as int) =~= out);
    }
}

proof fn lemma_frames_read_back(
    me: CtxModel,
    md: CtxModel,
    out: Seq<u8>,
    last_pos: nat,
    frames: Seq<FrameView>,
    c: Compression,
    no: u64,
    b: Seq<u8>,
)
    requires
        me.block_size <= u32::MAX,
        me.superblock_size <= u32::MAX,
        mirrors(md, me),
        lossless(c),
        frames_model(me, out, last_pos, frames, c, no) is Ok,
        out.len() >= 40,
        b.len() == frames_model(me, out, last_pos, frames, c, no)->Ok_0.1.len(),
        b.subrange(40, b.len() as int) == frames_model(me, out, last_pos, frames, c, no)->Ok_0.1.subrange(
            40,
            b.len() as int,
        ),
    ensures
        read_frames(md, b, out.len(), frames.len()) matches Ok(gs) && gs.len() == frames.len()
            && forall|i: int| 0 <= i < frames.len() ==> same_content(#[trigger] gs[i], frames[i]),
    decreases frames.len(),
{
    if frames.len() > 0 {
        let fin = frames_model(me, out, last_pos, frames, c, no)->Ok_0.1;
        let backref = (out.len() - last_pos) as nat;
        let (m2, rec) = frame_record(me, frames[0], backref, no, c)->Ok_0;
        let rest = frames.drop_first();
        lemma_frames_extend(m2, out + rec, out.len(), rest, c, (no + 1) as u64);
        assert(at(b, out.len(), rec)) by {
            assert(fin.subrange(out.len() as int, (out.len() + rec.len()) as int) =~= (out
                + rec).subrange(out.len() as int, (out.len() + rec.len()) as int));
            assert((out + rec).subrange(out.len() as int, (out.len() + rec.len()) as int) =~= rec);
            assert(b.subrange(out.len() as int, (out.len() + rec.len()) as int) =~= b.subrange(
                40,
                b.len() as int,
            ).subrange(out.len() - 40, out.len() + rec.len() - 40));
            assert(fin.subrange(out.len() as int, (out.len() + rec.len()) as int) =~= fin.subrange(
                40,
                b.len() as int,
            ).subrange(out.len() - 40, out.len() + rec.len() - 40));
        }
        lemma_frame_round_trip(me, md, frames[0], backref, no, c, b, out.len());
        let (g, d1, q) = read_frame_model(2, md, b, out.len())->Ok_0;
        lemma_frames_read_back(m2, d1, out + rec, out.len(), rest, c, (no + 1) as u64, b);
        let gs = read_frames(md, b, out.len(), frames.len())->Ok_0;
        assert forall|i: int| 0 <= i < frames.len() implies same_content(#[trigger] gs[i], frames[i]) by {
            if i > 0 {
                let gs2 = read_frames(d1, b, q, rest.len())->Ok_0;
                assert(gs[i] == gs2[i - 1]);
                assert(frames[i] == rest[i - 1]);
            }
        }
    }
}

#[verifier::rlimit(100)]
proof fn lemma_header_read_back(h: HeaderV2, rest: Seq<u8>)
    requires
        h.base.version == 2,
    ensures
        parse_header(header_bytes(h) + rest) == Ok::<(Header, nat), crate::rply::ReplayError>(
            (Header::V2(h), 40),
        ),
{
    let b = header_bytes(h) + rest;
    let a0 = le32(MAGIC);
    let a1 = le32(2);
    let a2 = le32(h.base.content_crc);
    let a3 = le32(h.base.initial_state_size);
    let a4 = le64(h.base.identifier);
    let a5 = le32(h.frame_count);
    let a6 = le32(h.block_size);
    let a7 = le32(h.superblock_size);
    let a8 = seq![
        0u8,
        h.checkpoint_compression.spec_byte(),
        h.checkpoint_commit_threshold,
        h.checkpoint_commit_interval,
    ];
    assert(b.subrange(0, b.len() as int) =~= b);
    assert(b == a0 + a1 + a2 + a3 + a4 + a5 + a6 + a7 + a8 + rest);
    lemma_at_split(b, 0, a0 + a1 + a2 + a3 + a4 + a5 + a6 + a7 + a8, rest);
    lemma_at_split(b, 0, a0 + a1 + a2 + a3 + a4 + a5 + a6 + a7, a8);
    lemma_at_split(b, 0, a0 + a1 + a2 + a3 + a4 + a5 + a6, a7);
    lemma_at_split(b, 0, a0 + a1 + a2 + a3 + a4 + a5, a6);
    lemma_at_split(b, 0, a0 + a1 + a2 + a3 + a4, a5);
    lemma_at_split(b, 0, a0 + a1 + a2 + a3, a4);
    lemma_at_split(b, 0, a0 + a1 + a2, a3);
    lemma_at_split(b, 0, a0 + a1, a2);
    lemma_at_split(b, 0, a0, a1);
    lemma_read_le32(b, 0, MAGIC);
    lemma_read_le32(b, 4, 2);
    lemma_read_le32(b, 8, h.base.content_crc);
    lemma_read_le32(b, 12, h.base.initial_state_size);
    lemma_le64_round_trip(h.base.identifier, Seq::empty());
    assert(a4 + Seq::<u8>::empty() =~= a4);
    lemma_read_le32(b, 24, h.frame_count);
    lemma_read_le32(b, 28, h.block_size);
    lemma_read_le32(b, 32, h.superblock_size);
    assert(b.subrange(36, 40)[1] == b[37]);
    assert(b.subrange(36, 40)[2] == b[38]);
    assert(b.subrange(36, 40)[3] == b[39]);
    assert(Compression::spec_from_byte(h.checkpoint_compression.spec_byte()) == Some(
        h.checkpoint_compression,
    ));
}

proof fn lemma_record_after_header(b: Seq<u8>, out: Seq<u8>, hb: Seq<u8>, rec: Seq<u8>)
    requires
        hb.len() == 40,
        out.len() >= 40,
        b.len() == out.len(),
        b.subrange(40, b.len() as int) == out.subrange(40, out.len() as int),
        extends(out, hb + rec),
    ensures
        at(b, 40, rec),
{
    assert forall|k: int| 0 <= k < rec.len() implies b[40 + k] == rec[k] by {
        assert(b[40 + k] == b.subrange(40, b.len() as int)[k]);
        assert(out[40 + k] == out.subrange(40, out.len() as int)[k]);
        assert(out[40 + k] == out.subrange(0, (hb + rec).len() as int)[40 + k]);
        assert((hb + rec)[40 + k] == rec[k]);
    }
    assert(b.subrange(40, (40 + rec.len()) as int) =~= rec);
}

/// A replay that the encoder wrote is read back as written: the decoder's
/// header is the one given, in version 2 form, with the initial state size
/// and the frame count that the encoder filled in; the initial state is the
/// one given; and the frames come back in order with their events and
/// checkpoints. For a compressed replay, the compression must give back what
/// it packed, as zlib and zstd do.
#[verifier::rlimit(100)]
pub proof fn lemma_replay_round_trip(h: Header, init: Seq<u8>, frames: Seq<FrameView>)
    requires
        replay_bytes(h, init, frames) is Ok,
        lossless(upgraded(h).checkpoint_compression),
    ensures
        ({
            let b = replay_bytes(h, init, frames)->Ok_0;
            let h2 = start_model(h, init)->Ok_0.0;
            &&& h2 == start_header(h, h2.base.initial_state_size)
            &&& open_model(b) matches Ok((h3, init3, m, p))
            &&& h3 == Header::V2(HeaderV2 { frame_count: frames.len() as u32, ..h2 })
            &&& init3 == init
            &&& read_frames(m, b, p, frames.len()) matches Ok(gs)
            &&& gs.len() == frames.len()
            &&& forall|i: int| 0 <= i < frames.len() ==> same_content(#[trigger] gs[i], frames[i])
        }),
{
    let (h2, m, bytes) = start_model(h, init)->Ok_0;
    let c = h2.checkpoint_compression;
    let (m2, out) = frames_model(m, bytes, bytes.len(), frames, c, 0)->Ok_0;
    let hf = HeaderV2 { frame_count: frames.len() as u32, ..h2 };
    let b = replay_bytes(h, init, frames)->Ok_0;
    lemma_frames_extend(m, bytes, bytes.len(), frames, c, 0);
    assert(bytes.len() >= 40);
    assert(b == header_bytes(hf) + out.subrange(40, out.len() as int));
    lemma_header_read_back(hf, out.subrange(40, out.len() as int));
    assert(b.subrange(40, b.len() as int) =~= out.subrange(40, out.len() as int));
    let v2 = upgraded(h);
    let fresh = fresh_ctx(v2.block_size, v2.superblock_size);
    if init.len() == 0 {
        assert(bytes.len() == 40);
        assert(init =~= Seq::<u8>::empty());
        lemma_frames_read_back(m, m, bytes, bytes.len(), frames, c, 0, b);
    } else {
        let (m1, rec) = crate::rply::checkpoint_record(fresh, init, 0, c)->Ok_0;
        assert(bytes == header_bytes(h2) + rec);
        lemma_record_after_header(b, out, header_bytes(h2), rec);
        lemma_checkpoint_round_trip(fresh, fresh, init, 0, c, b, 40);
        let (d1, st, c2, e2, q) = read_checkpoint(fresh, b, 40)->Ok_0;
        lemma_frames_read_back(m, d1, bytes, bytes.len(), frames, c, 0, b);
    }
}

/// A frame with no key events, no input events and no checkpoint is written
/// as eight bytes: the back reference, both counts and the token.
pub proof fn lemma_empty_frame_is_eight_bytes(
    m: CtxModel,
    f: FrameView,
    backref: nat,
    frame_no: u64,
    c: Compression,
)
    requires
        f.key_events.len() == 0,
        f.input_events.len() == 0,
        f.checkpoint_bytes.len() == 0,
        backref <= u32::MAX,
        frame_no < u32::MAX,
    ensures
        frame_record(m, f, backref, frame_no, c) matches Ok((m2, bytes)) && m2 == m && bytes.len()
            == 8,
{
    let h = frame_head(backref as u32, f.key_events, f.input_events);
    assert(h.len() == 7);
}

/// Two encoders in the same state, handed the same frame, write the same
/// bytes and end in the same state.
pub proof fn lemma_encoders_agree(e1: &ReplayEncoder, e2: &ReplayEncoder, f: FrameView)
    requires
        e1.written() == e2.written(),
        e1.ctx() == e2.ctx(),
        e1.last_pos() == e2.last_pos(),
        e1.frames_written() == e2.frames_written(),
        e1.header_view() == e2.header_view(),
    ensures
        frame_record(
            e1.ctx(),
            f,
            (e1.written().len() - e1.last_pos()) as nat,
            e1.frames_written(),
            crate::rply::upgraded(e1.header_view()).checkpoint_compression,
        ) == frame_record(
            e2.ctx(),
            f,
            (e2.written().len() - e2.last_pos()) as nat,
            e2.frames_written(),
            crate::rply::upgraded(e2.header_view()).checkpoint_compression,
        ),
{
}

/// Two decoders at the same place of the same bytes, with the same stores,
/// read the same frame and end with the same stores.
pub proof fn lemma_decoders_agree(d1: &ReplayDecoder, d2: &ReplayDecoder)
    requires
        d1.data() == d2.data(),
        d1.pos() == d2.pos(),
        d1.ctx() == d2.ctx(),
        crate::rply::base_of(d1.header_view()).version == crate::rply::base_of(
            d2.header_view(),
        ).version,
    ensures
        read_frame_model(
            crate::rply::base_of(d1.header_view()).version,
            d1.ctx(),
            d1.data(),
            d1.pos(),
        ) == read_frame_model(
            crate::rply::base_of(d2.header_view()).version,
            d2.ctx(),
            d2.data(),
            d2.pos(),
        ),
{
}

} // verus!
