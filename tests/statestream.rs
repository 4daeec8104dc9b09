use rply_codec::blockindex::BlockIndex;
use rply_codec::{count, counts, stats, time, Counter, Ctx, SSError, Tallies, Timer};
use rply_codec::{ParseState, SSToken};
use rply_codec::msgpack::Fault;

fn distinct_blocks(len: usize) -> Vec<u8> {
    (0..len).map(|i| (i / 128) as u8 + 1).collect()
}

fn round_trip(bs: u32, sbs: u32, state: &[u8]) {
    let mut enc = Ctx::new(bs, sbs);
    let mut dec = Ctx::new(bs, sbs);
    let mut out = Vec::new();
    let n = enc.encode_checkpoint(state, 0, &mut out);
    assert_eq!(n, out.len());
    let end = dec
        .decode_checkpoint(&out, 0, state.len() as u32)
        .unwrap();
    assert_eq!(end, out.len());
    assert_eq!(dec.last_state(), &state.to_vec());
    assert_eq!(dec.block_count(), enc.block_count());
    assert_eq!(dec.superblock_count(), enc.superblock_count());
}

#[test]
fn statestream_round_trip() {
    round_trip(128, 16, &distinct_blocks(16384));
    round_trip(128, 4, &[]);
    round_trip(1, 1, &[3, 0, 3]);
}

#[test]
fn trailing_partial_blocks_are_discarded() {
    round_trip(128, 4, &distinct_blocks(1000));
    round_trip(128, 4, &distinct_blocks(513));
    round_trip(7, 3, &distinct_blocks(100));
}

#[test]
fn small_record_bytes() {
    let mut ctx = Ctx::new(4, 1);
    let mut out = Vec::new();
    ctx.encode_checkpoint(&[1, 2, 3, 4], 0, &mut out);
    assert_eq!(
        out,
        vec![0, 0, 1, 1, 0xc4, 4, 1, 2, 3, 4, 2, 1, 0x91, 1, 3, 0x91, 1]
    );
}

#[test]
fn dedup_three_frames() {
    let state = distinct_blocks(16384);
    let mut ctx = Ctx::new(128, 16);
    let mut first = Vec::new();
    ctx.encode_checkpoint(&state, 0, &mut first);
    assert_eq!(ctx.block_count(), 129);
    assert_eq!(ctx.superblock_count(), 9);
    let mut second = Vec::new();
    ctx.encode_checkpoint(&state, 1, &mut second);
    let mut third = Vec::new();
    ctx.encode_checkpoint(&state, 2, &mut third);
    assert_eq!(second, vec![0, 1, 3, 0x98, 1, 2, 3, 4, 5, 6, 7, 8]);
    assert_eq!(third, vec![0, 2, 3, 0x98, 1, 2, 3, 4, 5, 6, 7, 8]);
    assert_eq!(ctx.block_count(), 129);
    assert_eq!(ctx.superblock_count(), 9);
}

#[test]
fn identical_checkpoints_declare_nothing_new() {
    let mut state = vec![0u8; 4096];
    state[5] = 9;
    state[4000] = 9;
    let mut ctx = Ctx::new(128, 4);
    let mut first = Vec::new();
    ctx.encode_checkpoint(&state, 0, &mut first);
    assert_eq!(ctx.block_count(), 3);
    let mut second = Vec::new();
    ctx.encode_checkpoint(&state, 1, &mut second);
    assert_eq!(ctx.block_count(), 3);
    assert_eq!(&first[first.len() - 10..], &second[second.len() - 10..]);
}

#[test]
fn decoders_agree() {
    let state = distinct_blocks(5000);
    let mut enc = Ctx::new(64, 8);
    let mut out = Vec::new();
    enc.encode_checkpoint(&state, 0, &mut out);
    let mut a = Ctx::new(64, 8);
    let mut b = Ctx::new(64, 8);
    a.decode_checkpoint(&out, 0, 5000).unwrap();
    b.decode_checkpoint(&out, 0, 5000).unwrap();
    assert_eq!(a.block_count(), b.block_count());
    assert_eq!(a.last_state(), b.last_state());
}

fn decode_err(bytes: &[u8]) -> SSError {
    let mut ctx = Ctx::new(4, 1);
    ctx.decode_checkpoint(bytes, 0, 4).unwrap_err()
}

#[test]
fn statestream_errors() {
    assert_eq!(decode_err(&[9]), SSError::InvalidToken(9));
    assert_eq!(decode_err(&[]), SSError::Read(Fault::Truncated));
    assert_eq!(decode_err(&[0xc1]), SSError::Read(Fault::Malformed));
    assert_eq!(decode_err(&[0, 0, 0]), SSError::TooManyStarts);
    assert_eq!(
        decode_err(&[1]),
        SSError::ParseError(ParseState::WaitForStart, SSToken::NewBlock)
    );
    assert_eq!(
        decode_err(&[0, 0, 1, 1, 0xc4, 3, 1, 2, 3]),
        SSError::BlockWrongSize(3)
    );
    assert_eq!(
        decode_err(&[0, 5, 1, 2, 0xc4, 4, 1, 2, 3, 4]),
        SSError::BadBlockInsert(5, 2)
    );
    assert_eq!(
        decode_err(&[0, 0, 1, 1, 0xc4, 4, 1, 2]),
        SSError::Read(Fault::Truncated)
    );
    assert_eq!(
        decode_err(&[0, 0, 2, 1, 0x92, 0, 0]),
        SSError::SuperblockWrongSize(2)
    );
    assert_eq!(decode_err(&[0, 0, 2, 1, 0x91, 1]), SSError::UnknownBlock);
    assert_eq!(
        decode_err(&[0, 7, 2, 3, 0x91, 0]),
        SSError::BadSuperblockInsert(7, 3)
    );
    assert_eq!(decode_err(&[0, 0, 3, 0x91, 1]), SSError::UnknownSuperblock);
}

#[test]
fn short_sequence_keeps_previous_state() {
    let mut ctx = Ctx::new(4, 1);
    let full = [0, 0, 1, 1, 0xc4, 4, 1, 2, 3, 4, 2, 1, 0x91, 1, 3, 0x92, 1, 1];
    ctx.decode_checkpoint(&full, 0, 8).unwrap();
    assert_eq!(ctx.last_state(), &vec![1, 2, 3, 4, 1, 2, 3, 4]);
    ctx.decode_checkpoint(&[0, 1, 3, 0x91, 0], 0, 8).unwrap();
    assert_eq!(ctx.last_state(), &vec![0, 0, 0, 0, 1, 2, 3, 4]);
}

#[test]
fn block_index_dedups() {
    let mut idx: BlockIndex<u8> = BlockIndex::new(4);
    assert_eq!(idx.len(), 1);
    assert_eq!(idx.get(0), &vec![0, 0, 0, 0]);
    let a = idx.insert(&[0, 0, 0, 0], 0);
    assert_eq!((a.index, a.is_new), (0, false));
    let b = idx.insert(&[1, 2, 3, 4], 0);
    assert_eq!((b.index, b.is_new), (1, true));
    let c = idx.insert(&[1, 2, 3, 4], 1);
    assert_eq!((c.index, c.is_new), (1, false));
    assert!(!idx.insert_exact(5, vec![9, 9, 9, 9], 1));
    assert!(!idx.insert_exact(2, vec![9, 9, 9], 1));
    assert!(idx.insert_exact(2, vec![9, 9, 9, 9], 1));
    assert_eq!(idx.get(2), &vec![9, 9, 9, 9]);
    idx.clear();
    assert_eq!(idx.len(), 1);
    let d = idx.insert(&[1, 2, 3, 4], 2);
    assert_eq!((d.index, d.is_new), (1, true));
}

#[test]
fn superblock_index_dedups_words() {
    let mut idx: BlockIndex<u32> = BlockIndex::new(2);
    let a = idx.insert(&[7, 0x0100_0000], 0);
    let b = idx.insert(&[7, 1], 0);
    let c = idx.insert(&[7, 0x0100_0000], 0);
    assert_eq!((a.index, a.is_new), (1, true));
    assert_eq!((b.index, b.is_new), (2, true));
    assert_eq!((c.index, c.is_new), (1, false));
}

#[test]
fn tallies_accumulate() {
    let mut t = Tallies::new();
    assert_eq!(count(&mut t, Counter::EncHashes, 3), 3);
    assert_eq!(count(&mut t, Counter::EncHashes, 4), 7);
    assert_eq!(counts(&t, Counter::EncHashes), 7);
    assert_eq!(counts(&t, Counter::EncMemCmps), 0);
    assert_eq!(count(&mut t, Counter::EncMemCmps, u64::MAX), u64::MAX);
    assert_eq!(count(&mut t, Counter::EncMemCmps, 2), 1);
    let w = time(Timer::EncodeFrame, 100);
    w.stop(&mut t, 250);
    let w = time(Timer::EncodeFrame, 300);
    w.stop(&mut t, 200);
    let s = stats(&t, Timer::EncodeFrame);
    assert_eq!((s.count, s.micros), (2, 150));
    let s = stats(&t, Timer::DecodeFrame);
    assert_eq!((s.count, s.micros), (0, 0));
}
