use rply_codec::{
    decode, Compression, Encoding, Frame, Header, HeaderBase, HeaderV2, InputData, IoErrorKind,
    KeyData, ReplayEncoder, ReplayError,
};

fn header(bs: u32, sbs: u32, c: Compression) -> Header {
    Header::V2(HeaderV2 {
        base: HeaderBase {
            version: 2,
            content_crc: 1,
            initial_state_size: 0,
            identifier: 2,
        },
        frame_count: 0,
        block_size: bs,
        superblock_size: sbs,
        checkpoint_commit_interval: 0,
        checkpoint_commit_threshold: 0,
        checkpoint_compression: c,
    })
}

fn frame(inputs: Vec<InputData>, cp: Vec<u8>) -> Frame {
    Frame {
        key_events: vec![],
        input_events: inputs,
        checkpoint_bytes: cp,
        checkpoint_compression: Compression::Uncompressed,
        checkpoint_encoding: Encoding::Raw,
    }
}

fn two_frames() -> (Vec<u8>, Vec<Frame>) {
    let mut cp = vec![0u8; 4096];
    for b in cp.iter_mut().take(128) {
        *b = 1;
    }
    let input = InputData {
        port: 0,
        device: 1,
        idx: 0,
        id: 0,
        val: 0x0001,
    };
    (vec![0u8; 4096], vec![frame(vec![], vec![]), frame(vec![input], cp)])
}

fn write_replay(h: Header, init: &[u8], frames: &[Frame]) -> Vec<u8> {
    let mut enc = ReplayEncoder::new(h, init).unwrap();
    for f in frames {
        enc.write_frame(f).unwrap();
    }
    enc.finish().unwrap();
    enc.into_bytes()
}

fn check_round_trip(c: Compression) -> usize {
    let (init, frames) = two_frames();
    let bytes = write_replay(header(128, 4, c), &init, &frames);
    let len = bytes.len();
    let mut dec = decode(bytes).unwrap();
    assert_eq!(dec.initial_state, init);
    assert_eq!(dec.header.frame_count(), Some(2));
    let mut f = Frame::default();
    for expected in &frames {
        dec.read_frame(&mut f).unwrap();
        assert_eq!(f.key_events, expected.key_events);
        assert_eq!(f.input_events, expected.input_events);
        assert_eq!(f.checkpoint_bytes, expected.checkpoint_bytes);
    }
    assert_eq!(f.checkpoint_compression, c);
    assert_eq!(f.checkpoint_encoding, Encoding::Statestream);
    assert_eq!(dec.frame_number, 2);
    assert!(matches!(
        dec.read_frame(&mut f),
        Err(ReplayError::IO(IoErrorKind::UnexpectedEof))
    ));
    len
}

#[test]
fn two_frame_replay() {
    check_round_trip(Compression::Uncompressed);
}

#[test]
fn zstd_round_trip() {
    let raw = check_round_trip(Compression::Uncompressed);
    let packed = check_round_trip(Compression::Zstd);
    assert!(packed <= raw);
}

#[test]
fn zlib_round_trip() {
    let raw = check_round_trip(Compression::Uncompressed);
    let packed = check_round_trip(Compression::Zlib);
    assert!(packed <= raw);
}

#[test]
fn raw_checkpoints_when_sizes_are_zero() {
    let (init, frames) = two_frames();
    for c in [Compression::Uncompressed, Compression::Zlib, Compression::Zstd] {
        let bytes = write_replay(header(0, 0, c), &init, &frames);
        let mut dec = decode(bytes).unwrap();
        assert_eq!(dec.initial_state, init);
        let mut f = Frame::default();
        dec.read_frame(&mut f).unwrap();
        dec.read_frame(&mut f).unwrap();
        assert_eq!(f.checkpoint_bytes, frames[1].checkpoint_bytes);
        assert_eq!(f.checkpoint_encoding, Encoding::Raw);
        assert_eq!(f.checkpoint_compression, c);
    }
}

#[test]
fn truncated_file_reports_unexpected_eof() {
    let (init, frames) = two_frames();
    let bytes = write_replay(header(128, 4, Compression::Uncompressed), &init, &frames);
    let cut = bytes.len() - 10;
    let mut dec = decode(bytes[..cut].to_vec()).unwrap();
    let mut f = Frame::default();
    dec.read_frame(&mut f).unwrap();
    assert!(f.checkpoint_bytes.is_empty());
    assert!(matches!(
        dec.read_frame(&mut f),
        Err(ReplayError::IO(IoErrorKind::UnexpectedEof))
    ));
    assert_eq!(dec.frame_number, 1);
}

#[test]
fn empty_frame_is_eight_bytes() {
    let mut enc = ReplayEncoder::new(header(128, 4, Compression::Uncompressed), &[]).unwrap();
    enc.write_frame(&frame(vec![], vec![])).unwrap();
    let bytes = enc.into_bytes();
    assert_eq!(bytes.len(), 40 + 8);
    assert_eq!(&bytes[40..], &[0, 0, 0, 0, 0, 0, 0, b'f']);
}

#[test]
fn backref_points_to_previous_record() {
    let mut enc = ReplayEncoder::new(header(128, 4, Compression::Uncompressed), &[]).unwrap();
    enc.write_frame(&frame(vec![], vec![])).unwrap();
    enc.write_frame(&frame(vec![], vec![])).unwrap();
    let bytes = enc.into_bytes();
    assert_eq!(&bytes[48..52], &[8, 0, 0, 0]);
}

#[test]
fn odd_sized_checkpoints_keep_their_length() {
    let init: Vec<u8> = (0..1000u32).map(|i| (i % 251) as u8).collect();
    let cp: Vec<u8> = (0..777u32).map(|i| (i % 13) as u8 + 1).collect();
    let frames = vec![frame(vec![], cp.clone())];
    let bytes = write_replay(header(128, 4, Compression::Uncompressed), &init, &frames);
    let mut dec = decode(bytes).unwrap();
    assert_eq!(dec.initial_state, init);
    let mut f = Frame::default();
    dec.read_frame(&mut f).unwrap();
    assert_eq!(f.checkpoint_bytes, cp);
}

#[test]
fn encoders_are_deterministic() {
    let (init, frames) = two_frames();
    for c in [Compression::Uncompressed, Compression::Zlib, Compression::Zstd] {
        let a = write_replay(header(128, 4, c), &init, &frames);
        let b = write_replay(header(128, 4, c), &init, &frames);
        assert_eq!(a, b);
    }
}

#[test]
fn key_events_round_trip() {
    let keys = vec![
        KeyData {
            down: 1,
            modf: 0x1234,
            code: 0xdead_beef,
            chr: 65,
        },
        KeyData {
            down: 0,
            modf: 0,
            code: 7,
            chr: 0,
        },
    ];
    let input = InputData {
        port: 1,
        device: 2,
        idx: 3,
        id: 4,
        val: -2,
    };
    let f = Frame {
        key_events: keys.clone(),
        input_events: vec![input],
        checkpoint_bytes: vec![],
        checkpoint_compression: Compression::Uncompressed,
        checkpoint_encoding: Encoding::Raw,
    };
    let bytes = write_replay(header(16, 2, Compression::Uncompressed), &[], &[f]);
    assert_eq!(bytes.len(), 40 + 4 + 1 + 24 + 2 + 8 + 1);
    let mut dec = decode(bytes).unwrap();
    let mut g = Frame::default();
    dec.read_frame(&mut g).unwrap();
    assert_eq!(g.key_events, keys);
    assert_eq!(g.input_events, vec![input]);
}

#[test]
fn too_many_events_are_refused() {
    let mut enc = ReplayEncoder::new(header(16, 2, Compression::Uncompressed), &[]).unwrap();
    let mut f = frame(vec![], vec![]);
    f.key_events = vec![KeyData::default(); 256];
    assert!(matches!(
        enc.write_frame(&f),
        Err(ReplayError::TooManyKeyEvents(256))
    ));
    let mut f = frame(vec![InputData::default(); 65536], vec![]);
    assert!(matches!(
        enc.write_frame(&f),
        Err(ReplayError::TooManyInputEvents(65536))
    ));
    f.input_events.truncate(65535);
    assert!(enc.write_frame(&f).is_ok());
    assert_eq!(enc.frame_number, 1);
}

#[test]
fn bad_frame_token_is_reported() {
    let mut bytes = write_replay(
        header(16, 2, Compression::Uncompressed),
        &[],
        &[frame(vec![], vec![])],
    );
    let last = bytes.len() - 1;
    bytes[last] = b'x';
    let mut dec = decode(bytes).unwrap();
    let mut f = Frame::default();
    assert!(matches!(
        dec.read_frame(&mut f),
        Err(ReplayError::BadFrameToken(b'x'))
    ));
}

#[test]
fn bad_checkpoint_bytes_are_reported() {
    let init = vec![5u8; 64];
    let bytes = write_replay(header(16, 2, Compression::Uncompressed), &init, &[]);
    let mut bad = bytes.clone();
    bad[40] = 9;
    assert!(matches!(decode(bad), Err(ReplayError::Compression(9))));
    let mut bad = bytes.clone();
    bad[41] = 4;
    assert!(matches!(decode(bad), Err(ReplayError::Encoding(4))));
    let mut bad = write_replay(header(16, 2, Compression::Zlib), &init, &[]);
    let n = bad.len();
    bad[n - 3] ^= 0xff;
    bad[n - 5] ^= 0xff;
    assert!(decode(bad).is_err());
}

fn v1_file() -> Vec<u8> {
    let mut b = Vec::new();
    b.extend_from_slice(&0x4253_5632u32.to_le_bytes());
    b.extend_from_slice(&1u32.to_le_bytes());
    b.extend_from_slice(&77u32.to_le_bytes());
    b.extend_from_slice(&3u32.to_le_bytes());
    b.extend_from_slice(&99u64.to_le_bytes());
    b.extend_from_slice(&[9, 8, 7]);
    b.push(0);
    b.extend_from_slice(&1u16.to_le_bytes());
    b.extend_from_slice(&[2, 1, 0, 0]);
    b.extend_from_slice(&6u16.to_le_bytes());
    b.extend_from_slice(&(-1i16).to_le_bytes());
    b.push(b'c');
    b.extend_from_slice(&2u64.to_le_bytes());
    b.extend_from_slice(&[4, 5]);
    b
}

#[test]
fn version_one_files_are_read() {
    let mut dec = decode(v1_file()).unwrap();
    assert_eq!(dec.header.version(), 1);
    assert_eq!(dec.header.frame_count(), None);
    assert_eq!(dec.initial_state, vec![9, 8, 7]);
    let mut f = Frame::default();
    dec.read_frame(&mut f).unwrap();
    assert_eq!(f.input_events.len(), 1);
    assert_eq!(f.input_events[0].id, 6);
    assert_eq!(f.input_events[0].val, -1);
    assert_eq!(f.checkpoint_bytes, vec![4, 5]);
}

#[test]
fn version_zero_frames_need_a_core() {
    let mut b = v1_file();
    b[4] = 0;
    let mut dec = decode(b).unwrap();
    let mut f = Frame::default();
    assert!(matches!(dec.read_frame(&mut f), Err(ReplayError::NoCoreRead)));
}

#[test]
fn inputs_text() {
    let a = InputData {
        port: 0,
        device: 1,
        idx: 0,
        id: 3,
        val: 1,
    };
    let b = InputData {
        port: 0,
        device: 1,
        idx: 0,
        id: 1234,
        val: -1,
    };
    assert_eq!(frame(vec![], vec![]).inputs(), "");
    assert_eq!(frame(vec![a], vec![]).inputs(), "003:0000000000000001");
    assert_eq!(
        frame(vec![a, b], vec![]).inputs(),
        "003:0000000000000001--1234:1111111111111111"
    );
}

#[test]
fn corrupt_statestream_record_is_reported() {
    let init = vec![5u8; 64];
    let mut bytes = write_replay(header(16, 2, Compression::Uncompressed), &init, &[]);
    bytes[54] = 7;
    assert!(matches!(
        decode(bytes),
        Err(ReplayError::Statestream(rply_codec::SSError::InvalidToken(7)))
    ));
}

#[test]
fn undecodable_payload_is_invalid_data() {
    let init = vec![5u8; 64];
    let mut bytes = write_replay(header(16, 2, Compression::Zstd), &init, &[]);
    for b in bytes.iter_mut().skip(54) {
        *b = 0xff;
    }
    assert!(matches!(
        decode(bytes),
        Err(ReplayError::IO(IoErrorKind::InvalidData))
    ));
}
