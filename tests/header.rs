use rply_codec::{
    decode, read_header, write_header, Compression, Header, HeaderBase, HeaderV2, IoErrorKind,
    ReplayEncoder, ReplayError, MAGIC,
};

fn sample_v2() -> HeaderV2 {
    HeaderV2 {
        base: HeaderBase {
            version: 2,
            content_crc: 2199475946,
            initial_state_size: 2531,
            identifier: 1761326589,
        },
        frame_count: 6383,
        block_size: 128,
        superblock_size: 16,
        checkpoint_commit_interval: 4,
        checkpoint_commit_threshold: 2,
        checkpoint_compression: Compression::Uncompressed,
    }
}

#[test]
fn v2_header() {
    let bytes = write_header(&sample_v2());
    assert_eq!(bytes.len(), 40);
    let header = match read_header(&bytes).unwrap() {
        (Header::V0V1(_), _) => panic!("Version too low"),
        (Header::V2(h), n) => {
            assert_eq!(n, 40);
            h
        }
    };
    assert_eq!(header.base.version, 2);
    assert_eq!(header.base.content_crc, 2199475946);
    assert_eq!(header.base.initial_state_size, 2531);
    assert_eq!(header.base.identifier, 1761326589);
    assert_eq!(header.frame_count, 6383);
    assert_eq!(header.block_size, 128);
    assert_eq!(header.superblock_size, 16);
    assert_eq!(header.checkpoint_commit_interval, 4);
    assert_eq!(header.checkpoint_commit_threshold, 2);
    assert_eq!(header.checkpoint_compression, Compression::Uncompressed);
}

#[test]
fn header_layout_is_little_endian() {
    let bytes = write_header(&sample_v2());
    assert_eq!(&bytes[0..4], &[0x32, 0x56, 0x53, 0x42]);
    assert_eq!(&bytes[4..8], &[2, 0, 0, 0]);
    assert_eq!(&bytes[24..28], &6383u32.to_le_bytes());
    assert_eq!(&bytes[36..40], &[0, 0, 2, 4]);
}

#[test]
fn header_only_file_round_trips() {
    let enc = ReplayEncoder::new(Header::V2(sample_v2()), &[]).unwrap();
    let bytes = enc.into_bytes();
    assert_eq!(bytes.len(), 40);
    let dec = decode(bytes).unwrap();
    let h = dec.header;
    assert_eq!(h.version(), 2);
    assert_eq!(h.content_crc(), 2199475946);
    assert_eq!(h.identifier(), 1761326589);
    assert_eq!(h.block_size(), 128);
    assert_eq!(h.superblock_size(), 16);
    assert_eq!(h.checkpoint_commit_interval(), 4);
    assert_eq!(h.checkpoint_commit_threshold(), 2);
    assert_eq!(h.checkpoint_compression(), Compression::Uncompressed);
    assert_eq!(h.frame_count(), Some(0));
    assert_eq!(h.initial_state_size(), 0);
    assert!(dec.initial_state.is_empty());
    assert_eq!(dec.frame_number, 0);
}

#[test]
fn version_gate() {
    let mut bytes = Vec::new();
    bytes.extend_from_slice(&MAGIC.to_le_bytes());
    bytes.extend_from_slice(&3u32.to_le_bytes());
    bytes.extend_from_slice(&[0u8; 32]);
    assert!(matches!(decode(bytes), Err(ReplayError::Version(3))));
}

#[test]
fn wrong_magic_is_reported_from_the_first_four_bytes() {
    let bytes = vec![1u8, 2, 3, 4];
    assert!(matches!(decode(bytes), Err(ReplayError::Magic(0x0403_0201))));
    let bytes = vec![1u8, 2, 3];
    assert!(matches!(
        decode(bytes),
        Err(ReplayError::IO(IoErrorKind::UnexpectedEof))
    ));
}

#[test]
fn unknown_header_compression_is_rejected() {
    let mut bytes = write_header(&sample_v2());
    bytes[37] = 7;
    assert!(matches!(read_header(&bytes), Err(ReplayError::Compression(7))));
}

#[test]
fn encoder_refuses_other_versions() {
    let mut h = sample_v2();
    h.base.version = 1;
    assert!(matches!(
        ReplayEncoder::new(Header::V2(h), &[]),
        Err(ReplayError::Version(1))
    ));
}

#[test]
fn getters_and_setters() {
    let base = HeaderBase {
        version: 1,
        content_crc: 7,
        initial_state_size: 9,
        identifier: 11,
    };
    let mut h = Header::V0V1(base);
    assert_eq!(h.frame_count(), None);
    assert_eq!(h.block_size(), 0);
    assert_eq!(h.checkpoint_compression(), Compression::Uncompressed);
    h.set_content_crc(8);
    h.set_identifier(12);
    h.set_initial_state_size(10);
    assert!(matches!(h, Header::V0V1(_)));
    assert_eq!(h.content_crc(), 8);
    assert_eq!(h.identifier(), 12);
    assert_eq!(h.initial_state_size(), 10);
    h.upgrade();
    assert_eq!(h.version(), 1);
    assert_eq!(h.frame_count(), Some(0));
    h.set_block_size(128);
    h.set_superblock_size(64);
    h.set_frame_count(5);
    h.set_checkpoint_commit_settings(3, 4);
    h.set_checkpoint_compression(Compression::Zstd);
    assert_eq!(h.block_size(), 128);
    assert_eq!(h.superblock_size(), 64);
    assert_eq!(h.frame_count(), Some(5));
    assert_eq!(h.checkpoint_commit_interval(), 3);
    assert_eq!(h.checkpoint_commit_threshold(), 4);
    assert_eq!(h.checkpoint_compression(), Compression::Zstd);
    assert_eq!(h.content_crc(), 8);
}
