use puffin::frame_data::{CompressionKind, FrameDataState, PackedStreams, UnpackError};
use puffin::frame_format::{
    frame_layout, read_frame, write_frame, FrameError, FrameLayout, CURRENT_FRAME_VERSION,
};
use puffin::{
    DataHeader, Error, FrameStats, PackingInfo, ScopeId, Stream, StreamInfo, ThreadInfo,
    UnpackedFrameData,
};
use std::sync::Arc;

fn stream_info(start: i64, stop: i64) -> StreamInfo {
    let mut stream = Stream::default();
    let (offset, _) = stream.begin_scope(|| start, ScopeId::new(1), "d");
    stream.end_scope(offset, stop);
    StreamInfo::parse(stream).unwrap()
}

fn thread(name: &str) -> ThreadInfo {
    ThreadInfo {
        start_time_ns: None,
        name: name.to_owned(),
    }
}

#[test]
fn unpacked_frame_covers_all_streams() {
    let a = stream_info(10, 40);
    let b = stream_info(5, 20);
    let bytes = a.stream.len() + b.stream.len();
    let frame = UnpackedFrameData::new(7, vec![(thread("a"), a), (thread("b"), b)]).unwrap();
    assert_eq!(frame.frame_index(), 7);
    assert_eq!(frame.range_ns(), (5, 40));
    assert_eq!(frame.duration_ns(), 35);
    assert_eq!(frame.meta.num_bytes, bytes);
    assert_eq!(frame.meta.num_scopes, 2);
}

#[test]
fn frame_without_scopes_is_empty() {
    let r = UnpackedFrameData::new(0, vec![(thread("a"), StreamInfo::default())]);
    assert!(matches!(r, Err(Error::Empty)));
    assert!(matches!(UnpackedFrameData::new(0, vec![]), Err(Error::Empty)));
}

#[test]
fn compression_kind_bytes() {
    assert_eq!(CompressionKind::Uncompressed.as_u8(), 0);
    assert_eq!(CompressionKind::Lz4.as_u8(), 1);
    assert_eq!(CompressionKind::Zstd.as_u8(), 2);
    assert_eq!(CompressionKind::from_u8(1), Ok(CompressionKind::Lz4));
    assert_eq!(CompressionKind::from_u8(3), Err(FrameError::UnknownCompression(3)));
}

#[test]
fn lz4_packing_reads_back() {
    let data: Vec<u8> = (0..200u32).map(|i| (i % 7) as u8).collect();
    let packed = PackedStreams::pack(&data);
    assert_eq!(packed.compression_kind, CompressionKind::Lz4);
    assert_ne!(packed.bytes, data);
    assert_eq!(packed.num_bytes(), packed.bytes.len());
    assert_eq!(packed.unpack().unwrap(), data);

    let plain = PackedStreams::new(CompressionKind::Uncompressed, vec![1, 2, 3]);
    assert_eq!(plain.unpack().unwrap(), vec![1, 2, 3]);
    let zstd = PackedStreams::new(CompressionKind::Zstd, vec![1, 2, 3]);
    assert!(matches!(zstd.unpack(), Err(UnpackError::Zstd)));
    let broken = PackedStreams::new(CompressionKind::Lz4, vec![0xff, 0xff]);
    assert!(matches!(broken.unpack(), Err(UnpackError::Lz4)));
}

#[test]
fn zstd_frame_unpacks() {
    // A zstd frame with one raw block holding "hello".
    let frame = vec![
        0x28, 0xb5, 0x2f, 0xfd, 0x20, 0x05, 0x29, 0x00, 0x00, b'h', b'e', b'l', b'l', b'o',
    ];
    let packed = PackedStreams::new(CompressionKind::Zstd, frame);
    assert_eq!(packed.unpack().unwrap(), b"hello".to_vec());
}

#[test]
fn zstd_concatenated_frames_unpack_and_corrupt_data_errs() {
    let mut bytes = zstd::encode_all(&b"hello "[..], 3).unwrap();
    bytes.extend(zstd::encode_all(&b"world"[..], 3).unwrap());
    let packed = PackedStreams::new(CompressionKind::Zstd, bytes.clone());
    assert_eq!(packed.unpack().unwrap(), b"hello world".to_vec());

    let truncated = PackedStreams::new(CompressionKind::Zstd, bytes[..bytes.len() - 2].to_vec());
    assert_eq!(truncated.unpack(), Err(UnpackError::Zstd));
    let garbage = PackedStreams::new(CompressionKind::Zstd, vec![0x28, 0xb5, 0x2f, 0xfd, 0xff, 0xff, 0xff]);
    assert_eq!(garbage.unpack(), Err(UnpackError::Zstd));
}

#[test]
fn frame_data_state_packs_and_keeps() {
    let frame = Arc::new(UnpackedFrameData::new(0, vec![(thread("a"), stream_info(1, 2))]).unwrap());
    let mut state = FrameDataState::Unpacked(frame.clone());
    assert!(state.has_unpacked());
    assert!(!state.has_packed());
    assert_eq!(state.packed_size(), None);
    let unpacked_size = state.unpacked_size().unwrap();
    assert_eq!(unpacked_size, frame.meta.num_bytes);

    state.pack_and_keep(|_| vec![9, 9, 9, 9, 9, 9, 9, 9]);
    assert!(state.has_unpacked());
    assert!(state.has_packed());
    let info = state.packing_info();
    assert_eq!(info.unpacked_size, Some(unpacked_size));
    assert!(info.packed_size.is_some());
    assert_eq!(
        state.bytes_of_ram_used(),
        unpacked_size + state.packed_size().unwrap()
    );

    state.pack_and_remove(|_| vec![1]);
    assert!(!state.has_unpacked());
    assert_eq!(state.packed().unwrap().unpack().unwrap(), vec![1]);

    state.unpack(frame);
    assert!(state.has_unpacked() && state.has_packed());
}

#[test]
fn frame_stats_add_and_remove() {
    let a = PackingInfo {
        unpacked_size: Some(100),
        packed_size: None,
    };
    let b = PackingInfo {
        unpacked_size: Some(50),
        packed_size: Some(20),
    };
    let mut stats = FrameStats::from_frames(&[a, b]);
    assert_eq!(stats.frames(), 2);
    assert_eq!(stats.unpacked_frames(), 2);
    assert_eq!(stats.bytes_of_ram_used(), 170);
    stats.remove(&b);
    assert_eq!(stats.frames(), 1);
    assert_eq!(stats.bytes_of_ram_used(), 100);
    stats.add(&b);
    assert_eq!(stats.bytes_of_ram_used(), 170);
    stats.clear();
    assert_eq!(stats.frames(), 0);
    assert_eq!(stats.bytes_of_ram_used(), 0);
}

#[test]
fn frame_encoding_reads_back() {
    let packed = PackedStreams::new(CompressionKind::Lz4, vec![5, 6, 7]);
    let mut out = b"PUF0".to_vec();
    let first = out.len();
    write_frame(&mut out, &[1, 2], &packed, &[3]);
    let second = out.len();
    write_frame(&mut out, &[], &packed, &[]);

    let f = read_frame(&out, first).unwrap().unwrap();
    assert_eq!(f.version, CURRENT_FRAME_VERSION - b'0');
    assert_eq!(f.version, 4);
    assert_eq!(f.compression, CompressionKind::Lz4);
    let (mb, me) = f.meta.unwrap();
    assert_eq!(&out[mb..me], &[1, 2]);
    assert_eq!(&out[f.streams.0..f.streams.1], &[5, 6, 7]);
    let (sb, se) = f.scopes.unwrap();
    assert_eq!(&out[sb..se], &[3]);
    assert_eq!(f.next, second);

    let g = read_frame(&out, f.next).unwrap().unwrap();
    assert_eq!(g.next, out.len());
    assert_eq!(read_frame(&out, g.next), Ok(None));
}

#[test]
fn frame_decoding_errors() {
    assert_eq!(read_frame(b"PFD0xxxxxxxx", 0), Err(FrameError::LegacyUnsupported));
    assert_eq!(read_frame(b"PFD9xxxxxxxx", 0), Err(FrameError::NewerVersion));
    let mut out = Vec::new();
    write_frame(&mut out, &[1], &PackedStreams::new(CompressionKind::Lz4, vec![2]), &[]);
    out.truncate(out.len() - 1);
    assert_eq!(read_frame(&out, 0), Err(FrameError::PrematureEnd));
}

#[test]
fn data_header_reads_four_bytes() {
    let bytes = b"PUF0rest".to_vec();
    let mut read: &[u8] = &bytes;
    let header = DataHeader::try_read(&mut read).unwrap();
    assert!(header.is(b"PUF0"));
    assert!(!header.is(b"PUF1"));
    assert_eq!(header.as_slice(), b"PUF0");
    assert_eq!(header.bytes(), *b"PUF0");
    assert_eq!(read, b"rest");
    let mut short: &[u8] = b"PU";
    assert_eq!(DataHeader::try_read(&mut short).err(), Some(Error::PrematureEnd));
    assert!(short.is_empty());
}

#[test]
fn frame_layout_by_header() {
    assert_eq!(frame_layout(&[0, 0, 0, 0]), Ok(FrameLayout::End));
    assert_eq!(
        frame_layout(b"PFD4"),
        Ok(FrameLayout::Parts {
            meta: true,
            kind_byte: true,
            scopes: true
        })
    );
    assert_eq!(
        frame_layout(b"PFD1"),
        Ok(FrameLayout::Parts {
            meta: false,
            kind_byte: false,
            scopes: false
        })
    );
    assert_eq!(frame_layout(b"PFD0"), Err(FrameError::LegacyUnsupported));
    assert_eq!(frame_layout(b"PFD7"), Err(FrameError::NewerVersion));
    assert_eq!(frame_layout(&[5, 1, 0, 0]), Ok(FrameLayout::Unframed(261)));
}

#[test]
fn data_header_text() {
    assert_eq!(DataHeader(*b"PFD4").to_text(), "PFD4");
    assert_eq!(DataHeader([0xff, 0xfe, b'a', b'b']).to_text(), "????");
}

#[test]
fn frame_threads_are_ordered_by_start_time_then_name() {
    let t = |start: Option<i64>, name: &str| ThreadInfo {
        start_time_ns: start,
        name: name.to_owned(),
    };
    let frame = UnpackedFrameData::new(
        0,
        vec![
            (t(Some(5), "b"), stream_info(1, 2)),
            (t(None, "z"), stream_info(1, 2)),
            (t(Some(5), "a"), stream_info(1, 2)),
            (t(Some(1), "c"), stream_info(1, 2)),
        ],
    )
    .unwrap();
    let order: Vec<(Option<i64>, &str)> = frame
        .thread_streams
        .iter()
        .map(|(info, _)| (info.start_time_ns, info.name.as_str()))
        .collect();
    assert_eq!(
        order,
        vec![(None, "z"), (Some(1), "c"), (Some(5), "a"), (Some(5), "b")]
    );
}
