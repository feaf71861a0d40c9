use puffin::{Error, Reader, ScopeId, ScopeRecord, Stream, StreamInfo};

#[test]
fn write_scope() {
    let mut stream: Stream = Stream::default();
    let start = stream.begin_scope(|| 100, ScopeId::new(1), "data");
    stream.end_scope(start.0, 300);

    let scopes = Reader::from_start(&stream).read_top_scopes().unwrap();
    assert_eq!(scopes.len(), 1);
    assert_eq!(
        scopes[0].record,
        ScopeRecord {
            start_ns: 100,
            duration_ns: 200,
            data: "data"
        }
    );
}

#[test]
fn test_profile_data() {
    let stream = {
        let mut stream = Stream::default();
        let (t0, _) = stream.begin_scope(|| 100, ScopeId::new(1), "data_top");
        let (m1, _) = stream.begin_scope(|| 200, ScopeId::new(2), "data_middle_0");
        stream.end_scope(m1, 300);
        let (m1, _) = stream.begin_scope(|| 300, ScopeId::new(3), "data_middle_1");
        stream.end_scope(m1, 400);
        stream.end_scope(t0, 400);
        stream
    };

    let top_scopes = Reader::from_start(&stream).read_top_scopes().unwrap();
    assert_eq!(top_scopes.len(), 1);
    assert_eq!(
        top_scopes[0].record,
        ScopeRecord {
            start_ns: 100,
            duration_ns: 300,
            data: "data_top"
        }
    );

    let middle_scopes = Reader::with_offset(&stream, top_scopes[0].child_begin_position)
        .unwrap()
        .read_top_scopes()
        .unwrap();

    assert_eq!(middle_scopes.len(), 2);

    assert_eq!(
        middle_scopes[0].record,
        ScopeRecord {
            start_ns: 200,
            duration_ns: 100,
            data: "data_middle_0"
        }
    );
    assert_eq!(
        middle_scopes[1].record,
        ScopeRecord {
            start_ns: 300,
            duration_ns: 100,
            data: "data_middle_1"
        }
    );
}

#[test]
fn stream_info_parse_counts_scopes_and_depth() {
    let mut stream = Stream::default();
    let (t0, _) = stream.begin_scope(|| 100, ScopeId::new(1), "top");
    let (m, _) = stream.begin_scope(|| 150, ScopeId::new(2), "");
    stream.end_scope(m, 160);
    stream.end_scope(t0, 400);
    let (t1, _) = stream.begin_scope(|| 500, ScopeId::new(1), "top");
    stream.end_scope(t1, 700);
    let info = StreamInfo::parse(stream).unwrap();
    assert_eq!(info.num_scopes, 3);
    assert_eq!(info.depth, 2);
    assert_eq!(info.range_ns, (100, 700));
    assert_eq!(Reader::count_scope_and_depth(&info.stream).unwrap(), (3, 2));
}

#[test]
fn empty_stream_parses_to_empty_info() {
    let info = StreamInfo::parse(Stream::default()).unwrap();
    assert_eq!(info.num_scopes, 0);
    assert_eq!(info.depth, 0);
    assert_eq!(info.range_ns, (i64::MAX, i64::MIN));
}

#[test]
fn unfinished_scope_is_an_error() {
    let mut stream = Stream::default();
    let _ = stream.begin_scope(|| 100, ScopeId::new(7), "x");
    assert!(matches!(
        Reader::from_start(&stream).read_top_scopes(),
        Err(Error::ScopeNeverEnded)
    ));
}

#[test]
fn truncated_stream_ends_prematurely() {
    let mut stream = Stream::default();
    let (s, _) = stream.begin_scope(|| 100, ScopeId::new(7), "x");
    stream.end_scope(s, 200);
    let bytes = stream.bytes()[..stream.len() - 3].to_vec();
    let cut = Stream::from(bytes);
    assert!(matches!(
        Reader::from_start(&cut).read_top_scopes(),
        Err(Error::PrematureEnd)
    ));
}

#[test]
fn stop_before_start_is_invalid() {
    let mut stream = Stream::default();
    let (s, _) = stream.begin_scope(|| 100, ScopeId::new(7), "x");
    stream.end_scope(s, 50);
    assert!(matches!(
        Reader::from_start(&stream).read_top_scopes(),
        Err(Error::InvalidStream)
    ));
}

#[test]
fn offset_past_end_is_invalid() {
    let stream = Stream::from(vec![1, 2, 3]);
    assert!(matches!(Reader::with_offset(&stream, 4), Err(Error::InvalidOffset)));
    assert!(Reader::with_offset(&stream, 3).is_ok());
}

#[test]
fn long_data_is_truncated_to_127_bytes() {
    let long = "é".repeat(100); // 200 bytes
    let mut stream = Stream::default();
    let (s, _) = stream.begin_scope(|| 1, ScopeId::new(1), &long);
    stream.end_scope(s, 2);
    let scopes = Reader::from_start(&stream).read_top_scopes().unwrap();
    // 127 bytes cut a two-byte character in half: 63 whole characters remain.
    assert_eq!(scopes[0].record.data, "é".repeat(63));
    assert_eq!(stream.len(), 1 + 4 + 8 + 1 + 127 + 8 + 1 + 8);
}

#[test]
fn record_stop_ns() {
    let r = ScopeRecord { start_ns: 10, duration_ns: 5, data: "" };
    assert_eq!(r.stop_ns(), 15);
}

#[test]
fn stream_info_extend_and_clear() {
    let mut a = StreamInfo::default();
    let mut s = Stream::default();
    let (o, _) = s.begin_scope(|| 5, ScopeId::new(3), "");
    s.end_scope(o, 9);
    let b = StreamInfo::parse(s).unwrap();
    a.extend(&b.as_stream_into_ref());
    assert_eq!(a.num_scopes, 1);
    assert_eq!(a.depth, 1);
    assert_eq!(a.range_ns, (5, 9));
    assert_eq!(a.stream.len(), b.stream.len());
    a.clear();
    assert_eq!(a.num_scopes, 0);
    assert!(a.stream.is_empty());
    assert_eq!(a.range_ns, (i64::MAX, i64::MIN));
}
