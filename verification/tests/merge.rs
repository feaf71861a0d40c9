use puffin::{
    merge_scopes_for_thread, MergeScope, ScopeCollection, ScopeDetails, ScopeId, Stream,
    StreamInfo, ThreadInfo, UnpackedFrameData,
};
use std::sync::Arc;

fn leaf(relative_start_ns: i64, total: i64, max: i64, pieces: usize, id: u32) -> MergeScope {
    MergeScope {
        relative_start_ns,
        total_duration_ns: total,
        duration_per_frame_ns: total,
        max_duration_ns: max,
        num_pieces: pieces,
        id: ScopeId::new(id),
        location: "".to_string(),
        data: "".into(),
        children: vec![],
    }
}

fn named_collection(names: &[(u32, &str)]) -> ScopeCollection {
    let mut scope_details = ScopeCollection::default();
    for (id, name) in names {
        scope_details.insert(Arc::new(
            ScopeDetails::from_scope_name(name).with_scope_id(ScopeId::new(*id)),
        ));
    }
    scope_details
}

fn main_thread() -> ThreadInfo {
    ThreadInfo {
        start_time_ns: Some(0),
        name: "main".to_owned(),
    }
}

#[test]
fn test_merge() {
    // top scopes
    let scope_details = named_collection(&[(1, "a"), (2, "b"), (3, "ba"), (4, "bb"), (5, "bba")]);

    let stream = {
        let mut stream = Stream::default();

        for i in 0..2 {
            let ns = 1000 * i;
            let a = stream.begin_scope(|| ns + 100, ScopeId::new(1), "").0;
            stream.end_scope(a, ns + 200);

            let b = stream.begin_scope(|| ns + 200, ScopeId::new(2), "").0;

            let ba = stream.begin_scope(|| ns + 400, ScopeId::new(3), "").0;
            stream.end_scope(ba, ns + 600);

            let bb = stream.begin_scope(|| ns + 600, ScopeId::new(4), "").0;
            let bba = stream.begin_scope(|| ns + 600, ScopeId::new(5), "").0;
            stream.end_scope(bba, ns + 700);
            stream.end_scope(bb, ns + 800);
            stream.end_scope(b, ns + 900);
        }

        stream
    };

    let stream_info = StreamInfo::parse(stream).unwrap();

    let thread_info = main_thread();
    let thread_streams = vec![(thread_info.clone(), stream_info)];
    let frame = UnpackedFrameData::new(0, thread_streams).unwrap();
    let frames = [Arc::new(frame)];

    let merged = merge_scopes_for_thread(&scope_details, &frames, &thread_info).unwrap();

    let expected = vec![
        leaf(100, 2 * 100, 100, 2, 1),
        MergeScope {
            relative_start_ns: 300, // moved forward to make place for "a" (as are all children)
            total_duration_ns: 2 * 700,
            duration_per_frame_ns: 2 * 700,
            max_duration_ns: 700,
            num_pieces: 2,
            id: ScopeId::new(2),
            location: "".to_string(),
            data: "".into(),
            children: vec![
                leaf(200, 2 * 200, 200, 2, 3),
                MergeScope {
                    relative_start_ns: 600,
                    total_duration_ns: 2 * 200,
                    duration_per_frame_ns: 2 * 200,
                    max_duration_ns: 200,
                    num_pieces: 2,
                    id: ScopeId::new(4),
                    location: "".to_string(),
                    data: "".into(),
                    children: vec![leaf(0, 2 * 100, 100, 2, 5)],
                },
            ],
        },
    ];

    assert_eq!(
        merged, expected,
        "\nGot:\n{merged:#?}\n\n!=\nExpected:\n{expected:#?}",
    );
}

/// The same scope in two frames is merged; per frame is the total over the number
/// of frames, and the second frame's scope is placed relative to its own frame.
#[test]
fn merge_over_two_frames_divides_by_frame_count() {
    let scope_details = named_collection(&[(7, "work")]);
    let thread_info = main_thread();

    let mut first = Stream::default();
    let w = first.begin_scope(|| 1_000, ScopeId::new(7), "x").0;
    first.end_scope(w, 1_300);
    let mut second = Stream::default();
    let w = second.begin_scope(|| 5_050, ScopeId::new(7), "x").0;
    second.end_scope(w, 5_150);

    let f0 = UnpackedFrameData::new(0, vec![(thread_info.clone(), StreamInfo::parse(first).unwrap())])
        .unwrap();
    let f1 = UnpackedFrameData::new(1, vec![(thread_info.clone(), StreamInfo::parse(second).unwrap())])
        .unwrap();
    let frames = [Arc::new(f0), Arc::new(f1)];
    let merged = merge_scopes_for_thread(&scope_details, &frames, &thread_info).unwrap();

    assert_eq!(merged.len(), 1);
    let m = &merged[0];
    assert_eq!(m.num_pieces, 2);
    assert_eq!(m.total_duration_ns, 400);
    assert_eq!(m.duration_per_frame_ns, 200);
    assert_eq!(m.max_duration_ns, 300);
    // The second frame starts at 5050, so its piece starts at 0 relative to it,
    // shifted by the 4050 ns between the frame starts: 5050 - 4050 = 1000.
    assert_eq!(m.relative_start_ns, 1000);
    assert_eq!(m.data, "x");
}

/// Scopes with the same id but different data are not merged; siblings that start
/// together are ordered by id, then by data.
#[test]
fn merge_keeps_different_data_apart() {
    let scope_details = named_collection(&[(3, "s"), (9, "t")]);
    let thread_info = main_thread();

    let mut stream = Stream::default();
    let a = stream.begin_scope(|| 0, ScopeId::new(9), "").0;
    stream.end_scope(a, 0);
    let b = stream.begin_scope(|| 0, ScopeId::new(3), "b").0;
    stream.end_scope(b, 0);
    let c = stream.begin_scope(|| 0, ScopeId::new(3), "a").0;
    stream.end_scope(c, 0);

    let frame = UnpackedFrameData::new(0, vec![(thread_info.clone(), StreamInfo::parse(stream).unwrap())])
        .unwrap();
    let merged = merge_scopes_for_thread(&scope_details, &[Arc::new(frame)], &thread_info).unwrap();

    let order: Vec<(u32, &str)> = merged.iter().map(|m| (m.id.get(), m.data.as_str())).collect();
    assert_eq!(order, vec![(3, "a"), (3, "b"), (9, "")]);
}

/// A thread that has no stream in the frames merges to nothing; the location comes
/// from the scope details.
#[test]
fn merge_of_other_thread_is_empty_and_location_is_looked_up() {
    let mut scope_details = ScopeCollection::default();
    scope_details.insert(Arc::new(
        ScopeDetails::from_scope_name("s")
            .with_file("src/lib.rs")
            .with_line_nr(12)
            .with_scope_id(ScopeId::new(1)),
    ));
    let thread_info = main_thread();
    let mut stream = Stream::default();
    let a = stream.begin_scope(|| 10, ScopeId::new(1), "").0;
    stream.end_scope(a, 20);
    let frame = Arc::new(
        UnpackedFrameData::new(0, vec![(thread_info.clone(), StreamInfo::parse(stream).unwrap())])
            .unwrap(),
    );

    let other = ThreadInfo {
        start_time_ns: None,
        name: "other".to_owned(),
    };
    let none = merge_scopes_for_thread(&scope_details, &[frame.clone()], &other).unwrap();
    assert!(none.is_empty());

    let merged = merge_scopes_for_thread(&scope_details, &[frame], &thread_info).unwrap();
    assert_eq!(merged[0].location, "src/lib.rs:12");
    let owned = merged.into_iter().next().unwrap().into_owned();
    assert_eq!(owned.total_duration_ns, 10);
}
