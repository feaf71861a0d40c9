use puffin::{
    GlobalProfiler, Reader, ScopeDetails, ScopeId, Stream, StreamInfo, ThreadInfo, ThreadProfiler,
};
use std::cell::Cell;

fn thread(name: &str) -> ThreadInfo {
    ThreadInfo {
        start_time_ns: Some(0),
        name: name.to_owned(),
    }
}

fn one_scope_stream(id: u32, start: i64, stop: i64) -> StreamInfo {
    let mut stream = Stream::default();
    let (offset, _) = stream.begin_scope(|| start, ScopeId::new(id), "");
    stream.end_scope(offset, stop);
    StreamInfo::parse(stream).unwrap()
}

#[test]
fn reports_of_one_thread_are_appended_in_one_frame() {
    let mut profiler = GlobalProfiler::new();
    let first = one_scope_stream(1, 100, 200);
    let second = one_scope_stream(1, 300, 450);
    let details = [ScopeDetails::from_scope_name("s").with_scope_id(ScopeId::new(1))];
    profiler.report(thread("main"), &details, &first.as_stream_into_ref());
    profiler.report(thread("main"), &[], &second.as_stream_into_ref());

    let frame = profiler.new_frame().expect("a frame with scopes");
    assert_eq!(frame.unpacked.meta.frame_index, 0);
    assert_eq!(frame.unpacked.meta.range_ns, (100, 450));
    assert_eq!(frame.unpacked.meta.num_scopes, 2);
    assert_eq!(frame.unpacked.thread_streams.len(), 1);
    let stream = &frame.unpacked.thread_streams[0].1.stream;
    assert_eq!(stream.len(), first.stream.len() + second.stream.len());
    let tops = Reader::from_start(stream).read_top_scopes().unwrap();
    assert_eq!(tops.len(), 2);
    assert_eq!(tops[1].record.start_ns, 300);
    assert_eq!(frame.scope_delta.len(), 1);
    assert!(!frame.full_delta);

    // The scopes were announced once; the next frame starts empty.
    assert!(profiler.new_frame().is_none());
}

#[test]
fn each_thread_gets_its_own_stream() {
    let mut profiler = GlobalProfiler::new();
    profiler.report_user_scopes(thread("a"), &one_scope_stream(1, 10, 20).as_stream_into_ref());
    profiler.report_user_scopes(thread("b"), &one_scope_stream(1, 5, 30).as_stream_into_ref());
    let frame = profiler.new_frame().unwrap();
    assert_eq!(frame.unpacked.thread_streams.len(), 2);
    assert_eq!(frame.unpacked.meta.range_ns, (5, 30));
    assert_eq!(frame.unpacked.thread_streams[0].0.name, "a");
    assert_eq!(frame.unpacked.thread_streams[1].0.name, "b");
}

#[test]
fn empty_frames_are_dropped_but_counted() {
    let mut profiler = GlobalProfiler::new();
    assert!(profiler.new_frame().is_none());
    profiler.report_user_scopes(thread("main"), &one_scope_stream(2, 1, 2).as_stream_into_ref());
    let frame = profiler.new_frame().unwrap();
    assert_eq!(frame.unpacked.meta.frame_index, 1);
}

#[test]
fn user_scopes_get_fresh_ids_and_a_snapshot_carries_all_scopes() {
    let next = Cell::new(10u32);
    let mut profiler = GlobalProfiler::new();
    let ids = profiler.register_user_scopes(
        &[ScopeDetails::from_scope_name("a"), ScopeDetails::from_scope_name("b")],
        || {
            let id = next.get();
            next.set(id + 1);
            ScopeId::new(id)
        },
    );
    assert_eq!(ids, vec![ScopeId::new(10), ScopeId::new(11)]);

    profiler.report_user_scopes(thread("main"), &one_scope_stream(10, 0, 5).as_stream_into_ref());
    let frame = profiler.new_frame().unwrap();
    assert_eq!(frame.scope_delta.len(), 2);
    assert_eq!(frame.scope_delta[0].scope_id(), Some(ScopeId::new(10)));

    profiler.emit_scope_snapshot();
    profiler.report_user_scopes(thread("main"), &one_scope_stream(11, 6, 9).as_stream_into_ref());
    let frame = profiler.new_frame().unwrap();
    assert!(frame.full_delta);
    assert_eq!(frame.scope_delta.len(), 2);
    assert_eq!(frame.scope_delta[1].scope_id(), Some(ScopeId::new(11)));
}

#[test]
fn sinks_are_numbered_from_one() {
    let mut profiler = GlobalProfiler::new();
    assert_eq!(profiler.add_sink().0, 1);
    assert_eq!(profiler.add_sink().0, 2);
}

#[test]
fn thread_profiler_reports_when_the_outermost_scope_closes() {
    let mut tp = ThreadProfiler::new();
    let id = tp.register_function_scope(ScopeId::new(3), "my_fn", "src/lib.rs", 7);
    assert_eq!(id, ScopeId::new(3));
    let outer = tp.begin_scope(|| 100, id, "");
    let inner = tp.begin_scope(|| 150, id, "x");
    let end = tp.end_scope(inner, 160);
    assert!(!end.mismatched);
    assert!(end.report.is_none());
    let end = tp.end_scope(outer, 200);
    let report = end.report.expect("outermost scope closed");
    assert_eq!(report.start_time_ns, Some(100));
    assert_eq!(report.scope_details.len(), 1);
    assert_eq!(report.stream_info.num_scopes, 2);
    assert_eq!(report.stream_info.depth, 2);
    assert_eq!(report.stream_info.range_ns, (100, 200));

    let parsed = StreamInfo::parse(report.stream_info.stream).unwrap();
    assert_eq!(parsed.num_scopes, 2);
    assert_eq!(parsed.depth, 2);
    assert_eq!(parsed.range_ns, (100, 200));
}

#[test]
fn checks_before_reporting_and_closing() {
    let mut profiler = GlobalProfiler::new();
    assert!(profiler.can_close_frame());
    assert!(profiler.can_add_sink());
    assert!(profiler.can_report(&thread("main"), usize::MAX));
    profiler.report_user_scopes(thread("main"), &one_scope_stream(1, 0, 1).as_stream_into_ref());
    assert!(profiler.can_report(&thread("main"), 5));
    assert!(!profiler.can_report(&thread("main"), usize::MAX));
    assert!(profiler.can_report(&thread("other"), usize::MAX));
}
