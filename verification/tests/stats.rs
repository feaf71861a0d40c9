use puffin::stats::{collect_stream, ScopeStats, SortKey, SortOrder, Stats};
use puffin::{ScopeCollection, ScopeDetails, ScopeId, Stream};
use std::sync::Arc;

fn stats_of(stats: &Stats, id: u32) -> ScopeStats {
    stats
        .scopes()
        .iter()
        .find(|(k, _)| k.get() == id)
        .map(|(_, s)| *s)
        .unwrap()
}

#[test]
fn self_time_excludes_children() {
    let mut stream = Stream::default();
    let outer = stream.begin_scope(|| 0, ScopeId::new(1), "").0;
    let inner = stream.begin_scope(|| 10, ScopeId::new(2), "abc").0;
    stream.end_scope(inner, 40);
    let inner = stream.begin_scope(|| 50, ScopeId::new(2), "").0;
    stream.end_scope(inner, 60);
    stream.end_scope(outer, 100);

    let mut stats = Stats::new();
    collect_stream(&mut stats, &stream).unwrap();
    assert_eq!(stats.scopes().len(), 2);
    let outer = stats_of(&stats, 1);
    assert_eq!(outer.count, 1);
    assert_eq!(outer.total_self_ns, 100 - 30 - 10);
    assert_eq!(outer.max_ns, 60);
    assert_eq!(outer.bytes, 31);
    let inner = stats_of(&stats, 2);
    assert_eq!(inner.count, 2);
    assert_eq!(inner.total_self_ns, 40);
    assert_eq!(inner.max_ns, 30);
    assert_eq!(inner.bytes, 31 + 3 + 31);
    // Each scope's bytes are exactly what its records take in the stream.
    assert_eq!(outer.bytes + inner.bytes, stream.len());

    // A second stream adds to the same statistics.
    collect_stream(&mut stats, &stream).unwrap();
    assert_eq!(stats_of(&stats, 2).count, 4);
}

#[test]
fn unfinished_stream_keeps_what_was_counted() {
    let mut stream = Stream::default();
    let a = stream.begin_scope(|| 0, ScopeId::new(1), "").0;
    stream.end_scope(a, 5);
    let _open = stream.begin_scope(|| 6, ScopeId::new(2), "");
    let mut stats = Stats::new();
    assert!(collect_stream(&mut stats, &stream).is_err());
    assert_eq!(stats.scopes().len(), 1);
    assert_eq!(stats_of(&stats, 1).count, 1);
}

fn row(id: u32, count: usize, total: i64) -> (ScopeId, ScopeStats) {
    (
        ScopeId::new(id),
        ScopeStats {
            count,
            bytes: 0,
            total_self_ns: total,
            max_ns: 0,
        },
    )
}

#[test]
fn sorting_is_stable_and_reversible() {
    let infos = ScopeCollection::default();
    let mut rows = vec![row(1, 3, 10), row(2, 1, 10), row(3, 3, 40)];
    let order = SortOrder {
        key: SortKey::Count,
        rev: false,
    };
    order.sort_scopes(&mut rows, &infos);
    let ids: Vec<u32> = rows.iter().map(|r| r.0.get()).collect();
    assert_eq!(ids, vec![2, 1, 3]);

    let mut order = SortOrder {
        key: SortKey::MeanSelfTime,
        rev: false,
    };
    order.toggle();
    assert!(order.rev);
    order.sort_scopes(&mut rows, &infos);
    let ids: Vec<u32> = rows.iter().map(|r| r.0.get()).collect();
    // Means: 1 -> 3, 2 -> 10, 3 -> 13; descending.
    assert_eq!(ids, vec![3, 2, 1]);
    assert_eq!(order.get_arrow(), "\u{23f7}");
    order.toggle();
    assert_eq!(order.get_arrow(), "\u{23f6}");
}

#[test]
fn sorting_by_name_uses_scope_details() {
    let mut infos = ScopeCollection::default();
    infos.insert(Arc::new(ScopeDetails::from_scope_name("zeta").with_scope_id(ScopeId::new(1))));
    infos.insert(Arc::new(ScopeDetails::from_scope_name("alpha").with_scope_id(ScopeId::new(2))));
    let mut rows = vec![row(1, 1, 0), row(2, 1, 0), row(3, 1, 0)];
    SortOrder {
        key: SortKey::ScopeName,
        rev: false,
    }
    .sort_scopes(&mut rows, &infos);
    let ids: Vec<u32> = rows.iter().map(|r| r.0.get()).collect();
    // The unknown scope 3 has the empty name.
    assert_eq!(ids, vec![3, 2, 1]);
}
