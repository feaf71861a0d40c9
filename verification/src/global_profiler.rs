//! The bookkeeping of the profiler that collects the streams of all threads into
//! frames. Calling the frame sinks is left to the caller.
use crate::data::{StreamInfo, StreamInfoRef};
use crate::frame_data::{lemma_sums_monotone, is_frame_of, max_stop, min_start, sum_bytes, sum_scopes, threads_unique, UnpackedFrameData};
use crate::scope_details::{
    details_key, id_pairs, spec_insert, ScopeCollection, ScopeDetails, ScopeDetailsView,
    ScopeTypeView,
};
use crate::assoc::{assoc_map, keys_unique};
use crate::thread_profiler::ThreadInfo;
use crate::{arc_clone, FrameIndex, FrameSinkId, ScopeId};
use std::sync::Arc;
use vstd::prelude::*;

verus! {

/// What a stream holds, as the frame sees it: its bytes, number of scopes, depth and
/// time range.
pub type StreamSummary = (Seq<u8>, int, int, (i64, i64));

/// The summary of an owned stream.
pub open spec fn summary(i: StreamInfo) -> StreamSummary {
    (i.stream@, i.num_scopes as int, i.depth as int, i.range_ns)
}

/// The summary of a borrowed stream.
pub open spec fn ref_summary(i: StreamInfoRef) -> StreamSummary {
    (i.stream@, i.num_scopes as int, i.depth as int, i.range_ns)
}

/// The summary of a stream that holds nothing.
pub open spec fn empty_summary() -> StreamSummary {
    (Seq::empty(), 0, 0, (i64::MAX, i64::MIN))
}

/// `a` followed by `b`: the bytes one after the other, the scopes added up, the
/// deeper depth and the wider time range.
pub open spec fn extended(a: StreamSummary, b: StreamSummary) -> StreamSummary {
    (
        a.0 + b.0,
        a.1 + b.1,
        if a.2 < b.2 {
            b.2
        } else {
            a.2
        },
        (
            if b.3.0 < a.3.0 {
                b.3.0
            } else {
                a.3.0
            },
            if a.3.1 < b.3.1 {
                b.3.1
            } else {
                a.3.1
            },
        ),
    )
}

/// The frame as thread and stream summary pairs.
pub open spec fn frame_view(s: Seq<(ThreadInfo, StreamInfo)>) -> Seq<(ThreadKey, StreamSummary)> {
    s.map_values(|p: (ThreadInfo, StreamInfo)| (p.0@, summary(p.1)))
}

/// What identifies a thread: its start time and name.
pub type ThreadKey = (Option<i64>, Seq<char>);

/// The index of the entry of thread `key`, if any.
pub open spec fn thread_index(s: Seq<(ThreadKey, StreamSummary)>, key: ThreadKey) -> Option<int>
    decreases s.len(),
{
    if s.len() == 0 {
        None
    } else if s.last().0 == key {
        Some(s.len() - 1)
    } else {
        thread_index(s.drop_last(), key)
    }
}

/// The frame `s` after thread `key` reported `other`: its entry is extended by
/// `other`, or, for a thread new to the frame, an entry with `other` alone is added.
pub open spec fn reported(
    s: Seq<(ThreadKey, StreamSummary)>,
    key: ThreadKey,
    other: StreamSummary,
) -> Seq<(ThreadKey, StreamSummary)> {
    match thread_index(s, key) {
        Some(i) => s.update(i, (key, extended(s[i].1, other))),
        None => s.push((key, extended(empty_summary(), other))),
    }
}

/// Appending streams one after the other is associative: reporting `a` and then `b`
/// leaves a thread's stream as reporting `a` followed by `b` at once.
pub proof fn law_extended_associative(x: StreamSummary, a: StreamSummary, b: StreamSummary)
    ensures
        extended(extended(x, a), b) == extended(x, extended(a, b)),
{
    assert((x.0 + a.0) + b.0 =~= x.0 + (a.0 + b.0));
}

/// The first report of a thread in a frame is its stream as it was reported.
pub proof fn law_first_report_is_the_stream(frame: Seq<(ThreadKey, StreamSummary)>, key: ThreadKey, s: StreamSummary)
    requires
        forall|i: int| 0 <= i < frame.len() ==> frame[i].0 != key,
        s.1 >= 0,
        s.2 >= 0,
    ensures
        reported(frame, key, s) == frame.push((key, s)),
{
    lemma_thread_index(frame, key);
    if let Some(i) = thread_index(frame, key) {
        assert(frame[i].0 == key);
    }
    assert(Seq::<u8>::empty() + s.0 =~= s.0);
}

/// A second report of a thread extends its stream in place; the other threads'
/// streams stay as they were.
pub proof fn law_report_extends_in_place(frame: Seq<(ThreadKey, StreamSummary)>, key: ThreadKey, s: StreamSummary, i: int)
    requires
        0 <= i < frame.len(),
        frame[i].0 == key,
        forall|j: int| 0 <= j < frame.len() && j != i ==> frame[j].0 != key,
    ensures
        reported(frame, key, s) == frame.update(i, (key, extended(frame[i].1, s))),
{
    lemma_thread_index(frame, key);
    if let Some(k) = thread_index(frame, key) {
        assert(k == i);
    }
}

proof fn lemma_thread_index(s: Seq<(ThreadKey, StreamSummary)>, key: ThreadKey)
    ensures
        thread_index(s, key) matches Some(i) ==> 0 <= i < s.len() && s[i].0 == key,
        thread_index(s, key) is None ==> forall|j: int| 0 <= j < s.len() ==> s[j].0 != key,
    decreases s.len(),
{
    if s.len() > 0 && s.last().0 != key {
        let t = s.drop_last();
        lemma_thread_index(t, key);
        assert forall|j: int| 0 <= j < s.len() && thread_index(s, key) is None implies s[j].0
            != key by {
            if j < t.len() {
                assert(t[j] == s[j]);
            }
        }
    }
}

/// The collection `c` after inserting each of `ds` in turn.
pub open spec fn inserted_all(
    c: (Map<u32, ScopeDetailsView>, Map<ScopeTypeView, u32>),
    ds: Seq<ScopeDetailsView>,
) -> (Map<u32, ScopeDetailsView>, Map<ScopeTypeView, u32>)
    decreases ds.len(),
{
    if ds.len() == 0 {
        c
    } else {
        spec_insert(inserted_all(c, ds.drop_last()), ds.last())
    }
}

/// The views of shared scope details.
pub open spec fn details_views(s: Seq<Arc<ScopeDetails>>) -> Seq<ScopeDetailsView> {
    s.map_values(|d: Arc<ScopeDetails>| (*d)@)
}

/// Every one of the scope details carries an id.
pub open spec fn all_have_ids(s: Seq<ScopeDetailsView>) -> bool {
    forall|i: int| 0 <= i < s.len() ==> (#[trigger] s[i]).scope_id is Some
}

/// The first scope details of `ds`, each with the id at the same place in `ids`.
pub open spec fn with_ids(ds: Seq<ScopeDetailsView>, ids: Seq<ScopeId>) -> Seq<ScopeDetailsView> {
    Seq::new(ids.len(), |k: int| ScopeDetailsView { scope_id: Some(ids[k]@), ..ds[k] })
}

/// What the collection `c` holds under the id of each of `ds` once `ds` were
/// inserted one by one, each looked up right after its own insertion.
pub open spec fn filed_as(
    c: (Map<u32, ScopeDetailsView>, Map<ScopeTypeView, u32>),
    ds: Seq<ScopeDetailsView>,
) -> Seq<ScopeDetailsView> {
    Seq::new(ds.len(), |k: int| inserted_all(c, ds.take(k + 1)).0[ds[k].scope_id->0])
}

/// What a new frame hands to the sinks.
pub struct NewFrame {
    /// The frame's data.
    pub unpacked: UnpackedFrameData,
    /// Scopes that were registered during this frame.
    pub scope_delta: Vec<Arc<ScopeDetails>>,
    /// Does `scope_delta` contain all the scopes up to this point?
    pub full_delta: bool,
}

/// Collects profiling data from multiple threads into frames.
pub struct GlobalProfiler {
    current_frame_index: FrameIndex,
    current_frame: Vec<(ThreadInfo, StreamInfo)>,
    next_sink_id: FrameSinkId,
    /// When true, the next frame carries a full snapshot of the scope collection.
    propagate_all_scope_details: bool,
    /// The details of new scopes, since the last frame.
    new_scopes: Vec<Arc<ScopeDetails>>,
    /// All scope details seen so far.
    scope_collection: ScopeCollection,
}

impl GlobalProfiler {
    #[verifier::type_invariant]
    spec fn well_formed(self) -> bool {
        &&& threads_unique(self.current_frame@)
        &&& all_have_ids(details_views(self.new_scopes@))
    }

    /// The index of the next frame.
    pub closed spec fn spec_frame_index(&self) -> FrameIndex {
        self.current_frame_index
    }

    /// The streams reported for the current frame, by thread.
    pub closed spec fn spec_current_frame(&self) -> Seq<(ThreadInfo, StreamInfo)> {
        self.current_frame@
    }

    /// The details of scopes that are new since the last frame.
    pub closed spec fn spec_new_scopes(&self) -> Seq<ScopeDetailsView> {
        details_views(self.new_scopes@)
    }

    /// Whether the next frame carries a snapshot of all scopes.
    pub closed spec fn spec_propagate(&self) -> bool {
        self.propagate_all_scope_details
    }

    /// All scope details seen so far, by id, and the ids by scope type.
    pub closed spec fn spec_collection(&self) -> (Map<u32, ScopeDetailsView>, Map<ScopeTypeView, u32>) {
        self.scope_collection@
    }

    /// The id the next sink gets.
    pub closed spec fn spec_next_sink_id(&self) -> u64 {
        self.next_sink_id.0
    }

    /// A profiler at frame zero with nothing collected.
    pub fn new() -> (r: Self)
        ensures
            r.spec_frame_index() == 0,
            r.spec_current_frame() == Seq::<(ThreadInfo, StreamInfo)>::empty(),
            r.spec_new_scopes() == Seq::<ScopeDetailsView>::empty(),
            !r.spec_propagate(),
            r.spec_next_sink_id() == 1,
            r.spec_collection().0 == Map::<u32, ScopeDetailsView>::empty(),
            r.spec_collection().1 == Map::<ScopeTypeView, u32>::empty(),
    {
        let new_scopes: Vec<Arc<ScopeDetails>> = Vec::new();
        proof {
            assert(details_views(new_scopes@) =~= Seq::<ScopeDetailsView>::empty());
        }
        GlobalProfiler {
            current_frame_index: 0,
            current_frame: Vec::new(),
            next_sink_id: FrameSinkId(1),
            propagate_all_scope_details: false,
            new_scopes,
            scope_collection: ScopeCollection::default(),
        }
    }

    /// Whether another sink id can be handed out.
    pub fn can_add_sink(&self) -> (r: bool)
        ensures
            r == (self.spec_next_sink_id() < u64::MAX),
    {
        self.next_sink_id.0 < u64::MAX
    }

    /// Hands out the id for a new sink; ids count up from 1.
    pub fn add_sink(&mut self) -> (r: FrameSinkId)
        requires
            old(self).spec_next_sink_id() < u64::MAX,
        ensures
            r.0 == old(self).spec_next_sink_id(),
            final(self).spec_next_sink_id() == old(self).spec_next_sink_id() + 1,
            final(self).spec_frame_index() == old(self).spec_frame_index(),
            final(self).spec_current_frame() == old(self).spec_current_frame(),
            final(self).spec_new_scopes() == old(self).spec_new_scopes(),
            final(self).spec_propagate() == old(self).spec_propagate(),
            final(self).spec_collection() == old(self).spec_collection(),
    {
        proof {
            use_type_invariant(&*self);
        }
        let id = self.next_sink_id;
        self.next_sink_id = FrameSinkId(id.0 + 1);
        id
    }

    /// The next frame carries a snapshot of all scopes, for a sink that is
    /// registered after scopes were.
    pub fn emit_scope_snapshot(&mut self)
        ensures
            final(self).spec_propagate(),
            final(self).spec_frame_index() == old(self).spec_frame_index(),
            final(self).spec_current_frame() == old(self).spec_current_frame(),
            final(self).spec_new_scopes() == old(self).spec_new_scopes(),
            final(self).spec_collection() == old(self).spec_collection(),
            final(self).spec_next_sink_id() == old(self).spec_next_sink_id(),
    {
        proof {
            use_type_invariant(&*self);
        }
        self.propagate_all_scope_details = true;
    }

    /// Files `details` in the collection of all scope details.
    fn insert_scope(&mut self, details: Arc<ScopeDetails>) -> (r: Arc<ScopeDetails>)
        requires
            (*details)@.scope_id is Some,
        ensures
            final(self).spec_collection() == spec_insert(old(self).spec_collection(), (*details)@),
            (*r)@ == final(self).spec_collection().0[(*details)@.scope_id->0],
            (*r)@.scope_id == (*details)@.scope_id,
            final(self).spec_frame_index() == old(self).spec_frame_index(),
            final(self).spec_current_frame() == old(self).spec_current_frame(),
            final(self).spec_new_scopes() == old(self).spec_new_scopes(),
            final(self).spec_propagate() == old(self).spec_propagate(),
            final(self).spec_next_sink_id() == old(self).spec_next_sink_id(),
    {
        proof {
            use_type_invariant(&*self);
        }
        let mut collection = ScopeCollection::default();
        std::mem::swap(&mut collection, &mut self.scope_collection);
        let stored = collection.insert(details);
        self.scope_collection = collection;
        stored
    }

    /// Files each of `scope_delta` in the collection of all scope details, in
    /// order. Handing the frame to the sinks is left to the caller.
    pub fn add_frame(&mut self, scope_delta: &[Arc<ScopeDetails>])
        requires
            all_have_ids(details_views(scope_delta@)),
        ensures
            final(self).spec_collection() == inserted_all(
                old(self).spec_collection(),
                details_views(scope_delta@),
            ),
            final(self).spec_frame_index() == old(self).spec_frame_index(),
            final(self).spec_current_frame() == old(self).spec_current_frame(),
            final(self).spec_new_scopes() == old(self).spec_new_scopes(),
            final(self).spec_propagate() == old(self).spec_propagate(),
            final(self).spec_next_sink_id() == old(self).spec_next_sink_id(),
    {
        let ghost ds = details_views(scope_delta@);
        let mut i: usize = 0;
        while i < scope_delta.len()
            invariant
                0 <= i <= scope_delta@.len(),
                ds == details_views(scope_delta@),
                all_have_ids(ds),
                self.spec_collection() == inserted_all(
                    old(self).spec_collection(),
                    ds.take(i as int),
                ),
                self.spec_frame_index() == old(self).spec_frame_index(),
                self.spec_current_frame() == old(self).spec_current_frame(),
                self.spec_new_scopes() == old(self).spec_new_scopes(),
                self.spec_propagate() == old(self).spec_propagate(),
                self.spec_next_sink_id() == old(self).spec_next_sink_id(),
            decreases scope_delta@.len() - i,
        {
            proof {
                use_type_invariant(&*self);
                assert(ds[i as int].scope_id is Some);
                assert(ds.take(i + 1).drop_last() =~= ds.take(i as int));
            }
            self.insert_scope(arc_clone(&scope_delta[i]));
            i = i + 1;
        }
        proof {
            assert(ds.take(scope_delta@.len() as int) =~= ds);
        }
    }

    /// Registers scope details that were measured without the profiler's own
    /// scopes: each gets a fresh id from `fetch_id`, is filed in the collection and
    /// is announced with the next frame. Returns the ids in the order of `scopes`.
    pub fn register_user_scopes<F: Fn() -> ScopeId>(&mut self, scopes: &[ScopeDetails], fetch_id: F) -> (r: Vec<ScopeId>)
        requires
            fetch_id.requires(()),
        ensures
            r@.len() == scopes@.len(),
            forall|k: int| 0 <= k < r@.len() ==> fetch_id.ensures((), #[trigger] r@[k]),
            ({
                let ds = with_ids(scopes@.map_values(|d: ScopeDetails| d@), r@);
                &&& final(self).spec_collection() == inserted_all(old(self).spec_collection(), ds)
                &&& final(self).spec_new_scopes() == old(self).spec_new_scopes() + filed_as(
                    old(self).spec_collection(),
                    ds,
                )
            }),
            final(self).spec_frame_index() == old(self).spec_frame_index(),
            final(self).spec_current_frame() == old(self).spec_current_frame(),
            final(self).spec_propagate() == old(self).spec_propagate(),
            final(self).spec_next_sink_id() == old(self).spec_next_sink_id(),
    {
        let ghost plain = scopes@.map_values(|d: ScopeDetails| d@);
        let ghost c0 = self.spec_collection();
        let mut ids: Vec<ScopeId> = Vec::new();
        let mut filed: Vec<Arc<ScopeDetails>> = Vec::new();
        let mut i: usize = 0;
        proof {
            assert(with_ids(plain, ids@) =~= Seq::<ScopeDetailsView>::empty());
            assert(details_views(filed@) =~= Seq::<ScopeDetailsView>::empty());
            assert(filed_as(c0, with_ids(plain, ids@)) =~= Seq::<ScopeDetailsView>::empty());
        }
        while i < scopes.len()
            invariant
                0 <= i <= scopes@.len(),
                plain == scopes@.map_values(|d: ScopeDetails| d@),
                c0 == old(self).spec_collection(),
                fetch_id.requires(()),
                ids@.len() == i,
                forall|k: int| 0 <= k < i ==> fetch_id.ensures((), #[trigger] ids@[k]),
                self.spec_collection() == inserted_all(c0, with_ids(plain, ids@)),
                details_views(filed@) == filed_as(c0, with_ids(plain, ids@)),
                all_have_ids(details_views(filed@)),
                self.spec_frame_index() == old(self).spec_frame_index(),
                self.spec_current_frame() == old(self).spec_current_frame(),
                self.spec_new_scopes() == old(self).spec_new_scopes(),
                self.spec_propagate() == old(self).spec_propagate(),
                self.spec_next_sink_id() == old(self).spec_next_sink_id(),
            decreases scopes@.len() - i,
        {
            let id = fetch_id();
            let details = Arc::new(scopes[i].clone().with_scope_id(id));
            let ghost before = with_ids(plain, ids@);
            let ghost prev_filed = filed@;
            proof {
                assert(plain[i as int] == scopes@[i as int]@);
            }
            let stored = self.insert_scope(details);
            ids.push(id);
            filed.push(stored);
            proof {
                let after = with_ids(plain, ids@);
                assert(after.drop_last() =~= before);
                assert(after.last() == (*details)@);
                assert(after.take(after.len() as int) =~= after);
                assert(inserted_all(c0, after) == spec_insert(inserted_all(c0, before), after.last()));
                let fv = details_views(filed@);
                let fa = filed_as(c0, after);
                assert forall|k: int| 0 <= k < after.len() implies fv[k] == fa[k] by {
                    if k < after.len() - 1 {
                        assert(after.take(k + 1) =~= before.take(k + 1));
                        assert(after[k] == before[k]);
                        assert(fv[k] == filed_as(c0, before)[k]);
                    }
                }
                assert(fv =~= fa);
                assert forall|k: int| 0 <= k < fv.len() implies (#[trigger] fv[k]).scope_id is Some by {
                    if k < after.len() - 1 {
                        assert(fv[k] == details_views(prev_filed)[k]);
                    }
                }
            }
            i = i + 1;
        }
        proof {
            use_type_invariant(&*self);
        }
        let mut new_scopes = Vec::new();
        std::mem::swap(&mut new_scopes, &mut self.new_scopes);
        let ghost old_new = details_views(new_scopes@);
        new_scopes.append(&mut filed);
        proof {
            assert(details_views(new_scopes@) =~= old_new + filed_as(c0, with_ids(plain, ids@)));
        }
        self.new_scopes = new_scopes;
        ids
    }

    /// Reports the stream of a thread and the details of the scopes it saw first.
    /// The stream is appended to what the thread reported before in this frame;
    /// the details are announced with the next frame.
    pub fn report(&mut self, info: ThreadInfo, scope_details: &[ScopeDetails], stream_scope_times: &StreamInfoRef<'_>)
        requires
            forall|k: int| 0 <= k < scope_details@.len() ==> (#[trigger] scope_details@[k])@.scope_id is Some,
            match thread_index(frame_view(old(self).spec_current_frame()), info@) {
                Some(i) => old(self).spec_current_frame()[i].1.num_scopes
                    + stream_scope_times.num_scopes <= usize::MAX,
                None => true,
            },
        ensures
            frame_view(final(self).spec_current_frame()) == reported(
                frame_view(old(self).spec_current_frame()),
                info@,
                ref_summary(*stream_scope_times),
            ),
            final(self).spec_new_scopes() == old(self).spec_new_scopes() + scope_details@.map_values(
                |d: ScopeDetails| d@,
            ),
            final(self).spec_frame_index() == old(self).spec_frame_index(),
            final(self).spec_propagate() == old(self).spec_propagate(),
            final(self).spec_collection() == old(self).spec_collection(),
            final(self).spec_next_sink_id() == old(self).spec_next_sink_id(),
    {
        proof {
            use_type_invariant(&*self);
        }
        if scope_details.len() > 0 {
            let mut new_scopes = Vec::new();
            std::mem::swap(&mut new_scopes, &mut self.new_scopes);
            let ghost start = new_scopes@;
            let mut i: usize = 0;
            while i < scope_details.len()
                invariant
                    0 <= i <= scope_details@.len(),
                    forall|k: int| 0 <= k < scope_details@.len() ==> (#[trigger] scope_details@[k])@.scope_id is Some,
                    all_have_ids(details_views(start)),
                    details_views(new_scopes@) == details_views(start) + scope_details@.take(i as int).map_values(
                        |d: ScopeDetails| d@,
                    ),
                decreases scope_details@.len() - i,
            {
                let ghost prev = new_scopes@;
                new_scopes.push(Arc::new(scope_details[i].clone()));
                proof {
                    assert(details_views(new_scopes@) =~= details_views(prev).push(scope_details@[i as int]@));
                    assert(scope_details@.take(i + 1).map_values(|d: ScopeDetails| d@)
                        =~= scope_details@.take(i as int).map_values(|d: ScopeDetails| d@).push(scope_details@[i as int]@));
                    assert(details_views(new_scopes@) =~= details_views(start) + scope_details@.take(i + 1).map_values(
                        |d: ScopeDetails| d@,
                    ));
                }
                i = i + 1;
            }
            proof {
                assert(scope_details@.take(scope_details@.len() as int) =~= scope_details@);
                let v = details_views(new_scopes@);
                assert forall|k: int| 0 <= k < v.len() implies (#[trigger] v[k]).scope_id is Some by {
                    if k >= start.len() {
                        assert(v[k] == scope_details@[k - start.len()]@);
                    } else {
                        assert(v[k] == details_views(start)[k]);
                    }
                }
            }
            self.new_scopes = new_scopes;
        } else {
            proof {
                assert(scope_details@.map_values(|d: ScopeDetails| d@) =~= Seq::<ScopeDetailsView>::empty());
                assert(self.spec_new_scopes() + Seq::<ScopeDetailsView>::empty() =~= self.spec_new_scopes());
            }
        }
        self.extend_thread_stream(info, stream_scope_times);
    }

    /// Reports the stream of a thread whose scopes were registered with
    /// [`Self::register_user_scopes`]; it is appended to what the thread reported
    /// before in this frame.
    pub fn report_user_scopes(&mut self, info: ThreadInfo, stream_scope_times: &StreamInfoRef<'_>)
        requires
            match thread_index(frame_view(old(self).spec_current_frame()), info@) {
                Some(i) => old(self).spec_current_frame()[i].1.num_scopes
                    + stream_scope_times.num_scopes <= usize::MAX,
                None => true,
            },
        ensures
            frame_view(final(self).spec_current_frame()) == reported(
                frame_view(old(self).spec_current_frame()),
                info@,
                ref_summary(*stream_scope_times),
            ),
            final(self).spec_new_scopes() == old(self).spec_new_scopes(),
            final(self).spec_frame_index() == old(self).spec_frame_index(),
            final(self).spec_propagate() == old(self).spec_propagate(),
            final(self).spec_collection() == old(self).spec_collection(),
            final(self).spec_next_sink_id() == old(self).spec_next_sink_id(),
    {
        self.extend_thread_stream(info, stream_scope_times);
    }

    /// Closes the current frame and starts the next one. The streams of all threads
    /// become one frame, unless none of them covers any time; the scopes that are
    /// new since the last frame go with it, followed by a snapshot of all scopes if
    /// one was asked for, and are filed in the collection. The frame index counts
    /// up either way, and the new scopes and the request for a snapshot are spent.
    pub fn new_frame(&mut self) -> (r: Option<NewFrame>)
        requires
            old(self).spec_frame_index() < u64::MAX,
            sum_bytes(old(self).spec_current_frame(), old(self).spec_current_frame().len() as int)
                <= usize::MAX,
            sum_scopes(old(self).spec_current_frame(), old(self).spec_current_frame().len() as int)
                <= usize::MAX,
        ensures
            final(self).spec_frame_index() == old(self).spec_frame_index() + 1,
            final(self).spec_current_frame() == Seq::<(ThreadInfo, StreamInfo)>::empty(),
            final(self).spec_new_scopes() == Seq::<ScopeDetailsView>::empty(),
            !final(self).spec_propagate(),
            final(self).spec_next_sink_id() == old(self).spec_next_sink_id(),
            ({
                let s = old(self).spec_current_frame();
                let n = s.len() as int;
                let k = old(self).spec_new_scopes().len();
                &&& r is Some <==> min_start(s, n) <= max_stop(s, n)
                &&& r is None ==> final(self).spec_collection() == old(self).spec_collection()
                &&& r matches Some(f) ==> {
                    let ds = details_views(f.scope_delta@);
                    let rest = f.scope_delta@.skip(k as int);
                    &&& is_frame_of(f.unpacked, old(self).spec_frame_index(), s)
                    &&& f.full_delta == old(self).spec_propagate()
                    &&& ds.take(k as int) == old(self).spec_new_scopes()
                    &&& k <= ds.len()
                    &&& !f.full_delta ==> ds.len() == k
                    &&& f.full_delta ==> assoc_map(id_pairs(rest)) == old(self).spec_collection().0
                        && keys_unique(id_pairs(rest))
                    &&& final(self).spec_collection() == inserted_all(old(self).spec_collection(), ds)
                }
            }),
    {
        proof {
            use_type_invariant(&*self);
        }
        let current_frame_index = self.current_frame_index;
        self.current_frame_index = current_frame_index + 1;
        let mut scope_deltas: Vec<Arc<ScopeDetails>> = Vec::new();
        std::mem::swap(&mut scope_deltas, &mut self.new_scopes);
        let ghost k = scope_deltas@.len();
        let mut current_frame_scope = Vec::new();
        std::mem::swap(&mut current_frame_scope, &mut self.current_frame);
        let propagate_full_delta = self.propagate_all_scope_details;
        self.propagate_all_scope_details = false;
        proof {
            assert(details_views(self.new_scopes@) =~= Seq::<ScopeDetailsView>::empty());
        }
        if propagate_full_delta {
            let all = self.scope_collection.scopes_by_id();
            let ghost start = scope_deltas@;
            let mut i: usize = 0;
            while i < all.len()
                invariant
                    0 <= i <= all@.len(),
                    scope_deltas@ == start + all@.take(i as int),
                decreases all@.len() - i,
            {
                scope_deltas.push(arc_clone(&all[i]));
                proof {
                    assert(all@.take(i + 1) =~= all@.take(i as int).push(all@[i as int]));
                }
                i = i + 1;
            }
            proof {
                assert(all@.take(all@.len() as int) =~= all@);
                assert(scope_deltas@.skip(k as int) =~= all@);
                let v = details_views(scope_deltas@);
                assert forall|j: int| 0 <= j < v.len() implies (#[trigger] v[j]).scope_id is Some by {
                    if j >= k {
                        assert(scope_deltas@[j] == all@[j - k]);
                    } else {
                        assert(v[j] == details_views(start)[j]);
                    }
                }
                assert(details_views(scope_deltas@).take(k as int) =~= details_views(start));
            }
        } else {
            proof {
                assert(details_views(scope_deltas@).take(k as int) =~= details_views(scope_deltas@));
            }
        }
        match UnpackedFrameData::new(current_frame_index, current_frame_scope) {
            Ok(unpacked) => {
                self.add_frame(scope_deltas.as_slice());
                Some(NewFrame { unpacked, scope_delta: scope_deltas, full_delta: propagate_full_delta })
            },
            Err(_) => None,
        }
    }

    /// Whether the current frame can be closed with [`Self::new_frame`]: the frame
    /// index can count up, and the sizes of the streams add up within a `usize`.
    pub fn can_close_frame(&self) -> (r: bool)
        ensures
            r == (self.spec_frame_index() < u64::MAX && sum_bytes(
                self.spec_current_frame(),
                self.spec_current_frame().len() as int,
            ) <= usize::MAX && sum_scopes(
                self.spec_current_frame(),
                self.spec_current_frame().len() as int,
            ) <= usize::MAX),
    {
        if self.current_frame_index == u64::MAX {
            return false;
        }
        let ghost s = self.current_frame@;
        let n = self.current_frame.len();
        let mut bytes: usize = 0;
        let mut scopes: usize = 0;
        let mut i: usize = 0;
        while i < n
            invariant
                s == self.current_frame@,
                n == s.len(),
                0 <= i <= n,
                bytes == sum_bytes(s, i as int),
                scopes == sum_scopes(s, i as int),
            decreases n - i,
        {
            let info = &self.current_frame[i].1;
            proof {
                lemma_sums_monotone(s, i + 1, n as int);
            }
            match bytes.checked_add(info.stream.len()) {
                Some(b) => bytes = b,
                None => return false,
            }
            match scopes.checked_add(info.num_scopes) {
                Some(c) => scopes = c,
                None => return false,
            }
            i = i + 1;
        }
        true
    }

    /// Whether thread `info` can report `num_scopes` more scopes in the current frame
    /// without its count of scopes overflowing.
    pub fn can_report(&self, info: &ThreadInfo, num_scopes: usize) -> (r: bool)
        ensures
            r == match thread_index(frame_view(self.spec_current_frame()), info@) {
                Some(i) => self.spec_current_frame()[i].1.num_scopes + num_scopes <= usize::MAX,
                None => true,
            },
    {
        proof {
            use_type_invariant(self);
        }
        let ghost s = self.current_frame@;
        let ghost v = frame_view(s);
        proof {
            lemma_thread_index(v, info@);
        }
        let n = self.current_frame.len();
        let mut i: usize = 0;
        while i < n
            invariant
                n == s.len(),
                s == self.current_frame@,
                v == frame_view(s),
                threads_unique(s),
                0 <= i <= n,
                forall|j: int| 0 <= j < i ==> s[j].0@ != info@,
            decreases n - i,
        {
            if self.current_frame[i].0 == *info {
                proof {
                    lemma_thread_index(v, info@);
                    assert(v[i as int].0 == info@);
                    if let Some(k) = thread_index(v, info@) {
                        if k != i {
                            assert(v[k].0 == s[k].0@);
                        }
                    } else {
                        assert(v[i as int].0 != info@);
                    }
                }
                return self.current_frame[i].1.num_scopes <= usize::MAX - num_scopes;
            }
            i = i + 1;
        }
        proof {
            lemma_thread_index(v, info@);
            if let Some(k) = thread_index(v, info@) {
                assert(v[k].0 == s[k].0@);
            }
        }
        true
    }

    /// Adds the stream of a thread to the current frame, after what the thread
    /// reported before in this frame.
    fn extend_thread_stream(&mut self, info: ThreadInfo, stream: &StreamInfoRef<'_>)
        requires
            match thread_index(frame_view(old(self).spec_current_frame()), info@) {
                Some(i) => old(self).spec_current_frame()[i].1.num_scopes + stream.num_scopes
                    <= usize::MAX,
                None => true,
            },
        ensures
            frame_view(final(self).spec_current_frame()) == reported(
                frame_view(old(self).spec_current_frame()),
                info@,
                ref_summary(*stream),
            ),
            final(self).spec_frame_index() == old(self).spec_frame_index(),
            final(self).spec_new_scopes() == old(self).spec_new_scopes(),
            final(self).spec_propagate() == old(self).spec_propagate(),
            final(self).spec_collection() == old(self).spec_collection(),
            final(self).spec_next_sink_id() == old(self).spec_next_sink_id(),
    {
        proof {
            use_type_invariant(&*self);
        }
        let ghost s = self.current_frame@;
        let ghost v = frame_view(s);
        proof {
            lemma_thread_index(v, info@);
        }
        let n = self.current_frame.len();
        let mut i: usize = 0;
        while i < n
            invariant
                n == s.len(),
                s == self.current_frame@,
                v == frame_view(s),
                *self == *old(self),
                match thread_index(v, info@) {
                    Some(k) => s[k].1.num_scopes + stream.num_scopes <= usize::MAX,
                    None => true,
                },
                0 <= i <= n,
                forall|j: int| 0 <= j < i ==> s[j].0@ != info@,
            decreases n - i,
        {
            if self.current_frame[i].0 == info {
                proof {
                    use_type_invariant(&*self);
                    lemma_thread_index(v, info@);
                    assert(v[i as int].0 == info@);
                    if let Some(k) = thread_index(v, info@) {
                        if k != i {
                            assert(v[k].0 == s[k].0@);
                            assert(s[k].0@ == s[i as int].0@);
                        }
                    } else {
                        assert(v[i as int].0 != info@);
                    }
                    assert(thread_index(v, info@) == Some(i as int));
                }
                let mut frame = Vec::new();
                std::mem::swap(&mut frame, &mut self.current_frame);
                let mut entry = frame.remove(i);
                entry.1.extend(stream);
                frame.insert(i, entry);
                proof {
                    assert(frame@ =~= s.update(i as int, entry));
                    assert(frame_view(frame@) =~= reported(v, info@, ref_summary(*stream)));
                    assert forall|a: int, b: int|
                        0 <= a < frame@.len() && 0 <= b < frame@.len() && a != b implies frame@[a].0@
                        != frame@[b].0@ by {
                        assert(frame@[a].0@ == s[a].0@ && frame@[b].0@ == s[b].0@);
                    }
                }
                self.current_frame = frame;
                return ;
            }
            i = i + 1;
        }
        proof {
            use_type_invariant(&*self);
            lemma_thread_index(v, info@);
            if let Some(k) = thread_index(v, info@) {
                assert(v[k].0 == s[k].0@);
            }
            assert(thread_index(v, info@) is None);
        }
        let mut entry = StreamInfo::default();
        entry.extend(stream);
        let mut frame = Vec::new();
        std::mem::swap(&mut frame, &mut self.current_frame);
        frame.push((info, entry));
        proof {
            assert(frame_view(frame@) =~= reported(v, info@, ref_summary(*stream)));
            assert forall|a: int, b: int|
                0 <= a < frame@.len() && 0 <= b < frame@.len() && a != b implies frame@[a].0@
                != frame@[b].0@ by {
                if a < s.len() && b < s.len() {
                    assert(frame@[a] == s[a] && frame@[b] == s[b]);
                } else if a < s.len() {
                    assert(frame@[a] == s[a]);
                } else {
                    assert(frame@[b] == s[b]);
                }
            }
        }
        self.current_frame = frame;
    }
}

} // verus!
