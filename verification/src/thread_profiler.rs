//! Collects the profile stream of one thread and decides when to report it.
use crate::data::{
    is_empty_info, scope_tail, size_field_offset, StreamInfo, HEADER_BEFORE_DATA,
    MAX_STRING_LENGTH, SCOPE_FOOTER_LEN,
};
use crate::le::le_bytes_u64;
use crate::scope_details::{ScopeDetails, ScopeDetailsView};
use crate::{NanoSecond, ScopeId};
use vstd::prelude::*;
use vstd::string::StringSliceAdditionalSpecFns;

verus! {

/// Used to identify one source of profiling data.
#[derive(Debug, Hash, PartialOrd, Ord)]
pub struct ThreadInfo {
    /// Useful for ordering threads.
    pub start_time_ns: Option<NanoSecond>,
    /// Name of the thread
    pub name: String,
}

impl View for ThreadInfo {
    type V = (Option<NanoSecond>, Seq<char>);

    open spec fn view(&self) -> (Option<NanoSecond>, Seq<char>) {
        (self.start_time_ns, self.name@)
    }
}

impl PartialEq for ThreadInfo {
    fn eq(&self, other: &Self) -> (r: bool) {
        let same_start = match (self.start_time_ns, other.start_time_ns) {
            (Some(a), Some(b)) => a == b,
            (None, None) => true,
            _ => false,
        };
        same_start && self.name.eq(&other.name)
    }
}

impl vstd::std_specs::cmp::PartialEqSpecImpl for ThreadInfo {
    open spec fn obeys_eq_spec() -> bool {
        true
    }

    open spec fn eq_spec(&self, other: &ThreadInfo) -> bool {
        self@ == other@
    }
}

impl Eq for ThreadInfo {}

impl Clone for ThreadInfo {
    fn clone(&self) -> (r: Self)
        ensures
            r@ == self@,
    {
        ThreadInfo { start_time_ns: self.start_time_ns, name: self.name.clone() }
    }
}


/// What a thread hands on when its outermost scope closes: the details of the
/// scopes registered since the last report, and the stream with its info.
pub struct ThreadReport {
    /// When the first scope of this thread started.
    pub start_time_ns: Option<NanoSecond>,
    /// Scopes registered since the last report.
    pub scope_details: Vec<ScopeDetails>,
    /// The profile stream since the last report.
    pub stream_info: StreamInfo,
}

/// What closing a scope did.
pub struct EndScope {
    /// The scope was closed without a matching open scope.
    pub mismatched: bool,
    /// No scope is open any more: the collected data to report.
    pub report: Option<ThreadReport>,
}

/// Collects profiling data for one thread.
pub struct ThreadProfiler {
    stream_info: StreamInfo,
    scope_details: Vec<ScopeDetails>,
    /// Current depth.
    depth: usize,
    start_time_ns: Option<NanoSecond>,
}

impl ThreadProfiler {
    /// The stream collected so far.
    pub closed spec fn spec_stream_info(&self) -> StreamInfo {
        self.stream_info
    }

    /// The details registered since the last report.
    pub closed spec fn spec_details(&self) -> Seq<ScopeDetailsView> {
        self.scope_details@.map_values(|d: ScopeDetails| d@)
    }

    /// The number of open scopes.
    pub closed spec fn spec_depth(&self) -> int {
        self.depth as int
    }

    /// When the first scope of this thread started.
    pub closed spec fn spec_start_time_ns(&self) -> Option<NanoSecond> {
        self.start_time_ns
    }

    /// The number of bytes of the stream collected so far.
    pub fn stream_len(&self) -> (r: usize)
        ensures
            r == self.spec_stream_info().stream@.len(),
    {
        self.stream_info.stream.len()
    }

    /// The number of scopes closed since the last report.
    pub fn num_scopes(&self) -> (r: usize)
        ensures
            r == self.spec_stream_info().num_scopes,
    {
        self.stream_info.num_scopes
    }

    /// How many scopes are open.
    pub fn depth(&self) -> (r: usize)
        ensures
            r == self.spec_depth(),
    {
        self.depth
    }

    /// A profiler with nothing collected and no open scope.
    pub fn new() -> (r: Self)
        ensures
            is_empty_info(r.spec_stream_info()),
            r.spec_details() == Seq::<ScopeDetailsView>::empty(),
            r.spec_depth() == 0,
            r.spec_start_time_ns() is None,
    {
        let r = ThreadProfiler {
            stream_info: StreamInfo::default(),
            scope_details: Vec::new(),
            depth: 0,
            start_time_ns: None,
        };
        proof {
            assert(r.spec_details() =~= Seq::<ScopeDetailsView>::empty());
        }
        r
    }

    /// Registers a function scope under a fresh id.
    pub fn register_function_scope(
        &mut self,
        new_id: ScopeId,
        function_name: &str,
        file_path: &str,
        line_nr: u32,
    ) -> (r: ScopeId)
        ensures
            r == new_id,
            final(self).spec_details() == old(self).spec_details().push(
                ScopeDetailsView {
                    scope_id: Some(new_id@),
                    scope_name: None,
                    function_name: function_name@,
                    file_path: file_path@,
                    line_nr,
                },
            ),
            final(self).spec_stream_info() == old(self).spec_stream_info(),
            final(self).spec_depth() == old(self).spec_depth(),
            final(self).spec_start_time_ns() == old(self).spec_start_time_ns(),
    {
        let details = ScopeDetails::from_scope_id(new_id).with_function_name(
            function_name,
        ).with_file(file_path).with_line_nr(line_nr);
        self.scope_details.push(details);
        proof {
            assert(self.spec_details() =~= old(self).spec_details().push(details@));
        }
        new_id
    }

    /// Registers a named scope under a fresh id.
    pub fn register_named_scope(
        &mut self,
        new_id: ScopeId,
        scope_name: &str,
        function_name: &str,
        file_path: &str,
        line_nr: u32,
    ) -> (r: ScopeId)
        ensures
            r == new_id,
            final(self).spec_details() == old(self).spec_details().push(
                ScopeDetailsView {
                    scope_id: Some(new_id@),
                    scope_name: Some(scope_name@),
                    function_name: function_name@,
                    file_path: file_path@,
                    line_nr,
                },
            ),
            final(self).spec_stream_info() == old(self).spec_stream_info(),
            final(self).spec_depth() == old(self).spec_depth(),
            final(self).spec_start_time_ns() == old(self).spec_start_time_ns(),
    {
        let details = ScopeDetails::from_scope_id(new_id).with_scope_name(scope_name).with_function_name(
            function_name,
        ).with_file(file_path).with_line_nr(line_nr);
        self.scope_details.push(details);
        proof {
            assert(self.spec_details() =~= old(self).spec_details().push(details@));
        }
        new_id
    }

    /// Marks the beginning of the scope, taking the start time from `now_ns` after
    /// the scope header is written. Returns the position where to write the scope
    /// size once the scope is closed.
    pub fn begin_scope<F: Fn() -> NanoSecond>(
        &mut self,
        now_ns: F,
        scope_id: ScopeId,
        data: &str,
    ) -> (r: usize)
        requires
            now_ns.requires(()),
            old(self).spec_depth() < usize::MAX,
            old(self).spec_stream_info().stream@.len() + HEADER_BEFORE_DATA + MAX_STRING_LENGTH + 8
                <= usize::MAX,
        ensures
            final(self).spec_depth() == old(self).spec_depth() + 1,
            final(self).spec_details() == old(self).spec_details(),
            r == size_field_offset(
                old(self).spec_stream_info().stream@.len() as int,
                data.spec_bytes(),
            ),
            exists|start_ns: NanoSecond|
                {
                    &&& now_ns.ensures((), start_ns)
                    &&& final(self).spec_stream_info().stream@ == old(
                        self,
                    ).spec_stream_info().stream@ + crate::data::scope_head(
                        scope_id@,
                        start_ns,
                        data.spec_bytes(),
                        u64::MAX,
                    )
                    &&& final(self).spec_stream_info().range_ns.0 == if start_ns < old(
                        self,
                    ).spec_stream_info().range_ns.0 {
                        start_ns
                    } else {
                        old(self).spec_stream_info().range_ns.0
                    }
                    &&& final(self).spec_start_time_ns() == Some(
                        match old(self).spec_start_time_ns() {
                            Some(t) => t,
                            None => start_ns,
                        },
                    )
                },
            final(self).spec_stream_info().range_ns.1 == old(self).spec_stream_info().range_ns.1,
            final(self).spec_stream_info().num_scopes == old(self).spec_stream_info().num_scopes,
            final(self).spec_stream_info().depth == old(self).spec_stream_info().depth,
    {
        self.depth = self.depth + 1;
        let (offset, start_ns) = self.stream_info.stream.begin_scope(now_ns, scope_id, data);
        if start_ns < self.stream_info.range_ns.0 {
            self.stream_info.range_ns.0 = start_ns;
        }
        self.start_time_ns = Some(
            match self.start_time_ns {
                Some(t) => t,
                None => start_ns,
            },
        );
        offset
    }

    /// Marks the end of the scope opened at `start_offset`, at time `now_ns`. When no
    /// scope is open any more, the collected details and stream are handed out to be
    /// reported, and the profiler starts afresh.
    pub fn end_scope(&mut self, start_offset: usize, now_ns: NanoSecond) -> (r: EndScope)
        requires
            start_offset + 8 <= old(self).spec_stream_info().stream@.len(),
            old(self).spec_stream_info().stream@.len() + SCOPE_FOOTER_LEN <= usize::MAX,
            old(self).spec_stream_info().num_scopes < usize::MAX,
        ensures
            ({
                let old_info = old(self).spec_stream_info();
                let s = old_info.stream@;
                let closed = s.subrange(0, start_offset as int) + le_bytes_u64(
                    (s.len() - (start_offset + 8)) as u64,
                ) + s.subrange(start_offset + 8, s.len() as int) + scope_tail(now_ns);
                let new_depth = if old(self).spec_depth() > 0 {
                    old(self).spec_depth() - 1
                } else {
                    0
                };
                let stats_depth = if old_info.depth < old(self).spec_depth() {
                    old(self).spec_depth()
                } else {
                    old_info.depth as int
                };
                let stop = if old_info.range_ns.1 < now_ns {
                    now_ns
                } else {
                    old_info.range_ns.1
                };
                &&& r.mismatched == (old(self).spec_depth() == 0)
                &&& final(self).spec_depth() == new_depth
                &&& if new_depth == 0 {
                    &&& r.report matches Some(rep)
                    &&& rep.start_time_ns == old(self).spec_start_time_ns()
                    &&& rep.scope_details@.map_values(|d: ScopeDetails| d@) == old(
                        self,
                    ).spec_details()
                    &&& rep.stream_info.stream@ == closed
                    &&& rep.stream_info.num_scopes == old_info.num_scopes + 1
                    &&& rep.stream_info.depth == stats_depth
                    &&& rep.stream_info.range_ns == (old_info.range_ns.0, stop)
                    &&& is_empty_info(final(self).spec_stream_info())
                    &&& final(self).spec_details() == Seq::<ScopeDetailsView>::empty()
                    &&& final(self).spec_start_time_ns() == old(self).spec_start_time_ns()
                } else {
                    &&& r.report is None
                    &&& final(self).spec_stream_info().stream@ == closed
                    &&& final(self).spec_stream_info().num_scopes == old_info.num_scopes + 1
                    &&& final(self).spec_stream_info().depth == stats_depth
                    &&& final(self).spec_stream_info().range_ns == (old_info.range_ns.0, stop)
                    &&& final(self).spec_details() == old(self).spec_details()
                    &&& final(self).spec_start_time_ns() == old(self).spec_start_time_ns()
                }
            }),
    {
        if self.stream_info.depth < self.depth {
            self.stream_info.depth = self.depth;
        }
        self.stream_info.num_scopes = self.stream_info.num_scopes + 1;
        if self.stream_info.range_ns.1 < now_ns {
            self.stream_info.range_ns.1 = now_ns;
        }
        let mismatched = if self.depth > 0 {
            self.depth = self.depth - 1;
            false
        } else {
            true
        };
        self.stream_info.stream.end_scope(start_offset, now_ns);
        if self.depth == 0 {
            // No open scopes: a good time to report the stream.
            let mut stream_info = StreamInfo::default();
            std::mem::swap(&mut stream_info, &mut self.stream_info);
            let mut scope_details: Vec<ScopeDetails> = Vec::new();
            std::mem::swap(&mut scope_details, &mut self.scope_details);
            proof {
                assert(self.spec_details() =~= Seq::<ScopeDetailsView>::empty());
            }
            EndScope {
                mismatched,
                report: Some(
                    ThreadReport { start_time_ns: self.start_time_ns, scope_details, stream_info },
                ),
            }
        } else {
            EndScope { mismatched, report: None }
        }
    }
}

} // verus!
