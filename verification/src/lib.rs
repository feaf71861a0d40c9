//! An instrumentation profiler: per-thread byte streams of nested scopes,
//! their parsing, frame bookkeeping and merging of scopes across frames.
use vstd::prelude::*;

pub mod assoc;
pub mod clients;
pub mod data;
pub mod data_header;
pub mod filter;
pub mod frame_data;
pub mod frame_format;
pub mod frame_view;
pub mod global_profiler;
pub mod grid_spacing;
pub mod le;
pub mod merge;
pub mod profile_view;
pub mod protocol;
pub mod scope_details;
pub mod stats;
pub mod text;
pub mod thread_order;
pub mod thread_profiler;
pub mod utils;

pub use data::{Error, Reader, Result, Scope, ScopeRecord, Stream, StreamInfo, StreamInfoRef};
pub use data_header::DataHeader;
pub use frame_data::{FrameMeta, PackingInfo, UnpackedFrameData};
pub use frame_view::{select_slowest, FrameKey, FrameView};
pub use global_profiler::{GlobalProfiler, NewFrame};
pub use merge::{merge_scopes_for_thread, MergeScope};
pub use profile_view::FrameStats;
pub use scope_details::{ScopeCollection, ScopeDetails, ScopeType};
pub use thread_profiler::{ThreadInfo, ThreadProfiler};
pub use utils::{clean_function_name, short_file_name, shorten_rust_function_name};

verus! {

/// All times are expressed as integer nanoseconds since some event.
pub type NanoSecond = i64;

/// An incremental monolithic counter to identify frames.
pub type FrameIndex = u64;

/// A unique id for each scope and its details. Never zero.
#[derive(Clone, Copy, Debug, PartialEq, Eq, Structural, Hash, PartialOrd, Ord)]
pub struct ScopeId(u32);

impl View for ScopeId {
    type V = u32;

    closed spec fn view(&self) -> u32 {
        self.0
    }
}

impl ScopeId {
    #[verifier::type_invariant]
    spec fn is_nonzero(self) -> bool {
        self.0 != 0
    }

    /// Creates a scope id from a non-zero integer.
    pub fn new(id: u32) -> (r: ScopeId)
        requires
            id != 0,
        ensures
            r@ == id,
    {
        ScopeId(id)
    }

    /// The integer value of this id, which is never zero.
    pub fn get(&self) -> (r: u32)
        ensures
            r == self@,
            r != 0,
    {
        proof {
            use_type_invariant(self);
        }
        self.0
    }
}

/// Identifies a specific frame sink when added to the global profiler.
#[derive(Clone, Copy, Debug, Hash, PartialEq, Eq, Structural)]
pub struct FrameSinkId(pub u64);

/// Another pointer to the same shared value (`Arc::clone`).
#[verifier::external_body]
pub(crate) fn arc_clone<T>(a: &std::sync::Arc<T>) -> (r: std::sync::Arc<T>)
    ensures
        r == *a,
{
    std::sync::Arc::clone(a)
}

} // verus!
