//! Statistics over the frames kept for viewing.
use crate::frame_data::PackingInfo;
use vstd::prelude::*;

verus! {

/// The RAM used by a frame and whether it is unpacked (1) or not (0).
pub open spec fn spec_stats_entry(info: PackingInfo) -> (int, int) {
    (
        (match info.packed_size {
            Some(n) => n as int,
            None => 0,
        }) + (match info.unpacked_size {
            Some(n) => n as int,
            None => 0,
        }),
        if info.unpacked_size is Some {
            1
        } else {
            0
        },
    )
}

fn stats_entry(info: &PackingInfo) -> (r: (usize, usize))
    requires
        spec_stats_entry(*info).0 <= usize::MAX,
    ensures
        r.0 == spec_stats_entry(*info).0,
        r.1 == spec_stats_entry(*info).1,
{
    let packed = match info.packed_size {
        Some(n) => n,
        None => 0,
    };
    let unpacked = match info.unpacked_size {
        Some(n) => n,
        None => 0,
    };
    (packed + unpacked, if info.unpacked_size.is_some() {
        1
    } else {
        0
    })
}

/// Collect statistics for maintained frames.
#[derive(Clone, Copy, Debug)]
pub struct FrameStats {
    unique_frames: usize,
    total_ram_used: usize,
    unpacked_frames: usize,
}

/// `a + b`, or `usize::MAX` where that does not fit.
pub open spec fn sat_add(a: int, b: int) -> int {
    if a + b > usize::MAX {
        usize::MAX as int
    } else {
        a + b
    }
}

/// `a - b`, or zero where that is negative.
pub open spec fn sat_sub(a: int, b: int) -> int {
    if a - b < 0 {
        0
    } else {
        a - b
    }
}

impl View for FrameStats {
    /// Unique frames, total RAM used, unpacked frames.
    type V = (int, int, int);

    closed spec fn view(&self) -> (int, int, int) {
        (self.unique_frames as int, self.total_ram_used as int, self.unpacked_frames as int)
    }
}

/// The statistics after adding a frame with the given packing info.
pub open spec fn spec_stats_add(s: (int, int, int), info: PackingInfo) -> (int, int, int) {
    (
        sat_add(s.0, 1),
        sat_add(s.1, spec_stats_entry(info).0),
        sat_add(s.2, spec_stats_entry(info).1),
    )
}

/// The statistics after removing a frame with the given packing info.
pub open spec fn spec_stats_remove(s: (int, int, int), info: PackingInfo) -> (int, int, int) {
    (
        sat_sub(s.0, 1),
        sat_sub(s.1, spec_stats_entry(info).0),
        sat_sub(s.2, spec_stats_entry(info).1),
    )
}

/// The statistics of the first `n` frames of `infos`.
pub open spec fn spec_stats_of(infos: Seq<PackingInfo>, n: int) -> (int, int, int)
    decreases n,
{
    if n <= 0 {
        (0, 0, 0)
    } else {
        spec_stats_add(spec_stats_of(infos, n - 1), infos[n - 1])
    }
}

impl Default for FrameStats {
    fn default() -> (r: Self)
        ensures
            r@ == (0int, 0int, 0int),
    {
        FrameStats { unique_frames: 0, total_ram_used: 0, unpacked_frames: 0 }
    }
}

impl FrameStats {
    /// The statistics of the given frames, given by their packing information.
    pub fn from_frames(infos: &[PackingInfo]) -> (r: Self)
        requires
            forall|i: int| 0 <= i < infos@.len() ==> spec_stats_entry(#[trigger] infos@[i]).0 <= usize::MAX,
        ensures
            r@ == spec_stats_of(infos@, infos@.len() as int),
    {
        let mut stats = FrameStats::default();
        let mut i: usize = 0;
        while i < infos.len()
            invariant
                0 <= i <= infos@.len(),
                forall|i: int| 0 <= i < infos@.len() ==> spec_stats_entry(#[trigger] infos@[i]).0 <= usize::MAX,
                stats@ == spec_stats_of(infos@, i as int),
            decreases infos@.len() - i,
        {
            stats.add(&infos[i]);
            i = i + 1;
        }
        stats
    }

    /// Adds a frame's statistics.
    pub fn add(&mut self, info: &PackingInfo)
        requires
            spec_stats_entry(*info).0 <= usize::MAX,
        ensures
            final(self)@ == spec_stats_add(old(self)@, *info),
    {
        let (total, unpacked) = stats_entry(info);
        self.total_ram_used = self.total_ram_used.saturating_add(total);
        self.unpacked_frames = self.unpacked_frames.saturating_add(unpacked);
        self.unique_frames = self.unique_frames.saturating_add(1);
    }

    /// Removes a frame's statistics.
    pub fn remove(&mut self, info: &PackingInfo)
        requires
            spec_stats_entry(*info).0 <= usize::MAX,
        ensures
            final(self)@ == spec_stats_remove(old(self)@, *info),
    {
        let (total, unpacked) = stats_entry(info);
        self.total_ram_used = self.total_ram_used.saturating_sub(total);
        self.unpacked_frames = self.unpacked_frames.saturating_sub(unpacked);
        self.unique_frames = self.unique_frames.saturating_sub(1);
    }

    /// Returns the number of unique frames.
    pub fn frames(&self) -> (r: usize)
        ensures
            r == self@.0,
    {
        self.unique_frames
    }

    /// Returns the number of unpacked frames.
    pub fn unpacked_frames(&self) -> (r: usize)
        ensures
            r == self@.2,
    {
        self.unpacked_frames
    }

    /// Returns the total bytes of RAM used.
    pub fn bytes_of_ram_used(&self) -> (r: usize)
        ensures
            r == self@.1,
    {
        self.total_ram_used
    }

    /// Clears all statistics.
    pub fn clear(&mut self)
        ensures
            final(self)@ == (0int, 0int, 0int),
    {
        self.unique_frames = 0;
        self.unpacked_frames = 0;
        self.total_ram_used = 0;
    }
}

/// The number of the first `n` frames of `infos` that hold unpacked data.
pub open spec fn unpacked_count(infos: Seq<PackingInfo>, n: int) -> int
    decreases n,
{
    if n <= 0 {
        0
    } else {
        unpacked_count(infos, n - 1) + match infos[n - 1].unpacked_size {
            Some(_) => 1int,
            None => 0int,
        }
    }
}

/// The bytes that the first `n` frames of `infos` hold, packed and unpacked.
pub open spec fn bytes_held(infos: Seq<PackingInfo>, n: int) -> int
    decreases n,
{
    if n <= 0 {
        0
    } else {
        bytes_held(infos, n - 1) + match infos[n - 1].packed_size {
            Some(b) => b as int,
            None => 0int,
        } + match infos[n - 1].unpacked_size {
            Some(b) => b as int,
            None => 0int,
        }
    }
}

proof fn lemma_counts_monotone(infos: Seq<PackingInfo>, n: int, m: int)
    requires
        0 <= n <= m,
    ensures
        unpacked_count(infos, n) <= unpacked_count(infos, m) <= m,
        0 <= bytes_held(infos, n) <= bytes_held(infos, m),
    decreases m - n,
{
    if n < m {
        lemma_counts_monotone(infos, n, m - 1);
    } else {
        lemma_counts_bounded(infos, n);
    }
}

proof fn lemma_counts_bounded(infos: Seq<PackingInfo>, n: int)
    requires
        0 <= n,
    ensures
        0 <= unpacked_count(infos, n) <= n,
        0 <= bytes_held(infos, n),
    decreases n,
{
    if n > 0 {
        lemma_counts_bounded(infos, n - 1);
    }
}

/// The statistics of some frames count each frame once, the bytes each holds packed
/// and unpacked, and, as unpacked, exactly the frames that hold unpacked data; as
/// long as these totals fit in a `usize`.
pub proof fn law_stats_of_frames(infos: Seq<PackingInfo>)
    requires
        infos.len() <= usize::MAX,
        bytes_held(infos, infos.len() as int) <= usize::MAX,
    ensures
        spec_stats_of(infos, infos.len() as int) == (
            infos.len() as int,
            bytes_held(infos, infos.len() as int),
            unpacked_count(infos, infos.len() as int),
        ),
{
    lemma_stats_of_prefix(infos, infos.len() as int);
}

proof fn lemma_stats_of_prefix(infos: Seq<PackingInfo>, n: int)
    requires
        0 <= n <= infos.len(),
        infos.len() <= usize::MAX,
        bytes_held(infos, infos.len() as int) <= usize::MAX,
    ensures
        spec_stats_of(infos, n) == (n, bytes_held(infos, n), unpacked_count(infos, n)),
    decreases n,
{
    if n > 0 {
        lemma_stats_of_prefix(infos, n - 1);
        lemma_counts_monotone(infos, n, infos.len() as int);
        lemma_counts_bounded(infos, n - 1);
    }
}

/// Adding a frame counts one more frame, its packed and unpacked bytes, and one
/// more unpacked frame exactly when it holds unpacked data; removing it again takes
/// the same away, as long as nothing saturates.
pub proof fn law_add_counts_frame(s: FrameStats, info: PackingInfo)
    requires
        s@.0 + 1 <= usize::MAX,
        s@.1 + spec_stats_entry(info).0 <= usize::MAX,
        s@.2 + 1 <= usize::MAX,
    ensures
        ({
            let sizes = (match info.packed_size {
                Some(b) => b as int,
                None => 0int,
            }) + (match info.unpacked_size {
                Some(b) => b as int,
                None => 0int,
            });
            let unpacked = if info.unpacked_size is Some {
                1int
            } else {
                0int
            };
            &&& spec_stats_add(s@, info) == (s@.0 + 1, s@.1 + sizes, s@.2 + unpacked)
            &&& spec_stats_remove(spec_stats_add(s@, info), info) == s@
        }),
{
    lemma_stats_bounds(s);
}

/// The counts of statistics are never negative, and fit in a `usize`.
pub proof fn lemma_stats_bounds(s: FrameStats)
    ensures
        0 <= s@.0 <= usize::MAX,
        0 <= s@.1 <= usize::MAX,
        0 <= s@.2 <= usize::MAX,
{
}

/// Removing a frame undoes adding it, as long as no count saturated.
pub proof fn law_remove_undoes_add(s: FrameStats, info: PackingInfo)
    requires
        s@.0 + 1 <= usize::MAX,
        s@.1 + spec_stats_entry(info).0 <= usize::MAX,
        s@.2 + spec_stats_entry(info).1 <= usize::MAX,
        spec_stats_entry(info).0 <= usize::MAX,
    ensures
        spec_stats_remove(spec_stats_add(s@, info), info) == s@,
{
    assert(s@.0 >= 0 && s@.1 >= 0 && s@.2 >= 0);
}

} // verus!
