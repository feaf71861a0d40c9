//! A view of recent and slowest frames, as GUIs show them. The frames themselves
//! are carried as opaque payloads; the view orders them by their index and duration.
use crate::frame_data::PackingInfo;
use crate::global_profiler::{details_views, inserted_all, all_have_ids};
use crate::profile_view::{lemma_stats_bounds, spec_stats_add, spec_stats_entry, spec_stats_remove, FrameStats};
use crate::scope_details::{ScopeCollection, ScopeDetails, ScopeDetailsView, ScopeTypeView};
use crate::{arc_clone, FrameIndex, NanoSecond};
use std::sync::Arc;
use vstd::prelude::*;

verus! {

/// What a frame is ordered by.
#[derive(Clone, Copy, Debug, PartialEq, Eq, Structural)]
pub struct FrameKey {
    /// The index of the frame.
    pub frame_index: FrameIndex,
    /// How long the frame took.
    pub duration_ns: NanoSecond,
}

/// Chronological order: by index, then by duration.
pub open spec fn earlier(a: FrameKey, b: FrameKey) -> bool {
    a.frame_index < b.frame_index || (a.frame_index == b.frame_index && a.duration_ns < b.duration_ns)
}

/// Slowest-first order: by duration, longest first, then by index.
pub open spec fn slower(a: FrameKey, b: FrameKey) -> bool {
    a.duration_ns > b.duration_ns || (a.duration_ns == b.duration_ns && a.frame_index < b.frame_index)
}

/// The index of the fastest of `s`: the last one in slowest-first order.
pub open spec fn fastest_index<T>(s: Seq<(FrameKey, T)>) -> int
    decreases s.len(),
{
    if s.len() <= 1 {
        0
    } else if slower(s[fastest_index(s.drop_last())].0, s.last().0) {
        s.len() - 1
    } else {
        fastest_index(s.drop_last())
    }
}

/// The first place in `s` (in chronological order) whose key comes after `k`.
pub open spec fn chrono_place<T>(s: Seq<(FrameKey, T)>, k: FrameKey) -> int
    decreases s.len(),
{
    if s.len() == 0 {
        0
    } else if earlier(k, s[0].0) {
        0
    } else {
        1 + chrono_place(s.drop_first(), k)
    }
}

/// Whether a frame with key `k` is among `s`.
pub open spec fn has_key<T>(s: Seq<(FrameKey, T)>, k: FrameKey) -> bool {
    exists|i: int| 0 <= i < s.len() && s[i].0 == k
}

/// `s`, kept in chronological order, with the frame `e` added unless one with its key
/// is there already.
pub open spec fn insert_chrono<T>(s: Seq<(FrameKey, T)>, e: (FrameKey, T)) -> Seq<(FrameKey, T)> {
    if has_key(s, e.0) {
        s
    } else {
        s.insert(chrono_place(s, e.0), e)
    }
}

/// `s` with the fastest frames removed, one at a time, until at most `max` are left.
pub open spec fn trim_fastest<T>(s: Seq<(FrameKey, T)>, max: int) -> Seq<(FrameKey, T)>
    decreases s.len(),
{
    if s.len() <= max || s.len() == 0 {
        s
    } else {
        proof {
            lemma_fastest_index(s);
        }
        trim_fastest(s.remove(fastest_index(s)), max)
    }
}

/// The frames that [`trim_fastest`] removes, in the order it removes them.
pub open spec fn trimmed_fastest<T>(s: Seq<(FrameKey, T)>, max: int) -> Seq<(FrameKey, T)>
    decreases s.len(),
{
    if s.len() <= max || s.len() == 0 {
        Seq::empty()
    } else {
        proof {
            lemma_fastest_index(s);
        }
        seq![s[fastest_index(s)]] + trimmed_fastest(s.remove(fastest_index(s)), max)
    }
}

/// The last `max` frames of `s` (all of them, for fewer).
pub open spec fn keep_newest<T>(s: Seq<(FrameKey, T)>, max: int) -> Seq<(FrameKey, T)> {
    if s.len() <= max {
        s
    } else {
        s.skip(s.len() - max)
    }
}

/// The fastest of a non-empty sequence lies in it.
pub proof fn lemma_fastest_index<T>(s: Seq<(FrameKey, T)>)
    requires
        s.len() > 0,
    ensures
        0 <= fastest_index(s) < s.len(),
    decreases s.len(),
{
    if s.len() > 1 {
        lemma_fastest_index(s.drop_last());
    }
}

/// Whether a new frame with key `k` joins the slowest frames `slow`: while there is
/// room, or when it is slower than the fastest of them.
pub open spec fn joins_slowest<T>(slow: Seq<(FrameKey, T)>, k: FrameKey, max_slow: int) -> bool {
    if slow.len() < max_slow {
        true
    } else if slow.len() > 0 {
        k.duration_ns > slow[fastest_index(slow)].0.duration_ns
    } else {
        false
    }
}

/// Merges two chronologically sorted sequences, taking from `a` first on ties.
pub open spec fn merge_chrono<T>(a: Seq<(FrameKey, T)>, b: Seq<(FrameKey, T)>) -> Seq<(FrameKey, T)>
    decreases a.len() + b.len(),
{
    if a.len() == 0 {
        b
    } else if b.len() == 0 {
        a
    } else if earlier(b[0].0, a[0].0) {
        seq![b[0]] + merge_chrono(a, b.drop_first())
    } else {
        seq![a[0]] + merge_chrono(a.drop_first(), b)
    }
}

/// `s` without the frames whose key equals the key of the frame just before.
pub open spec fn dedup_keys<T>(s: Seq<(FrameKey, T)>) -> Seq<(FrameKey, T)>
    decreases s.len(),
{
    if s.len() <= 1 {
        s
    } else if s[s.len() - 2].0 == s.last().0 {
        dedup_keys(s.drop_last())
    } else {
        dedup_keys(s.drop_last()).push(s.last())
    }
}

/// The frames of `removed` whose key none of `others` has, in order.
pub open spec fn missing<T>(removed: Seq<(FrameKey, T)>, others: Seq<(FrameKey, T)>) -> Seq<(FrameKey, T)>
    decreases removed.len(),
{
    if removed.len() == 0 {
        Seq::empty()
    } else if has_key(others, removed.last().0) {
        missing(removed.drop_last(), others)
    } else {
        missing(removed.drop_last(), others).push(removed.last())
    }
}

/// The statistics `s` after removing frames with the packing infos `infos`, in order.
pub open spec fn removed_all(s: (int, int, int), infos: Seq<PackingInfo>) -> (int, int, int)
    decreases infos.len(),
{
    if infos.len() == 0 {
        s
    } else {
        spec_stats_remove(removed_all(s, infos.drop_last()), infos.last())
    }
}

/// The statistics went from `before` to `after` by removing each of the frames
/// `gone`, with the packing info that `info_of` returned for it.
pub open spec fn removed_frames<T, F: Fn(&T) -> PackingInfo>(
    before: (int, int, int),
    after: (int, int, int),
    info_of: &F,
    gone: Seq<(FrameKey, T)>,
) -> bool {
    exists|infos: Seq<PackingInfo>| #[trigger] infos_of(info_of, gone, infos) && after == removed_all(before, infos)
}

/// `infos` are what `info_of` returned for each of `frames`.
pub open spec fn infos_of<T, F: Fn(&T) -> PackingInfo>(
    info_of: &F,
    frames: Seq<(FrameKey, T)>,
    infos: Seq<PackingInfo>,
) -> bool {
    &&& infos.len() == frames.len()
    &&& forall|k: int| 0 <= k < frames.len() ==> info_of.ensures((&frames[k].1,), #[trigger] infos[k])
}

/// The frames that [`keep_newest`] drops, oldest first.
pub open spec fn dropped_oldest<T>(s: Seq<(FrameKey, T)>, max: int) -> Seq<(FrameKey, T)> {
    if s.len() <= max {
        Seq::empty()
    } else {
        s.take(s.len() - max)
    }
}

/// The closure `info_of` can be called on any frame, and what it returns can be
/// counted in the statistics.
pub open spec fn info_ok<T, F: Fn(&T) -> PackingInfo>(info_of: &F) -> bool {
    &&& forall|t: &T| #[trigger] info_of.requires((t,))
    &&& forall|t: &T, i: PackingInfo| #[trigger] info_of.ensures((t,), i) ==> spec_stats_entry(i).0 <= usize::MAX
}

/// A view of recent and slowest frames, used by GUIs.
pub struct FrameView<T> {
    /// Oldest first.
    recent: Vec<(FrameKey, T)>,
    max_recent: usize,
    /// In chronological order.
    slowest: Vec<(FrameKey, T)>,
    max_slow: usize,
    /// Minimizes memory usage at the expense of CPU time.
    pack_frames: bool,
    /// Maintained as frames are added and removed; covers every frame kept.
    stats: FrameStats,
    /// The packing info with which the newest frame was counted in `stats`.
    newest_info: CountedInfo,
    scope_collection: ScopeCollection,
}

/// A packing info as the statistics counted it: its size fits a `usize`.
struct CountedInfo {
    info: PackingInfo,
}

impl CountedInfo {
    #[verifier::type_invariant]
    spec fn fits(self) -> bool {
        spec_stats_entry(self.info).0 <= usize::MAX
    }

    fn new(info: PackingInfo) -> (r: Self)
        requires
            spec_stats_entry(info).0 <= usize::MAX,
        ensures
            r.info == info,
    {
        CountedInfo { info }
    }

    fn get(&self) -> (r: PackingInfo)
        ensures
            r == self.info,
            spec_stats_entry(r).0 <= usize::MAX,
    {
        proof {
            use_type_invariant(self);
        }
        self.info
    }
}

impl<T> FrameView<T> {
    /// The packing info with which the newest frame was counted in the statistics.
    pub closed spec fn spec_newest_info(&self) -> PackingInfo {
        self.newest_info.info
    }

    /// The recent frames, oldest first.
    pub closed spec fn spec_recent(&self) -> Seq<(FrameKey, T)> {
        self.recent@
    }

    /// The slowest frames, in chronological order.
    pub closed spec fn spec_slowest(&self) -> Seq<(FrameKey, T)> {
        self.slowest@
    }

    /// How many recent frames are kept.
    pub closed spec fn spec_max_recent(&self) -> usize {
        self.max_recent
    }

    /// How many slow frames are kept.
    pub closed spec fn spec_max_slow(&self) -> usize {
        self.max_slow
    }

    /// Whether the previous newest frame is packed when a new one comes.
    pub closed spec fn spec_pack_frames(&self) -> bool {
        self.pack_frames
    }

    /// The statistics maintained so far.
    pub closed spec fn spec_stats(&self) -> (int, int, int) {
        self.stats@
    }

    /// The scope details of all frames added.
    pub closed spec fn spec_collection(&self) -> (Map<u32, ScopeDetailsView>, Map<ScopeTypeView, u32>) {
        self.scope_collection@
    }

    /// An empty view that keeps 1000 recent and 256 slow frames, and packs frames.
    pub fn new() -> (r: Self)
        ensures
            r.spec_recent() == Seq::<(FrameKey, T)>::empty(),
            r.spec_slowest() == Seq::<(FrameKey, T)>::empty(),
            r.spec_max_recent() == 1000,
            r.spec_max_slow() == 256,
            r.spec_pack_frames(),
            r.spec_stats() == (0int, 0int, 0int),
            r.spec_collection().0 == Map::<u32, ScopeDetailsView>::empty(),
            r.spec_collection().1 == Map::<ScopeTypeView, u32>::empty(),
    {
        FrameView {
            recent: Vec::new(),
            max_recent: 1000,
            slowest: Vec::new(),
            max_slow: 256,
            pack_frames: true,
            stats: FrameStats::default(),
            newest_info: CountedInfo::new(PackingInfo { unpacked_size: None, packed_size: None }),
            scope_collection: ScopeCollection::default(),
        }
    }

    /// Returns `true` if there are no recent or slowest frames.
    pub fn is_empty(&self) -> (r: bool)
        ensures
            r == (self.spec_recent().len() == 0 && self.spec_slowest().len() == 0),
    {
        self.recent.len() == 0 && self.slowest.len() == 0
    }

    /// Returns the collection of scope details.
    pub fn scope_collection(&self) -> (r: &ScopeCollection)
        ensures
            r@ == self.spec_collection(),
    {
        &self.scope_collection
    }

    /// How many frames of recent history to store.
    pub fn max_recent(&self) -> (r: usize)
        ensures
            r == self.spec_max_recent(),
    {
        self.max_recent
    }

    /// How many frames of recent history to store.
    pub fn set_max_recent(&mut self, max_recent: usize)
        ensures
            final(self).spec_max_recent() == max_recent,
            final(self).spec_recent() == old(self).spec_recent(),
            final(self).spec_slowest() == old(self).spec_slowest(),
            final(self).spec_max_slow() == old(self).spec_max_slow(),
            final(self).spec_pack_frames() == old(self).spec_pack_frames(),
            final(self).spec_stats() == old(self).spec_stats(),
            final(self).spec_collection() == old(self).spec_collection(),
    {
        self.max_recent = max_recent;
    }

    /// How many slow "spike" frames to store.
    pub fn max_slow(&self) -> (r: usize)
        ensures
            r == self.spec_max_slow(),
    {
        self.max_slow
    }

    /// How many slow "spike" frames to store.
    pub fn set_max_slow(&mut self, max_slow: usize)
        ensures
            final(self).spec_max_slow() == max_slow,
            final(self).spec_recent() == old(self).spec_recent(),
            final(self).spec_slowest() == old(self).spec_slowest(),
            final(self).spec_max_recent() == old(self).spec_max_recent(),
            final(self).spec_pack_frames() == old(self).spec_pack_frames(),
            final(self).spec_stats() == old(self).spec_stats(),
            final(self).spec_collection() == old(self).spec_collection(),
    {
        self.max_slow = max_slow;
    }

    /// Returns if frames are packed (compressed).
    pub fn pack_frames(&self) -> (r: bool)
        ensures
            r == self.spec_pack_frames(),
    {
        self.pack_frames
    }

    /// Sets whether frames should be packed (compressed).
    pub fn set_pack_frames(&mut self, pack_frames: bool)
        ensures
            final(self).spec_pack_frames() == pack_frames,
            final(self).spec_recent() == old(self).spec_recent(),
            final(self).spec_slowest() == old(self).spec_slowest(),
            final(self).spec_max_recent() == old(self).spec_max_recent(),
            final(self).spec_max_slow() == old(self).spec_max_slow(),
            final(self).spec_stats() == old(self).spec_stats(),
            final(self).spec_collection() == old(self).spec_collection(),
    {
        self.pack_frames = pack_frames;
    }

    /// The statistics maintained as frames are added and removed.
    pub fn stats(&self) -> (r: FrameStats)
        ensures
            r@ == self.spec_stats(),
    {
        self.stats
    }

    /// The latest frame.
    pub fn latest_frame(&self) -> (r: Option<&T>)
        ensures
            self.spec_recent().len() == 0 ==> r is None,
            self.spec_recent().len() > 0 ==> r == Some(&self.spec_recent().last().1),
    {
        if self.recent.len() == 0 {
            None
        } else {
            Some(&self.recent[self.recent.len() - 1].1)
        }
    }

    /// Up to `n` latest frames, oldest first.
    pub fn latest_frames(&self, n: usize) -> (r: Vec<&T>)
        ensures
            r@ == keep_newest(self.spec_recent(), n as int).map_values(|p: (FrameKey, T)| &p.1),
    {
        let len = self.recent.len();
        let start = if len > n {
            len - n
        } else {
            0
        };
        let mut out: Vec<&T> = Vec::new();
        let mut i = start;
        while i < len
            invariant
                start <= i <= len,
                len == self.recent@.len(),
                start == if len > n { len - n } else { 0 },
                out@ == self.recent@.subrange(start as int, i as int).map_values(|p: (FrameKey, T)| &p.1),
            decreases len - i,
        {
            out.push(&self.recent[i].1);
            proof {
                assert(self.recent@.subrange(start as int, i + 1) =~= self.recent@.subrange(
                    start as int,
                    i as int,
                ).push(self.recent@[i as int]));
            }
            i = i + 1;
        }
        proof {
            assert(self.recent@.subrange(start as int, len as int) =~= keep_newest(self.recent@, n as int));
        }
        out
    }

    /// The recent frames, oldest first.
    pub fn recent_frames(&self) -> (r: Vec<&T>)
        ensures
            r@ == self.spec_recent().map_values(|p: (FrameKey, T)| &p.1),
    {
        payloads(&self.recent)
    }

    /// The slowest frames so far (or since the last call to [`Self::clear_slowest`]),
    /// in chronological order.
    pub fn slowest_frames_chronological(&self) -> (r: Vec<&T>)
        ensures
            r@ == self.spec_slowest().map_values(|p: (FrameKey, T)| &p.1),
    {
        payloads(&self.slowest)
    }

    /// All frames sorted chronologically, each once.
    pub fn all_uniq(&self) -> (r: Vec<&T>)
        ensures
            r@ == dedup_keys(merge_chrono(self.spec_recent(), self.spec_slowest())).map_values(
                |p: (FrameKey, T)| &p.1,
            ),
    {
        let ghost a = self.recent@;
        let ghost b = self.slowest@;
        let mut out: Vec<&T> = Vec::new();
        let ghost mut done: Seq<(FrameKey, T)> = Seq::empty();
        let mut last: Option<FrameKey> = None;
        let mut i: usize = 0;
        let mut j: usize = 0;
        proof {
            assert(a.skip(0) =~= a);
            assert(b.skip(0) =~= b);
        }
        while i < self.recent.len() || j < self.slowest.len()
            invariant
                a == self.recent@,
                b == self.slowest@,
                0 <= i <= a.len(),
                0 <= j <= b.len(),
                merge_chrono(a, b) == done + merge_chrono(a.skip(i as int), b.skip(j as int)),
                out@ == dedup_keys(done).map_values(|p: (FrameKey, T)| &p.1),
                last == if done.len() == 0 {
                    None
                } else {
                    Some(done.last().0)
                },
            decreases a.len() + b.len() - i - j,
        {
            let take_b = if i == self.recent.len() {
                true
            } else if j == self.slowest.len() {
                false
            } else {
                key_earlier(&self.slowest[j].0, &self.recent[i].0)
            };
            let ghost sa = a.skip(i as int);
            let ghost sb = b.skip(j as int);
            let e = if take_b {
                proof {
                    assert(sb[0] == b[j as int]);
                    assert(sb.drop_first() =~= b.skip(j + 1));
                    if sa.len() > 0 {
                        assert(sa[0] == a[i as int]);
                    }
                }
                j = j + 1;
                &self.slowest[j - 1]
            } else {
                proof {
                    assert(sa[0] == a[i as int]);
                    assert(sa.drop_first() =~= a.skip(i + 1));
                    if sb.len() > 0 {
                        assert(sb[0] == b[j as int]);
                    }
                }
                i = i + 1;
                &self.recent[i - 1]
            };
            let same = match last {
                Some(k) => k == e.0,
                None => false,
            };
            if !same {
                out.push(&e.1);
            }
            proof {
                let d2 = done.push(*e);
                assert(d2.drop_last() =~= done);
                if done.len() > 0 {
                    assert(d2[d2.len() - 2] == done.last());
                }
                assert(done + (seq![*e] + merge_chrono(a.skip(i as int), b.skip(j as int))) =~= d2
                    + merge_chrono(a.skip(i as int), b.skip(j as int)));
                done = d2;
            }
            last = Some(e.0);
        }
        proof {
            assert(a.skip(a.len() as int) =~= Seq::<(FrameKey, T)>::empty());
            assert(b.skip(b.len() as int) =~= Seq::<(FrameKey, T)>::empty());
            assert(done + Seq::<(FrameKey, T)>::empty() =~= done);
        }
        out
    }
}

impl<T> FrameView<T> {
    /// Whether one of the frames `s` has key `k`.
    fn contains_key(s: &Vec<(FrameKey, T)>, k: &FrameKey) -> (r: bool)
        ensures
            r == has_key(s@, *k),
    {
        let mut i: usize = 0;
        while i < s.len()
            invariant
                0 <= i <= s@.len(),
                forall|j: int| 0 <= j < i ==> s@[j].0 != *k,
            decreases s@.len() - i,
        {
            if s[i].0 == *k {
                return true;
            }
            i = i + 1;
        }
        false
    }

    /// Appends `frame` to the recent frames and drops the oldest beyond the limit;
    /// a dropped frame leaves the statistics unless it is among the slowest.
    fn add_recent_frame<F: Fn(&T) -> PackingInfo>(&mut self, key: FrameKey, frame: T, info_of: &F)
        requires
            info_ok::<T, F>(info_of),
        ensures
            ({
                let full = old(self).spec_recent().push((key, frame));
                let max = old(self).spec_max_recent() as int;
                let gone = missing(dropped_oldest(full, max), old(self).spec_slowest());
                &&& final(self).spec_recent() == keep_newest(full, max)
                &&& removed_frames(old(self).spec_stats(), final(self).spec_stats(), info_of, gone)
            }),
            final(self).spec_slowest() == old(self).spec_slowest(),
            final(self).spec_max_recent() == old(self).spec_max_recent(),
            final(self).spec_max_slow() == old(self).spec_max_slow(),
            final(self).spec_pack_frames() == old(self).spec_pack_frames(),
            final(self).spec_collection() == old(self).spec_collection(),
            final(self).spec_newest_info() == old(self).spec_newest_info(),
    {
        self.recent.push((key, frame));
        let ghost full = self.recent@;
        let ghost max = self.max_recent as int;
        let ghost s0 = self.stats@;
        let ghost mut k: int = 0;
        let ghost mut infos: Seq<PackingInfo> = Seq::empty();
        proof {
            assert(full.skip(0) =~= full);
            assert(full.take(0) =~= Seq::<(FrameKey, T)>::empty());
        }
        while self.recent.len() > self.max_recent
            invariant
                full == old(self).spec_recent().push((key, frame)),
                max == self.max_recent,
                0 <= k <= full.len(),
                self.recent@ == full.skip(k),
                k > 0 ==> full.len() - k >= max,
                infos_of(info_of, missing(full.take(k), self.slowest@), infos),
                self.stats@ == removed_all(s0, infos),
                s0 == old(self).spec_stats(),
                info_ok::<T, F>(info_of),
                self.slowest@ == old(self).spec_slowest(),
                self.max_slow == old(self).spec_max_slow(),
                self.pack_frames == old(self).spec_pack_frames(),
                self.scope_collection@ == old(self).spec_collection(),
                self.newest_info.info == old(self).spec_newest_info(),
            decreases self.recent@.len(),
        {
            let removed = self.recent.remove(0);
            let ghost before = missing(full.take(k), self.slowest@);
            proof {
                assert(removed == full[k]);
                assert(full.take(k + 1).drop_last() =~= full.take(k));
                assert(full.take(k + 1).last() == full[k]);
                assert(self.recent@ =~= full.skip(k + 1));
                k = k + 1;
            }
            if !Self::contains_key(&self.slowest, &removed.0) {
                let info = info_of(&removed.1);
                self.stats.remove(&info);
                proof {
                    let m = missing(full.take(k), self.slowest@);
                    assert(m == before.push(removed));
                    let infos2 = infos.push(info);
                    assert(infos2.drop_last() =~= infos);
                    assert forall|j: int| 0 <= j < m.len() implies info_of.ensures(
                        (&m[j].1,),
                        #[trigger] infos2[j],
                    ) by {
                        if j < before.len() {
                            assert(m[j] == before[j]);
                            assert(infos2[j] == infos[j]);
                        }
                    }
                    infos = infos2;
                }
            }
        }
        proof {
            if full.len() <= max {
                assert(k == 0);
                assert(dropped_oldest(full, max) =~= full.take(0));
            } else {
                assert(k == full.len() - max);
            }
            let gone = missing(dropped_oldest(full, max), old(self).spec_slowest());
            assert(infos_of(info_of, gone, infos));
            assert(self.spec_stats() == removed_all(old(self).spec_stats(), infos));
            assert(removed_frames(old(self).spec_stats(), self.spec_stats(), info_of, gone));
        }
    }

    /// Adds `frame` to the slowest frames in chronological order, then drops the
    /// fastest beyond the limit; a dropped frame leaves the statistics unless it is
    /// among the recent frames.
    fn add_slow_frame<F: Fn(&T) -> PackingInfo>(&mut self, key: FrameKey, frame: T, info_of: &F)
        requires
            info_ok::<T, F>(info_of),
        ensures
            ({
                let ins = insert_chrono(old(self).spec_slowest(), (key, frame));
                let max = old(self).spec_max_slow() as int;
                let gone = missing(trimmed_fastest(ins, max), old(self).spec_recent());
                &&& final(self).spec_slowest() == trim_fastest(ins, max)
                &&& removed_frames(old(self).spec_stats(), final(self).spec_stats(), info_of, gone)
            }),
            final(self).spec_recent() == old(self).spec_recent(),
            final(self).spec_max_recent() == old(self).spec_max_recent(),
            final(self).spec_max_slow() == old(self).spec_max_slow(),
            final(self).spec_pack_frames() == old(self).spec_pack_frames(),
            final(self).spec_collection() == old(self).spec_collection(),
            final(self).spec_newest_info() == old(self).spec_newest_info(),
    {
        let ghost ins = insert_chrono(self.slowest@, (key, frame));
        if !Self::contains_key(&self.slowest, &key) {
            let ghost s0 = self.slowest@;
            let mut place: usize = 0;
            proof {
                assert(s0.skip(0) =~= s0);
            }
            while place < self.slowest.len() && !key_earlier(&key, &self.slowest[place].0)
                invariant
                    s0 == self.slowest@,
                    0 <= place <= s0.len(),
                    chrono_place(s0, key) == place + chrono_place(s0.skip(place as int), key),
                decreases s0.len() - place,
            {
                proof {
                    assert(s0.skip(place as int).drop_first() =~= s0.skip(place + 1));
                    assert(s0.skip(place as int)[0] == s0[place as int]);
                }
                place = place + 1;
            }
            proof {
                if place < s0.len() {
                    assert(s0.skip(place as int)[0] == s0[place as int]);
                }
            }
            self.slowest.insert(place, (key, frame));
        }
        let ghost max = self.max_slow as int;
        let ghost st0 = self.stats@;
        let ghost mut removed: Seq<(FrameKey, T)> = Seq::empty();
        let ghost mut infos: Seq<PackingInfo> = Seq::empty();
        proof {
            assert(removed + trimmed_fastest(ins, max) =~= trimmed_fastest(ins, max));
        }
        while self.slowest.len() > self.max_slow
            invariant
                max == self.max_slow,
                trim_fastest(ins, max) == trim_fastest(self.slowest@, max),
                trimmed_fastest(ins, max) == removed + trimmed_fastest(self.slowest@, max),
                infos_of(info_of, missing(removed, self.recent@), infos),
                self.stats@ == removed_all(st0, infos),
                st0 == old(self).spec_stats(),
                info_ok::<T, F>(info_of),
                self.recent@ == old(self).spec_recent(),
                self.max_recent == old(self).spec_max_recent(),
                self.pack_frames == old(self).spec_pack_frames(),
                self.scope_collection@ == old(self).spec_collection(),
                self.newest_info.info == old(self).spec_newest_info(),
            decreases self.slowest@.len(),
        {
            let m = find_fastest(&self.slowest);
            let gone = self.slowest.remove(m);
            let ghost before = missing(removed, self.recent@);
            proof {
                let rest = trimmed_fastest(self.slowest@, max);
                assert(removed + (seq![gone] + rest) =~= removed.push(gone) + rest);
                assert(removed.push(gone).drop_last() =~= removed);
                removed = removed.push(gone);
            }
            if !Self::contains_key(&self.recent, &gone.0) {
                let info = info_of(&gone.1);
                self.stats.remove(&info);
                proof {
                    let mm = missing(removed, self.recent@);
                    assert(mm == before.push(gone));
                    let infos2 = infos.push(info);
                    assert(infos2.drop_last() =~= infos);
                    assert forall|j: int| 0 <= j < mm.len() implies info_of.ensures(
                        (&mm[j].1,),
                        #[trigger] infos2[j],
                    ) by {
                        if j < before.len() {
                            assert(mm[j] == before[j]);
                            assert(infos2[j] == infos[j]);
                        }
                    }
                    infos = infos2;
                }
            }
        }
        proof {
            assert(removed + Seq::<(FrameKey, T)>::empty() =~= removed);
            let gone = missing(trimmed_fastest(ins, max), old(self).spec_recent());
            assert(infos_of(info_of, gone, infos));
            assert(self.spec_stats() == removed_all(old(self).spec_stats(), infos));
            assert(removed_frames(old(self).spec_stats(), self.spec_stats(), info_of, gone));
        }
    }

    /// Adds a frame: files its scope details, starts afresh for a frame from the
    /// past, packs the previous newest frame if the view packs frames (counting it
    /// anew with its packed size), counts the new frame in the statistics, and adds
    /// it to the slowest frames if it qualifies, and to the recent frames.
    pub fn add_frame<F: Fn(&T) -> PackingInfo, P: Fn(&T)>(
        &mut self,
        frame: T,
        key: FrameKey,
        scope_delta: &[Arc<ScopeDetails>],
        info_of: &F,
        pack: &P,
    ) where T: Clone
        requires
            all_have_ids(details_views(scope_delta@)),
            info_ok::<T, F>(info_of),
            forall|t: &T| #[trigger] pack.requires((t,)),
        ensures
            final(self).spec_collection() == inserted_all(
                old(self).spec_collection(),
                details_views(scope_delta@),
            ),
            final(self).spec_max_recent() == old(self).spec_max_recent(),
            final(self).spec_max_slow() == old(self).spec_max_slow(),
            final(self).spec_pack_frames() == old(self).spec_pack_frames(),
            exists|
                c: T,
                previous: PackingInfo,
                new_info: PackingInfo,
                slow_infos: Seq<PackingInfo>,
                recent_infos: Seq<PackingInfo>,
            |
                #[trigger] added_frame(
                    *old(self),
                    *final(self),
                    frame,
                    key,
                    info_of,
                    c,
                    previous,
                    new_info,
                    slow_infos,
                    recent_infos,
                ),
            indices_increasing(old(self).spec_recent()) ==> indices_increasing(final(self).spec_recent()),
            final(self).spec_recent().len() <= old(self).spec_max_recent(),
            old(self).spec_slowest().len() <= old(self).spec_max_slow() ==> final(self).spec_slowest().len()
                <= old(self).spec_max_slow(),
            old(self).spec_max_recent() >= 1 ==> final(self).spec_recent().last() == (key, frame),
    {
        let new_info = info_of(&frame);
        let ghost ds = details_views(scope_delta@);
        let mut i: usize = 0;
        while i < scope_delta.len()
            invariant
                0 <= i <= scope_delta@.len(),
                ds == details_views(scope_delta@),
                all_have_ids(ds),
                self.scope_collection@ == inserted_all(old(self).spec_collection(), ds.take(i as int)),
                self.recent@ == old(self).spec_recent(),
                self.slowest@ == old(self).spec_slowest(),
                self.stats@ == old(self).spec_stats(),
                self.newest_info.info == old(self).spec_newest_info(),
                self.max_recent == old(self).spec_max_recent(),
                self.max_slow == old(self).spec_max_slow(),
                self.pack_frames == old(self).spec_pack_frames(),
            decreases scope_delta@.len() - i,
        {
            proof {
                assert(ds[i as int].scope_id is Some);
                assert(ds.take(i + 1).drop_last() =~= ds.take(i as int));
            }
            self.scope_collection.insert(arc_clone(&scope_delta[i]));
            i = i + 1;
        }
        proof {
            assert(ds.take(scope_delta@.len() as int) =~= ds);
        }
        let len = self.recent.len();
        if len > 0 && key.frame_index <= self.recent[len - 1].0.frame_index {
            self.stats.clear();
            self.recent.clear();
            self.slowest.clear();
        }
        let ghost stats0 = self.stats@;
        let ghost mut previous: PackingInfo = PackingInfo { unpacked_size: None, packed_size: None };
        let len = self.recent.len();
        if len > 0 && self.pack_frames {
            // Assume a viewer views the newest frame: pack the previous newest frame
            // to save RAM, and count it anew with its packed size.
            let last = &self.recent[len - 1].1;
            pack(last);
            let info = info_of(last);
            let counted = self.newest_info.get();
            self.stats.remove(&counted);
            self.stats.add(&info);
            proof {
                previous = info;
            }
        }
        self.stats.add(&new_info);
        self.newest_info = CountedInfo::new(new_info);
        let ghost slow0 = self.slowest@;
        let ghost recent0 = self.recent@;
        let ghost stats1 = self.stats@;
        let joins = if self.slowest.len() < self.max_slow {
            true
        } else if self.slowest.len() > 0 {
            let m = find_fastest(&self.slowest);
            key.duration_ns > self.slowest[m].0.duration_ns
        } else {
            false
        };
        let ghost mut c: T = frame;
        let ghost mut slow_infos: Seq<PackingInfo> = Seq::empty();
        if joins {
            let copy = frame.clone();
            proof {
                c = copy;
            }
            self.add_slow_frame(key, copy, info_of);
            proof {
                let ins = insert_chrono(slow0, (key, c));
                let gone = missing(trimmed_fastest(ins, self.max_slow as int), recent0);
                slow_infos = choose|infos: Seq<PackingInfo>|
                    #[trigger] infos_of(info_of, gone, infos) && self.stats@ == removed_all(stats1, infos);
            }
        } else {
            proof {
                assert(infos_of(info_of, Seq::<(FrameKey, T)>::empty(), slow_infos));
            }
        }
        let ghost slow1 = self.slowest@;
        let ghost stats2 = self.stats@;
        self.add_recent_frame(key, frame, info_of);
        proof {
            let full = recent0.push((key, frame));
            let gone = missing(dropped_oldest(full, self.max_recent as int), slow1);
            let recent_infos = choose|infos: Seq<PackingInfo>|
                #[trigger] infos_of(info_of, gone, infos) && self.stats@ == removed_all(stats2, infos);
            assert(cloned(frame, c));
            assert(added_frame(*old(self), *self, frame, key, info_of, c, previous, new_info, slow_infos, recent_infos));
            {
                law_added_frame_order_and_bounds(
                    *old(self),
                    *self,
                    frame,
                    key,
                    info_of,
                    c,
                    previous,
                    new_info,
                    slow_infos,
                    recent_infos,
                );
            }
        }
    }

    /// Clears the history of the slowest frames; each of them that is not also among
    /// the recent frames leaves the statistics.
    pub fn clear_slowest<F: Fn(&T) -> PackingInfo>(&mut self, info_of: &F)
        requires
            info_ok::<T, F>(info_of),
        ensures
            final(self).spec_slowest() == Seq::<(FrameKey, T)>::empty(),
            removed_frames(
                old(self).spec_stats(),
                final(self).spec_stats(),
                info_of,
                missing(old(self).spec_slowest(), old(self).spec_recent()),
            ),
            final(self).spec_recent() == old(self).spec_recent(),
            final(self).spec_max_recent() == old(self).spec_max_recent(),
            final(self).spec_max_slow() == old(self).spec_max_slow(),
            final(self).spec_pack_frames() == old(self).spec_pack_frames(),
            final(self).spec_collection() == old(self).spec_collection(),
            final(self).spec_newest_info() == old(self).spec_newest_info(),
    {
        let ghost st0 = self.stats@;
        let ghost mut infos: Seq<PackingInfo> = Seq::empty();
        let ghost sl = self.slowest@;
        let mut i: usize = 0;
        proof {
            assert(sl.take(0) =~= Seq::<(FrameKey, T)>::empty());
        }
        while i < self.slowest.len()
            invariant
                0 <= i <= self.slowest@.len(),
                sl == self.slowest@,
                self.slowest@ == old(self).spec_slowest(),
                infos_of(info_of, missing(sl.take(i as int), self.recent@), infos),
                self.stats@ == removed_all(st0, infos),
                st0 == old(self).spec_stats(),
                info_ok::<T, F>(info_of),
                self.recent@ == old(self).spec_recent(),
                self.max_recent == old(self).spec_max_recent(),
                self.max_slow == old(self).spec_max_slow(),
                self.pack_frames == old(self).spec_pack_frames(),
                self.scope_collection@ == old(self).spec_collection(),
                self.newest_info.info == old(self).spec_newest_info(),
            decreases self.slowest@.len() - i,
        {
            let ghost before = missing(sl.take(i as int), self.recent@);
            proof {
                assert(sl.take(i + 1).drop_last() =~= sl.take(i as int));
                assert(sl.take(i + 1).last() == sl[i as int]);
            }
            if !Self::contains_key(&self.recent, &self.slowest[i].0) {
                let info = info_of(&self.slowest[i].1);
                self.stats.remove(&info);
                proof {
                    let m = missing(sl.take(i + 1), self.recent@);
                    assert(m == before.push(sl[i as int]));
                    let infos2 = infos.push(info);
                    assert(infos2.drop_last() =~= infos);
                    assert forall|j: int| 0 <= j < m.len() implies info_of.ensures(
                        (&m[j].1,),
                        #[trigger] infos2[j],
                    ) by {
                        if j < before.len() {
                            assert(m[j] == before[j]);
                            assert(infos2[j] == infos[j]);
                        }
                    }
                    infos = infos2;
                }
            } else {
                proof {
                    assert(missing(sl.take(i + 1), self.recent@) == before);
                }
            }
            i = i + 1;
        }
        proof {
            assert(sl.take(sl.len() as int) =~= sl);
        }
        self.slowest.clear();
    }
}

/// What adding frame `frame` with key `key` made of view `v` (its frames and
/// statistics), with `c` the clone that went to the slowest frames, `previous` the
/// packing info of the previous newest frame once packed, `new_info` the packing
/// info of the new frame, and the packing infos of the frames that left the slowest
/// and the recent frames. The statistics count every frame kept, the new one too.
pub open spec fn added_frame<T, F: Fn(&T) -> PackingInfo>(
    v: FrameView<T>,
    w: FrameView<T>,
    frame: T,
    key: FrameKey,
    info_of: &F,
    c: T,
    previous: PackingInfo,
    new_info: PackingInfo,
    slow_infos: Seq<PackingInfo>,
    recent_infos: Seq<PackingInfo>,
) -> bool where T: Clone {
    let old_recent = v.spec_recent();
    let cleared = old_recent.len() > 0 && key.frame_index <= old_recent.last().0.frame_index;
    let recent0 = if cleared {
        Seq::<(FrameKey, T)>::empty()
    } else {
        old_recent
    };
    let slow0 = if cleared {
        Seq::<(FrameKey, T)>::empty()
    } else {
        v.spec_slowest()
    };
    let stats0 = if cleared {
        (0int, 0int, 0int)
    } else {
        v.spec_stats()
    };
    let repacked = recent0.len() > 0 && v.spec_pack_frames();
    let stats1 = spec_stats_add(
        if repacked {
            spec_stats_add(spec_stats_remove(stats0, v.spec_newest_info()), previous)
        } else {
            stats0
        },
        new_info,
    );
    let max_slow = v.spec_max_slow() as int;
    let max_recent = v.spec_max_recent() as int;
    let joins = joins_slowest(slow0, key, max_slow);
    let ins = insert_chrono(slow0, (key, c));
    let slow1 = if joins {
        trim_fastest(ins, max_slow)
    } else {
        slow0
    };
    let slow_gone = if joins {
        missing(trimmed_fastest(ins, max_slow), recent0)
    } else {
        Seq::empty()
    };
    let full = recent0.push((key, frame));
    &&& cloned(frame, c)
    &&& repacked ==> info_of.ensures((&recent0.last().1,), previous)
    &&& info_of.ensures((&frame,), new_info)
    &&& w.spec_newest_info() == new_info
    &&& infos_of(info_of, slow_gone, slow_infos)
    &&& infos_of(info_of, missing(dropped_oldest(full, max_recent), slow1), recent_infos)
    &&& w.spec_slowest() == slow1
    &&& w.spec_recent() == keep_newest(full, max_recent)
    &&& w.spec_stats() == removed_all(removed_all(stats1, slow_infos), recent_infos)
}

/// The frames `s` have strictly increasing frame indices.
pub open spec fn indices_increasing<T>(s: Seq<(FrameKey, T)>) -> bool {
    forall|i: int, j: int| 0 <= i < j < s.len() ==> #[trigger] s[i].0.frame_index < #[trigger] s[j].0.frame_index
}

/// After adding a frame, the recent frames keep their limit, and strictly
/// increasing indices if they had them; the new frame is the newest when the view
/// keeps any; the slowest frames keep their limit, if they kept it before.
pub proof fn law_added_frame_order_and_bounds<T, F: Fn(&T) -> PackingInfo>(
    v: FrameView<T>,
    w: FrameView<T>,
    frame: T,
    key: FrameKey,
    info_of: &F,
    c: T,
    previous: PackingInfo,
    new_info: PackingInfo,
    slow_infos: Seq<PackingInfo>,
    recent_infos: Seq<PackingInfo>,
) where T: Clone
    requires
        added_frame(v, w, frame, key, info_of, c, previous, new_info, slow_infos, recent_infos),
    ensures
        indices_increasing(v.spec_recent()) ==> indices_increasing(w.spec_recent()),
        w.spec_recent().len() <= v.spec_max_recent(),
        v.spec_slowest().len() <= v.spec_max_slow() ==> w.spec_slowest().len() <= v.spec_max_slow(),
        v.spec_max_recent() >= 1 ==> w.spec_recent().last() == (key, frame),
{
    let old_recent = v.spec_recent();
    let cleared = old_recent.len() > 0 && key.frame_index <= old_recent.last().0.frame_index;
    let recent0 = if cleared {
        Seq::<(FrameKey, T)>::empty()
    } else {
        old_recent
    };
    let full = recent0.push((key, frame));
    let max_recent = v.spec_max_recent() as int;
    let kept = keep_newest(full, max_recent);
    if indices_increasing(old_recent) {
        assert(indices_increasing(full)) by {
            assert forall|i: int, j: int| 0 <= i < j < full.len() implies #[trigger] full[i].0.frame_index
                < #[trigger] full[j].0.frame_index by {
                if j == full.len() - 1 {
                    assert(full[i] == recent0[i]);
                    if i < recent0.len() - 1 {
                        assert(recent0[i].0.frame_index < recent0[recent0.len() - 1].0.frame_index);
                    }
                } else {
                    assert(full[i] == recent0[i]);
                    assert(full[j] == recent0[j]);
                }
            }
        }
        assert(indices_increasing(kept)) by {
            if full.len() > max_recent {
                let d = full.len() - max_recent;
                assert forall|i: int, j: int| 0 <= i < j < kept.len() implies #[trigger] kept[i].0.frame_index
                    < #[trigger] kept[j].0.frame_index by {
                    assert(kept[i] == full[i + d]);
                    assert(kept[j] == full[j + d]);
                }
            }
        }
    }
    law_recent_bounded(full, v.spec_max_recent() as nat);
    if max_recent >= 1 {
        assert(kept.last() == full.last());
    }
    let slow0 = if cleared {
        Seq::<(FrameKey, T)>::empty()
    } else {
        v.spec_slowest()
    };
    let ins = insert_chrono(slow0, (key, c));
    law_slowest_bounded(ins, v.spec_max_slow() as nat);
}

/// A view that keeps frames and holds none counts the first frame added to it, with
/// the packing info of that frame: one frame, its bytes, and whether it is unpacked.
pub proof fn law_first_frame_counted<T, F: Fn(&T) -> PackingInfo>(
    v: FrameView<T>,
    w: FrameView<T>,
    frame: T,
    key: FrameKey,
    info_of: &F,
    c: T,
    previous: PackingInfo,
    new_info: PackingInfo,
    slow_infos: Seq<PackingInfo>,
    recent_infos: Seq<PackingInfo>,
) where T: Clone
    requires
        added_frame(v, w, frame, key, info_of, c, previous, new_info, slow_infos, recent_infos),
        v.spec_recent().len() == 0,
        v.spec_slowest().len() == 0,
        v.spec_stats() == (0int, 0int, 0int),
        v.spec_max_recent() >= 1,
    ensures
        info_of.ensures((&frame,), new_info),
        w.spec_stats() == spec_stats_add((0int, 0int, 0int), new_info),
        w.spec_stats().0 == 1,
{
    let ins = insert_chrono(Seq::<(FrameKey, T)>::empty(), (key, c));
    if v.spec_max_slow() >= 1 {
        assert(trimmed_fastest(ins, v.spec_max_slow() as int) =~= Seq::<(FrameKey, T)>::empty());
    }
    assert(missing(Seq::<(FrameKey, T)>::empty(), Seq::<(FrameKey, T)>::empty()) =~= Seq::<(FrameKey, T)>::empty());
    let full = Seq::<(FrameKey, T)>::empty().push((key, frame));
    assert(dropped_oldest(full, v.spec_max_recent() as int) =~= Seq::<(FrameKey, T)>::empty());
    assert(slow_infos.len() == 0);
    assert(recent_infos.len() == 0);
}

/// Whether frame key `a` comes before `b` in chronological order.
fn key_earlier(a: &FrameKey, b: &FrameKey) -> (r: bool)
    ensures
        r == earlier(*a, *b),
{
    a.frame_index < b.frame_index || (a.frame_index == b.frame_index && a.duration_ns < b.duration_ns)
}

/// Whether frame key `a` comes before `b` in slowest-first order.
fn key_slower(a: &FrameKey, b: &FrameKey) -> (r: bool)
    ensures
        r == slower(*a, *b),
{
    a.duration_ns > b.duration_ns || (a.duration_ns == b.duration_ns && a.frame_index < b.frame_index)
}

/// The payloads of `s`, in order.
fn payloads<T>(s: &Vec<(FrameKey, T)>) -> (r: Vec<&T>)
    ensures
        r@ == s@.map_values(|p: (FrameKey, T)| &p.1),
{
    let mut out: Vec<&T> = Vec::new();
    let mut i: usize = 0;
    while i < s.len()
        invariant
            0 <= i <= s@.len(),
            out@ == s@.take(i as int).map_values(|p: (FrameKey, T)| &p.1),
        decreases s@.len() - i,
    {
        out.push(&s[i].1);
        proof {
            assert(s@.take(i + 1) =~= s@.take(i as int).push(s@[i as int]));
        }
        i = i + 1;
    }
    proof {
        assert(s@.take(s@.len() as int) =~= s@);
    }
    out
}

/// The index of the fastest frame of a non-empty `s`.
fn find_fastest<T>(s: &Vec<(FrameKey, T)>) -> (r: usize)
    requires
        s@.len() > 0,
    ensures
        r == fastest_index(s@),
        r < s@.len(),
{
    let mut m: usize = 0;
    let mut j: usize = 1;
    while j < s.len()
        invariant
            1 <= j <= s@.len(),
            m == fastest_index(s@.take(j as int)),
            m < j,
        decreases s@.len() - j,
    {
        proof {
            assert(s@.take(j + 1).drop_last() =~= s@.take(j as int));
            assert(s@.take(j + 1)[m as int] == s@[m as int]);
        }
        if key_slower(&s[m].0, &s[j].0) {
            m = j;
        }
        j = j + 1;
    }
    proof {
        assert(s@.take(s@.len() as int) =~= s@);
    }
    m
}


/// The frames a bounded max-heap by speed keeps of `s`: each frame in turn is
/// added, then the fastest are dropped until at most `max` are left.
pub open spec fn heap_kept<T>(s: Seq<(FrameKey, T)>, max: int) -> Seq<(FrameKey, T)>
    decreases s.len(),
{
    if s.len() == 0 {
        Seq::empty()
    } else {
        trim_fastest(heap_kept(s.drop_last(), max).push(s.last()), max)
    }
}

/// The first place in `s` with a frame index above `index`.
pub open spec fn index_place<T>(s: Seq<(FrameKey, T)>, index: FrameIndex) -> int
    decreases s.len(),
{
    if s.len() == 0 {
        0
    } else if index < s[0].0.frame_index {
        0
    } else {
        1 + index_place(s.drop_first(), index)
    }
}

/// `s` sorted by frame index, stably.
pub open spec fn sort_by_index<T>(s: Seq<(FrameKey, T)>) -> Seq<(FrameKey, T)>
    decreases s.len(),
{
    if s.len() == 0 {
        Seq::empty()
    } else {
        let t = sort_by_index(s.drop_last());
        t.insert(index_place(t, s.last().0.frame_index), s.last())
    }
}

/// The frames `frames` each with its position.
pub open spec fn with_positions(frames: Seq<FrameKey>) -> Seq<(FrameKey, usize)> {
    Seq::new(frames.len(), |i: int| (frames[i], i as usize))
}

/// Selects the slowest frames, up to `max` of them, and returns their positions in
/// `frames` in chronological order.
pub fn select_slowest(frames: &[FrameKey], max: usize) -> (r: Vec<usize>)
    ensures
        r@ == sort_by_index(heap_kept(with_positions(frames@), max as int)).map_values(
            |p: (FrameKey, usize)| p.1,
        ),
{
    let ghost all = with_positions(frames@);
    let mut kept: Vec<(FrameKey, usize)> = Vec::new();
    let mut k: usize = 0;
    while k < frames.len()
        invariant
            0 <= k <= frames@.len(),
            all == with_positions(frames@),
            kept@ == heap_kept(all.take(k as int), max as int),
        decreases frames@.len() - k,
    {
        proof {
            assert(all.take(k + 1).drop_last() =~= all.take(k as int));
            assert(all.take(k + 1).last() == (frames@[k as int], k));
        }
        kept.push((frames[k], k));
        let ghost pushed = kept@;
        while kept.len() > max
            invariant
                trim_fastest(pushed, max as int) == trim_fastest(kept@, max as int),
            decreases kept@.len(),
        {
            let m = find_fastest(&kept);
            kept.remove(m);
        }
        k = k + 1;
    }
    proof {
        assert(all.take(frames@.len() as int) =~= all);
    }
    let ghost kv = kept@;
    let mut sorted: Vec<(FrameKey, usize)> = Vec::new();
    let mut i: usize = 0;
    while i < kept.len()
        invariant
            0 <= i <= kept@.len(),
            kv == kept@,
            sorted@ == sort_by_index(kv.take(i as int)),
        decreases kept@.len() - i,
    {
        let e = kept[i];
        let ghost t = sorted@;
        let mut place: usize = 0;
        proof {
            assert(t.skip(0) =~= t);
        }
        while place < sorted.len() && !(e.0.frame_index < sorted[place].0.frame_index)
            invariant
                t == sorted@,
                0 <= place <= t.len(),
                index_place(t, e.0.frame_index) == place + index_place(t.skip(place as int), e.0.frame_index),
            decreases t.len() - place,
        {
            proof {
                assert(t.skip(place as int).drop_first() =~= t.skip(place + 1));
                assert(t.skip(place as int)[0] == t[place as int]);
            }
            place = place + 1;
        }
        proof {
            if place < t.len() {
                assert(t.skip(place as int)[0] == t[place as int]);
            }
            assert(kv.take(i + 1).drop_last() =~= kv.take(i as int));
            assert(kv.take(i + 1).last() == e);
        }
        sorted.insert(place, e);
        i = i + 1;
    }
    proof {
        assert(kv.take(kv.len() as int) =~= kv);
    }
    let mut out: Vec<usize> = Vec::new();
    let mut j: usize = 0;
    while j < sorted.len()
        invariant
            0 <= j <= sorted@.len(),
            out@ == sorted@.take(j as int).map_values(|p: (FrameKey, usize)| p.1),
        decreases sorted@.len() - j,
    {
        out.push(sorted[j].1);
        proof {
            assert(sorted@.take(j + 1) =~= sorted@.take(j as int).push(sorted@[j as int]));
        }
        j = j + 1;
    }
    proof {
        assert(sorted@.take(sorted@.len() as int) =~= sorted@);
    }
    out
}


/// The view keeps at most the number of recent frames it is set to keep.
pub proof fn law_recent_bounded<T>(s: Seq<(FrameKey, T)>, max: nat)
    ensures
        keep_newest(s, max as int).len() <= max,
{
}

/// Dropping the fastest frames leaves at most the number of slow frames the view is
/// set to keep, and only frames it had.
pub proof fn law_slowest_bounded<T>(s: Seq<(FrameKey, T)>, max: nat)
    ensures
        trim_fastest(s, max as int).len() <= max,
        forall|i: int|
            0 <= i < trim_fastest(s, max as int).len() ==> s.contains(
                #[trigger] trim_fastest(s, max as int)[i],
            ),
    decreases s.len(),
{
    if s.len() > max && s.len() > 0 {
        lemma_fastest_index(s);
        let t = s.remove(fastest_index(s));
        law_slowest_bounded(t, max);
        assert forall|i: int| 0 <= i < trim_fastest(s, max as int).len() implies s.contains(
            #[trigger] trim_fastest(s, max as int)[i],
        ) by {
            let x = trim_fastest(t, max as int)[i];
            assert(t.contains(x));
            let j = choose|j: int| 0 <= j < t.len() && t[j] == x;
            if j < fastest_index(s) {
                assert(s[j] == x);
            } else {
                assert(s[j + 1] == x);
            }
        }
    }
}

/// A frame that is dropped for being fast is no slower than any frame that stays:
/// no other frame has a shorter duration.
pub proof fn law_dropped_is_fastest<T>(s: Seq<(FrameKey, T)>)
    requires
        s.len() > 0,
    ensures
        forall|i: int|
            0 <= i < s.len() && i != fastest_index(s) ==> !slower(s[fastest_index(s)].0, #[trigger] s[i].0),
        forall|i: int| 0 <= i < s.len() ==> s[fastest_index(s)].0.duration_ns <= (#[trigger] s[i]).0.duration_ns,
    decreases s.len(),
{
    lemma_fastest_index(s);
    if s.len() > 1 {
        let t = s.drop_last();
        law_dropped_is_fastest(t);
        lemma_fastest_index(t);
        assert forall|i: int| 0 <= i < s.len() && i != fastest_index(s) implies !slower(
            s[fastest_index(s)].0,
            #[trigger] s[i].0,
        ) by {
            if i < s.len() - 1 {
                assert(s[i] == t[i]);
            }
        }
    }
}

} // verus!
