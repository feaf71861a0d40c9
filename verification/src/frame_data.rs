//! One frame worth of profile data collected from many threads, and the state of
//! its packed (compressed) and unpacked storage.
use crate::data::{Error, Result, StreamInfo};
use crate::frame_format::FrameError;
use crate::merge::{bytes_before, bytes_before_exec};
use crate::thread_order::time_before;
use crate::thread_profiler::ThreadInfo;
use crate::{arc_clone, FrameIndex, NanoSecond};
use std::sync::Arc;
use vstd::prelude::*;
use vstd::utf8::encode_utf8;

verus! {

/// The streams of profiling data for each thread; no thread occurs twice.
pub type ThreadStreams = Vec<(ThreadInfo, Arc<StreamInfo>)>;

/// No thread occurs twice among the pairs.
pub open spec fn threads_unique<T>(s: Seq<(ThreadInfo, T)>) -> bool {
    forall|i: int, j: int| 0 <= i < s.len() && 0 <= j < s.len() && i != j ==> s[i].0@ != s[j].0@
}

/// Meta-information about a frame.
#[derive(Copy, Debug)]
pub struct FrameMeta {
    /// What frame this is (counting from 0 at application startup).
    pub frame_index: FrameIndex,
    /// The span we cover.
    pub range_ns: (NanoSecond, NanoSecond),
    /// The unpacked size of all streams.
    pub num_bytes: usize,
    /// Total number of scopes.
    pub num_scopes: usize,
}

impl Clone for FrameMeta {
    fn clone(&self) -> (r: Self)
        ensures
            r == *self,
    {
        FrameMeta {
            frame_index: self.frame_index,
            range_ns: (self.range_ns.0, self.range_ns.1),
            num_bytes: self.num_bytes,
            num_scopes: self.num_scopes,
        }
    }
}

/// Total bytes of the first `n` streams.
pub open spec fn sum_bytes(s: Seq<(ThreadInfo, StreamInfo)>, n: int) -> int
    decreases n,
{
    if n <= 0 {
        0
    } else {
        sum_bytes(s, n - 1) + s[n - 1].1.stream@.len()
    }
}

/// Total scopes of the first `n` streams.
pub open spec fn sum_scopes(s: Seq<(ThreadInfo, StreamInfo)>, n: int) -> int
    decreases n,
{
    if n <= 0 {
        0
    } else {
        sum_scopes(s, n - 1) + s[n - 1].1.num_scopes
    }
}

/// Earliest start among the first `n` streams (`i64::MAX` for none).
pub open spec fn min_start(s: Seq<(ThreadInfo, StreamInfo)>, n: int) -> i64
    decreases n,
{
    if n <= 0 {
        i64::MAX
    } else if s[n - 1].1.range_ns.0 < min_start(s, n - 1) {
        s[n - 1].1.range_ns.0
    } else {
        min_start(s, n - 1)
    }
}

/// Latest stop among the first `n` streams (`i64::MIN` for none).
pub open spec fn max_stop(s: Seq<(ThreadInfo, StreamInfo)>, n: int) -> i64
    decreases n,
{
    if n <= 0 {
        i64::MIN
    } else if max_stop(s, n - 1) < s[n - 1].1.range_ns.1 {
        s[n - 1].1.range_ns.1
    } else {
        max_stop(s, n - 1)
    }
}

proof fn lemma_sums_nonneg(s: Seq<(ThreadInfo, StreamInfo)>, n: int)
    ensures
        0 <= sum_bytes(s, n),
        0 <= sum_scopes(s, n),
    decreases n,
{
    if n > 0 {
        lemma_sums_nonneg(s, n - 1);
    }
}

/// Sums over more streams are no smaller.
pub proof fn lemma_sums_monotone(s: Seq<(ThreadInfo, StreamInfo)>, i: int, n: int)
    requires
        0 <= i <= n <= s.len(),
    ensures
        0 <= sum_bytes(s, i) <= sum_bytes(s, n),
        0 <= sum_scopes(s, i) <= sum_scopes(s, n),
    decreases n - i,
{
    lemma_sums_nonneg(s, i);
    if i < n {
        lemma_sums_monotone(s, i, n - 1);
    }
}

/// The order of threads in a frame: by start time (no time first), then by name,
/// names comparing as strings do, by their UTF-8 bytes.
pub open spec fn thread_less(a: (Option<i64>, Seq<char>), b: (Option<i64>, Seq<char>)) -> bool {
    time_before(a.0, b.0) || (a.0 == b.0 && bytes_before(encode_utf8(a.1), encode_utf8(b.1)))
}

/// The streams of a frame as thread views and stream infos.
pub open spec fn stream_views(ts: Seq<(ThreadInfo, Arc<StreamInfo>)>) -> Seq<((Option<i64>, Seq<char>), StreamInfo)> {
    ts.map_values(|p: (ThreadInfo, Arc<StreamInfo>)| (p.0@, *p.1))
}

/// The given streams as thread views and stream infos.
pub open spec fn given_views(s: Seq<(ThreadInfo, StreamInfo)>) -> Seq<((Option<i64>, Seq<char>), StreamInfo)> {
    s.map_values(|p: (ThreadInfo, StreamInfo)| (p.0@, p.1))
}

/// The threads of `ts` come in strictly increasing thread order.
pub open spec fn threads_ordered(ts: Seq<((Option<i64>, Seq<char>), StreamInfo)>) -> bool {
    forall|i: int, j: int| 0 <= i < j < ts.len() ==> thread_less(#[trigger] ts[i].0, #[trigger] ts[j].0)
}

pub(crate) proof fn lemma_bytes_irreflexive(a: Seq<u8>)
    ensures
        !bytes_before(a, a),
    decreases a.len(),
{
    if a.len() > 0 {
        lemma_bytes_irreflexive(a.drop_first());
    }
}

pub(crate) proof fn lemma_bytes_transitive(a: Seq<u8>, b: Seq<u8>, c: Seq<u8>)
    requires
        bytes_before(a, b),
        bytes_before(b, c),
    ensures
        bytes_before(a, c),
    decreases a.len(),
{
    if a.len() > 0 && a[0] == b[0] && b[0] == c[0] {
        lemma_bytes_transitive(a.drop_first(), b.drop_first(), c.drop_first());
    }
}

proof fn lemma_bytes_total(a: Seq<u8>, b: Seq<u8>)
    requires
        a != b,
    ensures
        bytes_before(a, b) || bytes_before(b, a),
    decreases a.len(),
{
    if a.len() > 0 && b.len() > 0 && a[0] == b[0] {
        if a.drop_first() == b.drop_first() {
            assert(a =~= seq![a[0]] + a.drop_first());
            assert(b =~= seq![b[0]] + b.drop_first());
        }
        lemma_bytes_total(a.drop_first(), b.drop_first());
    } else if a.len() == 0 && b.len() == 0 {
        assert(a =~= b);
    }
}

/// The thread order is a strict total order.
pub proof fn lemma_thread_order(x: (Option<i64>, Seq<char>), y: (Option<i64>, Seq<char>), z: (Option<i64>, Seq<char>))
    ensures
        !thread_less(x, x),
        thread_less(x, y) && thread_less(y, z) ==> thread_less(x, z),
        x != y ==> thread_less(x, y) || thread_less(y, x),
{
    lemma_bytes_irreflexive(encode_utf8(x.1));
    if thread_less(x, y) && thread_less(y, z) && x.0 == y.0 && y.0 == z.0 {
        lemma_bytes_transitive(encode_utf8(x.1), encode_utf8(y.1), encode_utf8(z.1));
    }
    if x != y && x.0 == y.0 {
        vstd::utf8::encode_utf8_decode_utf8(x.1);
        vstd::utf8::encode_utf8_decode_utf8(y.1);
        assert(x.1 != y.1);
        lemma_bytes_total(encode_utf8(x.1), encode_utf8(y.1));
    }
}

/// Whether thread `a` comes before thread `b` in a frame.
fn thread_less_exec(a: &ThreadInfo, b: &ThreadInfo) -> (r: bool)
    ensures
        r == thread_less(a@, b@),
{
    let same_time = match (a.start_time_ns, b.start_time_ns) {
        (None, Some(_)) => {
            return true;
        },
        (Some(x), Some(y)) => {
            if x < y {
                return true;
            }
            x == y
        },
        (None, None) => true,
        (Some(_), None) => false,
    };
    if !same_time {
        return false;
    }
    bytes_before_exec(a.name.as_str().as_bytes(), b.name.as_str().as_bytes())
}

/// `f` is frame `frame_index` made of the streams `s`: its meta data covers the
/// earliest start and latest stop of all streams, their total size and number of
/// scopes, and it holds the same streams, in thread order.
pub open spec fn is_frame_of(f: UnpackedFrameData, frame_index: FrameIndex, s: Seq<(ThreadInfo, StreamInfo)>) -> bool {
    let n = s.len() as int;
    &&& f.meta.frame_index == frame_index
    &&& f.meta.range_ns == (min_start(s, n), max_stop(s, n))
    &&& f.meta.num_bytes == sum_bytes(s, n)
    &&& f.meta.num_scopes == sum_scopes(s, n)
    &&& f.thread_streams@.len() == n
    &&& threads_unique(f.thread_streams@)
    &&& threads_ordered(stream_views(f.thread_streams@))
    &&& stream_views(f.thread_streams@).to_multiset() == given_views(s).to_multiset()
}

/// One frame worth of profile data, collected from many sources.
pub struct UnpackedFrameData {
    /// Frame metadata.
    pub meta: FrameMeta,
    /// The streams of profiling data for each thread.
    pub thread_streams: ThreadStreams,
}

impl UnpackedFrameData {
    /// Create a new [`UnpackedFrameData`]: the meta data covers the earliest start and
    /// the latest stop of all streams, their total size and number of scopes. A frame
    /// in which no stream covers any time is [`Error::Empty`].
    pub fn new(frame_index: FrameIndex, thread_streams: Vec<(ThreadInfo, StreamInfo)>) -> (r: Result<Self>)
        requires
            threads_unique(thread_streams@),
            sum_bytes(thread_streams@, thread_streams@.len() as int) <= usize::MAX,
            sum_scopes(thread_streams@, thread_streams@.len() as int) <= usize::MAX,
        ensures
            ({
                let s = thread_streams@;
                let n = s.len() as int;
                if min_start(s, n) <= max_stop(s, n) {
                    r matches Ok(f) && is_frame_of(f, frame_index, s)
                } else {
                    r == Err::<Self, Error>(Error::Empty)
                }
            }),
    {
        let ghost s = thread_streams@;
        let n = thread_streams.len();
        let mut num_bytes: usize = 0;
        let mut num_scopes: usize = 0;
        let mut min_ns = NanoSecond::MAX;
        let mut max_ns = NanoSecond::MIN;
        let mut i: usize = 0;
        while i < n
            invariant
                n == s.len(),
                s == thread_streams@,
                0 <= i <= n,
                num_bytes == sum_bytes(s, i as int),
                num_scopes == sum_scopes(s, i as int),
                min_ns == min_start(s, i as int),
                max_ns == max_stop(s, i as int),
                sum_bytes(s, n as int) <= usize::MAX,
                sum_scopes(s, n as int) <= usize::MAX,
            decreases n - i,
        {
            proof {
                lemma_sums_monotone(s, i + 1, n as int);
            }
            let stream_info = &thread_streams[i].1;
            num_bytes = num_bytes + stream_info.stream.len();
            num_scopes = num_scopes + stream_info.num_scopes;
            if stream_info.range_ns.0 < min_ns {
                min_ns = stream_info.range_ns.0;
            }
            if max_ns < stream_info.range_ns.1 {
                max_ns = stream_info.range_ns.1;
            }
            i = i + 1;
        }
        if min_ns <= max_ns {
            let mut streams: ThreadStreams = Vec::new();
            proof {
                assert(given_views(s.take(0)) =~= Seq::empty());
                assert(stream_views(streams@) =~= Seq::empty());
            }
            for pair in it: thread_streams
                invariant
                    it.seq() == s,
                    threads_unique(s),
                    streams@.len() == it.index(),
                    stream_views(streams@).to_multiset() == given_views(s.take(it.index() as int)).to_multiset(),
                    threads_ordered(stream_views(streams@)),
            {
                let ghost idx = it.index();
                let ghost sv = stream_views(streams@);
                let (info, stream_info) = pair;
                let mut place: usize = 0;
                while place < streams.len() && !thread_less_exec(&info, &streams[place].0)
                    invariant
                        0 <= place <= streams@.len(),
                        sv == stream_views(streams@),
                        forall|k: int| 0 <= k < place ==> !thread_less(info@, #[trigger] sv[k].0),
                    decreases streams@.len() - place,
                {
                    place = place + 1;
                }
                proof {
                    let gv = given_views(s.take(idx as int));
                    assert(s[idx as int] == (info, stream_info));
                    assert forall|k: int| 0 <= k < sv.len() implies #[trigger] sv[k].0 != info@ by {
                        assert(sv.contains(sv[k]));
                        vstd::seq_lib::to_multiset_contains(sv, sv[k]);
                        vstd::seq_lib::to_multiset_contains(gv, sv[k]);
                        let j = choose|j: int| 0 <= j < gv.len() && gv[j] == sv[k];
                        assert(gv[j].0 == s[j].0@);
                    }
                    assert forall|k: int| 0 <= k < place implies thread_less(#[trigger] sv[k].0, info@) by {
                        lemma_thread_order(sv[k].0, info@, info@);
                    }
                }
                let ghost before = streams@;
                streams.insert(place, (info, Arc::new(stream_info)));
                proof {
                    let x = (info@, stream_info);
                    let nv = stream_views(streams@);
                    assert(nv =~= sv.insert(place as int, x));
                    vstd::seq_lib::to_multiset_insert(sv, place as int, x);
                    assert(given_views(s.take(idx + 1)) =~= given_views(s.take(idx as int)).push(x));
                    vstd::seq_lib::to_multiset_build(given_views(s.take(idx as int)), x);
                    assert forall|i: int, j: int| 0 <= i < j < nv.len() implies thread_less(
                        #[trigger] nv[i].0,
                        #[trigger] nv[j].0,
                    ) by {
                        if j < place {
                            assert(nv[i] == sv[i] && nv[j] == sv[j]);
                        } else if j == place {
                            assert(nv[i] == sv[i]);
                        } else if i == place {
                            assert(nv[j] == sv[j - 1]);
                            assert(thread_less(info@, sv[place as int].0));
                            if j - 1 > place {
                                lemma_thread_order(info@, sv[place as int].0, sv[j - 1].0);
                            }
                        } else if i < place {
                            assert(nv[i] == sv[i] && nv[j] == sv[j - 1]);
                        } else {
                            assert(nv[i] == sv[i - 1] && nv[j] == sv[j - 1]);
                        }
                    }
                }
            }
            proof {
                assert(s.take(s.len() as int) =~= s);
                let nv = stream_views(streams@);
                assert forall|i: int, j: int|
                    0 <= i < streams@.len() && 0 <= j < streams@.len() && i != j implies streams@[i].0@
                    != streams@[j].0@ by {
                    assert(nv[i].0 == streams@[i].0@ && nv[j].0 == streams@[j].0@);
                    if i < j {
                        lemma_thread_order(nv[i].0, nv[i].0, nv[i].0);
                    } else {
                        lemma_thread_order(nv[j].0, nv[j].0, nv[j].0);
                    }
                }
            }
            Ok(
                UnpackedFrameData {
                    meta: FrameMeta {
                        frame_index,
                        range_ns: (min_ns, max_ns),
                        num_bytes,
                        num_scopes,
                    },
                    thread_streams: streams,
                },
            )
        } else {
            Err(Error::Empty)
        }
    }

    /// The index of this frame.
    pub fn frame_index(&self) -> (r: u64)
        ensures
            r == self.meta.frame_index,
    {
        self.meta.frame_index
    }

    /// The range in nanoseconds of the entire profile frame.
    pub fn range_ns(&self) -> (r: (NanoSecond, NanoSecond))
        ensures
            r == self.meta.range_ns,
    {
        self.meta.range_ns
    }

    /// The duration in nanoseconds of the entire profile frame.
    pub fn duration_ns(&self) -> (r: NanoSecond)
        requires
            i64::MIN <= self.meta.range_ns.1 - self.meta.range_ns.0 <= i64::MAX,
        ensures
            r == self.meta.range_ns.1 - self.meta.range_ns.0,
    {
        let (min, max) = self.meta.range_ns;
        max - min
    }
}

/// How the streams of a frame are compressed.
#[derive(Clone, Copy, Debug, PartialEq, Eq, Structural)]
pub enum CompressionKind {
    /// Stored as they are.
    Uncompressed,
    /// Very fast, and lightweight dependency.
    Lz4,
    /// Big dependency, slow compression, but compresses better than lz4.
    Zstd,
}

impl CompressionKind {
    /// The byte that stands for this kind in serialized frames.
    pub open spec fn as_u8_spec(self) -> u8 {
        match self {
            CompressionKind::Uncompressed => 0u8,
            CompressionKind::Lz4 => 1u8,
            CompressionKind::Zstd => 2u8,
        }
    }

    /// The byte that stands for this kind in serialized frames.
    pub fn as_u8(self) -> (r: u8)
        ensures
            r == self.as_u8_spec(),
    {
        match self {
            CompressionKind::Uncompressed => 0,
            CompressionKind::Lz4 => 1,
            CompressionKind::Zstd => 2,
        }
    }

    /// The kind that a byte of a serialized frame stands for; any other byte is an
    /// unknown compression kind.
    pub fn from_u8(value: u8) -> (r: core::result::Result<Self, FrameError>)
        ensures
            value == 0 ==> r == Ok::<Self, FrameError>(CompressionKind::Uncompressed),
            value == 1 ==> r == Ok::<Self, FrameError>(CompressionKind::Lz4),
            value == 2 ==> r == Ok::<Self, FrameError>(CompressionKind::Zstd),
            value > 2 ==> r == Err::<Self, FrameError>(FrameError::UnknownCompression(value)),
    {
        match value {
            0 => Ok(CompressionKind::Uncompressed),
            1 => Ok(CompressionKind::Lz4),
            2 => Ok(CompressionKind::Zstd),
            _ => Err(FrameError::UnknownCompression(value)),
        }
    }
}

/// What `lz4_flex::compress_prepend_size` makes of the given bytes.
pub uninterp spec fn lz4_compressed(input: Seq<u8>) -> Seq<u8>;

/// What `lz4_flex::decompress_size_prepended` makes of the given bytes: `None` for
/// an error.
pub uninterp spec fn lz4_decompressed(input: Seq<u8>) -> Option<Seq<u8>>;

/// Compresses `input` with lz4, prefixed by its length as a little-endian `u32`
/// (`lz4_flex::compress_prepend_size`). The result is named; the crate documents it
/// as the input of `decompress_size_prepended`, which gives back `input` when its
/// length fits the `u32` prefix.
#[verifier::external_body]
fn lz4_compress(input: &[u8]) -> (r: Vec<u8>)
    ensures
        r@ == lz4_compressed(input@),
        input@.len() <= u32::MAX ==> lz4_decompressed(r@) == Some(input@),
{
    lz4_flex::compress_prepend_size(input)
}

/// Decompresses the output of `compress_prepend_size`
/// (`lz4_flex::decompress_size_prepended`); `None` where the crate reports an error.
#[verifier::external_body]
fn lz4_decompress(input: &[u8]) -> (r: Option<Vec<u8>>)
    ensures
        match r {
            Some(v) => lz4_decompressed(input@) == Some(v@),
            None => lz4_decompressed(input@) is None,
        },
{
    lz4_flex::decompress_size_prepended(input).ok()
}

/// What `zstd::decode_all` makes of the given bytes: `None` for an error.
pub uninterp spec fn zstd_decompressed(input: Seq<u8>) -> Option<Seq<u8>>;

/// Decodes all the zstd frames of `input`, one after the other
/// (`zstd::decode_all`); `None` where the crate reports an error. The decoding is
/// libzstd's `ZSTD_decompressStream`, which answers malformed or truncated input
/// with an error code; the crate turns error codes, and input that ends inside a
/// frame, into an `io::Error`. Its remaining assertions check that libzstd stays
/// within the buffers it was handed.
#[verifier::external_body]
fn zstd_decompress(input: &[u8]) -> (r: Option<Vec<u8>>)
    ensures
        match r {
            Some(v) => zstd_decompressed(input@) == Some(v@),
            None => zstd_decompressed(input@) is None,
        },
{
    zstd::decode_all(input).ok()
}

/// Why packed streams could not be unpacked.
#[derive(Clone, Copy, Debug, PartialEq, Eq, Structural)]
pub enum UnpackError {
    /// The lz4 data is corrupt.
    Lz4,
    /// The zstd data is corrupt.
    Zstd,
}

/// Serialized thread streams, compressed.
pub struct PackedStreams {
    /// How `bytes` are compressed.
    pub compression_kind: CompressionKind,
    /// The compressed bytes.
    pub bytes: Vec<u8>,
}

impl PackedStreams {
    /// Packed streams from their parts.
    pub fn new(compression_kind: CompressionKind, bytes: Vec<u8>) -> (r: Self)
        ensures
            r.compression_kind == compression_kind,
            r.bytes@ == bytes@,
    {
        PackedStreams { compression_kind, bytes }
    }

    /// Compresses the serialized thread streams with lz4.
    pub fn pack(serialized: &[u8]) -> (r: Self)
        ensures
            r.compression_kind == CompressionKind::Lz4,
            r.bytes@ == lz4_compressed(serialized@),
            serialized@.len() <= u32::MAX ==> spec_unpack(r) == Ok::<Seq<u8>, UnpackError>(serialized@),
    {
        PackedStreams { compression_kind: CompressionKind::Lz4, bytes: lz4_compress(serialized) }
    }

    /// Number of bytes of the packed data.
    pub fn num_bytes(&self) -> (r: usize)
        ensures
            r == self.bytes@.len(),
    {
        self.bytes.len()
    }

    /// The serialized thread streams: decompressed according to the compression kind.
    pub fn unpack(&self) -> (r: core::result::Result<Vec<u8>, UnpackError>)
        ensures
            match self.compression_kind {
                CompressionKind::Uncompressed => r matches Ok(v) && v@ == self.bytes@,
                CompressionKind::Lz4 => match lz4_decompressed(self.bytes@) {
                    Some(v) => r matches Ok(out) && out@ == v,
                    None => r == Err::<Vec<u8>, UnpackError>(UnpackError::Lz4),
                },
                CompressionKind::Zstd => match zstd_decompressed(self.bytes@) {
                    Some(v) => r matches Ok(out) && out@ == v,
                    None => r == Err::<Vec<u8>, UnpackError>(UnpackError::Zstd),
                },
            },
    {
        match self.compression_kind {
            CompressionKind::Uncompressed => Ok(vstd::slice::slice_to_vec(self.bytes.as_slice())),
            CompressionKind::Lz4 => match lz4_decompress(self.bytes.as_slice()) {
                Some(v) => Ok(v),
                None => Err(UnpackError::Lz4),
            },
            CompressionKind::Zstd => match zstd_decompress(self.bytes.as_slice()) {
                Some(v) => Ok(v),
                None => Err(UnpackError::Zstd),
            },
        }
    }
}

/// What unpacking packed streams gives: the serialized streams, according to the
/// compression kind.
pub open spec fn spec_unpack(p: PackedStreams) -> core::result::Result<Seq<u8>, UnpackError> {
    match p.compression_kind {
        CompressionKind::Uncompressed => Ok(p.bytes@),
        CompressionKind::Lz4 => match lz4_decompressed(p.bytes@) {
            Some(v) => Ok(v),
            None => Err(UnpackError::Lz4),
        },
        CompressionKind::Zstd => match zstd_decompressed(p.bytes@) {
            Some(v) => Ok(v),
            None => Err(UnpackError::Zstd),
        },
    }
}

/// Sizes of the two storages of a frame.
#[derive(Clone, Copy, Debug)]
pub struct PackingInfo {
    /// Number of bytes used when unpacked, if has unpacked.
    pub unpacked_size: Option<usize>,
    /// Number of bytes used by the packed data, if has packed.
    pub packed_size: Option<usize>,
}

/// The storage of a frame: unpacked, packed, or both.
pub enum FrameDataState {
    /// Unpacked data.
    Unpacked(Arc<UnpackedFrameData>),
    /// [`UnpackedFrameData::thread_streams`], compressed.
    Packed(PackedStreams),
    /// Both compressed and uncompressed.
    Both(Arc<UnpackedFrameData>, PackedStreams),
}

impl FrameDataState {
    /// Number of bytes of the unpacked data, if any.
    pub fn unpacked_size(&self) -> (r: Option<usize>)
        ensures
            r == match self {
                FrameDataState::Packed(_) => None,
                FrameDataState::Unpacked(u) | FrameDataState::Both(u, _) => Some(u.meta.num_bytes),
            },
    {
        match self {
            FrameDataState::Packed(_) => None,
            FrameDataState::Unpacked(unpacked) => Some(unpacked.meta.num_bytes),
            FrameDataState::Both(unpacked, _) => Some(unpacked.meta.num_bytes),
        }
    }

    /// The unpacked data, if any.
    pub fn unpacked(&self) -> (r: Option<Arc<UnpackedFrameData>>)
        ensures
            r == match self {
                FrameDataState::Packed(_) => None,
                FrameDataState::Unpacked(u) | FrameDataState::Both(u, _) => Some(*u),
            },
    {
        match self {
            FrameDataState::Packed(_) => None,
            FrameDataState::Unpacked(unpacked) => Some(arc_clone(unpacked)),
            FrameDataState::Both(unpacked, _) => Some(arc_clone(unpacked)),
        }
    }

    /// Keeps the given unpacked data beside the packed data; changes nothing when
    /// the unpacked data is there already.
    pub fn unpack(&mut self, unpacked: Arc<UnpackedFrameData>)
        ensures
            match *old(self) {
                FrameDataState::Packed(p) => *final(self) == FrameDataState::Both(unpacked, p),
                _ => *final(self) == *old(self),
            },
    {
        let mut temp = FrameDataState::Packed(
            PackedStreams::new(CompressionKind::Uncompressed, Vec::new()),
        );
        std::mem::swap(&mut temp, self);
        match temp {
            FrameDataState::Packed(packed) => {
                *self = FrameDataState::Both(unpacked, packed);
            },
            other => {
                *self = other;
            },
        }
    }

    /// Number of bytes of the packed data, if any.
    pub fn packed_size(&self) -> (r: Option<usize>)
        ensures
            r == match self {
                FrameDataState::Unpacked(_) => None,
                FrameDataState::Packed(p) | FrameDataState::Both(_, p) => Some(p.bytes@.len() as usize),
            },
    {
        match self {
            FrameDataState::Unpacked(_) => None,
            FrameDataState::Packed(packed) => Some(packed.num_bytes()),
            FrameDataState::Both(_, packed) => Some(packed.num_bytes()),
        }
    }

    /// The packed data, if any.
    pub fn packed(&self) -> (r: Option<&PackedStreams>)
        ensures
            match self {
                FrameDataState::Unpacked(_) => r is None,
                FrameDataState::Packed(p) | FrameDataState::Both(_, p) => r == Some(p),
            },
    {
        match self {
            FrameDataState::Unpacked(_) => None,
            FrameDataState::Packed(packed) => Some(packed),
            FrameDataState::Both(_, packed) => Some(packed),
        }
    }

    /// Keeps only packed data: packs the unpacked streams, serialized by `serialize`,
    /// and frees them. Changes nothing when there is only packed data, so packing
    /// twice is packing once.
    pub fn pack_and_remove<F: Fn(&ThreadStreams) -> Vec<u8>>(&mut self, serialize: F)
        requires
            forall|t: &ThreadStreams| serialize.requires((t,)),
        ensures
            *final(self) is Packed,
            match *old(self) {
                FrameDataState::Packed(_) => *final(self) == *old(self),
                FrameDataState::Unpacked(u) | FrameDataState::Both(u, _) => *final(self) matches FrameDataState::Packed(p)
                    && p.compression_kind == CompressionKind::Lz4 && exists|s: Vec<u8>|
                    serialize.ensures((&u.thread_streams,), s) && p.bytes@ == lz4_compressed(s@),
            },
    {
        let serialized = match self {
            FrameDataState::Packed(_) => {
                return ;
            },
            FrameDataState::Unpacked(unpacked) => serialize(&unpacked.thread_streams),
            FrameDataState::Both(unpacked, _) => serialize(&unpacked.thread_streams),
        };
        let packed = PackedStreams::pack(serialized.as_slice());
        *self = FrameDataState::Packed(packed);
    }

    /// Creates packed storage without freeing the unpacked storage; changes nothing
    /// when there is packed data already.
    pub fn pack_and_keep<F: Fn(&ThreadStreams) -> Vec<u8>>(&mut self, serialize: F)
        requires
            forall|t: &ThreadStreams| serialize.requires((t,)),
        ensures
            match *old(self) {
                FrameDataState::Unpacked(u) => *final(self) matches FrameDataState::Both(u2, p)
                    && u2 == u && p.compression_kind == CompressionKind::Lz4 && exists|s: Vec<u8>|
                    serialize.ensures((&u.thread_streams,), s) && p.bytes@ == lz4_compressed(s@),
                _ => *final(self) == *old(self),
            },
    {
        let unpacked = match self {
            FrameDataState::Unpacked(unpacked) => arc_clone(unpacked),
            _ => {
                return ;
            },
        };
        let serialized = serialize(&unpacked.thread_streams);
        let packed = PackedStreams::pack(serialized.as_slice());
        *self = FrameDataState::Both(unpacked, packed);
    }

    /// Bytes currently used by the unpacked and packed data.
    pub fn bytes_of_ram_used(&self) -> (r: usize)
        requires
            self.spec_unpacked_size() + self.spec_packed_size() <= usize::MAX,
        ensures
            r == self.spec_unpacked_size() + self.spec_packed_size(),
    {
        let u = match self.unpacked_size() {
            Some(n) => n,
            None => 0,
        };
        let p = match self.packed_size() {
            Some(n) => n,
            None => 0,
        };
        u + p
    }

    /// Number of unpacked bytes, zero when there are none.
    pub open spec fn spec_unpacked_size(&self) -> int {
        match self {
            FrameDataState::Packed(_) => 0,
            FrameDataState::Unpacked(u) | FrameDataState::Both(u, _) => u.meta.num_bytes as int,
        }
    }

    /// Number of packed bytes, zero when there are none.
    pub open spec fn spec_packed_size(&self) -> int {
        match self {
            FrameDataState::Unpacked(_) => 0,
            FrameDataState::Packed(p) | FrameDataState::Both(_, p) => p.bytes@.len() as int,
        }
    }

    /// Do we have a packed version stored internally?
    pub fn has_packed(&self) -> (r: bool)
        ensures
            r == !(self is Unpacked),
    {
        match self {
            FrameDataState::Unpacked(_) => false,
            _ => true,
        }
    }

    /// Do we have an unpacked version stored internally?
    pub fn has_unpacked(&self) -> (r: bool)
        ensures
            r == !(self is Packed),
    {
        match self {
            FrameDataState::Packed(_) => false,
            _ => true,
        }
    }

    /// Both storage sizes at once.
    pub fn packing_info(&self) -> (r: PackingInfo)
        ensures
            r.unpacked_size == match self {
                FrameDataState::Packed(_) => None,
                FrameDataState::Unpacked(u) | FrameDataState::Both(u, _) => Some(u.meta.num_bytes),
            },
            r.packed_size == match self {
                FrameDataState::Unpacked(_) => None,
                FrameDataState::Packed(p) | FrameDataState::Both(_, p) => Some(p.bytes@.len() as usize),
            },
    {
        PackingInfo { unpacked_size: self.unpacked_size(), packed_size: self.packed_size() }
    }
}

} // verus!
