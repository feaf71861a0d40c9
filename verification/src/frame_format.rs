//! The framing of serialized frame data in a `.puffin` stream: a four-byte header,
//! then length-prefixed parts. The parts themselves (meta data, packed streams and
//! scope details) are serialized elsewhere.
use crate::frame_data::{CompressionKind, PackedStreams};
use crate::data::lemma_embedded;
use crate::le::{le_bytes_u32, lemma_u32_roundtrip, push_u32_le, read_u32_le, u32_from_le};
use vstd::prelude::*;

verus! {

/// `PUF0`: the magic header of a `.puffin` file.
pub open spec fn file_magic() -> Seq<u8> {
    seq![80u8, 85u8, 70u8, 48u8]
}

/// `PFD` followed by a version byte: the header of one frame.
pub open spec fn frame_magic(version: u8) -> Seq<u8> {
    seq![80u8, 70u8, 68u8, version]
}

/// The version byte of the current frame format: `4`.
pub const CURRENT_FRAME_VERSION: u8 = 52u8;

/// Why a frame could not be read.
#[derive(Clone, Copy, Debug, PartialEq, Eq, Structural)]
pub enum FrameError {
    /// Found legacy puffin data (`PFD0`), which can no longer be decoded.
    LegacyUnsupported,
    /// The data is newer than this reader.
    NewerVersion,
    /// The stream ended inside a frame.
    PrematureEnd,
    /// Unknown compression kind.
    UnknownCompression(u8),
}

/// Where the parts of one frame lie in a stream.
#[derive(Clone, Copy, Debug, PartialEq, Eq)]
pub struct FrameSlices {
    /// The frame format version: `0` for a very old frame without magic header,
    /// else the digit after `PFD`.
    pub version: u8,
    /// The serialized frame meta data, if the format has it separately.
    pub meta: Option<(usize, usize)>,
    /// How the streams are compressed.
    pub compression: CompressionKind,
    /// The (compressed) streams; for a legacy frame, the whole legacy frame.
    pub streams: (usize, usize),
    /// The serialized scope details, if the format has them.
    pub scopes: Option<(usize, usize)>,
    /// Where the next frame starts.
    pub next: usize,
}

/// The `u32` stored little-endian at `p`.
pub open spec fn u32_at(s: Seq<u8>, p: int) -> int {
    u32_from_le(s.subrange(p, p + 4)) as int
}

/// A length-prefixed part at `p`: its range and the position after it.
pub open spec fn part_at(s: Seq<u8>, p: int) -> Option<(int, int)> {
    if p + 4 > s.len() || p + 4 + u32_at(s, p) > s.len() {
        None
    } else {
        Some((p + 4, p + 4 + u32_at(s, p)))
    }
}

/// The compression kind a byte stands for.
pub open spec fn spec_compression(b: u8) -> Option<CompressionKind> {
    if b == 0 {
        Some(CompressionKind::Uncompressed)
    } else if b == 1 {
        Some(CompressionKind::Lz4)
    } else if b == 2 {
        Some(CompressionKind::Zstd)
    } else {
        None
    }
}

/// Reads the frame at `pos`: `None` at the end of the stream (fewer than four bytes
/// left) or at the end-of-stream sentinel of four zero bytes.
pub open spec fn spec_read_frame(s: Seq<u8>, pos: int) -> Result<Option<FrameSlices>, FrameError> {
    if pos + 4 > s.len() {
        Ok(None)
    } else {
        let h = s.subrange(pos, pos + 4);
        let body = pos + 4;
        if h == seq![0u8, 0u8, 0u8, 0u8] {
            Ok(None)
        } else if h[0] == 80u8 && h[1] == 70u8 && h[2] == 68u8 {
            let v = h[3];
            if v == 48u8 {
                Err(FrameError::LegacyUnsupported)
            } else if v == 49u8 {
                match part_at(s, body) {
                    None => Err(FrameError::PrematureEnd),
                    Some((b, e)) => Ok(
                        Some(
                            FrameSlices {
                                version: 1,
                                meta: None,
                                compression: CompressionKind::Zstd,
                                streams: (b as usize, e as usize),
                                scopes: None,
                                next: e as usize,
                            },
                        ),
                    ),
                }
            } else if v == 50u8 {
                match part_at(s, body) {
                    None => Err(FrameError::PrematureEnd),
                    Some((mb, me)) => match part_at(s, me) {
                        None => Err(FrameError::PrematureEnd),
                        Some((sb, se)) => Ok(
                            Some(
                                FrameSlices {
                                    version: 2,
                                    meta: Some((mb as usize, me as usize)),
                                    compression: CompressionKind::Zstd,
                                    streams: (sb as usize, se as usize),
                                    scopes: None,
                                    next: se as usize,
                                },
                            ),
                        ),
                    },
                }
            } else if v == 51u8 || v == 52u8 {
                match part_at(s, body) {
                    None => Err(FrameError::PrematureEnd),
                    Some((mb, me)) => if me + 5 > s.len() {
                        Err(FrameError::PrematureEnd)
                    } else {
                        let len = u32_at(s, me);
                        let kind_byte = s[me + 4];
                        match spec_compression(kind_byte) {
                            None => Err(FrameError::UnknownCompression(kind_byte)),
                            Some(kind) => {
                                let sb = me + 5;
                                let se = sb + len;
                                if se > s.len() {
                                    Err(FrameError::PrematureEnd)
                                } else if v == 51u8 {
                                    Ok(
                                        Some(
                                            FrameSlices {
                                                version: 3,
                                                meta: Some((mb as usize, me as usize)),
                                                compression: kind,
                                                streams: (sb as usize, se as usize),
                                                scopes: None,
                                                next: se as usize,
                                            },
                                        ),
                                    )
                                } else {
                                    match part_at(s, se) {
                                        None => Err(FrameError::PrematureEnd),
                                        Some((cb, ce)) => Ok(
                                            Some(
                                                FrameSlices {
                                                    version: 4,
                                                    meta: Some((mb as usize, me as usize)),
                                                    compression: kind,
                                                    streams: (sb as usize, se as usize),
                                                    scopes: Some((cb as usize, ce as usize)),
                                                    next: ce as usize,
                                                },
                                            ),
                                        ),
                                    }
                                }
                            },
                        }
                    },
                }
            } else {
                Err(FrameError::NewerVersion)
            }
        } else {
            // Very old frame without magic header: the header is the length.
            match part_at(s, pos) {
                None => Err(FrameError::PrematureEnd),
                Some((b, e)) => Ok(
                    Some(
                        FrameSlices {
                            version: 0,
                            meta: None,
                            compression: CompressionKind::Uncompressed,
                            streams: (b as usize, e as usize),
                            scopes: None,
                            next: e as usize,
                        },
                    ),
                ),
            }
        }
    }
}

/// What follows a frame's four-byte header in a stream of serialized frames.
#[derive(Clone, Copy, Debug, PartialEq, Eq, Structural)]
pub enum FrameLayout {
    /// The end-of-stream sentinel: nothing follows.
    End,
    /// A very old frame without magic header: the header is the length of the frame
    /// that follows.
    Unframed(u32),
    /// A frame with a magic header: the length-prefixed meta data if `meta`, then
    /// the length of the streams, the compression kind byte if `kind_byte`, the
    /// streams, and the length-prefixed scope details if `scopes`.
    Parts { meta: bool, kind_byte: bool, scopes: bool },
}

/// What follows the four-byte `header` of a frame, or why it cannot be read.
pub fn frame_layout(header: &[u8]) -> (r: Result<FrameLayout, FrameError>)
    requires
        header@.len() == 4,
    ensures
        header@ == seq![0u8, 0u8, 0u8, 0u8] ==> r == Ok::<FrameLayout, FrameError>(FrameLayout::End),
        header@ != seq![0u8, 0u8, 0u8, 0u8] && !(header@[0] == 80u8 && header@[1] == 70u8 && header@[2] == 68u8)
            ==> r == Ok::<FrameLayout, FrameError>(FrameLayout::Unframed(u32_from_le(header@))),
        (header@[0] == 80u8 && header@[1] == 70u8 && header@[2] == 68u8) ==> r == match header@[3] {
            48u8 => Err(FrameError::LegacyUnsupported),
            49u8 => Ok(FrameLayout::Parts { meta: false, kind_byte: false, scopes: false }),
            50u8 => Ok(FrameLayout::Parts { meta: true, kind_byte: false, scopes: false }),
            51u8 => Ok(FrameLayout::Parts { meta: true, kind_byte: true, scopes: false }),
            52u8 => Ok(FrameLayout::Parts { meta: true, kind_byte: true, scopes: true }),
            _ => Err(FrameError::NewerVersion),
        },
{
    if header[0] == 0 && header[1] == 0 && header[2] == 0 && header[3] == 0 {
        proof {
            assert(header@ =~= seq![0u8, 0u8, 0u8, 0u8]);
        }
        return Ok(FrameLayout::End);
    }
    if header[0] == 80 && header[1] == 70 && header[2] == 68 {
        let v = header[3];
        if v == 48 {
            Err(FrameError::LegacyUnsupported)
        } else if v == 49 {
            Ok(FrameLayout::Parts { meta: false, kind_byte: false, scopes: false })
        } else if v == 50 {
            Ok(FrameLayout::Parts { meta: true, kind_byte: false, scopes: false })
        } else if v == 51 {
            Ok(FrameLayout::Parts { meta: true, kind_byte: true, scopes: false })
        } else if v == 52 {
            Ok(FrameLayout::Parts { meta: true, kind_byte: true, scopes: true })
        } else {
            Err(FrameError::NewerVersion)
        }
    } else {
        proof {
            assert(header@ != seq![0u8, 0u8, 0u8, 0u8]);
        }
        Ok(FrameLayout::Unframed(read_u32_le(header)))
    }
}

/// Reads the length prefix at `pos` and returns the range of the part after it.
fn read_part(s: &[u8], pos: usize) -> (r: Option<(usize, usize)>)
    requires
        pos <= s@.len(),
    ensures
        match part_at(s@, pos as int) {
            None => r is None,
            Some((b, e)) => r == Some((b as usize, e as usize)),
        },
{
    let n = s.len();
    if n - pos < 4 {
        return None;
    }
    let len = read_u32_le(vstd::slice::slice_subrange(s, pos, pos + 4)) as usize;
    if n - (pos + 4) < len {
        return None;
    }
    Some((pos + 4, pos + 4 + len))
}

/// Reads the frame at `pos` of a stream of serialized frames.
pub fn read_frame(s: &[u8], pos: usize) -> (r: Result<Option<FrameSlices>, FrameError>)
    requires
        pos <= s@.len(),
    ensures
        r == spec_read_frame(s@, pos as int),
{
    let n = s.len();
    if n - pos < 4 {
        return Ok(None);
    }
    let h0 = s[pos];
    let h1 = s[pos + 1];
    let h2 = s[pos + 2];
    let h3 = s[pos + 3];
    let body = pos + 4;
    proof {
        let h = s@.subrange(pos as int, pos + 4);
        assert(h[0] == h0 && h[1] == h1 && h[2] == h2 && h[3] == h3);
        if h0 == 0 && h1 == 0 && h2 == 0 && h3 == 0 {
            assert(h =~= seq![0u8, 0u8, 0u8, 0u8]);
        }
    }
    if h0 == 0 && h1 == 0 && h2 == 0 && h3 == 0 {
        return Ok(None);
    }
    if h0 == 80 && h1 == 70 && h2 == 68 {
        if h3 == 48 {
            Err(FrameError::LegacyUnsupported)
        } else if h3 == 49 {
            match read_part(s, body) {
                None => Err(FrameError::PrematureEnd),
                Some((b, e)) => Ok(
                    Some(
                        FrameSlices {
                            version: 1,
                            meta: None,
                            compression: CompressionKind::Zstd,
                            streams: (b, e),
                            scopes: None,
                            next: e,
                        },
                    ),
                ),
            }
        } else if h3 == 50 {
            match read_part(s, body) {
                None => Err(FrameError::PrematureEnd),
                Some((mb, me)) => match read_part(s, me) {
                    None => Err(FrameError::PrematureEnd),
                    Some((sb, se)) => Ok(
                        Some(
                            FrameSlices {
                                version: 2,
                                meta: Some((mb, me)),
                                compression: CompressionKind::Zstd,
                                streams: (sb, se),
                                scopes: None,
                                next: se,
                            },
                        ),
                    ),
                },
            }
        } else if h3 == 51 || h3 == 52 {
            match read_part(s, body) {
                None => Err(FrameError::PrematureEnd),
                Some((mb, me)) => {
                    if n - me < 5 {
                        return Err(FrameError::PrematureEnd);
                    }
                    let len = read_u32_le(vstd::slice::slice_subrange(s, me, me + 4)) as usize;
                    let kind_byte = s[me + 4];
                    let kind = match CompressionKind::from_u8(kind_byte) {
                        Ok(k) => k,
                        Err(e) => {
                            return Err(e);
                        },
                    };
                    let sb = me + 5;
                    if n - sb < len {
                        return Err(FrameError::PrematureEnd);
                    }
                    let se = sb + len;
                    if h3 == 51 {
                        Ok(
                            Some(
                                FrameSlices {
                                    version: 3,
                                    meta: Some((mb, me)),
                                    compression: kind,
                                    streams: (sb, se),
                                    scopes: None,
                                    next: se,
                                },
                            ),
                        )
                    } else {
                        match read_part(s, se) {
                            None => Err(FrameError::PrematureEnd),
                            Some((cb, ce)) => Ok(
                                Some(
                                    FrameSlices {
                                        version: 4,
                                        meta: Some((mb, me)),
                                        compression: kind,
                                        streams: (sb, se),
                                        scopes: Some((cb, ce)),
                                        next: ce,
                                    },
                                ),
                            ),
                        }
                    }
                },
            }
        } else {
            Err(FrameError::NewerVersion)
        }
    } else {
        match read_part(s, pos) {
            None => Err(FrameError::PrematureEnd),
            Some((b, e)) => Ok(
                Some(
                    FrameSlices {
                        version: 0,
                        meta: None,
                        compression: CompressionKind::Uncompressed,
                        streams: (b, e),
                        scopes: None,
                        next: e,
                    },
                ),
            ),
        }
    }
}

/// The current encoding of one frame: `PFD4`, then the meta data, the compression
/// kind with the packed streams, and the scope details, each with a little-endian
/// `u32` length in front.
pub open spec fn frame_bytes(meta: Seq<u8>, kind: u8, streams: Seq<u8>, scopes: Seq<u8>) -> Seq<u8> {
    frame_magic(CURRENT_FRAME_VERSION) + le_bytes_u32(meta.len() as u32) + meta + le_bytes_u32(
        streams.len() as u32,
    ) + seq![kind] + streams + le_bytes_u32(scopes.len() as u32) + scopes
}

/// Appends the current encoding of one frame to `out`.
pub fn write_frame(out: &mut Vec<u8>, meta: &[u8], packed: &PackedStreams, scopes: &[u8])
    requires
        meta@.len() <= u32::MAX,
        packed.bytes@.len() <= u32::MAX,
        scopes@.len() <= u32::MAX,
    ensures
        final(out)@ == old(out)@ + frame_bytes(
            meta@,
            packed.compression_kind.as_u8_spec(),
            packed.bytes@,
            scopes@,
        ),
{
    out.push(80u8);
    out.push(70u8);
    out.push(68u8);
    out.push(CURRENT_FRAME_VERSION);
    push_u32_le(out, meta.len() as u32);
    append(out, meta);
    push_u32_le(out, packed.bytes.len() as u32);
    out.push(packed.compression_kind.as_u8());
    append(out, packed.bytes.as_slice());
    push_u32_le(out, scopes.len() as u32);
    append(out, scopes);
    proof {
        assert(out@ =~= old(out)@ + frame_bytes(
            meta@,
            packed.compression_kind.as_u8_spec(),
            packed.bytes@,
            scopes@,
        ));
    }
}

fn append(out: &mut Vec<u8>, bytes: &[u8])
    ensures
        final(out)@ == old(out)@ + bytes@,
{
    let mut i: usize = 0;
    while i < bytes.len()
        invariant
            0 <= i <= bytes@.len(),
            out@ == old(out)@ + bytes@.take(i as int),
        decreases bytes@.len() - i,
    {
        out.push(bytes[i]);
        proof {
            assert(bytes@.take(i + 1) == bytes@.take(i as int).push(bytes@[i as int]));
        }
        i = i + 1;
    }
    proof {
        assert(bytes@.take(bytes@.len() as int) == bytes@);
    }
}

/// The layout of the current encoding of one frame.
proof fn lemma_frame_layout(meta: Seq<u8>, kind: u8, streams: Seq<u8>, scopes: Seq<u8>)
    ensures
        ({
            let f = frame_bytes(meta, kind, streams, scopes);
            let m = meta.len() as int;
            let n = streams.len() as int;
            let c = scopes.len() as int;
            &&& f.len() == 17 + m + n + c
            &&& f.subrange(0, 4) == frame_magic(CURRENT_FRAME_VERSION)
            &&& f.subrange(4, 8) == le_bytes_u32(meta.len() as u32)
            &&& f.subrange(8, 8 + m) == meta
            &&& f.subrange(8 + m, 12 + m) == le_bytes_u32(streams.len() as u32)
            &&& f[12 + m] == kind
            &&& f.subrange(13 + m, 13 + m + n) == streams
            &&& f.subrange(13 + m + n, 17 + m + n) == le_bytes_u32(scopes.len() as u32)
            &&& f.subrange(17 + m + n, 17 + m + n + c) == scopes
        }),
{
    let f = frame_bytes(meta, kind, streams, scopes);
    let m = meta.len() as int;
    let n = streams.len() as int;
    let c = scopes.len() as int;
    assert(f.subrange(0, 4) =~= frame_magic(CURRENT_FRAME_VERSION));
    assert(f.subrange(4, 8) =~= le_bytes_u32(meta.len() as u32));
    assert(f.subrange(8, 8 + m) =~= meta);
    assert(f.subrange(8 + m, 12 + m) =~= le_bytes_u32(streams.len() as u32));
    assert(f.subrange(13 + m, 13 + m + n) =~= streams);
    assert(f.subrange(13 + m + n, 17 + m + n) =~= le_bytes_u32(scopes.len() as u32));
    assert(f.subrange(17 + m + n, 17 + m + n + c) =~= scopes);
}

/// A written frame reads back: the reader finds its meta data, compression kind,
/// packed streams and scope details where the writer put them, whatever comes before
/// or after it in the stream.
#[verifier::rlimit(60)]
pub proof fn law_frame_reads_back(
    prefix: Seq<u8>,
    meta: Seq<u8>,
    kind: CompressionKind,
    streams: Seq<u8>,
    scopes: Seq<u8>,
    suffix: Seq<u8>,
)
    requires
        meta.len() <= u32::MAX,
        streams.len() <= u32::MAX,
        scopes.len() <= u32::MAX,
        prefix.len() + frame_bytes(meta, kind.as_u8_spec(), streams, scopes).len() <= usize::MAX,
    ensures
        ({
            let s = prefix + frame_bytes(meta, kind.as_u8_spec(), streams, scopes) + suffix;
            let p = prefix.len() as int;
            let m = meta.len() as int;
            let n = streams.len() as int;
            let c = scopes.len() as int;
            &&& spec_read_frame(s, p) == Ok::<Option<FrameSlices>, FrameError>(
                Some(
                    FrameSlices {
                        version: 4,
                        meta: Some(((p + 8) as usize, (p + 8 + m) as usize)),
                        compression: kind,
                        streams: ((p + 13 + m) as usize, (p + 13 + m + n) as usize),
                        scopes: Some(((p + 17 + m + n) as usize, (p + 17 + m + n + c) as usize)),
                        next: (p + 17 + m + n + c) as usize,
                    },
                ),
            )
            &&& s.subrange(p + 8, p + 8 + m) == meta
            &&& s.subrange(p + 13 + m, p + 13 + m + n) == streams
            &&& s.subrange(p + 17 + m + n, p + 17 + m + n + c) == scopes
        }),
{
    let k = kind.as_u8_spec();
    let f = frame_bytes(meta, k, streams, scopes);
    let s = prefix + f + suffix;
    let p = prefix.len() as int;
    let m = meta.len() as int;
    let n = streams.len() as int;
    let c = scopes.len() as int;
    lemma_frame_layout(meta, k, streams, scopes);
    lemma_embedded(prefix, f, suffix);
    assert(s.subrange(p, p + 4) == f.subrange(0, 4));
    assert(s.subrange(p + 4, p + 8) == f.subrange(4, 8));
    assert(s.subrange(p + 8, p + 8 + m) == f.subrange(8, 8 + m));
    assert(s.subrange(p + 8 + m, p + 12 + m) == f.subrange(8 + m, 12 + m));
    assert(s[p + 12 + m] == f[12 + m]);
    assert(s.subrange(p + 13 + m, p + 13 + m + n) == f.subrange(13 + m, 13 + m + n));
    assert(s.subrange(p + 13 + m + n, p + 17 + m + n) == f.subrange(13 + m + n, 17 + m + n));
    assert(s.subrange(p + 17 + m + n, p + 17 + m + n + c) == f.subrange(
        17 + m + n,
        17 + m + n + c,
    ));
    lemma_u32_roundtrip(meta.len() as u32);
    lemma_u32_roundtrip(streams.len() as u32);
    lemma_u32_roundtrip(scopes.len() as u32);
    let h = s.subrange(p, p + 4);
    assert(h[0] == 80u8 && h[1] == 70u8 && h[2] == 68u8 && h[3] == 52u8);
    assert(h != seq![0u8, 0u8, 0u8, 0u8]) by {
        assert(h[0] != 0u8);
    }
    assert(u32_at(s, p + 4) == m);
    assert(part_at(s, p + 4) == Some((p + 8, p + 8 + m)));
    assert(u32_at(s, p + 8 + m) == n);
    assert(spec_compression(s[p + 12 + m]) == Some(kind));
    assert(u32_at(s, p + 13 + m + n) == c);
    assert(part_at(s, p + 13 + m + n) == Some((p + 17 + m + n, p + 17 + m + n + c)));
}

} // verus!
