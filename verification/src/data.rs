//! The profiler records all events into a byte stream, parsed on demand.
//!
//! Each scope start consists of:
//!
//! ```text
//!    '('          byte       Sentinel
//!    scope id     u32        Unique monolithic identifier for a scope
//!    time_ns      i64        Time stamp of when scope started
//!    data         str        Resource that is being processed. Could be the empty string.
//!    scope_size   u64        Number of bytes of child scope
//! ```
//!
//! This is followed by `scope_size` bytes of child scopes, and the scope is closed by:
//!
//! ```text
//!    ')'          byte       Sentinel
//!    time_ns      i64        Time stamp of when scope finished
//! ```
//!
//! Integers are encoded in little endian. Strings are a single `u8` length followed by
//! that many bytes of UTF-8, at most 127 bytes long.
use crate::le::{
    i64_from_le, le_bytes_i64, le_bytes_u32, le_bytes_u64, push_i64_le, push_u32_le, push_u64_le,
    u32_from_le, u64_from_le, write_i64_le_at, write_u64_le_at,
};
use crate::{NanoSecond, ScopeId};
use vstd::prelude::*;
use vstd::string::StringSliceAdditionalSpecFns;
use vstd::utf8::{decode_utf8, encode_utf8, encode_utf8_decode_utf8, encode_utf8_valid_utf8, valid_utf8};
use crate::le::{lemma_i64_roundtrip, lemma_u32_roundtrip, lemma_u64_roundtrip};

verus! {

/// Sentinel byte that opens a scope: `(`.
pub const SCOPE_BEGIN: u8 = 40u8;

/// Sentinel byte that closes a scope: `)`.
pub const SCOPE_END: u8 = 41u8;

/// Longest data string, in bytes, that a scope records.
pub const MAX_STRING_LENGTH: usize = 127usize;

/// Number of bytes of a scope header before its data string:
/// sentinel, id, start time and string length.
pub const HEADER_BEFORE_DATA: usize = 14usize;

/// Number of bytes that close a scope: sentinel and stop time.
pub const SCOPE_FOOTER_LEN: usize = 9usize;

// ----------------------------------------------------------------------------
// The byte format, as a specification.

/// Number of data bytes that a scope records for a string of `n` bytes.
pub open spec fn truncated_len(n: nat) -> nat {
    if n <= MAX_STRING_LENGTH {
        n
    } else {
        MAX_STRING_LENGTH as nat
    }
}

/// The encoding of a data string given by its UTF-8 bytes: a length byte and at most
/// 127 bytes.
pub open spec fn str_record(bytes: Seq<u8>) -> Seq<u8> {
    seq![truncated_len(bytes.len()) as u8] + bytes.take(truncated_len(bytes.len()) as int)
}

/// The bytes that open a scope whose child region has `size` bytes.
pub open spec fn scope_head(id: u32, start_ns: i64, data: Seq<u8>, size: u64) -> Seq<u8> {
    seq![SCOPE_BEGIN] + le_bytes_u32(id) + le_bytes_i64(start_ns) + str_record(data)
        + le_bytes_u64(size)
}

/// The bytes that close a scope.
pub open spec fn scope_tail(stop_ns: i64) -> Seq<u8> {
    seq![SCOPE_END] + le_bytes_i64(stop_ns)
}

/// A complete scope with the given child bytes.
pub open spec fn scope_bytes(
    id: u32,
    start_ns: i64,
    data: Seq<u8>,
    children: Seq<u8>,
    stop_ns: i64,
) -> Seq<u8> {
    scope_head(id, start_ns, data, children.len() as u64) + children + scope_tail(stop_ns)
}

/// Offset of the size field of a scope opened at `pos` with the given data bytes.
pub open spec fn size_field_offset(pos: int, data: Seq<u8>) -> int {
    pos + HEADER_BEFORE_DATA + truncated_len(data.len())
}

// ----------------------------------------------------------------------------

/// Used when parsing a Stream.
#[derive(Clone, Copy, Debug, PartialEq, Eq)]
pub struct ScopeRecord<'s> {
    /// The start of this scope in nanoseconds.
    pub start_ns: NanoSecond,
    /// The duration of this scope in nanoseconds.
    pub duration_ns: NanoSecond,
    /// e.g. function argument, like a mesh name. Optional.
    pub data: &'s str,
}

impl<'s> ScopeRecord<'s> {
    /// The end of this scope in nanoseconds.
    pub fn stop_ns(&self) -> (r: NanoSecond)
        requires
            i64::MIN <= self.start_ns + self.duration_ns <= i64::MAX,
        ensures
            r == self.start_ns + self.duration_ns,
    {
        self.start_ns + self.duration_ns
    }
}

/// Used when parsing a Stream.
#[derive(Clone, Copy, Debug, PartialEq, Eq)]
pub struct Scope<'s> {
    /// Unique identifier for the profile scope.
    pub id: ScopeId,
    /// Some dynamic data that is passed into the profiler scope.
    pub record: ScopeRecord<'s>,
    /// Stream offset for first child.
    pub child_begin_position: u64,
    /// Stream offset after last child.
    pub child_end_position: u64,
    /// Stream offset for next sibling (if any).
    pub next_sibling_position: u64,
}

/// Stream of profiling events from one thread.
pub struct Stream(Vec<u8>);

impl Clone for Stream {
    fn clone(&self) -> (r: Self)
        ensures
            r@ == self@,
    {
        let v = self.0.clone();
        proof {
            assert(v@ =~= self.0@);
        }
        Stream(v)
    }
}

impl View for Stream {
    type V = Seq<u8>;

    closed spec fn view(&self) -> Seq<u8> {
        self.0@
    }
}

impl Default for Stream {
    fn default() -> (r: Self)
        ensures
            r@ == Seq::<u8>::empty(),
    {
        Stream(Vec::new())
    }
}

impl From<Vec<u8>> for Stream {
    fn from(v: Vec<u8>) -> (r: Self)
        ensures
            r@ == v@,
    {
        Stream(v)
    }
}

impl vstd::std_specs::convert::FromSpecImpl<Vec<u8>> for Stream {
    open spec fn obeys_from_spec() -> bool {
        true
    }

    closed spec fn from_spec(v: Vec<u8>) -> Stream {
        Stream(v)
    }
}

/// Used to encode number of bytes covered by a scope.
#[derive(Clone, Copy, PartialEq, Eq, Structural)]
pub struct ScopeSize(pub u64);

impl ScopeSize {
    /// Special value to indicate that this profile scope was never closed.
    pub fn unfinished() -> (r: Self)
        ensures
            r.0 == u64::MAX,
    {
        ScopeSize(u64::MAX)
    }
}

impl Stream {
    /// Returns if stream is empty.
    pub fn is_empty(&self) -> (r: bool)
        ensures
            r == (self@.len() == 0),
    {
        self.0.len() == 0
    }

    /// Returns the length in bytes of this stream.
    pub fn len(&self) -> (r: usize)
        ensures
            r == self@.len(),
    {
        self.0.len()
    }

    /// Returns the bytes of this stream.
    pub fn bytes(&self) -> (r: &[u8])
        ensures
            r@ == self@,
    {
        self.0.as_slice()
    }

    /// Clears the stream of all bytes.
    pub fn clear(&mut self)
        ensures
            final(self)@ == Seq::<u8>::empty(),
    {
        self.0.clear();
    }

    /// Extends the stream with the given bytes.
    pub(crate) fn extend(&mut self, bytes: &[u8])
        ensures
            final(self)@ == old(self)@ + bytes@,
    {
        let mut i: usize = 0;
        while i < bytes.len()
            invariant
                0 <= i <= bytes@.len(),
                self@ == old(self)@ + bytes@.take(i as int),
            decreases bytes@.len() - i,
        {
            self.0.push(bytes[i]);
            i = i + 1;
            proof {
                assert(bytes@.take(i as int) == bytes@.take(i - 1) + seq![bytes@[i - 1]]);
            }
        }
        proof {
            assert(bytes@.take(bytes@.len() as int) == bytes@);
        }
    }

    /// Marks the beginning of the scope.
    /// Returns the position where to write the scope size once the scope is closed,
    /// and the start time, taken last so that it does not include the serialization.
    pub fn begin_scope<F: Fn() -> NanoSecond>(
        &mut self,
        now_ns: F,
        scope_id: ScopeId,
        data: &str,
    ) -> (r: (usize, NanoSecond))
        requires
            now_ns.requires(()),
            old(self)@.len() + HEADER_BEFORE_DATA + MAX_STRING_LENGTH + 8 <= usize::MAX,
        ensures
            now_ns.ensures((), r.1),
            scope_id@ != 0,
            r.0 == size_field_offset(old(self)@.len() as int, data.spec_bytes()),
            final(self)@ == old(self)@ + scope_head(
                scope_id@,
                r.1,
                data.spec_bytes(),
                u64::MAX,
            ),
    {
        proof {
            use_type_invariant(&scope_id);
        }
        self.0.push(SCOPE_BEGIN);
        self.write_scope_id(scope_id);
        let time_stamp_offset = self.0.len();
        self.write_nanos(0);
        self.write_str(data);
        let offset = self.0.len();
        self.write_scope_size(ScopeSize::unfinished());
        let start_ns = now_ns();
        write_i64_le_at(&mut self.0, time_stamp_offset, start_ns);
        proof {
            let head = scope_head(scope_id@, start_ns, data.spec_bytes(), u64::MAX);
            assert(self@ =~= old(self)@ + head);
        }
        (offset, start_ns)
    }

    /// Marks the end of the scope: writes the size of the child region at
    /// `start_offset` and appends the closing sentinel and the stop time.
    pub fn end_scope(&mut self, start_offset: usize, stop_ns: NanoSecond)
        requires
            start_offset + 8 <= old(self)@.len(),
            old(self)@.len() + SCOPE_FOOTER_LEN <= usize::MAX,
        ensures
            final(self)@ == old(self)@.subrange(0, start_offset as int) + le_bytes_u64(
                (old(self)@.len() - (start_offset + 8)) as u64,
            ) + old(self)@.subrange(start_offset + 8, old(self)@.len() as int) + scope_tail(
                stop_ns,
            ),
    {
        let scope_size = self.0.len() - (start_offset + 8);
        write_u64_le_at(&mut self.0, start_offset, scope_size as u64);
        self.0.push(SCOPE_END);
        self.write_nanos(stop_ns);
    }

    fn write_nanos(&mut self, nanos: NanoSecond)
        ensures
            final(self)@ == old(self)@ + le_bytes_i64(nanos),
    {
        push_i64_le(&mut self.0, nanos);
    }

    fn write_scope_size(&mut self, size: ScopeSize)
        ensures
            final(self)@ == old(self)@ + le_bytes_u64(size.0),
    {
        push_u64_le(&mut self.0, size.0);
    }

    fn write_scope_id(&mut self, scope_id: ScopeId)
        ensures
            final(self)@ == old(self)@ + le_bytes_u32(scope_id@),
    {
        push_u32_le(&mut self.0, scope_id.get());
    }

    /// Writes a length byte and at most 127 bytes of `s`. This may split a character
    /// in two; the parser handles that.
    fn write_str(&mut self, s: &str)
        ensures
            final(self)@ == old(self)@ + str_record(s.spec_bytes()),
    {
        let bytes = s.as_bytes();
        let len = if bytes.len() < MAX_STRING_LENGTH {
            bytes.len()
        } else {
            MAX_STRING_LENGTH
        };
        self.0.push(len as u8);
        self.extend(vstd::slice::slice_subrange(bytes, 0, len));
        proof {
            assert(self@ =~= old(self)@ + str_record(s.spec_bytes()));
        }
    }
}


// ----------------------------------------------------------------------------
// Parsing.

/// Errors that can happen when parsing a [`Stream`] of profile data.
#[derive(Clone, Copy, Debug, PartialEq, Eq, Structural)]
pub enum Error {
    /// Could not read data from the stream because it ended prematurely.
    PrematureEnd,
    /// The stream is invalid.
    InvalidStream,
    /// The stream was not ended.
    ScopeNeverEnded,
    /// The offset into the stream is invalid.
    InvalidOffset,
    /// Empty stream.
    Empty,
}

/// Custom puffin result type.
pub type Result<T> = core::result::Result<T, Error>;

/// What parsing one scope finds: its fields and the stream offsets of its parts.
pub struct ParsedScope {
    pub id: u32,
    pub start_ns: i64,
    pub stop_ns: i64,
    pub data_begin: int,
    pub data_end: int,
    pub child_begin: int,
    pub child_end: int,
    pub next: int,
}

/// Parses the scope that starts at `pos`, if the byte there opens one.
///
/// A scope whose stop time is before its start time, or whose duration does not fit
/// in an `i64`, makes the stream invalid.
pub open spec fn parse_scope_at(s: Seq<u8>, pos: int) -> Result<Option<ParsedScope>> {
    if pos < 0 || pos >= s.len() || s[pos] != SCOPE_BEGIN {
        Ok(None)
    } else if pos + 5 > s.len() || u32_from_le(s.subrange(pos + 1, pos + 5)) == 0 {
        Err(Error::PrematureEnd)
    } else if pos + 14 > s.len() {
        Err(Error::PrematureEnd)
    } else {
        let data_begin = pos + 14;
        let data_end = data_begin + s[pos + 13];
        if data_end + 8 > s.len() {
            Err(Error::PrematureEnd)
        } else {
            let size = u64_from_le(s.subrange(data_end, data_end + 8));
            if size == u64::MAX {
                Err(Error::ScopeNeverEnded)
            } else {
                let child_begin = data_end + 8;
                let child_end = child_begin + size;
                if child_end + 1 > s.len() {
                    Err(Error::PrematureEnd)
                } else if s[child_end] != SCOPE_END {
                    Err(Error::InvalidStream)
                } else if child_end + 9 > s.len() {
                    Err(Error::PrematureEnd)
                } else {
                    let start_ns = i64_from_le(s.subrange(pos + 5, pos + 13));
                    let stop_ns = i64_from_le(s.subrange(child_end + 1, child_end + 9));
                    if stop_ns < start_ns || stop_ns - start_ns > i64::MAX {
                        Err(Error::InvalidStream)
                    } else {
                        Ok(
                            Some(
                                ParsedScope {
                                    id: u32_from_le(s.subrange(pos + 1, pos + 5)),
                                    start_ns,
                                    stop_ns,
                                    data_begin,
                                    data_end,
                                    child_begin,
                                    child_end,
                                    next: child_end + 9,
                                },
                            ),
                        )
                    }
                }
            }
        }
    }
}

/// A parsed scope lies after `pos` and inside the stream.
pub proof fn lemma_parse_scope_bounds(s: Seq<u8>, pos: int)
    ensures
        parse_scope_at(s, pos) matches Ok(Some(ps)) ==> {
            &&& pos < ps.data_begin <= ps.data_end < ps.child_begin <= ps.child_end < ps.next
            &&& ps.next <= s.len()
            &&& ps.data_end - ps.data_begin <= 255
            &&& ps.id != 0
            &&& ps.start_ns <= ps.stop_ns
        },
{
}

/// The top-level scopes from `pos` on: each scope is followed by its next sibling,
/// until a byte that does not open a scope, or the end of the stream.
pub open spec fn top_scopes_from(s: Seq<u8>, pos: int) -> Result<Seq<ParsedScope>>
    decreases s.len() - pos,
{
    match parse_scope_at(s, pos) {
        Err(e) => Err(e),
        Ok(None) => Ok(Seq::empty()),
        Ok(Some(ps)) => {
            if ps.next <= pos {
                Ok(Seq::empty())
            } else {
                match top_scopes_from(s, ps.next) {
                    Err(e) => Err(e),
                    Ok(rest) => Ok(seq![ps] + rest),
                }
            }
        },
    }
}

/// Visits every scope from `pos` on, depth first: each scope, then its children (at
/// `depth + 1`), then its next sibling. Returns the first error met, the number of
/// scopes visited and the greatest depth reached, counting `depth` itself.
pub open spec fn walk(s: Seq<u8>, pos: int, depth: int) -> (Option<Error>, int, int)
    decreases s.len() - pos,
{
    match parse_scope_at(s, pos) {
        Err(e) => (Some(e), 0, depth),
        Ok(None) => (None, 0, depth),
        Ok(Some(ps)) => {
            if ps.child_begin <= pos || ps.next <= pos {
                (None, 0, depth)
            } else {
                let c = walk(s, ps.child_begin, depth + 1);
                if c.0 is Some {
                    (c.0, 1 + c.1, c.2)
                } else {
                    let r = walk(s, ps.next, depth);
                    (r.0, 1 + c.1 + r.1, if c.2 < r.2 {
                        r.2
                    } else {
                        c.2
                    })
                }
            }
        },
    }
}

/// The count of a walk is never negative and its depth is at least the start depth.
pub proof fn lemma_walk_bounds(s: Seq<u8>, pos: int, depth: int)
    ensures
        walk(s, pos, depth).1 >= 0,
        walk(s, pos, depth).2 >= depth,
    decreases s.len() - pos,
{
    lemma_parse_scope_bounds(s, pos);
    if let Ok(Some(ps)) = parse_scope_at(s, pos) {
        lemma_walk_bounds(s, ps.child_begin, depth + 1);
        lemma_walk_bounds(s, ps.next, depth);
    }
}

/// `p` is the longest prefix of `b` that is valid UTF-8.
pub open spec fn is_longest_valid_utf8_prefix(p: Seq<u8>, b: Seq<u8>) -> bool {
    &&& p.len() <= b.len()
    &&& p == b.take(p.len() as int)
    &&& valid_utf8(p)
    &&& forall|m: int| p.len() < m <= b.len() ==> !valid_utf8(#[trigger] b.take(m))
}

/// An executable scope read from stream `s` is the parsed scope `ps`; its data is the
/// longest valid UTF-8 prefix of the recorded data bytes.
pub open spec fn scope_matches(sc: Scope, ps: ParsedScope, s: Seq<u8>) -> bool {
    &&& sc.id@ == ps.id
    &&& sc.record.start_ns == ps.start_ns
    &&& sc.record.duration_ns == ps.stop_ns - ps.start_ns
    &&& is_longest_valid_utf8_prefix(
        sc.record.data.spec_bytes(),
        s.subrange(ps.data_begin, ps.data_end),
    )
    &&& sc.child_begin_position == ps.child_begin
    &&& sc.child_end_position == ps.child_end
    &&& sc.next_sibling_position == ps.next
}

/// Decodes `v` as UTF-8 (`std::str::from_utf8`). On failure it returns the length of
/// the longest valid prefix (`Utf8Error::valid_up_to`), which the documentation
/// describes as the largest index such that `from_utf8(&v[..index])` succeeds.
#[verifier::external_body]
pub(crate) fn str_from_utf8<'a>(v: &'a [u8]) -> (r: core::result::Result<&'a str, usize>)
    ensures
        r is Ok <==> valid_utf8(v@),
        r matches Ok(s) ==> s.spec_bytes() == v@,
        r matches Err(n) ==> n <= v@.len() && valid_utf8(v@.take(n as int)) && forall|m: int|
            n < m <= v@.len() ==> !valid_utf8(#[trigger] v@.take(m)),
{
    std::str::from_utf8(v).map_err(|err| err.valid_up_to())
}

/// The longest prefix of `data` that is valid UTF-8. The recorded string may have
/// been truncated in the middle of a character.
pub fn longest_valid_utf8_prefix(data: &[u8]) -> (r: &str)
    ensures
        is_longest_valid_utf8_prefix(r.spec_bytes(), data@),
{
    match str_from_utf8(data) {
        Ok(s) => {
            proof {
                assert(data@.take(data@.len() as int) == data@);
            }
            s
        },
        Err(n) => {
            let prefix = vstd::slice::slice_subrange(data, 0, n);
            match str_from_utf8(prefix) {
                Ok(s) => {
                    proof {
                        assert(prefix@ == data@.take(n as int));
                    }
                    s
                },
                Err(_) => {
                    proof {
                        assert(prefix@ == data@.take(n as int));
                    }
                    ""
                },
            }
        },
    }
}

/// Parses a [`Stream`] of profiler data.
pub struct Reader<'s> {
    data: &'s [u8],
    position: usize,
}

impl<'s> View for Reader<'s> {
    type V = (Seq<u8>, int);

    closed spec fn view(&self) -> (Seq<u8>, int) {
        (self.data@, self.position as int)
    }
}

impl<'s> Reader<'s> {
    #[verifier::type_invariant]
    spec fn position_in_stream(self) -> bool {
        self.position <= self.data@.len()
    }

    /// Returns a reader that starts reading from the start of the stream.
    pub fn from_start(stream: &'s Stream) -> (r: Self)
        ensures
            r@ == (stream@, 0int),
    {
        Reader { data: stream.0.as_slice(), position: 0 }
    }

    /// Returns a reader that starts reading from an offset into the stream.
    pub fn with_offset(stream: &'s Stream, offset: u64) -> (r: Result<Self>)
        ensures
            offset <= stream@.len() ==> (r matches Ok(rd) && rd@ == (stream@, offset as int)),
            offset > stream@.len() ==> r == Err::<Self, Error>(Error::InvalidOffset),
    {
        if offset <= stream.0.len() as u64 {
            Ok(Reader { data: stream.0.as_slice(), position: offset as usize })
        } else {
            Err(Error::InvalidOffset)
        }
    }

    /// [`None`] if at end of stream.
    fn peek_u8(&self) -> (r: Option<u8>)
        ensures
            self@.1 < self@.0.len() ==> r == Some(self@.0[self@.1]),
            self@.1 >= self@.0.len() ==> r is None,
    {
        if self.position < self.data.len() {
            Some(self.data[self.position])
        } else {
            None
        }
    }

    fn parse_u8(&mut self) -> (r: Result<u8>)
        ensures
            final(self)@.0 == old(self)@.0,
            old(self)@.1 < old(self)@.0.len() ==> r == Ok::<u8, Error>(old(self)@.0[old(self)@.1])
                && final(self)@.1 == old(self)@.1 + 1,
            old(self)@.1 >= old(self)@.0.len() ==> r == Err::<u8, Error>(Error::PrematureEnd),
    {
        if self.position < self.data.len() {
            let b = self.data[self.position];
            self.position = self.position + 1;
            Ok(b)
        } else {
            Err(Error::PrematureEnd)
        }
    }

    fn parse_scope_id(&mut self) -> (r: Result<ScopeId>)
        ensures
            final(self)@.0 == old(self)@.0,
            ({
                let (s, p) = old(self)@;
                if p + 4 > s.len() || u32_from_le(s.subrange(p, p + 4)) == 0 {
                    r == Err::<ScopeId, Error>(Error::PrematureEnd)
                } else {
                    r matches Ok(id) && id@ == u32_from_le(s.subrange(p, p + 4)) && final(self)@.1 == p + 4
                }
            }),
    {
        proof {
            use_type_invariant(&*self);
        }
        if self.data.len() - self.position < 4 {
            return Err(Error::PrematureEnd);
        }
        let v = crate::le::read_u32_le(
            vstd::slice::slice_subrange(self.data, self.position, self.position + 4),
        );
        self.position = self.position + 4;
        if v == 0 {
            Err(Error::PrematureEnd)
        } else {
            Ok(ScopeId::new(v))
        }
    }

    fn parse_nanos(&mut self) -> (r: Result<NanoSecond>)
        ensures
            final(self)@.0 == old(self)@.0,
            ({
                let (s, p) = old(self)@;
                if p + 8 > s.len() {
                    r == Err::<NanoSecond, Error>(Error::PrematureEnd)
                } else {
                    r == Ok::<NanoSecond, Error>(i64_from_le(s.subrange(p, p + 8))) && final(self)@.1 == p + 8
                }
            }),
    {
        proof {
            use_type_invariant(&*self);
        }
        if self.data.len() - self.position < 8 {
            return Err(Error::PrematureEnd);
        }
        let v = crate::le::read_i64_le(
            vstd::slice::slice_subrange(self.data, self.position, self.position + 8),
        );
        self.position = self.position + 8;
        Ok(v)
    }

    fn parse_scope_size(&mut self) -> (r: Result<ScopeSize>)
        ensures
            final(self)@.0 == old(self)@.0,
            ({
                let (s, p) = old(self)@;
                if p + 8 > s.len() {
                    r == Err::<ScopeSize, Error>(Error::PrematureEnd)
                } else {
                    r matches Ok(sz) && sz.0 == u64_from_le(s.subrange(p, p + 8)) && final(self)@.1 == p + 8
                }
            }),
    {
        proof {
            use_type_invariant(&*self);
        }
        if self.data.len() - self.position < 8 {
            return Err(Error::PrematureEnd);
        }
        let v = crate::le::read_u64_le(
            vstd::slice::slice_subrange(self.data, self.position, self.position + 8),
        );
        self.position = self.position + 8;
        Ok(ScopeSize(v))
    }

    fn parse_string(&mut self) -> (r: Result<&'s str>)
        ensures
            final(self)@.0 == old(self)@.0,
            ({
                let (s, p) = old(self)@;
                if p + 1 > s.len() || p + 1 + s[p] > s.len() {
                    r == Err::<&str, Error>(Error::PrematureEnd)
                } else {
                    r matches Ok(st) && is_longest_valid_utf8_prefix(
                        st.spec_bytes(),
                        s.subrange(p + 1, p + 1 + s[p]),
                    ) && final(self)@.1 == p + 1 + s[p]
                }
            }),
    {
        let len = self.parse_u8()?;
        proof {
            use_type_invariant(&*self);
        }
        let begin = self.position;
        if (len as usize) <= self.data.len() - begin {
            let end = begin + len as usize;
            let st = longest_valid_utf8_prefix(vstd::slice::slice_subrange(self.data, begin, end));
            self.position = end;
            Ok(st)
        } else {
            Err(Error::PrematureEnd)
        }
    }

    /// Parse the next scope in the stream, if any,
    /// and advance to the next sibling scope (if any).
    fn parse_scope(&mut self) -> (r: Result<Option<Scope<'s>>>)
        ensures
            final(self)@.0 == old(self)@.0,
            ({
                let (s, p) = old(self)@;
                match parse_scope_at(s, p) {
                    Err(e) => r == Err::<Option<Scope>, Error>(e),
                    Ok(None) => r == Ok::<Option<Scope>, Error>(None) && final(self)@.1 == p,
                    Ok(Some(ps)) => r matches Ok(Some(sc)) && scope_matches(sc, ps, s) && final(self)@.1 == ps.next,
                }
            }),
    {
        proof {
            use_type_invariant(&*self);
        }
        let ghost s = self.data@;
        let ghost p = self.position as int;
        let first = self.peek_u8();
        match first {
            Some(b) => {
                if b != SCOPE_BEGIN {
                    return Ok(None);
                }
            },
            None => {
                return Ok(None);
            },
        }
        let n = self.data.len();
        assert(self.position < n);
        self.position = self.position + 1;
        let scope_id = self.parse_scope_id()?;
        let start_ns = self.parse_nanos()?;
        let data = self.parse_string()?;
        let scope_size = self.parse_scope_size()?;
        if scope_size.0 == u64::MAX {
            return Err(Error::ScopeNeverEnded);
        }
        proof {
            use_type_invariant(&*self);
        }
        let child_begin = self.position;
        let room = (self.data.len() - child_begin) as u64;
        if scope_size.0 >= room {
            return Err(Error::PrematureEnd);
        }
        let child_end = child_begin + scope_size.0 as usize;
        self.position = child_end;
        if self.parse_u8()? != SCOPE_END {
            return Err(Error::InvalidStream);
        }
        let stop_ns = self.parse_nanos()?;
        if stop_ns < start_ns {
            return Err(Error::InvalidStream);
        }
        let duration_ns = match stop_ns.checked_sub(start_ns) {
            Some(d) => d,
            None => {
                return Err(Error::InvalidStream);
            },
        };
        proof {
            assert(s.subrange(p + 1, p + 5) == s.subrange(p + 1, p + 5));
        }
        Ok(
            Some(
                Scope {
                    id: scope_id,
                    record: ScopeRecord { start_ns, duration_ns, data },
                    child_begin_position: child_begin as u64,
                    child_end_position: child_end as u64,
                    next_sibling_position: self.position as u64,
                },
            ),
        )
    }

    /// Reads the next top-level scope and advances past it: `None` at the end of the
    /// siblings.
    pub fn next_scope(&mut self) -> (r: Option<Result<Scope<'s>>>)
        ensures
            final(self)@.0 == old(self)@.0,
            ({
                let (s, p) = old(self)@;
                match parse_scope_at(s, p) {
                    Err(e) => r == Some(Err::<Scope, Error>(e)),
                    Ok(None) => r is None && final(self)@.1 == p,
                    Ok(Some(ps)) => r matches Some(Ok(sc)) && scope_matches(sc, ps, s) && final(
                        self)@.1 == ps.next,
                }
            }),
    {
        match self.parse_scope() {
            Ok(Some(scope)) => Some(Ok(scope)),
            Ok(None) => None,
            Err(e) => Some(Err(e)),
        }
    }

    /// Read all the top-level scopes (non-recursive) until the end of the stream.
    pub fn read_top_scopes(self) -> (r: Result<Vec<Scope<'s>>>)
        ensures
            match top_scopes_from(self@.0, self@.1) {
                Err(e) => r == Err::<Vec<Scope>, Error>(e),
                Ok(ps) => r matches Ok(v) && v@.len() == ps.len() && forall|i: int|
                    0 <= i < ps.len() ==> scope_matches(#[trigger] v@[i], ps[i], self@.0),
            },
    {
        let ghost s = self@.0;
        let ghost p0 = self@.1;
        let mut reader = self;
        let mut scopes: Vec<Scope<'s>> = Vec::new();
        let ghost mut found: Seq<ParsedScope> = Seq::empty();
        loop
            invariant
                reader@.0 == s,
                s == self@.0,
                p0 == self@.1,
                scopes@.len() == found.len(),
                forall|i: int| 0 <= i < found.len() ==> scope_matches(#[trigger] scopes@[i], found[i], s),
                top_scopes_from(s, p0) == match top_scopes_from(s, reader@.1) {
                    Err(e) => Err::<Seq<ParsedScope>, Error>(e),
                    Ok(rest) => Ok(found + rest),
                },
            decreases s.len() - reader@.1,
        {
            proof {
                use_type_invariant(&reader);
                lemma_parse_scope_bounds(s, reader@.1);
            }
            let ghost p = reader@.1;
            match reader.parse_scope() {
                Err(e) => {
                    assert(top_scopes_from(s, p) == Err::<Seq<ParsedScope>, Error>(e));
                    return Err(e);
                },
                Ok(None) => {
                    proof {
                        assert(top_scopes_from(s, p) == Ok::<Seq<ParsedScope>, Error>(Seq::empty()));
                        assert(found + Seq::<ParsedScope>::empty() == found);
                    }
                    return Ok(scopes);
                },
                Ok(Some(scope)) => {
                    let ghost ps = parse_scope_at(s, p)->Ok_0->Some_0;
                    scopes.push(scope);
                    proof {
                        match top_scopes_from(s, ps.next) {
                            Err(e) => {},
                            Ok(rest) => {
                                assert(found + (seq![ps] + rest) == found.push(ps) + rest);
                            },
                        }
                        found = found.push(ps);
                    }
                },
            }
        }
    }


    /// Recursively count all profile scopes in a stream.
    /// Returns total number of scopes and maximum recursion depth.
    pub fn count_scope_and_depth(stream: &Stream) -> (r: Result<(usize, usize)>)
        requires
            walk(stream@, 0, 0).1 <= usize::MAX,
        ensures
            match walk(stream@, 0, 0) {
                (Some(e), _, _) => r == Err::<(usize, usize), Error>(e),
                (None, n, d) => r matches Ok((rn, rd)) && rn == n && rd == d,
            },
    {
        let mut max_depth: usize = 0;
        proof {
            lemma_walk_bounds(stream@, 0, 0);
        }
        let num_scopes = Self::count_all_scopes_at_offset(stream, 0, 0, &mut max_depth)?;
        Ok((num_scopes, max_depth))
    }

    fn count_all_scopes_at_offset(
        stream: &Stream,
        offset: u64,
        depth: usize,
        max_depth: &mut usize,
    ) -> (r: Result<usize>)
        requires
            offset <= stream@.len(),
            depth <= offset,
            walk(stream@, offset as int, depth as int).1 <= usize::MAX,
        ensures
            match walk(stream@, offset as int, depth as int) {
                (Some(e), _, _) => r == Err::<usize, Error>(e),
                (None, n, d) => r == Ok::<usize, Error>(n as usize) && *final(max_depth) as int
                    == (if *old(max_depth) < d {
                    d
                } else {
                    *old(max_depth) as int
                }),
            },
        decreases stream@.len() - offset,
    {
        let ghost s = stream@;
        let ghost w0 = walk(s, offset as int, depth as int);
        let ghost old_max = *max_depth as int;
        proof {
            lemma_walk_bounds(s, offset as int, depth as int);
        }
        if *max_depth < depth {
            *max_depth = depth;
        }
        let mut reader = match Reader::with_offset(stream, offset) {
            Ok(rd) => rd,
            Err(e) => {
                return Err(e);
            },
        };
        let mut num_scopes: usize = 0;
        loop
            invariant
                reader@.0 == s,
                s == stream@,
                offset <= reader@.1 <= s.len(),
                depth <= offset,
                w0 == walk(s, offset as int, depth as int),
                w0.1 <= usize::MAX,
                old_max == *old(max_depth) as int,
                *max_depth >= depth,
                w0.0 == walk(s, reader@.1, depth as int).0,
                w0.1 == num_scopes + walk(s, reader@.1, depth as int).1,
                (if old_max < w0.2 {
                    w0.2
                } else {
                    old_max
                }) == (if *max_depth < walk(s, reader@.1, depth as int).2 {
                    walk(s, reader@.1, depth as int).2
                } else {
                    *max_depth as int
                }),
            decreases s.len() - reader@.1,
        {
            let ghost p = reader@.1;
            proof {
                use_type_invariant(&reader);
                lemma_parse_scope_bounds(s, p);
                lemma_walk_bounds(s, p, depth as int);
            }
            match reader.parse_scope() {
                Err(e) => {
                    return Err(e);
                },
                Ok(None) => {
                    assert(walk(s, p, depth as int) == (None::<Error>, 0int, depth as int));
                    return Ok(num_scopes);
                },
                Ok(Some(child)) => {
                    let ghost ps = parse_scope_at(s, p)->Ok_0->Some_0;
                    proof {
                        lemma_walk_bounds(s, ps.child_begin, depth + 1);
                        lemma_walk_bounds(s, ps.next, depth as int);
                    }
                    let c = match Self::count_all_scopes_at_offset(
                        stream,
                        child.child_begin_position,
                        depth + 1,
                        max_depth,
                    ) {
                        Ok(c) => c,
                        Err(e) => {
                            return Err(e);
                        },
                    };
                    num_scopes = num_scopes + 1 + c;
                },
            }
        }
    }

}

// ----------------------------------------------------------------------------

/// A [`Stream`] plus some info about it.
pub struct StreamInfo {
    /// The raw profile data.
    pub stream: Stream,
    /// Total number of scopes in the stream.
    pub num_scopes: usize,
    /// The depth of the deepest scope.
    /// `0` mean no scopes, `1` some scopes without children, etc.
    pub depth: usize,
    /// The smallest and largest nanosecond value in the stream.
    ///
    /// The default value is ([`NanoSecond::MAX`], [`NanoSecond::MIN`]) which indicates an empty stream.
    pub range_ns: (NanoSecond, NanoSecond),
}

/// A reference to the contents of a [`StreamInfo`].
#[derive(Clone, Copy)]
pub struct StreamInfoRef<'a> {
    /// The raw profile data.
    pub stream: &'a [u8],
    /// Total number of scopes in the stream.
    pub num_scopes: usize,
    /// The depth of the deepest scope.
    pub depth: usize,
    /// The smallest and largest nanosecond value in the stream.
    pub range_ns: (NanoSecond, NanoSecond),
}

/// The info of an empty stream.
pub open spec fn is_empty_info(info: StreamInfo) -> bool {
    &&& info.stream@ == Seq::<u8>::empty()
    &&& info.num_scopes == 0
    &&& info.depth == 0
    &&& info.range_ns == (i64::MAX, i64::MIN)
}

impl Clone for StreamInfo {
    fn clone(&self) -> (r: Self)
        ensures
            r.stream@ == self.stream@,
            r.num_scopes == self.num_scopes,
            r.depth == self.depth,
            r.range_ns == self.range_ns,
    {
        StreamInfo {
            stream: self.stream.clone(),
            num_scopes: self.num_scopes,
            depth: self.depth,
            range_ns: self.range_ns,
        }
    }
}

impl Default for StreamInfo {
    fn default() -> (r: Self)
        ensures
            is_empty_info(r),
    {
        StreamInfo {
            stream: Stream::default(),
            num_scopes: 0,
            depth: 0,
            range_ns: (NanoSecond::MAX, NanoSecond::MIN),
        }
    }
}

impl StreamInfo {
    /// Parse a stream to count the depth, number of scopes in it etc.
    pub fn parse(stream: Stream) -> (r: Result<StreamInfo>)
        requires
            walk(stream@, 0, 0).1 <= usize::MAX,
        ensures
            match top_scopes_from(stream@, 0) {
                Err(e) => r == Err::<StreamInfo, Error>(e),
                Ok(tops) => if tops.len() == 0 {
                    r matches Ok(info) && info.stream@ == stream@ && info.num_scopes == 0
                        && info.depth == 0 && info.range_ns == (i64::MAX, i64::MIN)
                } else {
                    match walk(stream@, 0, 0) {
                        (Some(e), _, _) => r == Err::<StreamInfo, Error>(e),
                        (None, n, d) => r matches Ok(info) && info.stream@ == stream@
                            && info.num_scopes == n && info.depth == d && info.range_ns == (
                            tops[0].start_ns,
                            tops.last().stop_ns,
                        ),
                    }
                },
            },
    {
        let ghost tops = top_scopes_from(stream@, 0)->Ok_0;
        let range_ns = {
            let top_scopes = Reader::from_start(&stream).read_top_scopes()?;
            if top_scopes.len() == 0 {
                None
            } else {
                let first = top_scopes[0];
                let last = top_scopes[top_scopes.len() - 1];
                proof {
                    assert(scope_matches(top_scopes@[0], tops[0], stream@));
                    assert(scope_matches(
                        top_scopes@[top_scopes@.len() - 1],
                        tops[tops.len() - 1],
                        stream@,
                    ));
                }
                Some((first.record.start_ns, last.record.stop_ns()))
            }
        };
        match range_ns {
            None => {
                assert(tops.len() == 0);
                Ok(
                StreamInfo {
                    stream,
                    num_scopes: 0,
                    depth: 0,
                    range_ns: (NanoSecond::MAX, NanoSecond::MIN),
                },
            )},
            Some(range_ns) => {
                assert(tops.len() != 0);
                assert(range_ns == (tops[0].start_ns, tops.last().stop_ns));
                let (num_scopes, depth) = Reader::count_scope_and_depth(&stream)?;
                Ok(StreamInfo { stream, num_scopes, depth, range_ns })
            },
        }
    }

    /// Extends this [`StreamInfo`] with another [`StreamInfo`].
    pub fn extend(&mut self, other: &StreamInfoRef<'_>)
        requires
            old(self).num_scopes + other.num_scopes <= usize::MAX,
        ensures
            final(self).stream@ == old(self).stream@ + other.stream@,
            final(self).num_scopes == old(self).num_scopes + other.num_scopes,
            final(self).depth == if old(self).depth < other.depth {
                other.depth
            } else {
                old(self).depth
            },
            final(self).range_ns.0 == if other.range_ns.0 < old(self).range_ns.0 {
                other.range_ns.0
            } else {
                old(self).range_ns.0
            },
            final(self).range_ns.1 == if old(self).range_ns.1 < other.range_ns.1 {
                other.range_ns.1
            } else {
                old(self).range_ns.1
            },
    {
        self.stream.extend(other.stream);
        self.num_scopes = self.num_scopes + other.num_scopes;
        if self.depth < other.depth {
            self.depth = other.depth;
        }
        if other.range_ns.0 < self.range_ns.0 {
            self.range_ns.0 = other.range_ns.0;
        }
        if self.range_ns.1 < other.range_ns.1 {
            self.range_ns.1 = other.range_ns.1;
        }
    }

    /// Clears the contents of this [`StreamInfo`].
    pub fn clear(&mut self)
        ensures
            is_empty_info(*final(self)),
    {
        self.stream.clear();
        self.num_scopes = 0;
        self.depth = 0;
        self.range_ns = (NanoSecond::MAX, NanoSecond::MIN);
    }

    /// Returns a reference to the contents of this [`StreamInfo`].
    pub fn as_stream_into_ref(&self) -> (r: StreamInfoRef<'_>)
        ensures
            r.stream@ == self.stream@,
            r.num_scopes == self.num_scopes,
            r.depth == self.depth,
            r.range_ns == self.range_ns,
    {
        StreamInfoRef {
            stream: self.stream.bytes(),
            num_scopes: self.num_scopes,
            depth: self.depth,
            range_ns: self.range_ns,
        }
    }
}

// ----------------------------------------------------------------------------
// Laws of the format.

/// The parse of the complete scope that `scope_bytes` encodes at `pos`.
pub open spec fn expected_parse(
    pos: int,
    id: u32,
    start_ns: i64,
    data: Seq<u8>,
    children: Seq<u8>,
    stop_ns: i64,
) -> ParsedScope {
    let data_begin = pos + HEADER_BEFORE_DATA;
    let data_end = data_begin + truncated_len(data.len());
    let child_begin = data_end + 8;
    let child_end = child_begin + children.len();
    ParsedScope {
        id,
        start_ns,
        stop_ns,
        data_begin,
        data_end,
        child_begin,
        child_end,
        next: child_end + SCOPE_FOOTER_LEN,
    }
}

/// Opening a scope, appending any child bytes and closing it again writes exactly the
/// encoding of one complete scope with those children.
pub proof fn law_begin_end_writes_scope(
    s0: Seq<u8>,
    id: u32,
    start_ns: i64,
    data: Seq<u8>,
    children: Seq<u8>,
    stop_ns: i64,
)
    ensures
        ({
            let off = size_field_offset(s0.len() as int, data);
            let s2 = s0 + scope_head(id, start_ns, data, u64::MAX) + children;
            s2.subrange(0, off) + le_bytes_u64((s2.len() - (off + 8)) as u64) + s2.subrange(
                off + 8,
                s2.len() as int,
            ) + scope_tail(stop_ns) == s0 + scope_bytes(id, start_ns, data, children, stop_ns)
        }),
{
    let off = size_field_offset(s0.len() as int, data);
    let s2 = s0 + scope_head(id, start_ns, data, u64::MAX) + children;
    let n = truncated_len(data.len());
    let before_size = seq![SCOPE_BEGIN] + le_bytes_u32(id) + le_bytes_i64(start_ns) + str_record(
        data,
    );
    assert(before_size.len() == HEADER_BEFORE_DATA + n);
    assert(scope_head(id, start_ns, data, u64::MAX) == before_size + le_bytes_u64(u64::MAX));
    assert(scope_head(id, start_ns, data, children.len() as u64) == before_size + le_bytes_u64(
        children.len() as u64,
    ));
    assert(s2.subrange(0, off) =~= s0 + before_size);
    assert(s2.subrange(off + 8, s2.len() as int) =~= children);
    assert((s2.len() - (off + 8)) as u64 == children.len() as u64);
    assert(s2.subrange(0, off) + le_bytes_u64((s2.len() - (off + 8)) as u64) + s2.subrange(
        off + 8,
        s2.len() as int,
    ) + scope_tail(stop_ns) =~= s0 + scope_bytes(id, start_ns, data, children, stop_ns));
}

/// The layout of the encoding of one complete scope.
proof fn lemma_scope_bytes_layout(
    id: u32,
    start_ns: i64,
    data: Seq<u8>,
    children: Seq<u8>,
    stop_ns: i64,
)
    ensures
        ({
            let sb = scope_bytes(id, start_ns, data, children, stop_ns);
            let n = truncated_len(data.len()) as int;
            let c = children.len() as int;
            &&& sb.len() == 31 + n + c
            &&& sb[0] == SCOPE_BEGIN
            &&& sb.subrange(1, 5) == le_bytes_u32(id)
            &&& sb.subrange(5, 13) == le_bytes_i64(start_ns)
            &&& sb[13] == n as u8
            &&& sb.subrange(14, 14 + n) == data.take(n)
            &&& sb.subrange(14 + n, 22 + n) == le_bytes_u64(children.len() as u64)
            &&& sb.subrange(22 + n, 22 + n + c) == children
            &&& sb[22 + n + c] == SCOPE_END
            &&& sb.subrange(23 + n + c, 31 + n + c) == le_bytes_i64(stop_ns)
        }),
{
    let sb = scope_bytes(id, start_ns, data, children, stop_ns);
    let n = truncated_len(data.len()) as int;
    let c = children.len() as int;
    let rec = str_record(data);
    assert(rec.len() == 1 + n);
    let head = scope_head(id, start_ns, data, children.len() as u64);
    assert(head.len() == 22 + n);
    assert(sb.subrange(1, 5) =~= le_bytes_u32(id));
    assert(sb.subrange(5, 13) =~= le_bytes_i64(start_ns));
    assert(sb[13] == rec[0]);
    assert(sb.subrange(14, 14 + n) =~= data.take(n));
    assert(sb.subrange(14 + n, 22 + n) =~= le_bytes_u64(children.len() as u64));
    assert(sb.subrange(22 + n, 22 + n + c) =~= children);
    assert(sb.subrange(23 + n + c, 31 + n + c) =~= le_bytes_i64(stop_ns));
}

/// Ranges of `prefix + b + suffix` that lie within `b`.
pub proof fn lemma_embedded(prefix: Seq<u8>, b: Seq<u8>, suffix: Seq<u8>)
    ensures
        forall|i: int|
            0 <= i < b.len() ==> #[trigger] (prefix + b + suffix)[prefix.len() + i] == b[i],
        forall|i: int, j: int|
            0 <= i <= j <= b.len() ==> #[trigger] (prefix + b + suffix).subrange(
                prefix.len() + i,
                prefix.len() + j,
            ) == b.subrange(i, j),
{
    assert forall|i: int, j: int| 0 <= i <= j <= b.len() implies #[trigger] (prefix + b
        + suffix).subrange(prefix.len() + i, prefix.len() + j) == b.subrange(i, j) by {
        assert((prefix + b + suffix).subrange(prefix.len() + i, prefix.len() + j) =~= b.subrange(
            i,
            j,
        ));
    }
}

/// A complete scope reads back as what was written: its id, its start and stop
/// times, its recorded data bytes and its child bytes, whatever comes before or
/// after it in the stream.
#[verifier::rlimit(50)]
pub proof fn law_scope_reads_back(
    prefix: Seq<u8>,
    id: u32,
    start_ns: i64,
    data: Seq<u8>,
    children: Seq<u8>,
    stop_ns: i64,
    suffix: Seq<u8>,
)
    requires
        id != 0,
        start_ns <= stop_ns,
        stop_ns - start_ns <= i64::MAX,
        children.len() < u64::MAX,
    ensures
        ({
            let s = prefix + scope_bytes(id, start_ns, data, children, stop_ns) + suffix;
            let ps = expected_parse(prefix.len() as int, id, start_ns, data, children, stop_ns);
            &&& parse_scope_at(s, prefix.len() as int) == Ok::<Option<ParsedScope>, Error>(
                Some(ps),
            )
            &&& s.subrange(ps.data_begin, ps.data_end) == data.take(
                truncated_len(data.len()) as int,
            )
            &&& s.subrange(ps.child_begin, ps.child_end) == children
            &&& ps.next == prefix.len() + scope_bytes(
                id,
                start_ns,
                data,
                children,
                stop_ns,
            ).len()
        }),
{
    let sb = scope_bytes(id, start_ns, data, children, stop_ns);
    let s = prefix + sb + suffix;
    let pos = prefix.len() as int;
    let n = truncated_len(data.len()) as int;
    let c = children.len() as int;
    lemma_scope_bytes_layout(id, start_ns, data, children, stop_ns);
    lemma_embedded(prefix, sb, suffix);
    assert(s[pos] == sb[0]);
    assert(s.subrange(pos + 1, pos + 5) == sb.subrange(1, 5));
    assert(s.subrange(pos + 5, pos + 13) == sb.subrange(5, 13));
    assert(s[pos + 13] == sb[13]);
    assert(s.subrange(pos + 14, pos + 14 + n) == sb.subrange(14, 14 + n));
    assert(s.subrange(pos + 14 + n, pos + 22 + n) == sb.subrange(14 + n, 22 + n));
    assert(s.subrange(pos + 22 + n, pos + 22 + n + c) == sb.subrange(22 + n, 22 + n + c));
    assert(s[pos + 22 + n + c] == sb[22 + n + c]);
    assert(s.subrange(pos + 23 + n + c, pos + 31 + n + c) == sb.subrange(23 + n + c, 31 + n + c));
    lemma_u32_roundtrip(id);
    lemma_i64_roundtrip(start_ns);
    lemma_u64_roundtrip(children.len() as u64);
    lemma_i64_roundtrip(stop_ns);
    assert(s.len() >= pos + 31 + n + c);
}

/// At or past the end of the stream there are no more scopes.
proof fn lemma_top_scopes_at_end(s: Seq<u8>, pos: int)
    requires
        pos >= s.len(),
    ensures
        top_scopes_from(s, pos) == Ok::<Seq<ParsedScope>, Error>(Seq::empty()),
{
    assert(parse_scope_at(s, pos) == Ok::<Option<ParsedScope>, Error>(None));
}

/// A stream that holds one complete scope has exactly that scope at its top level.
pub proof fn law_single_scope_stream(
    id: u32,
    start_ns: i64,
    data: Seq<u8>,
    children: Seq<u8>,
    stop_ns: i64,
)
    requires
        id != 0,
        start_ns <= stop_ns,
        stop_ns - start_ns <= i64::MAX,
        children.len() < u64::MAX,
    ensures
        top_scopes_from(scope_bytes(id, start_ns, data, children, stop_ns), 0) == Ok::<
            Seq<ParsedScope>,
            Error,
        >(seq![expected_parse(0, id, start_ns, data, children, stop_ns)]),
{
    let sb = scope_bytes(id, start_ns, data, children, stop_ns);
    let ps = expected_parse(0, id, start_ns, data, children, stop_ns);
    law_scope_reads_back(Seq::empty(), id, start_ns, data, children, stop_ns, Seq::empty());
    assert(Seq::<u8>::empty() + sb + Seq::<u8>::empty() =~= sb);
    assert(parse_scope_at(sb, 0) == Ok::<Option<ParsedScope>, Error>(Some(ps)));
    assert(ps.next == sb.len());
    lemma_top_scopes_at_end(sb, ps.next);
    assert(seq![ps] + Seq::<ParsedScope>::empty() =~= seq![ps]);
}

/// The data string read back is the one written when its UTF-8 encoding fits in the
/// 127 recorded bytes.
pub proof fn law_short_data_reads_back(read: Seq<u8>, written: Seq<char>)
    requires
        encode_utf8(written).len() <= MAX_STRING_LENGTH,
        is_longest_valid_utf8_prefix(
            read,
            encode_utf8(written).take(truncated_len(encode_utf8(written).len()) as int),
        ),
        valid_utf8(read),
    ensures
        decode_utf8(read) == written,
{
    let b = encode_utf8(written);
    assert(b.take(truncated_len(b.len()) as int) =~= b);
    encode_utf8_valid_utf8(written);
    if read.len() < b.len() {
        assert(b.take(b.len() as int) =~= b);
        assert(!valid_utf8(b.take(b.len() as int)));
    }
    assert(read =~= b);
    encode_utf8_decode_utf8(written);
}

} // verus!
