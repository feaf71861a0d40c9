//! Merging the scopes of one thread over many frames: scopes on the same path of
//! ids and data are added up into one.
use crate::data::{
    is_longest_valid_utf8_prefix, lemma_parse_scope_bounds, parse_scope_at, scope_matches,
    top_scopes_from, walk, Error, ParsedScope, Reader, Result, Scope, Stream,
};
use crate::scope_details::{spec_location, ScopeCollection, ScopeDetailsView};
use crate::frame_data::UnpackedFrameData;
use crate::global_profiler::ThreadKey;
use crate::thread_profiler::ThreadInfo;
use crate::data::StreamInfo;
use crate::{NanoSecond, ScopeId};
use std::sync::Arc;
use vstd::prelude::*;
use vstd::string::StringSliceAdditionalSpecFns;
use vstd::utf8::{decode_utf8, encode_utf8};

verus! {

// ----------------------------------------------------------------------------
// The model.

/// `x`, held to the range of an `i64`.
pub open spec fn clamp_i64(x: int) -> i64 {
    if x > i64::MAX {
        i64::MAX
    } else if x < i64::MIN {
        i64::MIN
    } else {
        x as i64
    }
}

/// One occurrence of a scope, as the model sees it: the stream it was read from,
/// its start relative to its parent, and the parsed scope.
pub struct PieceView {
    pub stream: Seq<u8>,
    pub relative_start_ns: i64,
    pub scope: ParsedScope,
}

/// The longest prefix of `b` that is valid UTF-8: the data a scope shows.
pub open spec fn utf8_prefix(b: Seq<u8>) -> Seq<u8> {
    choose|p: Seq<u8>| is_longest_valid_utf8_prefix(p, b)
}

/// The data of a piece, as bytes.
pub open spec fn piece_data(p: PieceView) -> Seq<u8> {
    utf8_prefix(p.stream.subrange(p.scope.data_begin, p.scope.data_end))
}

/// What scopes are merged by: their id and their data.
pub open spec fn piece_key(p: PieceView) -> (u32, Seq<u8>) {
    (p.scope.id, piece_data(p))
}

/// The child scopes of a piece, each with its start relative to the piece.
pub open spec fn kid_pieces(p: PieceView) -> Seq<PieceView> {
    match top_scopes_from(p.stream, p.scope.child_begin) {
        Ok(cs) => cs.map_values(
            |c: ParsedScope|
                PieceView {
                    stream: p.stream,
                    relative_start_ns: clamp_i64(c.start_ns - p.scope.start_ns),
                    scope: c,
                },
        ),
        Err(_) => Seq::empty(),
    }
}

/// The child scopes of all of `ps`, in order.
pub open spec fn all_kids(ps: Seq<PieceView>) -> Seq<PieceView>
    decreases ps.len(),
{
    if ps.len() == 0 {
        Seq::empty()
    } else {
        all_kids(ps.drop_last()) + kid_pieces(ps.last())
    }
}

/// The keys of `ps`, each once, in the order in which they first occur.
pub open spec fn first_keys(ps: Seq<PieceView>) -> Seq<(u32, Seq<u8>)>
    decreases ps.len(),
{
    if ps.len() == 0 {
        Seq::empty()
    } else {
        let k = first_keys(ps.drop_last());
        if k.contains(piece_key(ps.last())) {
            k
        } else {
            k.push(piece_key(ps.last()))
        }
    }
}

/// The pieces of `ps` with key `key`, in order.
pub open spec fn with_key(ps: Seq<PieceView>, key: (u32, Seq<u8>)) -> Seq<PieceView>
    decreases ps.len(),
{
    if ps.len() == 0 {
        Seq::empty()
    } else if piece_key(ps.last()) == key {
        with_key(ps.drop_last(), key).push(ps.last())
    } else {
        with_key(ps.drop_last(), key)
    }
}

/// The stream below a piece reads without error.
pub open spec fn piece_clean(p: PieceView) -> bool {
    walk(p.stream, p.scope.child_begin, 0).0 is None
}

// ----------------------------------------------------------------------------
// Lemmas on the model.

/// The longest valid UTF-8 prefix is unique.
pub proof fn lemma_utf8_prefix(p: Seq<u8>, b: Seq<u8>)
    requires
        is_longest_valid_utf8_prefix(p, b),
    ensures
        utf8_prefix(b) == p,
{
    let q = utf8_prefix(b);
    assert(is_longest_valid_utf8_prefix(q, b));
    if q.len() < p.len() {
        assert(p == b.take(p.len() as int));
    } else if p.len() < q.len() {
        assert(q == b.take(q.len() as int));
    }
    assert(q =~= p);
}

proof fn lemma_with_key_push(ps: Seq<PieceView>, p: PieceView, key: (u32, Seq<u8>))
    ensures
        with_key(ps.push(p), key) == if piece_key(p) == key {
            with_key(ps, key).push(p)
        } else {
            with_key(ps, key)
        },
        first_keys(ps.push(p)) == if first_keys(ps).contains(piece_key(p)) {
            first_keys(ps)
        } else {
            first_keys(ps).push(piece_key(p))
        },
{
    assert(ps.push(p).drop_last() =~= ps);
}

proof fn lemma_with_key_keys(ps: Seq<PieceView>, key: (u32, Seq<u8>))
    ensures
        forall|i: int| 0 <= i < with_key(ps, key).len() ==> piece_key(#[trigger] with_key(ps, key)[i]) == key,
        first_keys(ps).contains(key) <==> with_key(ps, key).len() > 0,
    decreases ps.len(),
{
    if ps.len() > 0 {
        lemma_with_key_keys(ps.drop_last(), key);
        let w = with_key(ps.drop_last(), key);
        if piece_key(ps.last()) == key {
            assert forall|i: int| 0 <= i < with_key(ps, key).len() implies piece_key(
                #[trigger] with_key(ps, key)[i],
            ) == key by {
                if i < w.len() {
                    assert(with_key(ps, key)[i] == w[i]);
                }
            }
            assert(first_keys(ps).contains(key)) by {
                let k = first_keys(ps.drop_last());
                if !k.contains(key) {
                    assert(k.push(key)[k.len() as int] == key);
                }
            }
        } else {
            let k = first_keys(ps.drop_last());
            if first_keys(ps).contains(key) {
                if !k.contains(piece_key(ps.last())) {
                    let j = choose|j: int| 0 <= j < k.push(piece_key(ps.last())).len() && k.push(
                        piece_key(ps.last()),
                    )[j] == key;
                    if j < k.len() {
                        assert(k[j] == key);
                    }
                }
            }
            if k.contains(key) {
                let j = choose|j: int| 0 <= j < k.len() && k[j] == key;
                if !k.contains(piece_key(ps.last())) {
                    assert(k.push(piece_key(ps.last()))[j] == key);
                }
            }
        }
    }
}

proof fn lemma_first_keys_distinct(ps: Seq<PieceView>)
    ensures
        first_keys(ps).no_duplicates(),
    decreases ps.len(),
{
    if ps.len() > 0 {
        lemma_first_keys_distinct(ps.drop_last());
    }
}

proof fn lemma_all_kids_push(ps: Seq<PieceView>, p: PieceView)
    ensures
        all_kids(ps.push(p)) == all_kids(ps) + kid_pieces(p),
{
    assert(ps.push(p).drop_last() =~= ps);
}

/// A walk's error does not depend on the depth it starts at.
proof fn lemma_walk_depth(s: Seq<u8>, pos: int, d1: int, d2: int)
    ensures
        walk(s, pos, d1).0 == walk(s, pos, d2).0,
    decreases s.len() - pos,
{
    lemma_parse_scope_bounds(s, pos);
    if let Ok(Some(ps)) = parse_scope_at(s, pos) {
        if ps.child_begin > pos && ps.next > pos {
            lemma_walk_depth(s, ps.child_begin, d1 + 1, d2 + 1);
            lemma_walk_depth(s, ps.next, d1, d2);
        }
    }
}

/// Where a walk meets no error, the sibling scopes from `pos` on parse, and so do
/// the scopes below each of them.
proof fn lemma_walk_clean(s: Seq<u8>, pos: int)
    requires
        walk(s, pos, 0).0 is None,
    ensures
        top_scopes_from(s, pos) is Ok,
        forall|i: int|
            0 <= i < top_scopes_from(s, pos)->Ok_0.len() ==> walk(
                s,
                (#[trigger] top_scopes_from(s, pos)->Ok_0[i]).child_begin,
                0,
            ).0 is None,
    decreases s.len() - pos,
{
    lemma_parse_scope_bounds(s, pos);
    if let Ok(Some(ps)) = parse_scope_at(s, pos) {
        lemma_walk_depth(s, ps.child_begin, 1, 0);
        lemma_walk_clean(s, ps.next);
        let rest = top_scopes_from(s, ps.next)->Ok_0;
        let all = top_scopes_from(s, pos)->Ok_0;
        assert(all == seq![ps] + rest);
        assert forall|i: int| 0 <= i < all.len() implies walk(s, (#[trigger] all[i]).child_begin, 0).0 is None by {
            if i > 0 {
                assert(all[i] == rest[i - 1]);
            }
        }
    }
}

// ----------------------------------------------------------------------------
// Building the merge tree.

/// One occurrence of a scope while merging.
#[derive(Clone, Copy)]
pub struct MergePiece<'s> {
    /// The stream the scope was read from.
    pub stream: &'s Stream,
    /// The start of the scope relative to its parent.
    pub relative_start_ns: NanoSecond,
    /// The raw scope, just like it is found in the stream.
    pub scope: Scope<'s>,
    /// Where in the stream the scope lies.
    pub parsed: Ghost<ParsedScope>,
}

/// The piece as the model sees it.
pub open spec fn piece_view(p: MergePiece) -> PieceView {
    PieceView { stream: p.stream@, relative_start_ns: p.relative_start_ns, scope: p.parsed@ }
}

/// The piece is what parsing its stream gives.
pub open spec fn piece_wf(p: MergePiece) -> bool {
    &&& scope_matches(p.scope, p.parsed@, p.stream@)
    &&& p.parsed@.data_begin <= p.parsed@.data_end < p.parsed@.child_begin <= p.parsed@.child_end < p.parsed@.next <= p.stream@.len()
    &&& p.parsed@.start_ns <= p.parsed@.stop_ns
}

/// The pieces as the model sees them.
pub open spec fn pieces_view(s: Seq<MergePiece>) -> Seq<PieceView> {
    s.map_values(|p: MergePiece| piece_view(p))
}

/// A scope merged from many pieces, and the merged scopes below it: what a
/// [`MergeScope`] is built from.
pub struct MergeNode<'s> {
    /// The pieces that got merged into this node; all have the same key.
    pub pieces: Vec<MergePiece<'s>>,
    /// One node for each key among the children of the pieces, in the order in
    /// which the keys first occur.
    pub children: Vec<MergeNode<'s>>,
}

/// `node` merges exactly the pieces `ps`, which all have one key, and, below it,
/// the children of `ps` grouped by key.
pub open spec fn is_group(node: MergeNode, ps: Seq<PieceView>) -> bool
    decreases node,
{
    &&& node.pieces@.len() == ps.len()
    &&& forall|i: int| 0 <= i < ps.len() ==> piece_wf(#[trigger] node.pieces@[i])
    &&& pieces_view(node.pieces@) == ps
    &&& forall|i: int| 0 <= i < ps.len() ==> piece_key(#[trigger] ps[i]) == piece_key(ps[0])
    &&& node.children@.len() == first_keys(all_kids(ps)).len()
    &&& forall|i: int|
        0 <= i < node.children@.len() ==> is_group(
            #[trigger] node.children@[i],
            with_key(all_kids(ps), first_keys(all_kids(ps))[i]),
        )
}

/// `nodes` are the pieces `ps` grouped by key, in the order in which the keys
/// first occur.
pub open spec fn groups_of(nodes: Seq<MergeNode>, ps: Seq<PieceView>) -> bool {
    &&& nodes.len() == first_keys(ps).len()
    &&& forall|i: int| 0 <= i < nodes.len() ==> is_group(#[trigger] nodes[i], with_key(ps, first_keys(ps)[i]))
}


/// `a - b`, held to the range of an `i64`.
pub(crate) fn sub_clamped(a: i64, b: i64) -> (r: i64)
    ensures
        r == clamp_i64(a - b),
{
    match a.checked_sub(b) {
        Some(d) => d,
        None => if b < 0 {
            i64::MAX
        } else {
            i64::MIN
        },
    }
}

/// `a + b`, held to the range of an `i64`.
pub(crate) fn add_clamped(a: i64, b: i64) -> (r: i64)
    ensures
        r == clamp_i64(a + b),
{
    match a.checked_add(b) {
        Some(d) => d,
        None => if b > 0 {
            i64::MAX
        } else {
            i64::MIN
        },
    }
}

/// Whether two byte strings are equal.
fn bytes_eq(a: &[u8], b: &[u8]) -> (r: bool)
    ensures
        r == (a@ == b@),
{
    if a.len() != b.len() {
        return false;
    }
    let mut i: usize = 0;
    while i < a.len()
        invariant
            a@.len() == b@.len(),
            0 <= i <= a@.len(),
            forall|j: int| 0 <= j < i ==> a@[j] == b@[j],
        decreases a@.len() - i,
    {
        if a[i] != b[i] {
            return false;
        }
        i = i + 1;
    }
    proof {
        assert(a@ =~= b@);
    }
    true
}

/// The key of a well-formed piece, compared as the code compares it.
proof fn lemma_piece_key(p: MergePiece)
    requires
        piece_wf(p),
    ensures
        piece_key(piece_view(p)) == (p.scope.id@, p.scope.record.data.spec_bytes()),
{
    lemma_utf8_prefix(
        p.scope.record.data.spec_bytes(),
        p.stream@.subrange(p.parsed@.data_begin, p.parsed@.data_end),
    );
}

/// Whether the pieces of `node` have the same key as `piece`.
fn same_key(node: &MergeNode, piece: &MergePiece) -> (r: bool)
    requires
        node.pieces@.len() > 0,
        piece_wf(node.pieces@[0]),
        piece_wf(*piece),
    ensures
        r == (piece_key(piece_view(node.pieces@[0])) == piece_key(piece_view(*piece))),
{
    proof {
        lemma_piece_key(node.pieces@[0]);
        lemma_piece_key(*piece);
    }
    let first = &node.pieces[0];
    first.scope.id.get() == piece.scope.id.get() && bytes_eq(
        first.scope.record.data.as_bytes(),
        piece.scope.record.data.as_bytes(),
    )
}

/// Adds `piece` to the node of its key among `nodes`, or to a new node at the end.
fn add_to_groups<'s>(nodes: &mut Vec<MergeNode<'s>>, piece: MergePiece<'s>, Ghost(ps): Ghost<Seq<PieceView>>) -> (r: Result<()>)
    requires
        groups_of(old(nodes)@, ps),
        piece_wf(piece),
    ensures
        r is Ok ==> groups_of(final(nodes)@, ps.push(piece_view(piece))),
        piece_clean(piece_view(piece)) ==> r is Ok,
    decreases piece.stream@.len() - piece.parsed@.child_begin, 2int,
{
    let ghost pv = piece_view(piece);
    let ghost ks = first_keys(ps);
    proof {
        lemma_with_key_push(ps, pv, piece_key(pv));
        lemma_first_keys_distinct(ps);
    }
    let n = nodes.len();
    let mut i: usize = 0;
    let mut found = false;
    while i < n
        invariant_except_break
            forall|j: int| 0 <= j < i ==> piece_key(piece_view(nodes@[j].pieces@[0])) != piece_key(pv),
            !found,
        invariant
            ks == first_keys(ps),
            n == nodes@.len(),
            0 <= i <= n,
            groups_of(nodes@, ps),
            piece_wf(piece),
            pv == piece_view(piece),
            *nodes == *old(nodes),
        ensures
            found ==> i < n && piece_key(piece_view(nodes@[i as int].pieces@[0])) == piece_key(pv),
            !found ==> forall|j: int| 0 <= j < n ==> piece_key(piece_view(nodes@[j].pieces@[0])) != piece_key(pv),
        decreases n - i,
    {
        proof {
            lemma_with_key_keys(ps, ks[i as int]);
            assert(ks.contains(ks[i as int]));
            assert(is_group(nodes@[i as int], with_key(ps, ks[i as int])));
        }
        if same_key(&nodes[i], &piece) {
            found = true;
            break;
        }
        i = i + 1;
    }
    if found {
        let ghost g = with_key(ps, ks[i as int]);
        proof {
            lemma_with_key_keys(ps, ks[i as int]);
            assert(ks.contains(ks[i as int]));
            assert(piece_key(g[0]) == ks[i as int]);
        }
        let mut node = nodes.remove(i);
        node.add(piece, Ghost(g))?;
        nodes.insert(i, node);
        proof {
            assert(ks.contains(piece_key(pv)));
            let ps2 = ps.push(pv);
            assert forall|j: int| 0 <= j < nodes@.len() implies is_group(
                #[trigger] nodes@[j],
                with_key(ps2, first_keys(ps2)[j]),
            ) by {
                lemma_with_key_push(ps, pv, ks[j]);
                if j != i {
                    assert(nodes@[j] == old(nodes)@[j]);
                    assert(ks[j] != ks[i as int]);
                }
            }
        }
    } else {
        let mut node = MergeNode { pieces: Vec::new(), children: Vec::new() };
        proof {
            assert(pieces_view(node.pieces@) =~= Seq::<PieceView>::empty());
            assert(first_keys(all_kids(Seq::<PieceView>::empty())) =~= Seq::empty());
            assert(is_group(node, Seq::<PieceView>::empty()));
        }
        node.add(piece, Ghost(Seq::<PieceView>::empty()))?;
        nodes.push(node);
        proof {
            assert(!ks.contains(piece_key(pv))) by {
                if ks.contains(piece_key(pv)) {
                    let j = choose|j: int| 0 <= j < ks.len() && ks[j] == piece_key(pv);
                    lemma_with_key_keys(ps, ks[j]);
                    assert(ks.contains(ks[j]));
                    assert(is_group(old(nodes)@[j], with_key(ps, ks[j])));
                }
            }
            lemma_with_key_keys(ps, piece_key(pv));
            assert(with_key(ps, piece_key(pv)) =~= Seq::<PieceView>::empty());
            assert(Seq::<PieceView>::empty().push(pv) =~= seq![pv]);
            let ps2 = ps.push(pv);
            assert forall|j: int| 0 <= j < nodes@.len() implies is_group(
                #[trigger] nodes@[j],
                with_key(ps2, first_keys(ps2)[j]),
            ) by {
                lemma_with_key_push(ps, pv, first_keys(ps2)[j]);
                if j < n {
                    assert(nodes@[j] == old(nodes)@[j]);
                    assert(ks[j] != piece_key(pv));
                }
            }
        }
    }
    Ok(())
}

impl<'s> MergeNode<'s> {

/// Adds `piece` to this node, and its children, recursively, to the nodes below.
fn add(&mut self, piece: MergePiece<'s>, Ghost(ps): Ghost<Seq<PieceView>>) -> (r: Result<()>)
    requires
        is_group(*old(self), ps),
        piece_wf(piece),
        ps.len() > 0 ==> piece_key(piece_view(piece)) == piece_key(ps[0]),
    ensures
        r is Ok ==> is_group(*final(self), ps.push(piece_view(piece))),
        piece_clean(piece_view(piece)) ==> r is Ok,
    decreases piece.stream@.len() - piece.parsed@.child_begin, 1int,
{
    let ghost pv = piece_view(piece);
    let ghost s = piece.stream@;
    let ghost cb = piece.parsed@.child_begin;
    let ghost old_kids = all_kids(ps);
    self.pieces.push(piece);
    let ghost pieces = self.pieces@;
    proof {
        assert(pieces_view(pieces) =~= ps.push(pv));
        lemma_all_kids_push(ps, pv);
    }
    let mut reader = Reader::with_offset(piece.stream, piece.scope.child_begin_position)?;
    let ghost mut fp: Seq<ParsedScope> = Seq::empty();
    let ghost mut found: Seq<PieceView> = Seq::empty();
    proof {
        assert(old_kids + found =~= old_kids);
        assert(seq![] + top_scopes_from(s, cb)->Ok_0 =~= top_scopes_from(s, cb)->Ok_0);
    }
    loop
        invariant
            reader@.0 == s,
            s == piece.stream@,
            cb == piece.parsed@.child_begin,
            pv == piece_view(piece),
            piece_wf(piece),
            cb <= reader@.1 <= s.len(),
            top_scopes_from(s, cb) == match top_scopes_from(s, reader@.1) {
                Err(e) => Err::<Seq<ParsedScope>, Error>(e),
                Ok(rest) => Ok(fp + rest),
            },
            found == fp.map_values(
                |c: ParsedScope|
                    PieceView {
                        stream: s,
                        relative_start_ns: clamp_i64(c.start_ns - pv.scope.start_ns),
                        scope: c,
                    },
            ),
            self.pieces@ == pieces,
            pieces_view(pieces) == ps.push(pv),
            forall|i: int| 0 <= i < pieces.len() ==> piece_wf(#[trigger] pieces[i]),
            forall|i: int| 0 <= i < ps.push(pv).len() ==> piece_key(#[trigger] ps.push(pv)[i]) == piece_key(ps.push(pv)[0]),
            groups_of(self.children@, old_kids + found),
            all_kids(ps.push(pv)) == old_kids + kid_pieces(pv),
            piece_clean(pv) ==> walk(s, reader@.1, 0).0 is None,
        ensures
            top_scopes_from(s, cb) == Ok::<Seq<ParsedScope>, Error>(fp),
        decreases s.len() - reader@.1,
    {
        let ghost pos = reader@.1;
        proof {
            lemma_parse_scope_bounds(s, pos);
        }
        match reader.next_scope() {
            None => {
                proof {
                    assert(fp + Seq::<ParsedScope>::empty() =~= fp);
                }
                break;
            },
            Some(Err(e)) => {
                return Err(e);
            },
            Some(Ok(child)) => {
                let ghost cps = parse_scope_at(s, pos)->Ok_0->Some_0;
                let rel = sub_clamped(child.record.start_ns, piece.scope.record.start_ns);
                let cpiece = MergePiece {
                    stream: piece.stream,
                    relative_start_ns: rel,
                    scope: child,
                    parsed: Ghost(cps),
                };
                let ghost cpv = piece_view(cpiece);
                proof {
                    if piece_clean(pv) {
                        lemma_walk_depth(s, cps.child_begin, 1, 0);
                    }
                }
                add_to_groups(&mut self.children, cpiece, Ghost(old_kids + found))?;
                proof {
                    let fp2 = fp.push(cps);
                    let rest = top_scopes_from(s, cps.next);
                    if let Ok(r) = rest {
                        assert(fp + (seq![cps] + r) =~= fp2 + r);
                    }
                    fp = fp2;
                    found = found.push(cpv);
                    assert((old_kids + found.drop_last()).push(cpv) =~= old_kids + found);
                }
            },
        }
    }
    proof {
        assert(fp + Seq::<ParsedScope>::empty() =~= fp);
        assert(kid_pieces(pv) =~= found);
    }
    Ok(())
}

}


// ----------------------------------------------------------------------------
// Merged scopes.

/// A merged scope, as the model sees it.
pub struct MergeView {
    pub relative_start_ns: i64,
    pub total_duration_ns: i64,
    pub duration_per_frame_ns: i64,
    pub max_duration_ns: i64,
    pub num_pieces: nat,
    pub id: u32,
    pub location: Seq<char>,
    pub data: Seq<char>,
    pub children: Seq<MergeView>,
}

/// A scope that has been merged from many different sources.
#[derive(Debug, PartialEq)]
pub struct MergeScope {
    /// Relative to parent.
    pub relative_start_ns: NanoSecond,
    /// Sum of all durations over all frames.
    pub total_duration_ns: NanoSecond,
    /// [`Self::total_duration_ns`] divided by number of frames.
    pub duration_per_frame_ns: NanoSecond,
    /// The slowest individual piece.
    pub max_duration_ns: NanoSecond,
    /// Number of pieces that got merged together to us.
    pub num_pieces: usize,
    /// The common identifier that we merged using.
    pub id: ScopeId,
    /// The exact file location of the merged scope.
    pub location: String,
    /// The data all pieces share.
    pub data: String,
    /// The merged scopes below this one.
    pub children: Vec<MergeScope>,
}

/// `m` is the merged scope `v`, down to the last child.
pub open spec fn merge_matches(m: MergeScope, v: MergeView) -> bool
    decreases m,
{
    &&& m.relative_start_ns == v.relative_start_ns
    &&& m.total_duration_ns == v.total_duration_ns
    &&& m.duration_per_frame_ns == v.duration_per_frame_ns
    &&& m.max_duration_ns == v.max_duration_ns
    &&& m.num_pieces == v.num_pieces
    &&& m.id@ == v.id
    &&& m.location@ == v.location
    &&& m.data@ == v.data
    &&& m.children@.len() == v.children.len()
    &&& forall|i: int|
        0 <= i < m.children@.len() ==> merge_matches(#[trigger] m.children@[i], v.children[i])
}

/// Each of `ms` is the merged scope at the same place in `vs`.
pub open spec fn all_match(ms: Seq<MergeScope>, vs: Seq<MergeView>) -> bool {
    &&& ms.len() == vs.len()
    &&& forall|i: int| 0 <= i < ms.len() ==> merge_matches(#[trigger] ms[i], vs[i])
}

/// How long a piece took.
pub open spec fn piece_duration(p: PieceView) -> int {
    p.scope.stop_ns - p.scope.start_ns
}

/// The earliest relative start among `ps` (`i64::MAX` for none).
pub open spec fn earliest_start(ps: Seq<PieceView>) -> i64
    decreases ps.len(),
{
    if ps.len() == 0 {
        i64::MAX
    } else if ps.last().relative_start_ns < earliest_start(ps.drop_last()) {
        ps.last().relative_start_ns
    } else {
        earliest_start(ps.drop_last())
    }
}

/// The durations of `ps` added up, each step held to the range of an `i64`.
pub open spec fn total_duration(ps: Seq<PieceView>) -> i64
    decreases ps.len(),
{
    if ps.len() == 0 {
        0
    } else {
        clamp_i64(total_duration(ps.drop_last()) + piece_duration(ps.last()))
    }
}

/// The longest duration among `ps` (zero for none).
pub open spec fn longest_duration(ps: Seq<PieceView>) -> i64
    decreases ps.len(),
{
    if ps.len() == 0 {
        0
    } else if longest_duration(ps.drop_last()) < piece_duration(ps.last()) {
        piece_duration(ps.last()) as i64
    } else {
        longest_duration(ps.drop_last())
    }
}

/// The location of scope `id`, or nothing for an unknown scope.
pub open spec fn location_of(details: Map<u32, ScopeDetailsView>, id: u32) -> Seq<char> {
    if details.contains_key(id) {
        spec_location(details[id])
    } else {
        Seq::empty()
    }
}

/// The merged scope of the pieces `ps`, over `num_frames` frames, with the merged
/// `children`: the earliest start, durations added up, per frame and the longest,
/// and the id, location and data of the first piece.
pub open spec fn summarize(
    ps: Seq<PieceView>,
    details: Map<u32, ScopeDetailsView>,
    num_frames: i64,
    children: Seq<MergeView>,
) -> MergeView {
    MergeView {
        relative_start_ns: earliest_start(ps),
        total_duration_ns: total_duration(ps),
        duration_per_frame_ns: (total_duration(ps) / num_frames) as i64,
        max_duration_ns: longest_duration(ps),
        num_pieces: ps.len(),
        id: ps[0].scope.id,
        location: location_of(details, ps[0].scope.id),
        data: decode_utf8(piece_data(ps[0])),
        children,
    }
}

/// Byte strings in lexicographic order (how `str` orders).
pub open spec fn bytes_before(a: Seq<u8>, b: Seq<u8>) -> bool
    decreases a.len(),
{
    if a.len() == 0 {
        b.len() > 0
    } else if b.len() == 0 {
        false
    } else if a[0] != b[0] {
        a[0] < b[0]
    } else {
        bytes_before(a.drop_first(), b.drop_first())
    }
}

/// Sibling order: earliest start first, then by id, then by data.
pub open spec fn goes_before(a: MergeView, b: MergeView) -> bool {
    ||| a.relative_start_ns < b.relative_start_ns
    ||| a.relative_start_ns == b.relative_start_ns && a.id < b.id
    ||| a.relative_start_ns == b.relative_start_ns && a.id == b.id && bytes_before(
        encode_utf8(a.data),
        encode_utf8(b.data),
    )
}

/// The index of the first of `s` that nothing in `s` goes before.
pub open spec fn first_index(s: Seq<MergeView>) -> int
    decreases s.len(),
{
    if s.len() <= 1 {
        0
    } else if goes_before(s.last(), s[first_index(s.drop_last())]) {
        s.len() - 1
    } else {
        first_index(s.drop_last())
    }
}

/// The siblings `s` in order, each moved to start no earlier than where the one
/// before it ends per frame (the first no earlier than `from`).
pub open spec fn arranged(s: Seq<MergeView>, from: i64) -> Seq<MergeView>
    decreases s.len(),
{
    if s.len() == 0 {
        Seq::empty()
    } else {
        let m = first_index(s);
        proof {
            lemma_first_index(s);
        }
        let start = if s[m].relative_start_ns < from {
            from
        } else {
            s[m].relative_start_ns
        };
        seq![MergeView { relative_start_ns: start, ..s[m] }] + arranged(
            s.remove(m),
            clamp_i64(start + s[m].duration_per_frame_ns),
        )
    }
}

/// The first of a non-empty sequence lies in it.
pub proof fn lemma_first_index(s: Seq<MergeView>)
    requires
        s.len() > 0,
    ensures
        0 <= first_index(s) < s.len(),
    decreases s.len(),
{
    if s.len() > 1 {
        lemma_first_index(s.drop_last());
    }
}

/// Arranged siblings do not overlap: each starts no earlier than `from`, and no
/// earlier than the one before it ends per frame; none is lost.
pub proof fn law_arranged_no_overlap(s: Seq<MergeView>, from: i64)
    ensures
        arranged(s, from).len() == s.len(),
        arranged(s, from).len() > 0 ==> arranged(s, from)[0].relative_start_ns >= from,
        forall|i: int|
            0 < i < arranged(s, from).len() ==> #[trigger] arranged(s, from)[i].relative_start_ns
                >= clamp_i64(arranged(s, from)[i - 1].relative_start_ns + arranged(s, from)[i - 1].duration_per_frame_ns),
    decreases s.len(),
{
    if s.len() > 0 {
        lemma_first_index(s);
        let m = first_index(s);
        let start = if s[m].relative_start_ns < from {
            from
        } else {
            s[m].relative_start_ns
        };
        let next_from = clamp_i64(start + s[m].duration_per_frame_ns);
        let rest = arranged(s.remove(m), next_from);
        law_arranged_no_overlap(s.remove(m), next_from);
        let r = arranged(s, from);
        assert(r == seq![MergeView { relative_start_ns: start, ..s[m] }] + rest);
        assert forall|i: int| 0 < i < r.len() implies #[trigger] r[i].relative_start_ns >= clamp_i64(
            r[i - 1].relative_start_ns + r[i - 1].duration_per_frame_ns,
        ) by {
            assert(r[i] == rest[i - 1]);
            if i > 1 {
                assert(r[i - 1] == rest[i - 2]);
                assert(rest[i - 1].relative_start_ns >= clamp_i64(
                    rest[i - 2].relative_start_ns + rest[i - 2].duration_per_frame_ns,
                ));
            } else {
                assert(r[0].relative_start_ns == start);
                assert(r[0].duration_per_frame_ns == s[m].duration_per_frame_ns);
            }
        }
    }
}

/// The merged scope that `node` makes.
pub open spec fn built(node: MergeNode, details: Map<u32, ScopeDetailsView>, num_frames: i64) -> MergeView
    decreases node,
{
    summarize(
        pieces_view(node.pieces@),
        details,
        num_frames,
        arranged(built_all(node.children@, details, num_frames), 0),
    )
}

/// The merged scopes that `nodes` make.
pub open spec fn built_all(nodes: Seq<MergeNode>, details: Map<u32, ScopeDetailsView>, num_frames: i64) -> Seq<MergeView>
    decreases nodes,
{
    if nodes.len() == 0 {
        Seq::empty()
    } else {
        built_all(nodes.drop_last(), details, num_frames).push(built(nodes[nodes.len() - 1], details, num_frames))
    }
}


proof fn lemma_built_all(nodes: Seq<MergeNode>, details: Map<u32, ScopeDetailsView>, num_frames: i64)
    ensures
        built_all(nodes, details, num_frames).len() == nodes.len(),
        forall|i: int|
            0 <= i < nodes.len() ==> #[trigger] built_all(nodes, details, num_frames)[i] == built(
                nodes[i],
                details,
                num_frames,
            ),
    decreases nodes.len(),
{
    if nodes.len() > 0 {
        lemma_built_all(nodes.drop_last(), details, num_frames);
        assert forall|i: int| 0 <= i < nodes.len() implies #[trigger] built_all(nodes, details, num_frames)[i]
            == built(nodes[i], details, num_frames) by {
            if i < nodes.len() - 1 {
                assert(nodes.drop_last()[i] == nodes[i]);
            }
        }
    }
}

/// Nodes that group the same pieces build the same merged scopes.
proof fn lemma_groups_build_alike(
    a: Seq<MergeNode>,
    b: Seq<MergeNode>,
    ps: Seq<PieceView>,
    details: Map<u32, ScopeDetailsView>,
    num_frames: i64,
)
    requires
        groups_of(a, ps),
        groups_of(b, ps),
    ensures
        built_all(a, details, num_frames) == built_all(b, details, num_frames),
    decreases a,
{
    lemma_built_all(a, details, num_frames);
    lemma_built_all(b, details, num_frames);
    assert forall|i: int| 0 <= i < a.len() implies built(a[i], details, num_frames) == built(
        b[i],
        details,
        num_frames,
    ) by {
        let g = with_key(ps, first_keys(ps)[i]);
        assert(is_group(a[i], g));
        assert(is_group(b[i], g));
        let kids = all_kids(g);
        assert(groups_of(a[i].children@, kids));
        assert(groups_of(b[i].children@, kids));
        assert(decreases_to!(a => a[i]));
        lemma_groups_build_alike(a[i].children@, b[i].children@, kids, details, num_frames);
    }
    assert(built_all(a, details, num_frames) =~= built_all(b, details, num_frames));
}

/// Whether `a` comes before `b` in byte order.
pub(crate) fn bytes_before_exec(a: &[u8], b: &[u8]) -> (r: bool)
    ensures
        r == bytes_before(a@, b@),
{
    let mut i: usize = 0;
    proof {
        assert(a@.skip(0) =~= a@);
        assert(b@.skip(0) =~= b@);
    }
    while i < a.len() && i < b.len()
        invariant
            0 <= i <= a@.len(),
            i <= b@.len(),
            bytes_before(a@, b@) == bytes_before(a@.skip(i as int), b@.skip(i as int)),
        decreases a@.len() - i,
    {
        if a[i] != b[i] {
            return a[i] < b[i];
        }
        proof {
            assert(a@.skip(i as int).drop_first() =~= a@.skip(i + 1));
            assert(b@.skip(i as int).drop_first() =~= b@.skip(i + 1));
        }
        i = i + 1;
    }
    i == a.len() && i < b.len()
}

/// Whether sibling `a` goes before sibling `b`.
fn goes_before_exec(a: &MergeScope, b: &MergeScope, Ghost(va): Ghost<MergeView>, Ghost(vb): Ghost<MergeView>) -> (r: bool)
    requires
        merge_matches(*a, va),
        merge_matches(*b, vb),
    ensures
        r == goes_before(va, vb),
{
    if a.relative_start_ns != b.relative_start_ns {
        return a.relative_start_ns < b.relative_start_ns;
    }
    let ia = a.id.get();
    let ib = b.id.get();
    if ia != ib {
        return ia < ib;
    }
    bytes_before_exec(a.data.as_str().as_bytes(), b.data.as_str().as_bytes())
}

/// Puts sibling scopes in order, and moves each to start no earlier than where the
/// one before it ends per frame.
fn arrange(list: Vec<MergeScope>, Ghost(vs): Ghost<Seq<MergeView>>) -> (r: Vec<MergeScope>)
    requires
        all_match(list@, vs),
    ensures
        all_match(r@, arranged(vs, 0)),
{
    let mut rest = list;
    let ghost mut rv = vs;
    let mut out: Vec<MergeScope> = Vec::new();
    let ghost mut ov: Seq<MergeView> = Seq::empty();
    let mut from: i64 = 0;
    proof {
        assert(ov + arranged(rv, from) =~= arranged(vs, 0));
    }
    while rest.len() > 0
        invariant
            all_match(rest@, rv),
            all_match(out@, ov),
            ov + arranged(rv, from) == arranged(vs, 0),
        decreases rest@.len(),
    {
        let mut m: usize = 0;
        let mut j: usize = 1;
        while j < rest.len()
            invariant
                all_match(rest@, rv),
                rest@.len() > 0,
                1 <= j <= rest@.len(),
                m == first_index(rv.take(j as int)),
                m < j,
            decreases rest@.len() - j,
        {
            proof {
                assert(rv.take(j + 1).drop_last() =~= rv.take(j as int));
                assert(rv.take(j + 1)[m as int] == rv[m as int]);
            }
            if goes_before_exec(&rest[j], &rest[m], Ghost(rv[j as int]), Ghost(rv[m as int])) {
                m = j;
            }
            j = j + 1;
        }
        proof {
            assert(rv.take(rv.len() as int) =~= rv);
            lemma_first_index(rv);
        }
        let ghost v = rv[m as int];
        let ghost before = rest@;
        let mut scope = rest.remove(m);
        let start = if scope.relative_start_ns < from {
            from
        } else {
            scope.relative_start_ns
        };
        scope.relative_start_ns = start;
        let ghost nv = MergeView { relative_start_ns: start, ..v };
        let ghost old_from = from;
        from = add_clamped(start, scope.duration_per_frame_ns);
        out.push(scope);
        proof {
            assert(merge_matches(scope, nv));
            assert(arranged(rv, old_from) == seq![nv] + arranged(rv.remove(m as int), from));
            let rv2 = rv.remove(m as int);
            assert forall|k: int| 0 <= k < rest@.len() implies merge_matches(#[trigger] rest@[k], rv2[k]) by {
                if k < m {
                    assert(rest@[k] == before[k]);
                } else {
                    assert(rest@[k] == before[k + 1]);
                }
            }
            ov = ov.push(nv);
            rv = rv2;
            assert(ov.drop_last() + (seq![nv] + arranged(rv, from)) =~= ov + arranged(rv, from));
        }
    }
    proof {
        assert(ov + arranged(rv, from) =~= ov);
    }
    out
}


impl<'s> MergeNode<'s> {
    /// The merged scope of this node and, below it, of its children, over
    /// `num_frames` frames.
    fn build(&self, scope_details: &ScopeCollection, num_frames: i64) -> (r: MergeScope)
        requires
            is_group(*self, pieces_view(self.pieces@)),
            self.pieces@.len() > 0,
            num_frames > 0,
        ensures
            merge_matches(r, built(*self, scope_details@.0, num_frames)),
        decreases self,
    {
        broadcast use vstd::utf8::encode_utf8_decode_utf8;

        let ghost ps = pieces_view(self.pieces@);
        let ghost details = scope_details@.0;
        let first = &self.pieces[0];
        let mut relative_start_ns = NanoSecond::MAX;
        let mut total_duration_ns: i64 = 0;
        let mut slowest_ns: i64 = 0;
        let mut i: usize = 0;
        while i < self.pieces.len()
            invariant
                ps == pieces_view(self.pieces@),
                forall|k: int| 0 <= k < self.pieces@.len() ==> piece_wf(#[trigger] self.pieces@[k]),
                self.pieces@.len() > 0,
                0 <= i <= self.pieces@.len(),
                relative_start_ns == earliest_start(ps.take(i as int)),
                total_duration_ns == total_duration(ps.take(i as int)),
                total_duration_ns >= 0,
                slowest_ns == longest_duration(ps.take(i as int)),
            decreases self.pieces@.len() - i,
        {
            let piece = &self.pieces[i];
            proof {
                assert(ps[i as int] == piece_view(self.pieces@[i as int]));
                assert(ps.take(i + 1).drop_last() =~= ps.take(i as int));
                assert(ps.take(i + 1).last() == ps[i as int]);
                assert(piece_duration(ps[i as int]) == piece.scope.record.duration_ns);
                if i == 0 {
                    assert(ps.take(0) =~= Seq::<PieceView>::empty());
                }
            }
            if piece.relative_start_ns < relative_start_ns {
                relative_start_ns = piece.relative_start_ns;
            }
            total_duration_ns = add_clamped(total_duration_ns, piece.scope.record.duration_ns);
            if slowest_ns < piece.scope.record.duration_ns {
                slowest_ns = piece.scope.record.duration_ns;
            }
            i = i + 1;
        }
        proof {
            assert(ps.take(ps.len() as int) =~= ps);
            lemma_piece_key(self.pieces@[0]);
        }
        let id = first.scope.id;
        let location = match scope_details.fetch_by_id(&id) {
            Some(details) => details.location(),
            None => String::new(),
        };
        let data = first.scope.record.data.to_owned();
        let mut children: Vec<MergeScope> = Vec::new();
        let mut j: usize = 0;
        let ghost kids = all_kids(ps);
        let ghost ks = first_keys(kids);
        while j < self.children.len()
            invariant
                is_group(*self, ps),
                kids == all_kids(ps),
                ks == first_keys(kids),
                num_frames > 0,
                0 <= j <= self.children@.len(),
                all_match(children@, built_all(self.children@.take(j as int), details, num_frames)),
                details == scope_details@.0,
            decreases self.children@.len() - j,
        {
            proof {
                lemma_with_key_keys(kids, ks[j as int]);
                assert(ks.contains(ks[j as int]));
                assert(is_group(self.children@[j as int], with_key(kids, ks[j as int])));
                assert(decreases_to!(self => self.children@[j as int]));
            }
            let child = self.children[j].build(scope_details, num_frames);
            children.push(child);
            proof {
                let t = self.children@.take(j + 1);
                assert(t.drop_last() =~= self.children@.take(j as int));
                assert(t[t.len() - 1] == self.children@[j as int]);
            }
            j = j + 1;
        }
        proof {
            assert(self.children@.take(self.children@.len() as int) =~= self.children@);
        }
        let children = arrange(children, Ghost(built_all(self.children@, details, num_frames)));
        let duration_per_frame_ns = ((total_duration_ns as u64) / (num_frames as u64)) as i64;
        let r = MergeScope {
            relative_start_ns,
            total_duration_ns,
            duration_per_frame_ns,
            max_duration_ns: slowest_ns,
            num_pieces: self.pieces.len(),
            id,
            location,
            data,
            children,
        };
        proof {
            assert(r.data@ == decode_utf8(piece_data(ps[0])));
        }
        r
    }
}

impl MergeScope {
    /// The merged scope, owning all its data.
    pub fn into_owned(self) -> (r: MergeScope)
        ensures
            r == self,
    {
        self
    }
}

// ----------------------------------------------------------------------------
// Merging one thread over many frames.

/// The stream of thread `thread` among `streams`, if it has one (the first, should
/// it have several).
pub open spec fn stream_of(streams: Seq<(ThreadInfo, Arc<StreamInfo>)>, thread: ThreadKey) -> Option<Seq<u8>>
    decreases streams.len(),
{
    if streams.len() == 0 {
        None
    } else if streams[0].0@ == thread {
        Some(streams[0].1.stream@)
    } else {
        stream_of(streams.drop_first(), thread)
    }
}

/// The top-level scopes of stream `s`, each start moved back by `offset_ns`.
pub open spec fn stream_pieces(s: Seq<u8>, offset_ns: i64) -> Seq<PieceView> {
    match top_scopes_from(s, 0) {
        Ok(cs) => cs.map_values(
            |c: ParsedScope|
                PieceView { stream: s, relative_start_ns: clamp_i64(c.start_ns - offset_ns), scope: c },
        ),
        Err(_) => Seq::empty(),
    }
}

/// The top-level scopes of thread `thread` in frame `f`, each start relative to the
/// start of frame `f0`.
pub open spec fn frame_pieces(f: UnpackedFrameData, f0: UnpackedFrameData, thread: ThreadKey) -> Seq<PieceView> {
    match stream_of(f.thread_streams@, thread) {
        None => Seq::empty(),
        Some(s) => stream_pieces(s, clamp_i64(f.meta.range_ns.0 - f0.meta.range_ns.0)),
    }
}

/// The top-level scopes of thread `thread` in the first `n` of `frames`.
pub open spec fn top_pieces(frames: Seq<Arc<UnpackedFrameData>>, thread: ThreadKey, n: int) -> Seq<PieceView>
    decreases n,
{
    if n <= 0 {
        Seq::empty()
    } else {
        top_pieces(frames, thread, n - 1) + nth_frame_pieces(frames, n - 1, thread)
    }
}

/// The top-level scopes of thread `thread` in frame `i` of `frames`, each start
/// relative to the start of the first frame.
pub open spec fn nth_frame_pieces(frames: Seq<Arc<UnpackedFrameData>>, i: int, thread: ThreadKey) -> Seq<PieceView> {
    frame_pieces(*frames[i], *frames[0], thread)
}

/// The merged scopes of thread `thread` over `frames`: the top-level scopes grouped
/// by id and data, and below each group the children of its scopes grouped in the
/// same way, each group added up, in order and not overlapping.
pub open spec fn merged_scopes(
    frames: Seq<Arc<UnpackedFrameData>>,
    thread: ThreadKey,
    details: Map<u32, ScopeDetailsView>,
) -> Seq<MergeView> {
    let ps = top_pieces(frames, thread, frames.len() as int);
    let nodes = choose|nodes: Seq<MergeNode>| groups_of(nodes, ps);
    arranged(built_all(nodes, details, frames.len() as i64), 0)
}

/// The stream of a frame that `merge_scopes_for_thread` reads, if the frame has one
/// for the thread.
pub open spec fn frame_stream(f: Arc<UnpackedFrameData>, thread: ThreadKey) -> Option<Seq<u8>> {
    stream_of((*f).thread_streams@, thread)
}

/// The index of the stream of `thread` among `streams`.
fn find_stream(streams: &Vec<(ThreadInfo, Arc<StreamInfo>)>, thread: &ThreadInfo) -> (r: Option<usize>)
    ensures
        match stream_of(streams@, thread@) {
            None => r is None,
            Some(s) => r matches Some(i) && i < streams@.len() && streams@[i as int].1.stream@ == s,
        },
{
    let mut i: usize = 0;
    proof {
        assert(streams@.skip(0) =~= streams@);
    }
    while i < streams.len()
        invariant
            0 <= i <= streams@.len(),
            stream_of(streams@, thread@) == stream_of(streams@.skip(i as int), thread@),
        decreases streams@.len() - i,
    {
        if streams[i].0 == *thread {
            return Some(i);
        }
        proof {
            assert(streams@.skip(i as int).drop_first() =~= streams@.skip(i + 1));
        }
        i = i + 1;
    }
    None
}

/// For the given thread, merge all scopes with the same id+data path.
pub fn merge_scopes_for_thread<'s>(
    scope_details: &ScopeCollection,
    frames: &'s [Arc<UnpackedFrameData>],
    thread_info: &ThreadInfo,
) -> (r: Result<Vec<MergeScope>>)
    requires
        frames@.len() <= i64::MAX,
        forall|i: int|
            0 <= i < frames@.len() ==> (frame_stream(#[trigger] frames@[i], thread_info@) matches Some(s)
                ==> top_scopes_from(s, 0) is Ok),
    ensures
        r matches Ok(v) ==> all_match(v@, merged_scopes(frames@, thread_info@, scope_details@.0)),
        (forall|i: int|
            0 <= i < frames@.len() ==> (frame_stream(#[trigger] frames@[i], thread_info@) matches Some(s)
                ==> walk(s, 0, 0).0 is None)) ==> r is Ok,
{
    let ghost all_clean = forall|i: int|
        0 <= i < frames@.len() ==> (frame_stream(#[trigger] frames@[i], thread_info@) matches Some(s)
            ==> walk(s, 0, 0).0 is None);
    let mut top_nodes: Vec<MergeNode<'s>> = Vec::new();
    let ghost mut ps: Seq<PieceView> = Seq::empty();
    proof {
        assert(first_keys(ps) =~= Seq::empty());
    }
    let mut fi: usize = 0;
    while fi < frames.len()
        invariant
            0 <= fi <= frames@.len(),
            groups_of(top_nodes@, ps),
            ps == top_pieces(frames@, thread_info@, fi as int),
            fi > 0 ==> frames@.len() > 0,
            forall|i: int|
                0 <= i < frames@.len() ==> (frame_stream(#[trigger] frames@[i], thread_info@) matches Some(s)
                    ==> top_scopes_from(s, 0) is Ok),
            all_clean == forall|i: int|
                0 <= i < frames@.len() ==> (frame_stream(#[trigger] frames@[i], thread_info@) matches Some(s)
                    ==> walk(s, 0, 0).0 is None),
        decreases frames@.len() - fi,
    {
        let frame: &'s UnpackedFrameData = &frames[fi];
        let ghost fp = nth_frame_pieces(frames@, fi as int, thread_info@);
        match find_stream(&frame.thread_streams, thread_info) {
            None => {
                proof {
                    assert(fp =~= Seq::<PieceView>::empty());
                    assert(ps + fp =~= ps);
                }
            },
            Some(si) => {
                let stream_info: &'s StreamInfo = &frame.thread_streams[si].1;
                let stream: &'s Stream = &stream_info.stream;
                let ghost s = stream@;
                proof {
                    assert(frame_stream(frames@[fi as int], thread_info@) == Some(s));
                }
                let offset_ns = sub_clamped(frame.meta.range_ns.0, frames[0].meta.range_ns.0);
                add_stream_scopes(&mut top_nodes, stream, offset_ns, Ghost(ps))?;
                proof {
                    ps = ps + fp;
                }
            },
        }
        fi = fi + 1;
    }
    let n = frames.len() as i64;
    let scopes = build_groups(&top_nodes, scope_details, n, Ghost(ps));
    proof {
        let chosen = choose|nodes: Seq<MergeNode>| groups_of(nodes, ps);
        assert(groups_of(chosen, ps));
        lemma_groups_build_alike(chosen, top_nodes@, ps, scope_details@.0, n);
    }
    Ok(scopes)
}

/// The merged scopes of the groups `nodes` of the pieces `ps`, in order and not
/// overlapping.
fn build_groups(nodes: &Vec<MergeNode>, scope_details: &ScopeCollection, n: i64, Ghost(ps): Ghost<Seq<PieceView>>) -> (r: Vec<MergeScope>)
    requires
        groups_of(nodes@, ps),
        n > 0 || nodes@.len() == 0,
    ensures
        all_match(r@, arranged(built_all(nodes@, scope_details@.0, n), 0)),
{
    let mut scopes: Vec<MergeScope> = Vec::new();
    let mut j: usize = 0;
    let ghost details = scope_details@.0;
    while j < nodes.len()
        invariant
            groups_of(nodes@, ps),
            0 <= j <= nodes@.len(),
            n > 0 || nodes@.len() == 0,
            all_match(scopes@, built_all(nodes@.take(j as int), details, n)),
            details == scope_details@.0,
        decreases nodes@.len() - j,
    {
        proof {
            let ks = first_keys(ps);
            lemma_with_key_keys(ps, ks[j as int]);
            assert(ks.contains(ks[j as int]));
            assert(is_group(nodes@[j as int], with_key(ps, ks[j as int])));
        }
        let scope = nodes[j].build(scope_details, n);
        scopes.push(scope);
        proof {
            let t = nodes@.take(j + 1);
            assert(t.drop_last() =~= nodes@.take(j as int));
            assert(t[t.len() - 1] == nodes@[j as int]);
        }
        j = j + 1;
    }
    proof {
        assert(nodes@.take(nodes@.len() as int) =~= nodes@);
    }
    arrange(scopes, Ghost(built_all(nodes@, details, n)))
}

/// Adds the top-level scopes of `stream`, each start moved back by `offset_ns`, to
/// the nodes of their keys.
fn add_stream_scopes<'s>(
    top_nodes: &mut Vec<MergeNode<'s>>,
    stream: &'s Stream,
    offset_ns: i64,
    Ghost(ps): Ghost<Seq<PieceView>>,
) -> (r: Result<()>)
    requires
        groups_of(old(top_nodes)@, ps),
        top_scopes_from(stream@, 0) is Ok,
    ensures
        r is Ok ==> groups_of(final(top_nodes)@, ps + stream_pieces(stream@, offset_ns)),
        walk(stream@, 0, 0).0 is None ==> r is Ok,
{
    let ghost s = stream@;
    let ghost clean = walk(s, 0, 0).0 is None;
    proof {
        if clean {
            lemma_walk_clean(s, 0);
        }
    }
    let top_scopes = match Reader::from_start(stream).read_top_scopes() {
        Ok(t) => t,
        Err(e) => {
            return Err(e);
        },
    };
    let ghost cs = top_scopes_from(s, 0)->Ok_0;
    let ghost fp = stream_pieces(s, offset_ns);
    let mut k: usize = 0;
    let ghost mut qs = ps;
    proof {
        assert(ps + fp.take(0) =~= ps);
    }
    while k < top_scopes.len()
        invariant
            0 <= k <= top_scopes@.len(),
            top_scopes@.len() == cs.len(),
            forall|j: int| 0 <= j < cs.len() ==> scope_matches(#[trigger] top_scopes@[j], cs[j], s),
            top_scopes_from(s, 0) == Ok::<Seq<ParsedScope>, Error>(cs),
            s == stream@,
            fp == stream_pieces(s, offset_ns),
            qs == ps + fp.take(k as int),
            groups_of(top_nodes@, qs),
            clean == (walk(s, 0, 0).0 is None),
            clean ==> forall|j: int|
                0 <= j < cs.len() ==> walk(s, (#[trigger] cs[j]).child_begin, 0).0 is None,
        decreases top_scopes@.len() - k,
    {
        let scope = top_scopes[k];
        proof {
            lemma_top_scope_bounds(s, 0, k as int);
        }
        let piece = MergePiece {
            stream,
            relative_start_ns: sub_clamped(scope.record.start_ns, offset_ns),
            scope,
            parsed: Ghost(cs[k as int]),
        };
        add_to_groups(top_nodes, piece, Ghost(qs))?;
        proof {
            assert(piece_view(piece) == fp[k as int]);
            assert(fp.take(k + 1) =~= fp.take(k as int).push(fp[k as int]));
            qs = qs.push(piece_view(piece));
            assert(qs =~= ps + fp.take(k + 1));
        }
        k = k + 1;
    }
    proof {
        assert(fp.take(fp.len() as int) =~= fp);
    }
    Ok(())
}

/// Each top-level scope lies inside the stream.
proof fn lemma_top_scope_bounds(s: Seq<u8>, pos: int, k: int)
    requires
        top_scopes_from(s, pos) is Ok,
        0 <= k < top_scopes_from(s, pos)->Ok_0.len(),
    ensures
        ({
            let c = top_scopes_from(s, pos)->Ok_0[k];
            &&& c.data_begin <= c.data_end < c.child_begin <= c.child_end < c.next <= s.len()
            &&& c.start_ns <= c.stop_ns
        }),
    decreases s.len() - pos,
{
    lemma_parse_scope_bounds(s, pos);
    if let Ok(Some(ps)) = parse_scope_at(s, pos) {
        if k > 0 {
            lemma_top_scope_bounds(s, ps.next, k - 1);
        }
    }
}

} // verus!
