//! Statistics per scope id over many streams: how often a scope ran, how many
//! bytes it took, and how much time it spent outside its child scopes.
use crate::frame_data::{lemma_bytes_irreflexive, lemma_bytes_transitive};
use crate::assoc::{assoc_map, keys_unique, lemma_assoc_map_dom, lemma_assoc_map_index, lemma_assoc_map_update, lemma_assoc_push_unique};
use crate::data::{
    expected_parse, law_scope_reads_back, scope_bytes, truncated_len,
    lemma_parse_scope_bounds, parse_scope_at, scope_matches, Error, ParsedScope, Reader, Result,
    Scope, Stream,
};
use crate::merge::{add_clamped, bytes_before, clamp_i64, lemma_utf8_prefix, sub_clamped, utf8_prefix};
use crate::scope_details::{spec_location, ScopeCollection, ScopeDetailsView};
use vstd::utf8::{encode_utf8, valid_utf8};
use crate::{NanoSecond, ScopeId};
use vstd::prelude::*;
use vstd::string::StringSliceAdditionalSpecFns;

verus! {

/// Statistics of one scope id.
#[derive(Clone, Copy, Debug, PartialEq, Eq, Structural)]
pub struct ScopeStats {
    /// How many times the scope ran (saturating).
    pub count: usize,
    /// How many bytes its records took (saturating).
    pub bytes: usize,
    /// Time covered by all runs, minus what child scopes covered.
    pub total_self_ns: NanoSecond,
    /// The longest such self time of one run.
    pub max_ns: NanoSecond,
}

/// The statistics of a scope that has not been seen.
pub open spec fn zero_stats() -> ScopeStats {
    ScopeStats { count: 0, bytes: 0, total_self_ns: 0, max_ns: 0 }
}

/// `a + b`, or `usize::MAX` where that does not fit.
pub open spec fn add_usize(a: int, b: int) -> usize {
    if a + b > usize::MAX {
        usize::MAX
    } else {
        (a + b) as usize
    }
}

/// The statistics `st` after one more run of `bytes` bytes and `self_ns` self time.
pub open spec fn bumped(st: ScopeStats, bytes: int, self_ns: i64) -> ScopeStats {
    ScopeStats {
        count: add_usize(st.count as int, 1),
        bytes: add_usize(st.bytes as int, bytes),
        total_self_ns: clamp_i64(st.total_self_ns + self_ns),
        max_ns: if st.max_ns < self_ns {
            self_ns
        } else {
            st.max_ns
        },
    }
}

/// One run of a scope: its id, its size in bytes and its self time.
pub type ScopeRun = (u32, int, i64);

/// The statistics `m` after the runs `runs`, in order.
pub open spec fn tally(m: Map<u32, ScopeStats>, runs: Seq<ScopeRun>) -> Map<u32, ScopeStats>
    decreases runs.len(),
{
    if runs.len() == 0 {
        m
    } else {
        let t = tally(m, runs.drop_last());
        let (id, bytes, self_ns) = runs.last();
        let st = if t.contains_key(id) {
            t[id]
        } else {
            zero_stats()
        };
        t.insert(id, bumped(st, bytes, self_ns))
    }
}

/// The size of a scope's record, as the statistics count it: the sentinels, times,
/// id and size fields, and the data.
pub open spec fn record_size(s: Seq<u8>, ps: ParsedScope) -> int {
    31 + utf8_prefix(s.subrange(ps.data_begin, ps.data_end)).len() as int
}

/// The bytes counted for a scope are the bytes its own records take in the stream:
/// everything it spans except its children, for data that is valid UTF-8 as kept.
pub proof fn law_scope_size_is_its_records(
    prefix: Seq<u8>,
    id: u32,
    start_ns: i64,
    data: Seq<u8>,
    children: Seq<u8>,
    stop_ns: i64,
    suffix: Seq<u8>,
)
    requires
        id != 0,
        start_ns <= stop_ns,
        stop_ns - start_ns <= i64::MAX,
        children.len() < u64::MAX,
        valid_utf8(data.take(truncated_len(data.len()) as int)),
    ensures
        ({
            let s = prefix + scope_bytes(id, start_ns, data, children, stop_ns) + suffix;
            let ps = expected_parse(prefix.len() as int, id, start_ns, data, children, stop_ns);
            record_size(s, ps) + children.len() == scope_bytes(id, start_ns, data, children, stop_ns).len()
        }),
{
    law_scope_reads_back(prefix, id, start_ns, data, children, stop_ns, suffix);
    let kept = data.take(truncated_len(data.len()) as int);
    assert(kept.take(kept.len() as int) =~= kept);
    lemma_utf8_prefix(kept, kept);
}

/// Visits the sibling scopes from `pos` on, each after the scopes below it. Returns
/// the first error met, the runs seen until then, and `acc` plus the durations of
/// the siblings (each addition held to the range of an `i64`). A scope's self time
/// is its duration minus the durations of its children.
pub open spec fn runs_from(s: Seq<u8>, pos: int, acc: i64) -> (Option<Error>, Seq<ScopeRun>, i64)
    decreases s.len() - pos,
{
    match parse_scope_at(s, pos) {
        Err(e) => (Some(e), Seq::empty(), acc),
        Ok(None) => (None, Seq::empty(), acc),
        Ok(Some(ps)) => {
            if ps.child_begin <= pos || ps.next <= pos {
                (None, Seq::empty(), acc)
            } else {
                let c = runs_from(s, ps.child_begin, 0);
                if c.0 is Some {
                    (c.0, c.1, acc)
                } else {
                    let duration = ps.stop_ns - ps.start_ns;
                    let own = c.1.push((ps.id, record_size(s, ps), clamp_i64(duration - c.2)));
                    let r = runs_from(s, ps.next, clamp_i64(acc + duration));
                    (r.0, own + r.1, r.2)
                }
            }
        },
    }
}

/// Counting one run of scope `id` counts one more call of it, adds the run's bytes
/// and self time, and keeps as largest self time the larger of the old one and the
/// run's; other scopes stay as they were. (Counts saturate at `usize::MAX`, self
/// times at the range of an `i64`.)
pub proof fn law_one_run_counted(m: Map<u32, ScopeStats>, id: u32, bytes: int, self_ns: i64)
    requires
        bytes >= 0,
    ensures
        ({
            let t = tally(m, seq![(id, bytes, self_ns)]);
            let before = if m.contains_key(id) {
                m[id]
            } else {
                zero_stats()
            };
            &&& t.dom() == m.dom().insert(id)
            &&& forall|other: u32| #[trigger] m.contains_key(other) && other != id ==> t[other] == m[other]
            &&& before.count < usize::MAX ==> t[id].count == before.count + 1
            &&& before.bytes + bytes <= usize::MAX ==> t[id].bytes == before.bytes + bytes
            &&& i64::MIN <= before.total_self_ns + self_ns <= i64::MAX ==> t[id].total_self_ns
                == before.total_self_ns + self_ns
            &&& t[id].max_ns >= self_ns && t[id].max_ns >= before.max_ns
            &&& (t[id].max_ns == self_ns || t[id].max_ns == before.max_ns)
        }),
{
    let runs = seq![(id, bytes, self_ns)];
    assert(runs.drop_last() =~= Seq::<ScopeRun>::empty());
    assert(tally(m, runs.drop_last()) == m);
}

/// Counting runs in two steps counts them as in one: statistics collected from two
/// streams one after the other are those of the runs of both.
pub proof fn law_tally_append(m: Map<u32, ScopeStats>, a: Seq<ScopeRun>, b: Seq<ScopeRun>)
    ensures
        tally(tally(m, a), b) == tally(m, a + b),
    decreases b.len(),
{
    if b.len() == 0 {
        assert(a + b =~= a);
    } else {
        law_tally_append(m, a, b.drop_last());
        assert((a + b).drop_last() =~= a + b.drop_last());
        assert((a + b).last() == b.last());
    }
}

/// Statistics per scope id.
pub struct Stats {
    scopes: Vec<(ScopeId, ScopeStats)>,
}

/// The statistics as id and statistics pairs.
pub open spec fn stats_pairs(s: Seq<(ScopeId, ScopeStats)>) -> Seq<(u32, ScopeStats)> {
    s.map_values(|p: (ScopeId, ScopeStats)| (p.0@, p.1))
}

impl View for Stats {
    type V = Map<u32, ScopeStats>;

    closed spec fn view(&self) -> Map<u32, ScopeStats> {
        assoc_map(stats_pairs(self.scopes@))
    }
}

impl Stats {
    #[verifier::type_invariant]
    spec fn ids_distinct(self) -> bool {
        keys_unique(stats_pairs(self.scopes@))
    }

    /// No statistics yet.
    pub fn new() -> (r: Self)
        ensures
            r@ == Map::<u32, ScopeStats>::empty(),
    {
        let r = Stats { scopes: Vec::new() };
        proof {
            assert(stats_pairs(r.scopes@) =~= Seq::empty());
        }
        r
    }

    /// The statistics of each scope id seen, each id once.
    pub fn scopes(&self) -> (r: &[(ScopeId, ScopeStats)])
        ensures
            assoc_map(stats_pairs(r@)) == self@,
            keys_unique(stats_pairs(r@)),
    {
        proof {
            use_type_invariant(self);
        }
        self.scopes.as_slice()
    }

    /// Counts one run of scope `id`.
    fn record(&mut self, id: ScopeId, bytes: usize, self_ns: NanoSecond)
        ensures
            final(self)@ == old(self)@.insert(
                id@,
                bumped(
                    if old(self)@.contains_key(id@) {
                        old(self)@[id@]
                    } else {
                        zero_stats()
                    },
                    bytes as int,
                    self_ns,
                ),
            ),
    {
        proof {
            use_type_invariant(&*self);
        }
        let ghost pairs = stats_pairs(self.scopes@);
        let n = self.scopes.len();
        let mut i: usize = 0;
        while i < n
            invariant
                n == self.scopes@.len(),
                pairs == stats_pairs(self.scopes@),
                keys_unique(pairs),
                *self == *old(self),
                0 <= i <= n,
                forall|j: int| 0 <= j < i ==> pairs[j].0 != id@,
            decreases n - i,
        {
            if self.scopes[i].0.get() == id.get() {
                let st = self.scopes[i].1;
                let new_st = ScopeStats {
                    count: st.count.saturating_add(1),
                    bytes: st.bytes.saturating_add(bytes),
                    total_self_ns: add_clamped(st.total_self_ns, self_ns),
                    max_ns: if st.max_ns < self_ns {
                        self_ns
                    } else {
                        st.max_ns
                    },
                };
                proof {
                    assert(pairs[i as int] == (id@, st));
                    lemma_assoc_map_index(pairs, i as int);
                    lemma_assoc_map_update(pairs, i as int, new_st);
                }
                let mut scopes = Vec::new();
                std::mem::swap(&mut scopes, &mut self.scopes);
                scopes.set(i, (id, new_st));
                proof {
                    assert(stats_pairs(scopes@) =~= pairs.update(i as int, (pairs[i as int].0, new_st)));
                }
                self.scopes = scopes;
                return ;
            }
            i = i + 1;
        }
        proof {
            lemma_assoc_map_dom(pairs, id@);
        }
        let new_st = ScopeStats {
            count: 1,
            bytes,
            total_self_ns: add_clamped(0, self_ns),
            max_ns: if 0 < self_ns {
                self_ns
            } else {
                0
            },
        };
        proof {
            lemma_assoc_push_unique(pairs, id@, new_st);
        }
        let mut scopes = Vec::new();
        std::mem::swap(&mut scopes, &mut self.scopes);
        scopes.push((id, new_st));
        proof {
            assert(stats_pairs(scopes@) =~= pairs.push((id@, new_st)));
        }
        self.scopes = scopes;
    }
}

/// The number of bytes a scope's record takes, as the statistics count it.
fn scope_byte_size(scope: &Scope<'_>) -> (r: usize)
    requires
        scope.record.data.spec_bytes().len() <= 255,
    ensures
        r == 31 + scope.record.data.spec_bytes().len(),
{
    1 + // `(` sentinel
    8 + // start time
    4 + // scope id
    1 + scope.record.data.len() + // dynamic data len
    8 + // scope size
    1 + // `)` sentinel
    8 // stop time
}

/// Counts the run of `scope`, read from `stream` where parsing gave `ps`, after the
/// runs of the scopes below it.
fn collect_scope(stats: &mut Stats, stream: &Stream, scope: &Scope<'_>, Ghost(ps): Ghost<ParsedScope>) -> (r: Result<()>)
    requires
        scope_matches(*scope, ps, stream@),
        0 <= ps.data_begin <= ps.data_end < ps.child_begin <= ps.child_end < ps.next <= stream@.len(),
        ps.data_end - ps.data_begin <= 255,
        ps.start_ns <= ps.stop_ns,
    ensures
        ({
            let c = runs_from(stream@, ps.child_begin, 0);
            let duration = ps.stop_ns - ps.start_ns;
            match c.0 {
                Some(e) => r == Err::<(), Error>(e) && final(stats)@ == tally(old(stats)@, c.1),
                None => r is Ok && final(stats)@ == tally(
                    old(stats)@,
                    c.1.push((ps.id, record_size(stream@, ps), clamp_i64(duration - c.2))),
                ),
            }
        }),
    decreases stream@.len() - ps.child_begin,
{
    let ghost s = stream@;
    let ghost total = runs_from(s, ps.child_begin, 0);
    let mut reader = match Reader::with_offset(stream, scope.child_begin_position) {
        Ok(r) => r,
        Err(e) => {
            return Err(e);
        },
    };
    let mut ns_used_by_children: NanoSecond = 0;
    let ghost mut done: Seq<ScopeRun> = Seq::empty();
    proof {
        assert(done + total.1 =~= total.1);
    }
    loop
        invariant
            reader@.0 == s,
            s == stream@,
            ps.child_begin <= reader@.1 <= s.len(),
            scope_matches(*scope, ps, s),
            0 <= ps.data_begin <= ps.data_end < ps.child_begin <= ps.child_end < ps.next <= s.len(),
            ps.data_end - ps.data_begin <= 255,
            ps.start_ns <= ps.stop_ns,
            total == runs_from(s, ps.child_begin, 0),
            total.0 == runs_from(s, reader@.1, ns_used_by_children).0,
            total.1 == done + runs_from(s, reader@.1, ns_used_by_children).1,
            total.2 == runs_from(s, reader@.1, ns_used_by_children).2,
            stats@ == tally(old(stats)@, done),
        ensures
            total.0 is None,
            total.1 == done,
            total.2 == ns_used_by_children,
            stats@ == tally(old(stats)@, done),
        decreases s.len() - reader@.1,
    {
        let ghost pos = reader@.1;
        proof {
            lemma_parse_scope_bounds(s, pos);
        }
        match reader.next_scope() {
            None => {
                proof {
                    assert(done + Seq::<ScopeRun>::empty() =~= done);
                }
                break;
            },
            Some(Err(e)) => {
                proof {
                    assert(done + Seq::<ScopeRun>::empty() =~= done);
                }
                return Err(e);
            },
            Some(Ok(child)) => {
                let ghost cps = parse_scope_at(s, pos)->Ok_0->Some_0;
                let ghost c = runs_from(s, cps.child_begin, 0);
                let ghost before = stats@;
                let res = collect_scope(stats, stream, &child, Ghost(cps));
                proof {
                    law_tally_append(old(stats)@, done, c.1);
                }
                match res {
                    Err(e) => {
                        proof {
                            assert(done + c.1 + Seq::<ScopeRun>::empty() =~= done + c.1);
                        }
                        return Err(e);
                    },
                    Ok(()) => {},
                }
                let ghost old_ns = ns_used_by_children;
                ns_used_by_children = add_clamped(ns_used_by_children, child.record.duration_ns);
                proof {
                    let duration = cps.stop_ns - cps.start_ns;
                    let own = c.1.push((cps.id, record_size(s, cps), clamp_i64(duration - c.2)));
                    law_tally_append(old(stats)@, done, own);
                    let r = runs_from(s, cps.next, ns_used_by_children);
                    assert(done + (own + r.1) =~= (done + own) + r.1);
                    done = done + own;
                }
            },
        }
    }
    proof {
        lemma_utf8_prefix(scope.record.data.spec_bytes(), s.subrange(ps.data_begin, ps.data_end));
    }
    let self_time = sub_clamped(scope.record.duration_ns, ns_used_by_children);
    let size = scope_byte_size(scope);
    let ghost mid = stats@;
    stats.record(scope.id, size, self_time);
    proof {
        let ev: ScopeRun = (ps.id, record_size(s, ps), self_time);
        assert(size as int == record_size(s, ps));
        assert(seq![ev].drop_last() =~= Seq::<ScopeRun>::empty());
        assert(seq![ev].last() == ev);
        assert(tally(mid, seq![ev].drop_last()) == mid);
        assert(scope.id@ == ps.id);
        assert(tally(mid, seq![ev]) =~= stats@);
        law_tally_append(old(stats)@, done, seq![ev]);
        assert(done.push(ev) =~= done + seq![ev]);
    }
    Ok(())
}

/// Counts the runs of all scopes of `stream`. On an error, the runs seen before it
/// stay counted.
pub fn collect_stream(stats: &mut Stats, stream: &Stream) -> (r: Result<()>)
    ensures
        ({
            let t = runs_from(stream@, 0, 0);
            &&& final(stats)@ == tally(old(stats)@, t.1)
            &&& match t.0 {
                Some(e) => r == Err::<(), Error>(e),
                None => r is Ok,
            }
        }),
{
    let ghost s = stream@;
    let ghost total = runs_from(s, 0, 0);
    let mut reader = Reader::from_start(stream);
    let ghost mut acc: i64 = 0;
    let ghost mut done: Seq<ScopeRun> = Seq::empty();
    proof {
        assert(done + total.1 =~= total.1);
    }
    loop
        invariant
            reader@.0 == s,
            s == stream@,
            0 <= reader@.1 <= s.len(),
            total == runs_from(s, 0, 0),
            total.0 == runs_from(s, reader@.1, acc).0,
            total.1 == done + runs_from(s, reader@.1, acc).1,
            stats@ == tally(old(stats)@, done),
        ensures
            total.0 is None,
            total.1 == done,
            stats@ == tally(old(stats)@, done),
        decreases s.len() - reader@.1,
    {
        let ghost pos = reader@.1;
        proof {
            lemma_parse_scope_bounds(s, pos);
        }
        match reader.next_scope() {
            None => {
                proof {
                    assert(done + Seq::<ScopeRun>::empty() =~= done);
                }
                break;
            },
            Some(Err(e)) => {
                proof {
                    assert(done + Seq::<ScopeRun>::empty() =~= done);
                }
                return Err(e);
            },
            Some(Ok(scope)) => {
                let ghost cps = parse_scope_at(s, pos)->Ok_0->Some_0;
                let ghost c = runs_from(s, cps.child_begin, 0);
                let res = collect_scope(stats, stream, &scope, Ghost(cps));
                proof {
                    law_tally_append(old(stats)@, done, c.1);
                }
                match res {
                    Err(e) => {
                        proof {
                            assert(done + c.1 + Seq::<ScopeRun>::empty() =~= done + c.1);
                        }
                        return Err(e);
                    },
                    Ok(()) => {},
                }
                proof {
                    let duration = cps.stop_ns - cps.start_ns;
                    let own = c.1.push((cps.id, record_size(s, cps), clamp_i64(duration - c.2)));
                    law_tally_append(old(stats)@, done, own);
                    acc = clamp_i64(acc + duration);
                    let r = runs_from(s, cps.next, acc);
                    assert(done + (own + r.1) =~= (done + own) + r.1);
                    done = done + own;
                }
            },
        }
    }
    Ok(())
}


// ----------------------------------------------------------------------------
// Sorting the statistics table.

/// The column the table of scopes is sorted by.
#[derive(Clone, Copy, Debug, PartialEq, Eq, Structural)]
pub enum SortKey {
    Location,
    FunctionName,
    ScopeName,
    Count,
    Size,
    TotalSelfTime,
    MeanSelfTime,
    MaxSelfTime,
}

/// Determines the order of scopes in table view.
#[derive(Clone, Copy, Debug)]
pub struct SortOrder {
    /// Which column to sort scopes by.
    pub key: SortKey,
    /// Reverse order, if true sort in descending order.
    /// If false sort in ascending order.
    pub rev: bool,
}

/// What a row of the table is sorted by: a text (in byte order) or a number.
pub enum SortValue {
    Text(Seq<u8>),
    Number(int),
}

/// Whether `a` sorts before `b`.
pub open spec fn value_before(a: SortValue, b: SortValue) -> bool {
    match (a, b) {
        (SortValue::Text(x), SortValue::Text(y)) => bytes_before(x, y),
        (SortValue::Number(x), SortValue::Number(y)) => x < y,
        _ => false,
    }
}

/// A text of the details of scope `id`, or the empty text for an unknown scope.
pub open spec fn details_text(
    details: Map<u32, ScopeDetailsView>,
    id: u32,
    f: spec_fn(ScopeDetailsView) -> Seq<char>,
) -> SortValue {
    if details.contains_key(id) {
        SortValue::Text(encode_utf8(f(details[id])))
    } else {
        SortValue::Text(Seq::empty())
    }
}

/// What the row `row` is sorted by for column `key`.
pub open spec fn sort_value(key: SortKey, row: (ScopeId, ScopeStats), details: Map<u32, ScopeDetailsView>) -> SortValue {
    let st = row.1;
    match key {
        SortKey::Location => details_text(details, row.0@, |d: ScopeDetailsView| spec_location(d)),
        SortKey::FunctionName => details_text(details, row.0@, |d: ScopeDetailsView| d.function_name),
        SortKey::ScopeName => details_text(
            details,
            row.0@,
            |d: ScopeDetailsView|
                match d.scope_name {
                    Some(n) => n,
                    None => Seq::empty(),
                },
        ),
        SortKey::Count => SortValue::Number(st.count as int),
        SortKey::Size => SortValue::Number(st.bytes as int),
        SortKey::TotalSelfTime => SortValue::Number(st.total_self_ns as int),
        SortKey::MeanSelfTime => SortValue::Number((st.total_self_ns as usize) as int / st.count as int),
        SortKey::MaxSelfTime => SortValue::Number(st.max_ns as int),
    }
}

/// Where `v` goes among `vs` so that it comes after every value it does not sort
/// before: the first place whose value `v` sorts before, or the end.
pub open spec fn insertion_place(vs: Seq<SortValue>, v: SortValue) -> int
    decreases vs.len(),
{
    if vs.len() == 0 {
        0
    } else if value_before(v, vs[0]) {
        0
    } else {
        1 + insertion_place(vs.drop_first(), v)
    }
}

/// `rows` with their sort values `vs`, sorted stably: each row in turn is inserted
/// after the rows before it that it does not sort before.
pub open spec fn stable_sorted(rows: Seq<((ScopeId, ScopeStats), SortValue)>) -> Seq<((ScopeId, ScopeStats), SortValue)>
    decreases rows.len(),
{
    if rows.len() == 0 {
        Seq::empty()
    } else {
        let sorted = stable_sorted(rows.drop_last());
        let place = insertion_place(sorted.map_values(|r: ((ScopeId, ScopeStats), SortValue)| r.1), rows.last().1);
        sorted.insert(place, rows.last())
    }
}

/// The rows `rows` in the order of column `key`, stable for equal values, reversed
/// for a descending order.
pub open spec fn sorted_rows(
    rows: Seq<(ScopeId, ScopeStats)>,
    order: SortOrder,
    details: Map<u32, ScopeDetailsView>,
) -> Seq<(ScopeId, ScopeStats)> {
    let keyed = rows.map_values(|r: (ScopeId, ScopeStats)| (r, sort_value(order.key, r, details)));
    let sorted = stable_sorted(keyed).map_values(|r: ((ScopeId, ScopeStats), SortValue)| r.0);
    if order.rev {
        sorted.reverse()
    } else {
        sorted
    }
}

proof fn lemma_insertion_place(vs: Seq<SortValue>, v: SortValue)
    ensures
        0 <= insertion_place(vs, v) <= vs.len(),
    decreases vs.len(),
{
    if vs.len() > 0 {
        lemma_insertion_place(vs.drop_first(), v);
    }
}

proof fn lemma_stable_sorted_keeps_rows(k: Seq<((ScopeId, ScopeStats), SortValue)>)
    ensures
        stable_sorted(k).map_values(|r: ((ScopeId, ScopeStats), SortValue)| r.0).to_multiset()
            =~= k.map_values(|r: ((ScopeId, ScopeStats), SortValue)| r.0).to_multiset(),
    decreases k.len(),
{
    let fst = |r: ((ScopeId, ScopeStats), SortValue)| r.0;
    if k.len() > 0 {
        let rest = k.drop_last();
        lemma_stable_sorted_keeps_rows(rest);
        let sorted = stable_sorted(rest);
        let vs = sorted.map_values(|r: ((ScopeId, ScopeStats), SortValue)| r.1);
        let place = insertion_place(vs, k.last().1);
        lemma_insertion_place(vs, k.last().1);
        assert(sorted.insert(place, k.last()).map_values(fst) =~= sorted.map_values(fst).insert(place, k.last().0));
        vstd::seq_lib::to_multiset_insert(sorted.map_values(fst), place, k.last().0);
        assert(k.map_values(fst) =~= rest.map_values(fst).push(k.last().0));
        vstd::seq_lib::to_multiset_build(rest.map_values(fst), k.last().0);
    } else {
        assert(stable_sorted(k).map_values(fst) =~= k.map_values(fst));
    }
}

/// Sorting the table neither drops nor adds a row: the sorted rows are the given
/// rows, each as often as it was given.
pub proof fn law_sorting_keeps_rows(
    rows: Seq<(ScopeId, ScopeStats)>,
    order: SortOrder,
    details: Map<u32, ScopeDetailsView>,
)
    ensures
        sorted_rows(rows, order, details).to_multiset() =~= rows.to_multiset(),
{
    let keyed = rows.map_values(|r: (ScopeId, ScopeStats)| (r, sort_value(order.key, r, details)));
    lemma_stable_sorted_keeps_rows(keyed);
    assert(keyed.map_values(|r: ((ScopeId, ScopeStats), SortValue)| r.0) =~= rows);
    stable_sorted(keyed).map_values(|r: ((ScopeId, ScopeStats), SortValue)| r.0).lemma_reverse_to_multiset();
}

/// The order of sort values is a strict order: irreflexive and transitive.
proof fn lemma_value_order(a: SortValue, b: SortValue, c: SortValue)
    ensures
        !value_before(a, a),
        value_before(a, b) && value_before(b, c) ==> value_before(a, c),
{
    if let SortValue::Text(x) = a {
        lemma_bytes_irreflexive(x);
        if let (SortValue::Text(y), SortValue::Text(z)) = (b, c) {
            if value_before(a, b) && value_before(b, c) {
                lemma_bytes_transitive(x, y, z);
            }
        }
    }
}

/// `v` goes after every value before its place that it does not sort before, and
/// before the value at its place.
proof fn lemma_insertion_place_props(vs: Seq<SortValue>, v: SortValue)
    ensures
        forall|m: int| 0 <= m < insertion_place(vs, v) ==> !value_before(v, #[trigger] vs[m]),
        insertion_place(vs, v) < vs.len() ==> value_before(v, vs[insertion_place(vs, v)]),
    decreases vs.len(),
{
    if vs.len() > 0 && !value_before(v, vs[0]) {
        let t = vs.drop_first();
        lemma_insertion_place_props(t, v);
        lemma_insertion_place(t, v);
        assert forall|m: int| 0 <= m < insertion_place(vs, v) implies !value_before(v, #[trigger] vs[m]) by {
            if m > 0 {
                assert(vs[m] == t[m - 1]);
            }
        }
        if insertion_place(vs, v) < vs.len() {
            assert(vs[insertion_place(vs, v)] == t[insertion_place(t, v)]);
        }
    }
}

/// No row comes after a row whose value it sorts before.
pub open spec fn rows_in_order(s: Seq<((ScopeId, ScopeStats), SortValue)>) -> bool {
    forall|i: int, j: int| 0 <= i < j < s.len() ==> !value_before(#[trigger] s[j].1, #[trigger] s[i].1)
}

/// Sorting keeps the rows, and puts them in order of their values.
proof fn lemma_stable_sorted_in_order(k: Seq<((ScopeId, ScopeStats), SortValue)>)
    ensures
        stable_sorted(k).len() == k.len(),
        rows_in_order(stable_sorted(k)),
        forall|i: int| 0 <= i < stable_sorted(k).len() ==> k.contains(#[trigger] stable_sorted(k)[i]),
    decreases k.len(),
{
    if k.len() > 0 {
        let rest = k.drop_last();
        lemma_stable_sorted_in_order(rest);
        let sorted = stable_sorted(rest);
        let x = k.last();
        let vs = sorted.map_values(|r: ((ScopeId, ScopeStats), SortValue)| r.1);
        let p = insertion_place(vs, x.1);
        lemma_insertion_place(vs, x.1);
        lemma_insertion_place_props(vs, x.1);
        let n = sorted.insert(p, x);
        assert(stable_sorted(k) == n);
        assert forall|i: int, j: int| 0 <= i < j < n.len() implies !value_before(
            #[trigger] n[j].1,
            #[trigger] n[i].1,
        ) by {
            if j < p {
                assert(n[i] == sorted[i] && n[j] == sorted[j]);
            } else if j == p {
                assert(n[i] == sorted[i]);
                assert(vs[i] == sorted[i].1);
            } else if i == p {
                assert(n[j] == sorted[j - 1]);
                assert(vs[p] == sorted[p].1);
                lemma_value_order(sorted[j - 1].1, x.1, sorted[p].1);
                lemma_value_order(sorted[p].1, sorted[p].1, sorted[p].1);
            } else if i < p {
                assert(n[i] == sorted[i] && n[j] == sorted[j - 1]);
            } else {
                assert(n[i] == sorted[i - 1] && n[j] == sorted[j - 1]);
            }
        }
        assert forall|i: int| 0 <= i < n.len() implies k.contains(#[trigger] n[i]) by {
            if i < p {
                assert(n[i] == sorted[i]);
                assert(rest.contains(sorted[i]));
                let m = choose|m: int| 0 <= m < rest.len() && rest[m] == sorted[i];
                assert(k[m] == rest[m]);
            } else if i == p {
                assert(k[k.len() - 1] == x);
            } else {
                assert(n[i] == sorted[i - 1]);
                assert(rest.contains(sorted[i - 1]));
                let m = choose|m: int| 0 <= m < rest.len() && rest[m] == sorted[i - 1];
                assert(k[m] == rest[m]);
            }
        }
    }
}

/// The number that a numeric column shows for a row: its call count, its bytes,
/// its total, mean or largest self time.
pub open spec fn column_number(key: SortKey, st: ScopeStats) -> int {
    match key {
        SortKey::Count => st.count as int,
        SortKey::Size => st.bytes as int,
        SortKey::TotalSelfTime => st.total_self_ns as int,
        SortKey::MeanSelfTime => (st.total_self_ns as usize) as int / st.count as int,
        SortKey::MaxSelfTime => st.max_ns as int,
        _ => 0,
    }
}

/// Sorting by a numeric column puts the rows in order of the number that column
/// shows: ascending, or descending for a reversed order.
pub proof fn law_sorted_by_column(
    rows: Seq<(ScopeId, ScopeStats)>,
    order: SortOrder,
    details: Map<u32, ScopeDetailsView>,
)
    requires
        order.key == SortKey::Count || order.key == SortKey::Size || order.key == SortKey::TotalSelfTime
            || order.key == SortKey::MeanSelfTime || order.key == SortKey::MaxSelfTime,
    ensures
        ({
            let r = sorted_rows(rows, order, details);
            &&& r.len() == rows.len()
            &&& forall|i: int, j: int|
                0 <= i < j < r.len() ==> if order.rev {
                    column_number(order.key, (#[trigger] r[i]).1) >= column_number(order.key, (#[trigger] r[j]).1)
                } else {
                    column_number(order.key, r[i].1) <= column_number(order.key, r[j].1)
                }
        }),
{
    let keyed = rows.map_values(|r: (ScopeId, ScopeStats)| (r, sort_value(order.key, r, details)));
    lemma_stable_sorted_in_order(keyed);
    let sorted = stable_sorted(keyed);
    let plain = sorted.map_values(|r: ((ScopeId, ScopeStats), SortValue)| r.0);
    assert forall|i: int| 0 <= i < sorted.len() implies (#[trigger] sorted[i]).1 == SortValue::Number(
        column_number(order.key, sorted[i].0.1),
    ) by {
        assert(keyed.contains(sorted[i]));
        let m = choose|m: int| 0 <= m < keyed.len() && keyed[m] == sorted[i];
        assert(keyed[m] == (rows[m], sort_value(order.key, rows[m], details)));
    }
    let r = sorted_rows(rows, order, details);
    assert forall|i: int, j: int| 0 <= i < j < r.len() implies if order.rev {
        column_number(order.key, (#[trigger] r[i]).1) >= column_number(order.key, (#[trigger] r[j]).1)
    } else {
        column_number(order.key, r[i].1) <= column_number(order.key, r[j].1)
    } by {
        if order.rev {
            let n = plain.len();
            assert(r[i] == plain[n - 1 - i] && r[j] == plain[n - 1 - j]);
            assert(plain[n - 1 - i] == sorted[n - 1 - i].0);
            assert(plain[n - 1 - j] == sorted[n - 1 - j].0);
            assert(!value_before(sorted[n - 1 - i].1, sorted[n - 1 - j].1));
        } else {
            assert(r[i] == sorted[i].0 && r[j] == sorted[j].0);
            assert(!value_before(sorted[j].1, sorted[i].1));
        }
    }
}

/// The text that a text column shows for scope `id`, as UTF-8 bytes: the location,
/// function name or scope name of its details (no scope name, or unknown details,
/// show as the empty text).
pub open spec fn column_text(key: SortKey, id: u32, details: Map<u32, ScopeDetailsView>) -> Seq<u8> {
    if details.contains_key(id) {
        let d = details[id];
        encode_utf8(
            match key {
                SortKey::FunctionName => d.function_name,
                SortKey::ScopeName => match d.scope_name {
                    Some(n) => n,
                    None => Seq::empty(),
                },
                _ => spec_location(d),
            },
        )
    } else {
        Seq::empty()
    }
}

/// Sorting by a text column puts the rows in order of the text that column shows,
/// compared as strings compare (by their bytes): ascending, or descending for a
/// reversed order.
pub proof fn law_sorted_by_text_column(
    rows: Seq<(ScopeId, ScopeStats)>,
    order: SortOrder,
    details: Map<u32, ScopeDetailsView>,
)
    requires
        order.key == SortKey::Location || order.key == SortKey::FunctionName || order.key
            == SortKey::ScopeName,
    ensures
        ({
            let r = sorted_rows(rows, order, details);
            &&& r.len() == rows.len()
            &&& forall|i: int, j: int|
                0 <= i < j < r.len() ==> if order.rev {
                    !bytes_before(
                        column_text(order.key, (#[trigger] r[i]).0@, details),
                        column_text(order.key, (#[trigger] r[j]).0@, details),
                    )
                } else {
                    !bytes_before(column_text(order.key, r[j].0@, details), column_text(order.key, r[i].0@, details))
                }
        }),
{
    let keyed = rows.map_values(|r: (ScopeId, ScopeStats)| (r, sort_value(order.key, r, details)));
    lemma_stable_sorted_in_order(keyed);
    let sorted = stable_sorted(keyed);
    let plain = sorted.map_values(|r: ((ScopeId, ScopeStats), SortValue)| r.0);
    assert forall|i: int| 0 <= i < sorted.len() implies (#[trigger] sorted[i]).1 == SortValue::Text(
        column_text(order.key, sorted[i].0.0@, details),
    ) by {
        assert(keyed.contains(sorted[i]));
        let m = choose|m: int| 0 <= m < keyed.len() && keyed[m] == sorted[i];
        assert(keyed[m] == (rows[m], sort_value(order.key, rows[m], details)));
    }
    let r = sorted_rows(rows, order, details);
    assert forall|i: int, j: int| 0 <= i < j < r.len() implies if order.rev {
        !bytes_before(
            column_text(order.key, (#[trigger] r[i]).0@, details),
            column_text(order.key, (#[trigger] r[j]).0@, details),
        )
    } else {
        !bytes_before(column_text(order.key, r[j].0@, details), column_text(order.key, r[i].0@, details))
    } by {
        if order.rev {
            let n = plain.len();
            assert(r[i] == plain[n - 1 - i] && r[j] == plain[n - 1 - j]);
            assert(plain[n - 1 - i] == sorted[n - 1 - i].0);
            assert(plain[n - 1 - j] == sorted[n - 1 - j].0);
            assert(!value_before(sorted[n - 1 - i].1, sorted[n - 1 - j].1));
        } else {
            assert(r[i] == sorted[i].0 && r[j] == sorted[j].0);
            assert(!value_before(sorted[j].1, sorted[i].1));
        }
    }
}

/// A sort value as the code holds it.
enum SortValueExec {
    Text(Vec<u8>),
    Number(i128),
}

spec fn exec_value(v: SortValueExec) -> SortValue {
    match v {
        SortValueExec::Text(t) => SortValue::Text(t@),
        SortValueExec::Number(n) => SortValue::Number(n as int),
    }
}

/// The bytes of a string.
fn text_bytes(s: &str) -> (r: Vec<u8>)
    ensures
        r@ == encode_utf8(s@),
{
    vstd::slice::slice_to_vec(s.as_bytes())
}

/// Whether `a` sorts before `b`.
fn value_before_exec(a: &SortValueExec, b: &SortValueExec) -> (r: bool)
    ensures
        r == value_before(exec_value(*a), exec_value(*b)),
{
    match (a, b) {
        (SortValueExec::Text(x), SortValueExec::Text(y)) => crate::merge::bytes_before_exec(x.as_slice(), y.as_slice()),
        (SortValueExec::Number(x), SortValueExec::Number(y)) => *x < *y,
        _ => false,
    }
}

impl SortOrder {
    /// What row `row` is sorted by.
    fn value_of(&self, row: &(ScopeId, ScopeStats), scope_infos: &ScopeCollection) -> (r: SortValueExec)
        requires
            self.key == SortKey::MeanSelfTime ==> row.1.count > 0,
        ensures
            exec_value(r) == sort_value(self.key, *row, scope_infos@.0),
    {
        let st = row.1;
        match self.key {
            SortKey::Location => match scope_infos.fetch_by_id(&row.0) {
                Some(d) => {
                    let loc = d.location();
                    let r = SortValueExec::Text(text_bytes(loc.as_str()));
                    proof {
                        let f = |d: ScopeDetailsView| spec_location(d);
                        assert(f(scope_infos@.0[row.0@]) == loc@);
                    }
                    r
                },
                None => SortValueExec::Text(Vec::new()),
            },
            SortKey::FunctionName => match scope_infos.fetch_by_id(&row.0) {
                Some(d) => {
                    let r = SortValueExec::Text(text_bytes(d.function_name.as_str()));
                    proof {
                        crate::scope_details::lemma_details_fields(&**d);
                        let f = |d: ScopeDetailsView| d.function_name;
                        assert(f(scope_infos@.0[row.0@]) == d.function_name@);
                    }
                    r
                },
                None => SortValueExec::Text(Vec::new()),
            },
            SortKey::ScopeName => match scope_infos.fetch_by_id(&row.0) {
                Some(d) => match &d.scope_name {
                    Some(name) => {
                        let r = SortValueExec::Text(text_bytes(name.as_str()));
                        proof {
                            crate::scope_details::lemma_details_fields(&**d);
                            assert(scope_infos@.0[row.0@].scope_name == Some(name@));
                        }
                        r
                    },
                    None => {
                        proof {
                            crate::scope_details::lemma_details_fields(&**d);
                            assert(encode_utf8(Seq::<char>::empty()) =~= Seq::<u8>::empty());
                        }
                        SortValueExec::Text(Vec::new())
                    },
                },
                None => SortValueExec::Text(Vec::new()),
            },
            SortKey::Count => SortValueExec::Number(st.count as i128),
            SortKey::Size => SortValueExec::Number(st.bytes as i128),
            SortKey::TotalSelfTime => SortValueExec::Number(st.total_self_ns as i128),
            SortKey::MeanSelfTime => {
                let total = st.total_self_ns as usize;
                let mean = total / st.count;
                let r = SortValueExec::Number(mean as i128);
                proof {
                    assert(total as int == (st.total_self_ns as usize) as int);
                    assert(mean as int == total as int / st.count as int);
                    assert((mean as i128) as int == mean as int);
                    assert(exec_value(r) == SortValue::Number(mean as int));
                    assert(sort_value(self.key, *row, scope_infos@.0) == SortValue::Number((st.total_self_ns as usize) as int / st.count as int));
                }
                r
            },
            SortKey::MaxSelfTime => SortValueExec::Number(st.max_ns as i128),
        }
    }

    /// Sorts the rows of the table by the column of this order, keeping the order
    /// of rows with equal values, and reverses them for a descending order.
    pub fn sort_scopes(&self, scopes: &mut Vec<(ScopeId, ScopeStats)>, scope_infos: &ScopeCollection)
        requires
            self.key == SortKey::MeanSelfTime ==> forall|i: int|
                0 <= i < old(scopes)@.len() ==> (#[trigger] old(scopes)@[i]).1.count > 0,
        ensures
            final(scopes)@ == sorted_rows(old(scopes)@, *self, scope_infos@.0),
    {
        let ghost rows = scopes@;
        let ghost details = scope_infos@.0;
        let ghost keyed = rows.map_values(|r: (ScopeId, ScopeStats)| (r, sort_value(self.key, r, details)));
        let mut sorted: Vec<((ScopeId, ScopeStats), SortValueExec)> = Vec::new();
        let ghost mut sorted_view: Seq<((ScopeId, ScopeStats), SortValue)> = Seq::empty();
        let mut i: usize = 0;
        while i < scopes.len()
            invariant
                0 <= i <= scopes@.len(),
                *scopes == *old(scopes),
                rows == scopes@,
                keyed == rows.map_values(|r: (ScopeId, ScopeStats)| (r, sort_value(self.key, r, details))),
                details == scope_infos@.0,
                self.key == SortKey::MeanSelfTime ==> forall|k: int|
                    0 <= k < rows.len() ==> (#[trigger] rows[k]).1.count > 0,
                sorted_view == stable_sorted(keyed.take(i as int)),
                sorted@.len() == sorted_view.len(),
                forall|k: int|
                    0 <= k < sorted@.len() ==> (#[trigger] sorted@[k]).0 == sorted_view[k].0 && exec_value(
                        sorted@[k].1,
                    ) == sorted_view[k].1,
            decreases scopes@.len() - i,
        {
            let row = scopes[i];
            let value = self.value_of(&row, scope_infos);
            let ghost vs = sorted_view.map_values(|r: ((ScopeId, ScopeStats), SortValue)| r.1);
            let mut place: usize = 0;
            proof {
                assert(vs.skip(0) =~= vs);
            }
            while place < sorted.len() && !value_before_exec(&value, &sorted[place].1)
                invariant
                    0 <= place <= sorted@.len(),
                    sorted@.len() == sorted_view.len(),
                    vs == sorted_view.map_values(|r: ((ScopeId, ScopeStats), SortValue)| r.1),
                    forall|k: int|
                        0 <= k < sorted@.len() ==> (#[trigger] sorted@[k]).0 == sorted_view[k].0 && exec_value(
                            sorted@[k].1,
                        ) == sorted_view[k].1,
                    insertion_place(vs, exec_value(value)) == place + insertion_place(vs.skip(place as int), exec_value(value)),
                decreases sorted@.len() - place,
            {
                proof {
                    assert(vs.skip(place as int).drop_first() =~= vs.skip(place + 1));
                    assert(vs.skip(place as int)[0] == vs[place as int]);
                }
                place = place + 1;
            }
            proof {
                if place < sorted@.len() {
                    assert(vs.skip(place as int)[0] == vs[place as int]);
                }
                lemma_insertion_place(vs, exec_value(value));
                let t = keyed.take(i + 1);
                assert(t.drop_last() =~= keyed.take(i as int));
                assert(t.last() == (row, exec_value(value)));
            }
            let ghost before = sorted@;
            sorted.insert(place, (row, value));
            proof {
                sorted_view = sorted_view.insert(place as int, (row, exec_value(value)));
                assert forall|k: int| 0 <= k < sorted@.len() implies (#[trigger] sorted@[k]).0
                    == sorted_view[k].0 && exec_value(sorted@[k].1) == sorted_view[k].1 by {
                    if k < place {
                        assert(sorted@[k] == before[k]);
                    } else if k > place {
                        assert(sorted@[k] == before[k - 1]);
                    }
                }
            }
            i = i + 1;
        }
        proof {
            assert(keyed.take(rows.len() as int) =~= keyed);
        }
        let ghost plain = sorted_view.map_values(|r: ((ScopeId, ScopeStats), SortValue)| r.0);
        let mut out: Vec<(ScopeId, ScopeStats)> = Vec::new();
        let mut j: usize = 0;
        while j < sorted.len()
            invariant
                0 <= j <= sorted@.len(),
                sorted@.len() == plain.len(),
                plain == sorted_view.map_values(|r: ((ScopeId, ScopeStats), SortValue)| r.0),
                forall|k: int| 0 <= k < sorted@.len() ==> (#[trigger] sorted@[k]).0 == sorted_view[k].0,
                out@ == plain.take(j as int),
            decreases sorted@.len() - j,
        {
            out.push(sorted[j].0);
            proof {
                assert(plain.take(j + 1) =~= plain.take(j as int).push(plain[j as int]));
            }
            j = j + 1;
        }
        proof {
            assert(plain.take(plain.len() as int) =~= plain);
        }
        if self.rev {
            let mut rev: Vec<(ScopeId, ScopeStats)> = Vec::new();
            while out.len() > 0
                invariant
                    out@.len() <= plain.len(),
                    out@ == plain.take(out@.len() as int),
                    rev@ == plain.skip(out@.len() as int).reverse(),
                decreases out@.len(),
            {
                let ghost n = out@.len();
                let last = out.pop().unwrap();
                rev.push(last);
                proof {
                    assert(plain.take(n - 1) =~= plain.take(n as int).drop_last());
                    assert(plain.skip(n - 1).reverse() =~= plain.skip(n as int).reverse().push(plain[n - 1]));
                }
            }
            proof {
                assert(plain.skip(0) =~= plain);
            }
            *scopes = rev;
        } else {
            *scopes = out;
        }
    }

    /// The arrow that shows the direction of this order.
    pub fn get_arrow(&self) -> (r: &'static str)
        ensures
            r@ == (if self.rev {
                "\u{23f7}"@
            } else {
                "\u{23f6}"@
            }),
    {
        if self.rev {
            "\u{23f7}"
        } else {
            "\u{23f6}"
        }
    }

    /// Flips between ascending and descending order.
    pub fn toggle(&mut self)
        ensures
            final(self).rev == !old(self).rev,
            final(self).key == old(self).key,
    {
        self.rev = !self.rev;
    }
}

} // verus!
