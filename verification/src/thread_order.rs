//! The order in which threads are listed: by start time or by a natural,
//! case-insensitive order of their names, optionally reversed.
use vstd::prelude::*;
use crate::thread_profiler::ThreadInfo;

verus! {

/// What `natord::compare_ignore_case` returns for two names, as -1 (less), 0
/// (equal) or 1 (greater).
pub uninterp spec fn natural_order(a: Seq<char>, b: Seq<char>) -> i8;

/// `natord::compare_ignore_case`: compares two names case-insensitively, skipping
/// whitespace and comparing runs of decimal digits by their value. Its result is
/// named by `natural_order`; the rules of the comparison are not restated here.
#[verifier::external_body]
fn compare_names(a: &str, b: &str) -> (r: i8)
    ensures
        r == natural_order(a@, b@),
        -1 <= r <= 1,
{
    match natord::compare_ignore_case(a, b) {
        std::cmp::Ordering::Less => -1,
        std::cmp::Ordering::Equal => 0,
        std::cmp::Ordering::Greater => 1,
    }
}

/// What threads are listed by.
#[derive(Clone, Copy, Debug, PartialEq, Eq, Structural)]
pub enum SortBy {
    Time,
    Name,
}

/// How threads are listed.
#[derive(Clone, Copy, Debug, PartialEq, Eq, Structural)]
pub struct Sorting {
    pub sort_by: SortBy,
    pub reversed: bool,
}

impl Default for Sorting {
    fn default() -> (r: Self)
        ensures
            r == (Sorting { sort_by: SortBy::Time, reversed: false }),
    {
        Sorting { sort_by: SortBy::Time, reversed: false }
    }
}

/// The view of a thread: its start time and its name.
pub type ThreadView = (Option<i64>, Seq<char>);

/// Whether start time `a` comes before `b`: no time before any time, and times
/// by their value.
pub open spec fn time_before(a: Option<i64>, b: Option<i64>) -> bool {
    match (a, b) {
        (None, Some(_)) => true,
        (Some(x), Some(y)) => x < y,
        _ => false,
    }
}

/// Whether thread `a` is listed before thread `b` when listing by `by`.
pub open spec fn thread_before(by: SortBy, a: ThreadView, b: ThreadView) -> bool {
    match by {
        SortBy::Time => time_before(a.0, b.0),
        SortBy::Name => natural_order(a.1, b.1) == -1,
    }
}

/// Where `t` goes among the listed threads `ts`: before the first one that it comes
/// before, or at the end.
pub open spec fn thread_place(by: SortBy, ts: Seq<ThreadView>, t: ThreadView) -> int
    decreases ts.len(),
{
    if ts.len() == 0 {
        0
    } else if thread_before(by, t, ts[0]) {
        0
    } else {
        1 + thread_place(by, ts.drop_first(), t)
    }
}

/// `ts` sorted stably by `by`: each thread in turn is put after the threads before
/// it that it does not come before.
pub open spec fn threads_sorted_by(by: SortBy, ts: Seq<ThreadView>) -> Seq<ThreadView>
    decreases ts.len(),
{
    if ts.len() == 0 {
        Seq::empty()
    } else {
        let sorted = threads_sorted_by(by, ts.drop_last());
        sorted.insert(thread_place(by, sorted, ts.last()), ts.last())
    }
}

/// The threads `ts` as `sorting` lists them.
pub open spec fn threads_listed(sorting: Sorting, ts: Seq<ThreadView>) -> Seq<ThreadView> {
    let sorted = threads_sorted_by(sorting.sort_by, ts);
    if sorting.reversed {
        sorted.reverse()
    } else {
        sorted
    }
}

/// The views of `ts`.
pub open spec fn thread_views(ts: Seq<ThreadInfo>) -> Seq<ThreadView> {
    ts.map_values(|t: ThreadInfo| t@)
}

proof fn lemma_thread_place(by: SortBy, ts: Seq<ThreadView>, t: ThreadView)
    ensures
        0 <= thread_place(by, ts, t) <= ts.len(),
    decreases ts.len(),
{
    if ts.len() > 0 {
        lemma_thread_place(by, ts.drop_first(), t);
    }
}

proof fn lemma_sorted_keeps_threads(by: SortBy, ts: Seq<ThreadView>)
    ensures
        threads_sorted_by(by, ts).to_multiset() =~= ts.to_multiset(),
    decreases ts.len(),
{
    if ts.len() > 0 {
        let rest = ts.drop_last();
        lemma_sorted_keeps_threads(by, rest);
        let sorted = threads_sorted_by(by, rest);
        lemma_thread_place(by, sorted, ts.last());
        vstd::seq_lib::to_multiset_insert(sorted, thread_place(by, sorted, ts.last()), ts.last());
        assert(rest.push(ts.last()) =~= ts);
        vstd::seq_lib::to_multiset_build(rest, ts.last());
    } else {
        assert(threads_sorted_by(by, ts) =~= ts);
    }
}

/// Listing threads neither drops nor adds a thread: the listed threads are the given
/// threads, each as often as it was given.
pub proof fn law_listing_keeps_threads(sorting: Sorting, ts: Seq<ThreadView>)
    ensures
        threads_listed(sorting, ts).to_multiset() =~= ts.to_multiset(),
{
    lemma_sorted_keeps_threads(sorting.sort_by, ts);
    threads_sorted_by(sorting.sort_by, ts).lemma_reverse_to_multiset();
}

/// Start time `a` is no later than `b`: no time comes first, then times by value.
pub open spec fn starts_no_later(a: Option<i64>, b: Option<i64>) -> bool {
    match (a, b) {
        (None, _) => true,
        (Some(_), None) => false,
        (Some(x), Some(y)) => x <= y,
    }
}

proof fn lemma_thread_place_props(by: SortBy, ts: Seq<ThreadView>, t: ThreadView)
    ensures
        forall|m: int| 0 <= m < thread_place(by, ts, t) ==> !thread_before(by, t, #[trigger] ts[m]),
        thread_place(by, ts, t) < ts.len() ==> thread_before(by, t, ts[thread_place(by, ts, t)]),
    decreases ts.len(),
{
    if ts.len() > 0 && !thread_before(by, t, ts[0]) {
        let r = ts.drop_first();
        lemma_thread_place_props(by, r, t);
        lemma_thread_place(by, r, t);
        assert forall|m: int| 0 <= m < thread_place(by, ts, t) implies !thread_before(by, t, #[trigger] ts[m]) by {
            if m > 0 {
                assert(ts[m] == r[m - 1]);
            }
        }
        if thread_place(by, ts, t) < ts.len() {
            assert(ts[thread_place(by, ts, t)] == r[thread_place(by, r, t)]);
        }
    }
}

proof fn lemma_sorted_by_time(ts: Seq<ThreadView>)
    ensures
        threads_sorted_by(SortBy::Time, ts).len() == ts.len(),
        forall|i: int, j: int|
            0 <= i < j < threads_sorted_by(SortBy::Time, ts).len() ==> starts_no_later(
                (#[trigger] threads_sorted_by(SortBy::Time, ts)[i]).0,
                (#[trigger] threads_sorted_by(SortBy::Time, ts)[j]).0,
            ),
    decreases ts.len(),
{
    if ts.len() > 0 {
        let rest = ts.drop_last();
        lemma_sorted_by_time(rest);
        let sorted = threads_sorted_by(SortBy::Time, rest);
        let x = ts.last();
        let p = thread_place(SortBy::Time, sorted, x);
        lemma_thread_place(SortBy::Time, sorted, x);
        lemma_thread_place_props(SortBy::Time, sorted, x);
        let n = sorted.insert(p, x);
        assert(threads_sorted_by(SortBy::Time, ts) == n);
        assert forall|i: int, j: int| 0 <= i < j < n.len() implies starts_no_later(
            (#[trigger] n[i]).0,
            (#[trigger] n[j]).0,
        ) by {
            if j < p {
                assert(n[i] == sorted[i] && n[j] == sorted[j]);
            } else if j == p {
                assert(n[i] == sorted[i]);
            } else if i == p {
                assert(n[j] == sorted[j - 1]);
                if j - 1 > p {
                    assert(starts_no_later(sorted[p].0, sorted[j - 1].0));
                }
            } else if i < p {
                assert(n[i] == sorted[i] && n[j] == sorted[j - 1]);
            } else {
                assert(n[i] == sorted[i - 1] && n[j] == sorted[j - 1]);
            }
        }
    }
}

/// Listing threads by time lists them by start time, no time first: ascending, or
/// descending when reversed.
pub proof fn law_listing_by_time(reversed: bool, ts: Seq<ThreadView>)
    ensures
        ({
            let r = threads_listed(Sorting { sort_by: SortBy::Time, reversed }, ts);
            &&& r.len() == ts.len()
            &&& forall|i: int, j: int|
                0 <= i < j < r.len() ==> if reversed {
                    starts_no_later((#[trigger] r[j]).0, (#[trigger] r[i]).0)
                } else {
                    starts_no_later(r[i].0, r[j].0)
                }
        }),
{
    lemma_sorted_by_time(ts);
    let sorted = threads_sorted_by(SortBy::Time, ts);
    let r = threads_listed(Sorting { sort_by: SortBy::Time, reversed }, ts);
    if reversed {
        assert forall|i: int, j: int| 0 <= i < j < r.len() implies starts_no_later(
            (#[trigger] r[j]).0,
            (#[trigger] r[i]).0,
        ) by {
            let n = sorted.len();
            assert(r[i] == sorted[n - 1 - i] && r[j] == sorted[n - 1 - j]);
        }
    }
}

/// Whether thread `a` is listed before thread `b` when listing by `by`.
fn thread_before_exec(by: SortBy, a: &ThreadInfo, b: &ThreadInfo) -> (r: bool)
    ensures
        r == thread_before(by, a@, b@),
{
    match by {
        SortBy::Time => match (a.start_time_ns, b.start_time_ns) {
            (None, Some(_)) => true,
            (Some(x), Some(y)) => x < y,
            _ => false,
        },
        SortBy::Name => compare_names(a.name.as_str(), b.name.as_str()) == -1,
    }
}

impl Sorting {
    /// The threads in the order of this sorting: stable for threads that compare
    /// equal, and reversed when `reversed` is set.
    pub fn sort(self, threads: Vec<ThreadInfo>) -> (r: Vec<ThreadInfo>)
        ensures
            thread_views(r@) == threads_listed(self, thread_views(threads@)),
    {
        let by = self.sort_by;
        let ghost views = thread_views(threads@);
        let mut sorted: Vec<ThreadInfo> = Vec::new();
        let mut i: usize = 0;
        while i < threads.len()
            invariant
                0 <= i <= threads@.len(),
                views == thread_views(threads@),
                by == self.sort_by,
                thread_views(sorted@) == threads_sorted_by(by, views.take(i as int)),
            decreases threads@.len() - i,
        {
            let t = threads[i].clone();
            let ghost sv = thread_views(sorted@);
            let mut place: usize = 0;
            proof {
                assert(sv.skip(0) =~= sv);
            }
            while place < sorted.len() && !thread_before_exec(by, &t, &sorted[place])
                invariant
                    0 <= place <= sorted@.len(),
                    sv == thread_views(sorted@),
                    thread_place(by, sv, t@) == place + thread_place(by, sv.skip(place as int), t@),
                decreases sorted@.len() - place,
            {
                proof {
                    assert(sv.skip(place as int).drop_first() =~= sv.skip(place + 1));
                    assert(sv.skip(place as int)[0] == sv[place as int]);
                }
                place = place + 1;
            }
            proof {
                if place < sorted@.len() {
                    assert(sv.skip(place as int)[0] == sv[place as int]);
                }
                lemma_thread_place(by, sv, t@);
                let tk = views.take(i + 1);
                assert(tk.drop_last() =~= views.take(i as int));
                assert(tk.last() == t@);
            }
            sorted.insert(place, t);
            proof {
                assert(thread_views(sorted@) =~= sv.insert(place as int, t@));
            }
            i = i + 1;
        }
        proof {
            assert(views.take(threads@.len() as int) =~= views);
        }
        if self.reversed {
            let ghost plain = sorted@;
            let mut rev: Vec<ThreadInfo> = Vec::new();
            while sorted.len() > 0
                invariant
                    sorted@.len() <= plain.len(),
                    sorted@ == plain.take(sorted@.len() as int),
                    rev@ == plain.skip(sorted@.len() as int).reverse(),
                decreases sorted@.len(),
            {
                let ghost n = sorted@.len();
                let last = sorted.pop().unwrap();
                rev.push(last);
                proof {
                    assert(plain.take(n - 1) =~= plain.take(n as int).drop_last());
                    assert(plain.skip(n - 1).reverse() =~= plain.skip(n as int).reverse().push(plain[n - 1]));
                }
            }
            proof {
                assert(plain.skip(0) =~= plain);
                assert(thread_views(rev@) =~= thread_views(plain).reverse());
            }
            rev
        } else {
            sorted
        }
    }
}

} // verus!
