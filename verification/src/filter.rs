//! A case-insensitive text filter on scope names.
use vstd::prelude::*;
use crate::text::{chars_of, occurs_at, occurs_at_exec};

verus! {

broadcast use vstd::string::group_string_axioms;

/// What `str::to_lowercase` makes of the characters `s`.
pub uninterp spec fn lowercase(s: Seq<char>) -> Seq<char>;

/// `str::to_lowercase`: the lowercase equivalent of `s`, as a new string. Its result
/// is named by `lowercase`; the Unicode rules it follows are not restated here.
#[verifier::external_body]
fn to_lowercase(s: &str) -> (r: String)
    ensures
        r@ == lowercase(s@),
{
    s.to_lowercase()
}

/// Whether `pat` occurs somewhere in `s`.
pub open spec fn contains_text(s: Seq<char>, pat: Seq<char>) -> bool {
    exists|i: int| #[trigger] occurs_at(s, pat, i)
}

/// Whether `pat` occurs somewhere in `s` (`str::contains` with a string pattern).
pub fn contains_chars(s: &[char], pat: &[char]) -> (r: bool)
    ensures
        r == contains_text(s@, pat@),
{
    if pat.len() > s.len() {
        return false;
    }
    if pat.len() == 0 {
        proof {
            assert(s@.subrange(0, 0) =~= pat@);
            assert(occurs_at(s@, pat@, 0));
        }
        return true;
    }
    let last = s.len() - pat.len();
    let mut i: usize = 0;
    while i <= last
        invariant
            last == s@.len() - pat@.len(),
            pat@.len() >= 1,
            last < s.len(),
            0 <= i <= last + 1,
            forall|k: int| 0 <= k < i ==> !occurs_at(s@, pat@, k),
        decreases last + 1 - i,
    {
        if occurs_at_exec(s, pat, i) {
            return true;
        }
        i = i + 1;
    }
    false
}

/// A filter on scope names; the empty filter lets everything through.
#[derive(Clone, Debug)]
pub struct Filter {
    filter: String,
}

impl View for Filter {
    type V = Seq<char>;

    closed spec fn view(&self) -> Seq<char> {
        self.filter@
    }
}

impl Default for Filter {
    fn default() -> (r: Self)
        ensures
            r@ == Seq::<char>::empty(),
    {
        Filter { filter: String::new() }
    }
}

impl Filter {
    /// If true, show everything.
    pub fn is_empty(&self) -> (r: bool)
        ensures
            r == (self@.len() == 0),
    {
        self.filter.as_str().is_empty()
    }

    /// Whether the scope named `id` passes: always for the empty filter, else when
    /// the lowercase of `id` contains the filter text.
    pub fn includes(&self, id: &str) -> (r: bool)
        ensures
            r == (self@.len() == 0 || contains_text(lowercase(id@), self@)),
    {
        if self.filter.as_str().is_empty() {
            true
        } else {
            let lower = to_lowercase(id);
            let hay = chars_of(lower.as_str());
            let pat = chars_of(self.filter.as_str());
            contains_chars(hay.as_slice(), pat.as_slice())
        }
    }

    /// Replaces the filter text.
    pub fn set_filter(&mut self, filter: String)
        ensures
            final(self)@ == filter@,
    {
        self.filter = filter;
    }
}

} // verus!
