//! The text of the grid spacing setting (in milliseconds) that the user edits.
use crate::text::{chars_of, string_from_chars};
use vstd::prelude::*;

verus! {

/// The grid spacing when the text does not say one: one millisecond.
pub const DEFAULT_SPACING_MS: i64 = 1;

/// The characters of `s` that a spacing may hold: the ASCII digits, and the first
/// `.` unless `dot_seen`.
pub open spec fn spacing_chars(s: Seq<char>, dot_seen: bool) -> Seq<char>
    decreases s.len(),
{
    if s.len() == 0 {
        Seq::empty()
    } else if s[0] == '.' && !dot_seen {
        seq!['.'] + spacing_chars(s.drop_first(), true)
    } else if '0' <= s[0] <= '9' {
        seq![s[0]] + spacing_chars(s.drop_first(), dot_seen)
    } else {
        spacing_chars(s.drop_first(), dot_seen)
    }
}

/// The grid spacing setting, as the text the user typed.
#[derive(Debug)]
pub struct GridSpacing {
    text: String,
}

impl Default for GridSpacing {
    fn default() -> (r: Self)
        ensures
            r.spec_text() == seq!['1'],
    {
        GridSpacing::reset_text()
    }
}

impl GridSpacing {
    /// The text of the default spacing.
    fn reset_text() -> (r: Self)
        ensures
            r.text@ == seq!['1'],
    {
        let v: Vec<char> = vec!['1'];
        let text = string_from_chars(v.as_slice());
        proof {
            assert(v@ =~= seq!['1']);
        }
        GridSpacing { text }
    }

    /// The text as typed.
    pub closed spec fn spec_text(&self) -> Seq<char> {
        self.text@
    }

    /// The text as typed.
    pub fn text(&self) -> (r: &str)
        ensures
            r@ == self.spec_text(),
    {
        self.text.as_str()
    }

    /// Sets the text, as typed.
    pub fn set_text(&mut self, text: &str)
        ensures
            final(self).spec_text() == text@,
    {
        self.text = string_from_chars(chars_of(text).as_slice());
    }

    /// Only allows 0-9 and a single `.` in the text.
    pub fn keep_spacing_chars(&mut self)
        ensures
            final(self).spec_text() == spacing_chars(old(self).spec_text(), false),
    {
        let chars = chars_of(self.text.as_str());
        let ghost s = chars@;
        let mut kept: Vec<char> = Vec::new();
        let mut dot_seen = false;
        let mut i: usize = 0;
        proof {
            assert(s.skip(0) =~= s);
            assert(kept@ + spacing_chars(s.skip(0), dot_seen) =~= spacing_chars(s, false));
        }
        while i < chars.len()
            invariant
                s == chars@,
                0 <= i <= s.len(),
                kept@ + spacing_chars(s.skip(i as int), dot_seen) == spacing_chars(s, false),
            decreases s.len() - i,
        {
            let c = chars[i];
            proof {
                assert(s.skip(i as int)[0] == c);
                assert(s.skip(i as int).drop_first() =~= s.skip(i + 1));
            }
            if c == '.' && !dot_seen {
                dot_seen = true;
                kept.push(c);
            } else if '0' <= c && c <= '9' {
                kept.push(c);
            }
            proof {
                assert(kept@ + spacing_chars(s.skip(i + 1), dot_seen) =~= spacing_chars(s, false));
            }
            i = i + 1;
        }
        proof {
            assert(s.skip(s.len() as int) =~= Seq::<char>::empty());
            assert(kept@ + Seq::<char>::empty() =~= kept@);
        }
        self.text = string_from_chars(kept.as_slice());
    }

    /// Back to the default spacing.
    pub fn reset(&mut self)
        ensures
            final(self).spec_text() == seq!['1'],
    {
        *self = GridSpacing::reset_text();
    }
}

} // verus!
