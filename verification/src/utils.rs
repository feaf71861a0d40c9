//! Shortening of function names and file paths for display.
use crate::text::{
    chars_eq, chars_of, ends_with, last_index_of, lemma_rfind, occurs_at, push_all, rfind, rfind_exec,
    split_exec, split_on, string_from_chars,
};
use vstd::prelude::*;

verus! {

/// The profiling macros name their scope after a function `f` that they define two
/// closures deep at the place of the call; this suffix of its type name is useless.
pub const USELESS_SCOPE_NAME_SUFFIX: &'static str = "::{{closure}}::{{closure}}::f";

/// The characters of [`USELESS_SCOPE_NAME_SUFFIX`].
pub open spec fn useless_suffix() -> Seq<char> {
    seq![
        ':', ':', '{', '{', 'c', 'l', 'o', 's', 'u', 'r', 'e', '}', '}', ':', ':', '{', '{', 'c',
        'l', 'o', 's', 'u', 'r', 'e', '}', '}', ':', ':', 'f',
    ]
}

/// `::`
pub open spec fn double_colon() -> Seq<char> {
    seq![':', ':']
}

/// ` as `
pub open spec fn as_keyword() -> Seq<char> {
    seq![' ', 'a', 's', ' ']
}

/// The part of `name` after its last `::`.
pub open spec fn spec_last_part(name: Seq<char>) -> Seq<char> {
    match rfind(name, double_colon()) {
        Some(c) => name.skip(c + 2),
        None => name,
    }
}

/// `<Concrete as Trait>::rest` with the module paths of both types removed, when
/// `name` has a ` as ` before its last `>`.
pub open spec fn spec_trait_method_name(name: Seq<char>) -> Option<Seq<char>> {
    match (rfind(name, seq!['>']), rfind(name, as_keyword())) {
        (Some(end_caret), Some(trait_as)) => if trait_as < end_caret {
            let concrete_name = match rfind(name.take(trait_as), seq!['<']) {
                Some(start_caret) => name.subrange(start_caret + 1, trait_as),
                None => name,
            };
            let trait_name = name.subrange(trait_as + 4, end_caret);
            Some(
                seq!['<'] + spec_last_part(concrete_name) + as_keyword() + spec_last_part(
                    trait_name,
                ) + seq!['>'] + name.skip(end_caret + 1),
            )
        } else {
            None
        },
        _ => None,
    }
}

/// `name` shortened to its last two path segments, with the trait-method form
/// `<a::B as c::D>::f` shortened to `<B as D>::f`.
pub open spec fn spec_shorten_rust_function_name(name: Seq<char>) -> Seq<char> {
    match spec_trait_method_name(name) {
        Some(short) => short,
        None => match rfind(name, double_colon()) {
            Some(colon) => match rfind(name.take(colon), double_colon()) {
                Some(colon2) => name.skip(colon2 + 2),
                None => name,
            },
            None => name,
        },
    }
}

/// A macro-generated name loses its useless suffix and is shortened; any other name
/// is kept as it is.
pub open spec fn spec_clean_function_name(name: Seq<char>) -> Seq<char> {
    if ends_with(name, useless_suffix()) {
        spec_shorten_rust_function_name(name.take(name.len() - useless_suffix().len()))
    } else {
        name
    }
}

/// The part of `name` after its last `::`.
fn last_part(name: &[char]) -> (r: Vec<char>)
    ensures
        r@ == spec_last_part(name@),
{
    let n = name.len();
    let dc = vec![':', ':'];
    proof {
        assert(dc@ =~= double_colon());
    }
    let mut r: Vec<char> = Vec::new();
    match rfind_exec(name, dc.as_slice()) {
        Some(colon) => {
            proof {
                lemma_rfind(name@, double_colon());
            }
            push_all(&mut r, vstd::slice::slice_subrange(name, colon + 2, name.len()));
        },
        None => {
            push_all(&mut r, name);
        },
    }
    proof {
        assert(r@ =~= spec_last_part(name@));
    }
    r
}

fn shorten_chars(name: &[char]) -> (r: Vec<char>)
    ensures
        r@ == spec_shorten_rust_function_name(name@),
{
    let n = name.len();
    let gt = vec!['>'];
    let as_kw = vec![' ', 'a', 's', ' '];
    let lt = vec!['<'];
    let dc = vec![':', ':'];
    proof {
        assert(gt@ =~= seq!['>']);
        assert(as_kw@ =~= as_keyword());
        assert(lt@ =~= seq!['<']);
        assert(dc@ =~= double_colon());
        lemma_rfind(name@, seq!['>']);
        lemma_rfind(name@, as_keyword());
        lemma_rfind(name@, double_colon());
    }
    // look for:  <some::ConcreteType as some::Trait>::function_name
    if let Some(end_caret) = rfind_exec(name, gt.as_slice()) {
        if let Some(trait_as) = rfind_exec(name, as_kw.as_slice()) {
            if trait_as < end_caret {
                proof {
                    assert(name@[end_caret as int] == name@.subrange(
                        end_caret as int,
                        end_caret + 1,
                    )[0]);
                    assert forall|k: int| trait_as <= k < trait_as + 4 implies name@[k]
                        != '>' by {
                        assert(name@[k] == name@.subrange(trait_as as int, trait_as + 4)[k
                            - trait_as]);
                    }
                }
                let before_as = vstd::slice::slice_subrange(name, 0, trait_as);
                proof {
                    lemma_rfind(before_as@, seq!['<']);
                    assert(before_as@ == name@.take(trait_as as int));
                }
                let concrete_name = match rfind_exec(before_as, lt.as_slice()) {
                    Some(start_caret) => vstd::slice::slice_subrange(
                        name,
                        start_caret + 1,
                        trait_as,
                    ),
                    None => name,
                };
                let trait_name = vstd::slice::slice_subrange(name, trait_as + 4, end_caret);
                let mut r: Vec<char> = vec!['<'];
                let concrete_short = last_part(concrete_name);
                push_all(&mut r, concrete_short.as_slice());
                push_all(&mut r, as_kw.as_slice());
                let trait_short = last_part(trait_name);
                push_all(&mut r, trait_short.as_slice());
                r.push('>');
                push_all(&mut r, vstd::slice::slice_subrange(name, end_caret + 1, name.len()));
                proof {
                    assert(r@ =~= spec_shorten_rust_function_name(name@));
                }
                return r;
            }
        }
    }
    let mut r: Vec<char> = Vec::new();
    match rfind_exec(name, dc.as_slice()) {
        Some(colon) => {
            let head = vstd::slice::slice_subrange(name, 0, colon);
            proof {
                lemma_rfind(head@, double_colon());
                assert(head@ == name@.take(colon as int));
            }
            match rfind_exec(head, dc.as_slice()) {
                Some(colon2) => {
                    // "foo::bar::baz::function_name" -> "baz::function_name"
                    push_all(&mut r, vstd::slice::slice_subrange(name, colon2 + 2, name.len()));
                },
                None => {
                    // "foo::function_name" -> "foo::function_name"
                    push_all(&mut r, name);
                },
            }
        },
        None => {
            push_all(&mut r, name);
        },
    }
    proof {
        assert(r@ =~= spec_shorten_rust_function_name(name@));
    }
    r
}

/// Shorten a rust function name by removing the leading parts of module paths.
///
/// `"foo::bar::baz::function_name"` becomes `"baz::function_name"`, and
/// `"<some::ConcreteType as some::Trait>::function_name"` becomes
/// `"<ConcreteType as Trait>::function_name"`.
pub fn shorten_rust_function_name(name: &str) -> (r: String)
    ensures
        r@ == spec_shorten_rust_function_name(name@),
{
    let chars = chars_of(name);
    let short = shorten_chars(chars.as_slice());
    string_from_chars(short.as_slice())
}

/// Removes the suffix that the profiling macros leave on a function name and
/// shortens it; a name without that suffix, such as a user scope name, is kept.
pub fn clean_function_name(name: &str) -> (r: String)
    ensures
        r@ == spec_clean_function_name(name@),
{
    let chars = chars_of(name);
    let suffix = vec![
        ':', ':', '{', '{', 'c', 'l', 'o', 's', 'u', 'r', 'e', '}', '}', ':', ':', '{', '{', 'c',
        'l', 'o', 's', 'u', 'r', 'e', '}', '}', ':', ':', 'f',
    ];
    proof {
        assert(suffix@ =~= useless_suffix());
    }
    if suffix.len() <= chars.len() {
        let cut = chars.len() - suffix.len();
        let tail = vstd::slice::slice_subrange(chars.as_slice(), cut, chars.len());
        if chars_eq(tail, suffix.as_slice()) {
            let head = vstd::slice::slice_subrange(chars.as_slice(), 0, cut);
            proof {
                assert(head@ == name@.take(name@.len() - useless_suffix().len()));
            }
            let short = shorten_chars(head);
            return string_from_chars(short.as_slice());
        }
    }
    // Probably the user registered a user scope name.
    string_from_chars(chars.as_slice())
}

/// `path` with each backslash turned into a slash.
pub open spec fn forward_slashes(path: Seq<char>) -> Seq<char> {
    path.map_values(|c: char| if c == '\\' { '/' } else { c })
}

/// The last index of a component equal to `name`.
pub open spec fn last_component_named(comps: Seq<Seq<char>>, name: Seq<char>) -> Option<int>
    decreases comps.len(),
{
    if comps.len() == 0 {
        None
    } else if comps.last() == name {
        Some(comps.len() - 1)
    } else {
        last_component_named(comps.drop_last(), name)
    }
}

/// A found component index is in range.
proof fn lemma_last_component_named(comps: Seq<Seq<char>>, name: Seq<char>)
    ensures
        last_component_named(comps, name) matches Some(i) ==> 0 <= i < comps.len(),
    decreases comps.len(),
{
    if comps.len() > 0 && comps.last() != name {
        lemma_last_component_named(comps.drop_last(), name);
    }
}

/// `a/b`
pub open spec fn join2(a: Seq<char>, b: Seq<char>) -> Seq<char> {
    a + seq!['/'] + b
}

/// `a/b/c`
pub open spec fn join3(a: Seq<char>, b: Seq<char>, c: Seq<char>) -> Seq<char> {
    a + seq!['/'] + b + seq!['/'] + c
}

/// `a/…/b`
pub open spec fn join_elided(a: Seq<char>, b: Seq<char>) -> Seq<char> {
    a + seq!['/', '…', '/'] + b
}

/// `a/…/b/c`
pub open spec fn join_elided3(a: Seq<char>, b: Seq<char>, c: Seq<char>) -> Seq<char> {
    a + seq!['/', '…', '/'] + b + seq!['/'] + c
}

/// A `file!()` path shortened to its essentials: the crate name, `src` and the file
/// name, eliding what lies between; `lib.rs` keeps its folder; without a `src`
/// folder, the last folder and the file name.
pub open spec fn spec_short_file_name(path: Seq<char>) -> Seq<char> {
    if path.len() == 0 {
        Seq::empty()
    } else {
        let p = forward_slashes(path);
        let c = split_on(p, '/');
        let n = c.len();
        if n <= 2 {
            p
        } else {
            match last_component_named(c, seq!['s', 'r', 'c']) {
                Some(src_idx) => {
                    let crate_index = if src_idx >= 1 {
                        src_idx - 1
                    } else {
                        0
                    };
                    let file_index = n - 1;
                    if crate_index + 2 == file_index {
                        join3(c[crate_index], c[crate_index + 1], c[file_index])
                    } else if c[file_index] == seq!['l', 'i', 'b', '.', 'r', 's'] {
                        let folder_index = file_index - 1;
                        if crate_index + 1 == folder_index {
                            join3(c[crate_index], c[folder_index], c[file_index])
                        } else {
                            join_elided3(c[crate_index], c[folder_index], c[file_index])
                        }
                    } else {
                        join_elided(c[crate_index], c[file_index])
                    }
                },
                None => join2(c[n - 2], c[n - 1]),
            }
        }
    }
}

/// Whether `c` occurs nowhere in `s`.
pub open spec fn lacks(s: Seq<char>, c: char) -> bool {
    forall|i: int| 0 <= i < s.len() ==> s[i] != c
}

/// The pieces of a text that lacks `c` lack it too.
proof fn lemma_split_lacks(s: Seq<char>, sep: char, c: char)
    requires
        lacks(s, c),
    ensures
        forall|k: int| 0 <= k < split_on(s, sep).len() ==> lacks(#[trigger] split_on(s, sep)[k], c),
    decreases s.len(),
{
    match last_index_of(s, sep) {
        None => {},
        Some(i) => {
            if 0 <= i < s.len() {
                lemma_split_lacks(s.take(i), sep, c);
                let t = split_on(s.take(i), sep);
                let u = t.push(s.skip(i + 1));
                assert forall|k: int| 0 <= k < u.len() implies lacks(#[trigger] u[k], c) by {
                    if k < t.len() {
                        assert(u[k] == t[k]);
                    } else {
                        assert(u[k] == s.skip(i + 1));
                    }
                }
            }
        },
    }
}

/// Shortening a path does not depend on whether its folders are separated by
/// backslashes or slashes, and the short name holds no backslash.
pub proof fn law_short_file_name_slashes(path: Seq<char>)
    ensures
        spec_short_file_name(path) == spec_short_file_name(forward_slashes(path)),
        lacks(spec_short_file_name(path), '\\'),
{
    let p = forward_slashes(path);
    assert(forward_slashes(p) =~= p);
    assert(lacks(p, '\\'));
    if path.len() > 0 {
        let c = split_on(p, '/');
        let n = c.len();
        lemma_split_lacks(p, '/', '\\');
        if n > 2 {
            lemma_last_component_named(c, seq!['s', 'r', 'c']);
            let r = spec_short_file_name(path);
            assert(lacks(c[n - 1], '\\'));
            assert(lacks(c[n - 2], '\\'));
            assert(lacks(seq!['/'], '\\'));
            assert(lacks(seq!['/', '…', '/'], '\\'));
            match last_component_named(c, seq!['s', 'r', 'c']) {
                Some(src_idx) => {
                    let crate_index = if src_idx >= 1 {
                        src_idx - 1
                    } else {
                        0
                    };
                    assert(lacks(c[crate_index], '\\'));
                    assert(lacks(c[crate_index + 1], '\\'));
                },
                None => {},
            }
            assert(lacks(r, '\\'));
        }
    }
}

fn forward_slashes_exec(path: &[char]) -> (r: Vec<char>)
    ensures
        r@ == forward_slashes(path@),
{
    let mut r: Vec<char> = Vec::new();
    let mut i: usize = 0;
    while i < path.len()
        invariant
            0 <= i <= path@.len(),
            r@ == forward_slashes(path@.take(i as int)),
        decreases path@.len() - i,
    {
        let c = path[i];
        r.push(
            if c == '\\' {
                '/'
            } else {
                c
            },
        );
        i = i + 1;
        proof {
            assert(r@ =~= forward_slashes(path@.take(i as int)));
        }
    }
    proof {
        assert(path@.take(path@.len() as int) == path@);
    }
    r
}

/// Shortens a long `file!()` path to the essentials, for readability and bandwidth.
pub fn short_file_name(path: &str) -> (r: String)
    ensures
        r@ == spec_short_file_name(path@),
{
    if path.is_empty() {
        return String::new();
    }
    let chars = chars_of(path);
    // Handle Windows
    let p = forward_slashes_exec(chars.as_slice());
    let components = split_exec(p.as_slice(), '/');
    let ghost c = split_on(p@, '/');
    let n = components.len();
    if n <= 2 {
        return string_from_chars(p.as_slice());
    }
    // Look for `src` folder:
    let src = vec!['s', 'r', 'c'];
    proof {
        assert(src@ =~= seq!['s', 'r', 'c']);
    }
    let mut src_idx: Option<usize> = None;
    let mut i: usize = 0;
    while i < n
        invariant
            0 <= i <= n,
            n == components@.len(),
            n == c.len(),
            src@ == seq!['s', 'r', 'c'],
            forall|k: int| 0 <= k < n ==> #[trigger] components@[k]@ == c[k],
            match last_component_named(c.take(i as int), seq!['s', 'r', 'c']) {
                Some(k) => src_idx == Some(k as usize),
                None => src_idx is None,
            },
        decreases n - i,
    {
        proof {
            assert(c.take(i + 1).drop_last() == c.take(i as int));
            lemma_last_component_named(c.take(i as int), seq!['s', 'r', 'c']);
        }
        if chars_eq(components[i].as_slice(), src.as_slice()) {
            src_idx = Some(i);
        }
        i = i + 1;
    }
    proof {
        assert(c.take(n as int) == c);
        lemma_last_component_named(c, seq!['s', 'r', 'c']);
    }
    let mut r: Vec<char> = Vec::new();
    match src_idx {
        Some(src_idx) => {
            // Before `src` comes the name of the crate - let's include that:
            let crate_index = if src_idx >= 1 {
                src_idx - 1
            } else {
                0
            };
            let file_index = n - 1;
            let lib_rs = vec!['l', 'i', 'b', '.', 'r', 's'];
            proof {
                assert(lib_rs@ =~= seq!['l', 'i', 'b', '.', 'r', 's']);
            }
            if crate_index + 2 == file_index {
                // Probably "crate/src/lib.rs" - include it all
                push_all(&mut r, components[crate_index].as_slice());
                r.push('/');
                push_all(&mut r, components[crate_index + 1].as_slice());
                r.push('/');
                push_all(&mut r, components[file_index].as_slice());
            } else if chars_eq(components[file_index].as_slice(), lib_rs.as_slice()) {
                // "lib.rs" is very unhelpful - include folder name:
                let folder_index = file_index - 1;
                push_all(&mut r, components[crate_index].as_slice());
                if crate_index + 1 == folder_index {
                    r.push('/');
                } else {
                    // Elide for brevity:
                    r.push('/');
                    r.push('…');
                    r.push('/');
                }
                push_all(&mut r, components[folder_index].as_slice());
                r.push('/');
                push_all(&mut r, components[file_index].as_slice());
            } else {
                // Elide for brevity:
                push_all(&mut r, components[crate_index].as_slice());
                r.push('/');
                r.push('…');
                r.push('/');
                push_all(&mut r, components[file_index].as_slice());
            }
        },
        None => {
            // No `src` directory found - could be an example (`examples/hello_world.rs`).
            // Include the folder and file name.
            push_all(&mut r, components[n - 2].as_slice());
            r.push('/');
            push_all(&mut r, components[n - 1].as_slice());
        },
    }
    proof {
        assert(r@ =~= spec_short_file_name(path@));
    }
    string_from_chars(r.as_slice())
}

} // verus!
