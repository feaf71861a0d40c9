//! Details about the profile scopes (names, source location) and a collection of
//! them, keyed both by scope id and by scope name.
use crate::assoc::{
    assoc_map, keys_unique, lemma_assoc_map_dom, lemma_assoc_map_index, lemma_assoc_map_update,
    lemma_assoc_push_unique,
};
use crate::utils::{clean_function_name, short_file_name, spec_clean_function_name, spec_short_file_name};
use crate::{arc_clone, ScopeId};
use std::sync::Arc;
use vstd::prelude::*;

verus! {

/// What identifies a scope: `(true, name)` for a function scope, `(false, name)` for
/// a named scope.
pub type ScopeTypeView = (bool, Seq<char>);

/// Scopes are identified by user-provided name while functions are identified by the
/// function name.
#[derive(Debug, Clone, Hash, PartialOrd, Ord)]
pub enum ScopeType {
    /// The scope is a function profile scope identified by the name of this function.
    Function(String),
    /// The scope is a profile scope inside a function identified by the name of this scope.
    Scope(String),
}

impl View for ScopeType {
    type V = ScopeTypeView;

    open spec fn view(&self) -> ScopeTypeView {
        match self {
            ScopeType::Function(name) => (true, name@),
            ScopeType::Scope(name) => (false, name@),
        }
    }
}

impl PartialEq for ScopeType {
    fn eq(&self, other: &Self) -> (r: bool) {
        match (self, other) {
            (ScopeType::Function(a), ScopeType::Function(b)) => a.eq(b),
            (ScopeType::Scope(a), ScopeType::Scope(b)) => a.eq(b),
            _ => false,
        }
    }
}

impl vstd::std_specs::cmp::PartialEqSpecImpl for ScopeType {
    open spec fn obeys_eq_spec() -> bool {
        true
    }

    open spec fn eq_spec(&self, other: &ScopeType) -> bool {
        self@ == other@
    }
}

impl Eq for ScopeType {}

impl ScopeType {
    /// The name that identifies the scope.
    pub fn name(&self) -> (r: &String)
        ensures
            r@ == self@.1,
    {
        match self {
            ScopeType::Function(name) => name,
            ScopeType::Scope(name) => name,
        }
    }

    /// A function scope identified by the name of the function.
    pub fn function_scope(function_name: &str) -> (r: Self)
        ensures
            r@ == (true, function_name@),
    {
        ScopeType::Function(function_name.to_owned())
    }

    /// A scope identified by its own name.
    pub fn scope(scope_name: &str) -> (r: Self)
        ensures
            r@ == (false, scope_name@),
    {
        ScopeType::Scope(scope_name.to_owned())
    }
}

/// The contents of a [`ScopeDetails`].
pub struct ScopeDetailsView {
    pub scope_id: Option<u32>,
    pub scope_name: Option<Seq<char>>,
    pub function_name: Seq<char>,
    pub file_path: Seq<char>,
    pub line_nr: u32,
}

/// Detailed information about a scope.
#[derive(Debug, PartialEq, Eq, Hash, PartialOrd, Ord)]
pub struct ScopeDetails {
    /// Unique scope identifier.
    /// Always initialized once registered.
    /// It is `None` when an external library has yet to register this scope.
    pub(crate) scope_id: Option<ScopeId>,
    /// A name for a profile scope, a function profile scope does not have a custom provided name.
    pub scope_name: Option<String>,
    /// The function name of the function in which this scope is contained.
    /// The name might be slightly modified to represent a short descriptive representation.
    pub function_name: String,
    /// The file path in which this scope is contained.
    /// The path might be slightly modified to represent a short descriptive representation.
    pub file_path: String,
    /// The exact line number at which this scope is located.
    pub line_nr: u32,
}

impl View for ScopeDetails {
    type V = ScopeDetailsView;

    closed spec fn view(&self) -> ScopeDetailsView {
        ScopeDetailsView {
            scope_id: match self.scope_id {
                Some(id) => Some(id@),
                None => None,
            },
            scope_name: match self.scope_name {
                Some(n) => Some(n@),
                None => None,
            },
            function_name: self.function_name@,
            file_path: self.file_path@,
            line_nr: self.line_nr,
        }
    }
}

/// The view of scope details shows their public fields as they are.
pub(crate) proof fn lemma_details_fields(d: &ScopeDetails)
    ensures
        d@.function_name == d.function_name@,
        d@.file_path == d.file_path@,
        d@.line_nr == d.line_nr,
        d@.scope_name == match d.scope_name {
            Some(n) => Some(n@),
            None => None::<Seq<char>>,
        },
{
}

/// The scope type of scope details: its own name if it has one, else its function name.
pub open spec fn spec_scope_type(d: ScopeDetailsView) -> ScopeTypeView {
    match d.scope_name {
        Some(name) => (false, name),
        None => (true, d.function_name),
    }
}

/// The details with a consistent, shortened function name and file path.
pub open spec fn spec_readable(d: ScopeDetailsView) -> ScopeDetailsView {
    ScopeDetailsView {
        function_name: spec_clean_function_name(d.function_name),
        file_path: spec_short_file_name(d.file_path),
        ..d
    }
}

/// The decimal digits of `n`.
pub open spec fn decimal(n: nat) -> Seq<char>
    decreases n,
{
    if n < 10 {
        seq![(48 + n) as char]
    } else {
        decimal(n / 10).push((48 + n % 10) as char)
    }
}

/// The location `file:line`, or just the file when the line is unknown (zero).
pub open spec fn spec_location(d: ScopeDetailsView) -> Seq<char> {
    if d.line_nr != 0 {
        d.file_path + seq![':'] + decimal(d.line_nr as nat)
    } else {
        d.file_path
    }
}

/// The decimal representation of `n` (`u32`'s `Display`, through `to_string`).
#[verifier::external_body]
fn u32_to_string(n: u32) -> (r: String)
    ensures
        r@ == decimal(n as nat),
{
    n.to_string()
}

fn clone_string(s: &String) -> (r: String)
    ensures
        r@ == s@,
{
    s.clone()
}

fn clone_opt_string(s: &Option<String>) -> (r: Option<String>)
    ensures
        match (r, *s) {
            (Some(a), Some(b)) => a@ == b@,
            (None, None) => true,
            _ => false,
        },
{
    match s {
        Some(x) => Some(clone_string(x)),
        None => None,
    }
}

impl Clone for ScopeDetails {
    fn clone(&self) -> (r: Self)
        ensures
            r@ == self@,
    {
        ScopeDetails {
            scope_id: self.scope_id,
            scope_name: clone_opt_string(&self.scope_name),
            function_name: clone_string(&self.function_name),
            file_path: clone_string(&self.file_path),
            line_nr: self.line_nr,
        }
    }
}

impl Default for ScopeDetails {
    fn default() -> (r: Self)
        ensures
            r@ == (ScopeDetailsView {
                scope_id: None,
                scope_name: None,
                function_name: Seq::empty(),
                file_path: Seq::empty(),
                line_nr: 0,
            }),
    {
        ScopeDetails {
            scope_id: None,
            scope_name: None,
            function_name: String::new(),
            file_path: String::new(),
            line_nr: 0,
        }
    }
}

impl ScopeDetails {
    /// Creates a new user scope with a unique name.
    pub fn from_scope_name(scope_name: &str) -> (r: Self)
        ensures
            r@ == (ScopeDetailsView {
                scope_id: None,
                scope_name: Some(scope_name@),
                function_name: Seq::empty(),
                file_path: Seq::empty(),
                line_nr: 0,
            }),
    {
        ScopeDetails {
            scope_id: None,
            scope_name: Some(scope_name.to_owned()),
            function_name: String::new(),
            file_path: String::new(),
            line_nr: 0,
        }
    }

    /// Creates a new user scope with a unique id allocated by puffin.
    pub(crate) fn from_scope_id(scope_id: ScopeId) -> (r: Self)
        ensures
            r@ == (ScopeDetailsView {
                scope_id: Some(scope_id@),
                scope_name: None,
                function_name: Seq::empty(),
                file_path: Seq::empty(),
                line_nr: 0,
            }),
    {
        ScopeDetails {
            scope_id: Some(scope_id),
            scope_name: None,
            function_name: String::new(),
            file_path: String::new(),
            line_nr: 0,
        }
    }

    /// The scope id, once registered.
    pub fn scope_id(&self) -> (r: Option<ScopeId>)
        ensures
            match r {
                Some(id) => self@.scope_id == Some(id@),
                None => self@.scope_id is None,
            },
    {
        self.scope_id
    }

    /// Sets the function name.
    pub fn with_function_name(self, name: &str) -> (r: Self)
        ensures
            r@ == (ScopeDetailsView { function_name: name@, ..self@ }),
    {
        let mut d = self;
        d.function_name = name.to_owned();
        d
    }

    /// Sets the file path.
    pub fn with_file(self, file: &str) -> (r: Self)
        ensures
            r@ == (ScopeDetailsView { file_path: file@, ..self@ }),
    {
        let mut d = self;
        d.file_path = file.to_owned();
        d
    }

    /// Sets the line number.
    pub fn with_line_nr(self, line_nr: u32) -> (r: Self)
        ensures
            r@ == (ScopeDetailsView { line_nr, ..self@ }),
    {
        let mut d = self;
        d.line_nr = line_nr;
        d
    }

    /// Sets the scope id. Ids are handed out by the profiler; this is for scopes
    /// whose ids are known already.
    pub fn with_scope_id(self, scope_id: ScopeId) -> (r: Self)
        ensures
            r@ == (ScopeDetailsView { scope_id: Some(scope_id@), ..self@ }),
    {
        let mut d = self;
        d.scope_id = Some(scope_id);
        d
    }

    /// Sets the scope name; users give it in the constructor instead.
    pub(crate) fn with_scope_name(self, scope_name: &str) -> (r: Self)
        ensures
            r@ == (ScopeDetailsView { scope_name: Some(scope_name@), ..self@ }),
    {
        let mut d = self;
        d.scope_name = Some(scope_name.to_owned());
        d
    }

    /// What identifies this scope: its name, or for a function scope its function name.
    pub fn scope_type(&self) -> (r: ScopeType)
        ensures
            r@ == spec_scope_type(self@),
    {
        match &self.scope_name {
            Some(name) => ScopeType::Scope(clone_string(name)),
            None => ScopeType::Function(clone_string(&self.function_name)),
        }
    }

    /// Returns the exact location of the profile scope formatted as `file:line_nr`.
    pub fn location(&self) -> (r: String)
        ensures
            r@ == spec_location(self@),
    {
        let mut r = clone_string(&self.file_path);
        if self.line_nr != 0 {
            r.append(":");
            let line = u32_to_string(self.line_nr);
            r.append(line.as_str());
            proof {
                assert(r@ == self@.file_path + seq![':'] + decimal(self.line_nr as nat)) by {
                    reveal_strlit(":");
                }
            }
        }
        r
    }

    /// Turns the scope details into a more readable version: consistent and
    /// shortened file path and function name across platforms.
    pub(crate) fn into_readable(self) -> (r: Self)
        ensures
            r@ == spec_readable(self@),
    {
        ScopeDetails {
            scope_id: self.scope_id,
            function_name: clean_function_name(self.function_name.as_str()),
            file_path: short_file_name(self.file_path.as_str()),
            scope_name: self.scope_name,
            line_nr: self.line_nr,
        }
    }
}

/// The collection `c` (details by id, id by type) after inserting `d`: the type
/// now maps to the id of `d`, and details already filed under that id stay.
pub open spec fn spec_insert(
    c: (Map<u32, ScopeDetailsView>, Map<ScopeTypeView, u32>),
    d: ScopeDetailsView,
) -> (Map<u32, ScopeDetailsView>, Map<ScopeTypeView, u32>) {
    let id = d.scope_id->0;
    (
        if c.0.contains_key(id) {
            c.0
        } else {
            c.0.insert(id, spec_readable(d))
        },
        c.1.insert(spec_scope_type(d), id),
    )
}

/// A collection (details by id, id by type) is consistent: details are filed under
/// their own id, and every type maps to an id with filed details.
pub open spec fn collection_consistent(c: (Map<u32, ScopeDetailsView>, Map<ScopeTypeView, u32>)) -> bool {
    &&& forall|id: u32| #[trigger] c.0.contains_key(id) ==> c.0[id].scope_id == Some(id)
    &&& forall|t: ScopeTypeView| #[trigger] c.1.contains_key(t) ==> c.0.contains_key(c.1[t])
}

/// The empty collection is consistent.
pub proof fn law_empty_collection_consistent()
    ensures
        collection_consistent((Map::<u32, ScopeDetailsView>::empty(), Map::<ScopeTypeView, u32>::empty())),
{
}

/// Inserting details that carry an id keeps a collection consistent; so every
/// collection reached from the empty one by inserts is consistent.
pub proof fn law_insert_keeps_consistent(
    c: (Map<u32, ScopeDetailsView>, Map<ScopeTypeView, u32>),
    d: ScopeDetailsView,
)
    requires
        collection_consistent(c),
        d.scope_id is Some,
    ensures
        collection_consistent(spec_insert(c, d)),
{
    let id = d.scope_id->0;
    let r = spec_insert(c, d);
    assert forall|i: u32| #[trigger] r.0.contains_key(i) implies r.0[i].scope_id == Some(i) by {
        if !c.0.contains_key(id) && i == id {
            assert(spec_readable(d).scope_id == d.scope_id);
        }
    }
}

/// The id under which scope details are filed.
pub open spec fn details_key(d: Arc<ScopeDetails>) -> u32 {
    (*d)@.scope_id->0
}

/// The scope details as id/details pairs.
pub open spec fn id_pairs(s: Seq<Arc<ScopeDetails>>) -> Seq<(u32, ScopeDetailsView)> {
    s.map_values(|d: Arc<ScopeDetails>| (details_key(d), (*d)@))
}

/// The scope types and ids as pairs.
pub open spec fn type_pairs(s: Seq<(ScopeType, ScopeId)>) -> Seq<(ScopeTypeView, u32)> {
    s.map_values(|p: (ScopeType, ScopeId)| (p.0@, p.1@))
}

/// A collection of scope details containing more information about a recorded profile scope.
pub struct ScopeCollection {
    scope_id_to_details: Vec<Arc<ScopeDetails>>,
    type_to_scope_id: Vec<(ScopeType, ScopeId)>,
}

impl View for ScopeCollection {
    /// Details by scope id, and scope id by scope type.
    type V = (Map<u32, ScopeDetailsView>, Map<ScopeTypeView, u32>);

    closed spec fn view(&self) -> (Map<u32, ScopeDetailsView>, Map<ScopeTypeView, u32>) {
        (assoc_map(id_pairs(self.scope_id_to_details@)), assoc_map(type_pairs(self.type_to_scope_id@)))
    }
}

impl Default for ScopeCollection {
    fn default() -> (r: Self)
        ensures
            r@.0 == Map::<u32, ScopeDetailsView>::empty(),
            r@.1 == Map::<ScopeTypeView, u32>::empty(),
    {
        let r = ScopeCollection { scope_id_to_details: Vec::new(), type_to_scope_id: Vec::new() };
        proof {
            assert(id_pairs(r.scope_id_to_details@) =~= Seq::empty());
            assert(type_pairs(r.type_to_scope_id@) =~= Seq::empty());
        }
        r
    }
}

impl Clone for ScopeCollection {
    fn clone(&self) -> (r: Self)
        ensures
            r@ == self@,
    {
        proof {
            use_type_invariant(self);
        }
        let mut by_id: Vec<Arc<ScopeDetails>> = Vec::new();
        let mut i: usize = 0;
        while i < self.scope_id_to_details.len()
            invariant
                0 <= i <= self.scope_id_to_details@.len(),
                by_id@ == self.scope_id_to_details@.take(i as int),
            decreases self.scope_id_to_details@.len() - i,
        {
            by_id.push(arc_clone(&self.scope_id_to_details[i]));
            proof {
                assert(self.scope_id_to_details@.take(i + 1) == self.scope_id_to_details@.take(
                    i as int,
                ).push(self.scope_id_to_details@[i as int]));
            }
            i = i + 1;
        }
        let mut by_type: Vec<(ScopeType, ScopeId)> = Vec::new();
        let mut j: usize = 0;
        while j < self.type_to_scope_id.len()
            invariant
                0 <= j <= self.type_to_scope_id@.len(),
                by_type@.len() == j,
                forall|k: int| 0 <= k < j ==> (#[trigger] by_type@[k]).0@ == self.type_to_scope_id@[k].0@
                    && by_type@[k].1 == self.type_to_scope_id@[k].1,
            decreases self.type_to_scope_id@.len() - j,
        {
            let t = match &self.type_to_scope_id[j].0 {
                ScopeType::Function(n) => ScopeType::Function(clone_string(n)),
                ScopeType::Scope(n) => ScopeType::Scope(clone_string(n)),
            };
            by_type.push((t, self.type_to_scope_id[j].1));
            j = j + 1;
        }
        proof {
            assert(by_id@ =~= self.scope_id_to_details@);
            assert(type_pairs(by_type@) =~= type_pairs(self.type_to_scope_id@));
        }
        ScopeCollection { scope_id_to_details: by_id, type_to_scope_id: by_type }
    }
}

impl ScopeCollection {
    #[verifier::type_invariant]
    spec fn well_formed(self) -> bool {
        &&& forall|i: int|
            0 <= i < self.scope_id_to_details@.len() ==> (*#[trigger] self.scope_id_to_details@[i])@.scope_id is Some
        &&& keys_unique(id_pairs(self.scope_id_to_details@))
        &&& keys_unique(type_pairs(self.type_to_scope_id@))
    }

    /// Fetches scope details by scope id.
    pub fn fetch_by_id(&self, scope_id: &ScopeId) -> (r: Option<&Arc<ScopeDetails>>)
        ensures
            r is Some <==> self@.0.contains_key(scope_id@),
            r matches Some(d) ==> (**d)@ == self@.0[scope_id@],
    {
        proof {
            use_type_invariant(self);
            lemma_assoc_map_dom(id_pairs(self.scope_id_to_details@), scope_id@);
        }
        let ghost pairs = id_pairs(self.scope_id_to_details@);
        let mut i: usize = 0;
        while i < self.scope_id_to_details.len()
            invariant
                0 <= i <= self.scope_id_to_details@.len(),
                pairs == id_pairs(self.scope_id_to_details@),
                keys_unique(pairs),
                forall|i: int|
                    0 <= i < self.scope_id_to_details@.len() ==> (*#[trigger] self.scope_id_to_details@[i])@.scope_id is Some,
                forall|k: int| 0 <= k < i ==> (#[trigger] pairs[k]).0 != scope_id@,
            decreases self.scope_id_to_details@.len() - i,
        {
            let d = &self.scope_id_to_details[i];
            let id = d.scope_id;
            proof {
                assert(pairs[i as int].0 == (**d)@.scope_id->0);
            }
            match id {
                Some(id) => {
                    if id.get() == scope_id.get() {
                        proof {
                            lemma_assoc_map_index(pairs, i as int);
                        }
                        return Some(d);
                    }
                },
                None => {},
            }
            i = i + 1;
        }
        None
    }

    /// Fetches the scope id by scope name.
    pub fn fetch_by_name(&self, scope_type: &ScopeType) -> (r: Option<&ScopeId>)
        ensures
            r is Some <==> self@.1.contains_key(scope_type@),
            r matches Some(id) ==> id@ == self@.1[scope_type@],
    {
        proof {
            use_type_invariant(self);
            lemma_assoc_map_dom(type_pairs(self.type_to_scope_id@), scope_type@);
        }
        let ghost pairs = type_pairs(self.type_to_scope_id@);
        let mut i: usize = 0;
        while i < self.type_to_scope_id.len()
            invariant
                0 <= i <= self.type_to_scope_id@.len(),
                pairs == type_pairs(self.type_to_scope_id@),
                keys_unique(pairs),
                forall|k: int| 0 <= k < i ==> (#[trigger] pairs[k]).0 != scope_type@,
            decreases self.type_to_scope_id@.len() - i,
        {
            let entry = &self.type_to_scope_id[i];
            if entry.0 == *scope_type {
                proof {
                    lemma_assoc_map_index(pairs, i as int);
                }
                return Some(&entry.1);
            }
            i = i + 1;
        }
        None
    }

    /// Position of the details with the given id, if any.
    fn position_of_id(&self, scope_id: ScopeId) -> (r: Option<usize>)
        ensures
            r is Some <==> self@.0.contains_key(scope_id@),
            r matches Some(i) ==> i < self.scope_id_to_details@.len() && id_pairs(
                self.scope_id_to_details@,
            )[i as int].0 == scope_id@,
    {
        proof {
            use_type_invariant(self);
            lemma_assoc_map_dom(id_pairs(self.scope_id_to_details@), scope_id@);
        }
        let ghost pairs = id_pairs(self.scope_id_to_details@);
        let mut i: usize = 0;
        while i < self.scope_id_to_details.len()
            invariant
                0 <= i <= self.scope_id_to_details@.len(),
                pairs == id_pairs(self.scope_id_to_details@),
                keys_unique(pairs),
                forall|i: int|
                    0 <= i < self.scope_id_to_details@.len() ==> (*#[trigger] self.scope_id_to_details@[i])@.scope_id is Some,
                forall|k: int| 0 <= k < i ==> (#[trigger] pairs[k]).0 != scope_id@,
            decreases self.scope_id_to_details@.len() - i,
        {
            let d = &self.scope_id_to_details[i];
            proof {
                assert(pairs[i as int].0 == (**d)@.scope_id->0);
            }
            match d.scope_id {
                Some(id) => {
                    if id.get() == scope_id.get() {
                        proof {
                            lemma_assoc_map_index(pairs, i as int);
                        }
                        return Some(i);
                    }
                },
                None => {},
            }
            i = i + 1;
        }
        None
    }

    /// Position of the given scope type, if any.
    fn position_of_type(&self, scope_type: &ScopeType) -> (r: Option<usize>)
        ensures
            r is Some <==> self@.1.contains_key(scope_type@),
            r matches Some(i) ==> i < self.type_to_scope_id@.len() && type_pairs(
                self.type_to_scope_id@,
            )[i as int].0 == scope_type@,
    {
        proof {
            use_type_invariant(self);
            lemma_assoc_map_dom(type_pairs(self.type_to_scope_id@), scope_type@);
        }
        let ghost pairs = type_pairs(self.type_to_scope_id@);
        let mut i: usize = 0;
        while i < self.type_to_scope_id.len()
            invariant
                0 <= i <= self.type_to_scope_id@.len(),
                pairs == type_pairs(self.type_to_scope_id@),
                keys_unique(pairs),
                forall|k: int| 0 <= k < i ==> (#[trigger] pairs[k]).0 != scope_type@,
            decreases self.type_to_scope_id@.len() - i,
        {
            if self.type_to_scope_id[i].0 == *scope_type {
                proof {
                    lemma_assoc_map_index(pairs, i as int);
                }
                return Some(i);
            }
            i = i + 1;
        }
        None
    }

    /// Insert a scope into the collection: its scope type now maps to its id, and its
    /// id maps to a readable copy of it unless the id was known already, in which case
    /// the details known for it stay. Returns the details filed under the id.
    pub fn insert(&mut self, scope_details: Arc<ScopeDetails>) -> (r: Arc<ScopeDetails>)
        requires
            (*scope_details)@.scope_id is Some,
        ensures
            ({
                let id = (*scope_details)@.scope_id->0;
                &&& final(self)@.1 == old(self)@.1.insert(spec_scope_type((*scope_details)@), id)
                &&& old(self)@.0.contains_key(id) ==> final(self)@.0 == old(self)@.0
                &&& !old(self)@.0.contains_key(id) ==> final(self)@.0 == old(self)@.0.insert(
                    id,
                    spec_readable((*scope_details)@),
                )
                &&& (*r)@ == final(self)@.0[id]
                &&& (*r)@.scope_id == Some(id)
            }),
            final(self)@ == spec_insert(old(self)@, (*scope_details)@),
    {
        proof {
            use_type_invariant(&*self);
        }
        let scope_id = match scope_details.scope_id {
            Some(id) => id,
            None => {
                proof {
                    assert(false);
                }
                return scope_details;
            },
        };
        let scope_type = scope_details.scope_type();
        let ghost old_types = type_pairs(self.type_to_scope_id@);
        match self.position_of_type(&scope_type) {
            Some(i) => {
                proof {
                    lemma_assoc_map_update(old_types, i as int, scope_id@);
                }
                let mut types = Vec::new();
                std::mem::swap(&mut types, &mut self.type_to_scope_id);
                types.set(i, (scope_type, scope_id));
                proof {
                    assert(type_pairs(types@) =~= old_types.update(
                        i as int,
                        (old_types[i as int].0, scope_id@),
                    ));
                }
                self.type_to_scope_id = types;
            },
            None => {
                proof {
                    lemma_assoc_push_unique(old_types, scope_type@, scope_id@);
                }
                let mut types = Vec::new();
                std::mem::swap(&mut types, &mut self.type_to_scope_id);
                types.push((scope_type, scope_id));
                proof {
                    assert(type_pairs(types@) =~= old_types.push((scope_type@, scope_id@)));
                }
                self.type_to_scope_id = types;
            },
        }
        let ghost old_ids = id_pairs(self.scope_id_to_details@);
        match self.position_of_id(scope_id) {
            Some(i) => {
                proof {
                    lemma_assoc_map_index(old_ids, i as int);
                }
                arc_clone(&self.scope_id_to_details[i])
            },
            None => {
                let readable = Arc::new((*scope_details).clone().into_readable());
                proof {
                    lemma_assoc_push_unique(old_ids, scope_id@, (*readable)@);
                }
                let mut ids = Vec::new();
                std::mem::swap(&mut ids, &mut self.scope_id_to_details);
                ids.push(arc_clone(&readable));
                proof {
                    assert(id_pairs(ids@) =~= old_ids.push((scope_id@, (*readable)@)));
                }
                self.scope_id_to_details = ids;
                readable
            },
        }
    }

    /// All registered scope types and their ids.
    pub fn scopes_by_name(&self) -> (r: &[(ScopeType, ScopeId)])
        ensures
            assoc_map(type_pairs(r@)) == self@.1,
            keys_unique(type_pairs(r@)),
    {
        proof {
            use_type_invariant(self);
        }
        self.type_to_scope_id.as_slice()
    }

    /// All registered scopes, each filed under its id.
    pub fn scopes_by_id(&self) -> (r: &[Arc<ScopeDetails>])
        ensures
            assoc_map(id_pairs(r@)) == self@.0,
            keys_unique(id_pairs(r@)),
            forall|i: int| 0 <= i < r@.len() ==> (*#[trigger] r@[i])@.scope_id is Some,
    {
        proof {
            use_type_invariant(self);
        }
        self.scope_id_to_details.as_slice()
    }
}

} // verus!
