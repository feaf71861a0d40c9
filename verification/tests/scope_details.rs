use puffin::{ScopeCollection, ScopeDetails, ScopeId, ScopeType};
use std::sync::Arc;

#[test]
fn location_has_line_number_only_when_known() {
    let d = ScopeDetails::from_scope_name("s").with_file("a/b.rs");
    assert_eq!(d.location(), "a/b.rs");
    let d = d.with_line_nr(42);
    assert_eq!(d.location(), "a/b.rs:42");
}

#[test]
fn scope_type_is_name_or_function() {
    let named = ScopeDetails::from_scope_name("frame").with_function_name("f");
    assert_eq!(named.scope_type(), ScopeType::scope("frame"));
    assert_eq!(named.scope_type().name(), "frame");
    let function = ScopeDetails::from_scope_name("x");
    assert!(matches!(function.scope_type(), ScopeType::Scope(_)));
    assert_eq!(ScopeType::function_scope("g").name(), "g");
}

#[test]
fn collection_files_readable_details_once_per_id() {
    let mut c = ScopeCollection::default();
    let stored = c.insert(Arc::new(
        ScopeDetails::from_scope_name("s")
            .with_function_name("my_crate::module::f::{{closure}}::{{closure}}::f")
            .with_file("crates/my_crate/src/module/lib.rs")
            .with_scope_id(ScopeId::new(5)),
    ));
    assert_eq!(stored.function_name, "module::f");
    assert_eq!(stored.file_path, "my_crate/…/module/lib.rs");

    // A second insertion under the same id keeps the first details.
    let again = c.insert(Arc::new(
        ScopeDetails::from_scope_name("s").with_scope_id(ScopeId::new(5)),
    ));
    assert_eq!(again.function_name, "module::f");
    assert_eq!(c.scopes_by_id().len(), 1);

    let found = c.fetch_by_id(&ScopeId::new(5)).unwrap();
    assert_eq!(found.scope_id(), Some(ScopeId::new(5)));
    assert!(c.fetch_by_id(&ScopeId::new(6)).is_none());
    assert_eq!(c.fetch_by_name(&ScopeType::scope("s")), Some(&ScopeId::new(5)));
    assert_eq!(c.fetch_by_name(&ScopeType::scope("t")), None);
    assert_eq!(c.scopes_by_name().len(), 1);
}
