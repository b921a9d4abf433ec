use js_runtime::resolve::{directory_of, resolve_entry, resolve_import, ResolveError};

#[test]
fn entry_relative_to_base() {
    assert_eq!(resolve_entry("/work", "main.js"), Ok("/work/main.js".to_string()));
}

#[test]
fn entry_absolute_kept() {
    assert_eq!(resolve_entry("/work", "/srv/main.js"), Ok("/srv/main.js".to_string()));
}

#[test]
fn entry_empty_is_malformed() {
    assert_eq!(resolve_entry("/work", ""), Err(ResolveError::Malformed));
}

#[test]
fn import_relative_to_importer() {
    assert_eq!(resolve_import("/work/lib", "./a.js"), Ok("/work/lib/./a.js".to_string()));
    assert_eq!(resolve_import("/work/lib", "../b.js"), Ok("/work/lib/../b.js".to_string()));
    assert_eq!(resolve_import("/work/lib", "/abs/c.js"), Ok("/abs/c.js".to_string()));
}

#[test]
fn import_bare_unsupported() {
    assert_eq!(resolve_import("/work", "lodash"), Err(ResolveError::Bare));
    assert_eq!(resolve_import("/work", ".hidden.js"), Err(ResolveError::Bare));
    assert_eq!(resolve_import("/work", ""), Err(ResolveError::Malformed));
}

#[test]
fn directory_of_paths() {
    assert_eq!(directory_of("/work/lib/a.js"), "/work/lib");
    assert_eq!(directory_of("/a.js"), "/");
    assert_eq!(directory_of("a.js"), ".");
}
