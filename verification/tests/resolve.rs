use hyper_markdown_server::uri::{classify, force_relative, resolve, PathKind, Resolved};

#[test]
fn a_primary_directory_wins_over_a_fallback_file() {
    // the fallback flag says a same-named file exists there; the
    // directory under the primary root still wins
    let r = classify("root/docs".to_string(), PathKind::Dir, "static/docs".to_string(), true);
    match r {
        Some(Resolved::Directory(p)) => assert_eq!(p, "root/docs"),
        other => panic!("expected a directory, got {:?}", other),
    }
}

#[test]
fn a_primary_md_file_is_markdown() {
    let r = classify("root/a/readme.md".to_string(), PathKind::File, String::new(), false);
    match r {
        Some(Resolved::Markdown(p)) => assert_eq!(p, "root/a/readme.md"),
        other => panic!("expected markdown, got {:?}", other),
    }
}

#[test]
fn the_md_suffix_is_case_sensitive() {
    let r = classify("root/readme.MD".to_string(), PathKind::File, String::new(), false);
    assert!(matches!(r, Some(Resolved::File(_))));
}

#[test]
fn a_bare_dot_md_name_is_a_plain_file() {
    // ".md" alone has no extension, so it is not a markdown document
    let r = classify("root/.md".to_string(), PathKind::File, String::new(), false);
    assert!(matches!(r, Some(Resolved::File(_))));
}

#[test]
fn a_dotted_name_still_ends_in_md() {
    let r = classify("root/notes.tar.md".to_string(), PathKind::File, String::new(), false);
    assert!(matches!(r, Some(Resolved::Markdown(_))));
}

#[test]
fn a_primary_plain_file_is_static() {
    let r = classify("root/logo.png".to_string(), PathKind::File, String::new(), false);
    match r {
        Some(Resolved::File(p)) => assert_eq!(p, "root/logo.png"),
        other => panic!("expected a file, got {:?}", other),
    }
}

#[test]
fn a_fallback_file_answers_a_primary_miss() {
    let r = classify("root/app.css".to_string(), PathKind::Missing, "static/app.css".to_string(), true);
    match r {
        Some(Resolved::File(p)) => assert_eq!(p, "static/app.css"),
        other => panic!("expected the fallback file, got {:?}", other),
    }
}

#[test]
fn nothing_matches_when_both_roots_miss() {
    let r = classify("root/x".to_string(), PathKind::Missing, "static/x".to_string(), false);
    assert!(r.is_none());
}

#[test]
fn resolving_a_real_directory() {
    // the tests run at the package root, where src is a real directory
    let r = resolve("/src", ".", ".");
    match r {
        Some(Resolved::Directory(p)) => assert_eq!(p, "./src"),
        other => panic!("expected a directory, got {:?}", other),
    }
}

#[test]
fn resolving_a_real_plain_file() {
    let r = resolve("/src/lib.rs", ".", "no_such_root");
    match r {
        Some(Resolved::File(p)) => assert_eq!(p, "./src/lib.rs"),
        other => panic!("expected a file, got {:?}", other),
    }
}

#[test]
fn resolving_decodes_percent_escapes() {
    // %2F decodes to the separator, so this names the same real file
    let r = resolve("/src%2Flib.rs", ".", "no_such_root");
    match r {
        Some(Resolved::File(p)) => assert_eq!(p, "./src/lib.rs"),
        other => panic!("expected a file, got {:?}", other),
    }
}

#[test]
fn a_missing_path_resolves_to_nothing() {
    assert!(resolve("/missing", ".", ".").is_none());
}

#[test]
fn a_fallback_directory_is_never_served() {
    // src exists as a directory under the fallback root only
    assert!(resolve("/src", "no_such_root", ".").is_none());
}

#[test]
fn a_fallback_file_is_served_on_a_primary_miss() {
    let r = resolve("/src/lib.rs", "no_such_root", ".");
    match r {
        Some(Resolved::File(p)) => assert_eq!(p, "./src/lib.rs"),
        other => panic!("expected the fallback file, got {:?}", other),
    }
}

#[test]
fn traversal_segments_are_rejected() {
    assert!(resolve("/../Cargo.toml", ".", ".").is_none());
    assert!(resolve("/a/../../etc/passwd", ".", ".").is_none());
}

#[test]
fn encoded_traversal_segments_are_rejected_after_decoding() {
    assert!(resolve("/%2E%2E/Cargo.toml", ".", ".").is_none());
}

#[test]
fn a_path_without_a_leading_separator_is_rejected() {
    assert!(resolve("src/lib.rs", ".", ".").is_none());
    assert!(resolve("", ".", ".").is_none());
}

#[test]
fn force_relative_strips_the_separator() {
    assert_eq!(force_relative("/docs/readme.md"), Some("docs/readme.md".to_string()));
    assert_eq!(force_relative("/"), Some(String::new()));
    assert_eq!(force_relative("docs"), None);
    assert_eq!(force_relative(""), None);
}

#[test]
fn every_variant_exposes_its_path() {
    assert_eq!(Resolved::File("a".to_string()).path(), "a");
    assert_eq!(Resolved::Markdown("b".to_string()).path(), "b");
    assert_eq!(Resolved::Directory("c".to_string()).path(), "c");
}
