use hyper_markdown_server::{build_tree, walk_dir, Directory, Entry, EntryKind, File, format_dir,
    is_hidden, make_abs};

fn entry(segments: &[&str], kind: EntryKind) -> Entry {
    Entry { segments: segments.iter().map(|s| s.to_string()).collect(), kind }
}

fn sample_entries() -> Vec<Entry> {
    vec![
        entry(&[], EntryKind::Dir),
        entry(&["a"], EntryKind::Dir),
        entry(&["a", "2.txt"], EntryKind::File),
        entry(&["a", "1.txt"], EntryKind::File),
        entry(&["B.txt"], EntryKind::File),
    ]
}

#[test]
fn tree_round_trip() {
    let root = build_tree(&sample_entries(), false);
    assert_eq!(root.name, "/");
    assert_eq!(root.path, "");
    assert_eq!(root.files.len(), 1);
    assert_eq!(root.files[0].name, "B.txt");
    assert_eq!(root.files[0].path, "B.txt");
    assert!(root.files[0].media_type.is_none());
    assert_eq!(root.dirs.len(), 1);
    let a = &root.dirs[0];
    assert_eq!(a.name, "a");
    assert_eq!(a.path, "a/");
    assert_eq!(a.files.len(), 2);
    assert_eq!(a.files[0].name, "1.txt");
    assert_eq!(a.files[0].path, "a/1.txt");
    assert_eq!(a.files[1].name, "2.txt");
    assert_eq!(a.files[1].path, "a/2.txt");
    assert!(a.dirs.is_empty());
}

#[test]
fn absolute_mode_prefixes_every_path() {
    let root = build_tree(&sample_entries(), true);
    assert_eq!(root.path, "/");
    assert_eq!(root.files[0].path, "/B.txt");
    assert_eq!(root.dirs[0].path, "/a/");
    assert_eq!(root.dirs[0].files[0].path, "/a/1.txt");
    assert_eq!(root.dirs[0].files[1].path, "/a/2.txt");
}

#[test]
fn relative_mode_prefixes_no_path() {
    let root = build_tree(&sample_entries(), false);
    assert!(!root.files[0].path.starts_with('/'));
    assert!(!root.dirs[0].path.starts_with('/'));
    assert!(!root.dirs[0].files[0].path.starts_with('/'));
}

#[test]
fn hidden_entries_and_their_descendants_are_excluded() {
    let entries = vec![
        entry(&[], EntryKind::Dir),
        entry(&[".git"], EntryKind::Dir),
        entry(&[".git", "config"], EntryKind::File),
        entry(&[".git", "objects"], EntryKind::Dir),
        entry(&[".hidden.txt"], EntryKind::File),
        entry(&["ok.txt"], EntryKind::File),
    ];
    let root = build_tree(&entries, false);
    assert_eq!(root.dirs.len(), 0);
    assert_eq!(root.files.len(), 1);
    assert_eq!(root.files[0].name, "ok.txt");
}

#[test]
fn listings_sort_case_insensitively() {
    let entries = vec![
        entry(&[], EntryKind::Dir),
        entry(&["Zoo.txt"], EntryKind::File),
        entry(&["apple.txt"], EntryKind::File),
        entry(&["Banana.txt"], EntryKind::File),
        entry(&["delta"], EntryKind::Dir),
        entry(&["Alpha"], EntryKind::Dir),
    ];
    let root = build_tree(&entries, false);
    let file_names: Vec<&str> = root.files.iter().map(|f| f.name.as_str()).collect();
    assert_eq!(file_names, vec!["apple.txt", "Banana.txt", "Zoo.txt"]);
    let dir_names: Vec<&str> = root.dirs.iter().map(|d| d.name.as_str()).collect();
    assert_eq!(dir_names, vec!["Alpha", "delta"]);
}

#[test]
fn other_kind_entries_are_ignored() {
    let entries = vec![
        entry(&["link"], EntryKind::Other),
        entry(&["real.txt"], EntryKind::File),
    ];
    let root = build_tree(&entries, false);
    assert_eq!(root.files.len(), 1);
    assert_eq!(root.files[0].name, "real.txt");
    assert!(root.dirs.is_empty());
}

#[test]
fn empty_entry_set_yields_empty_root() {
    let root = build_tree(&Vec::new(), false);
    assert_eq!(root.name, "/");
    assert_eq!(root.path, "");
    assert!(root.files.is_empty());
    assert!(root.dirs.is_empty());
}

#[test]
fn walking_a_missing_root_yields_the_empty_tree() {
    let root = walk_dir("no_such_directory_anywhere_here", false).unwrap();
    assert_eq!(root.name, "/");
    assert!(root.files.is_empty());
    assert!(root.dirs.is_empty());
}

#[test]
fn walking_the_source_tree_lists_real_files() {
    // the tests run at the package root, whose src directory is real
    let root = walk_dir("src", false).unwrap();
    assert!(root.files.iter().any(|f| f.name == "lib.rs"));
    assert!(root.files.iter().any(|f| f.name == "uri.rs"));
    let names: Vec<String> = root.files.iter().map(|f| f.name.to_lowercase()).collect();
    let mut sorted = names.clone();
    sorted.sort();
    assert_eq!(names, sorted);
}

#[test]
fn directory_new_starts_empty() {
    let d = Directory::new("docs", "docs/");
    assert_eq!(d.name, "docs");
    assert_eq!(d.path, "docs/");
    assert!(d.dirs.is_empty());
    assert!(d.files.is_empty());
}

#[test]
fn file_new_has_no_media_type() {
    let f = File::new("a.txt", "docs/a.txt".to_string());
    assert_eq!(f.name, "a.txt");
    assert_eq!(f.path, "docs/a.txt");
    assert!(f.media_type.is_none());
}

#[test]
fn hidden_names_start_with_a_dot() {
    assert!(is_hidden(".git"));
    assert!(!is_hidden("git"));
    assert!(!is_hidden(""));
}

#[test]
fn make_abs_prepends_the_separator() {
    assert_eq!(make_abs("a/b"), "/a/b");
    assert_eq!(make_abs(""), "/");
}

#[test]
fn format_dir_appends_the_separator() {
    let mut p = "docs".to_string();
    format_dir(&mut p);
    assert_eq!(p, "docs/");
}

#[test]
fn walking_absolutely_anchors_every_path() {
    let root = walk_dir("src", true).unwrap();
    assert_eq!(root.path, "/");
    assert!(root.files.iter().all(|f| f.path.starts_with('/')));
    assert!(root.dirs.iter().all(|d| d.path.starts_with('/')));
}

#[test]
fn duplicated_entries_are_listed_once() {
    let entries = vec![
        entry(&["x.txt"], EntryKind::File),
        entry(&["x.txt"], EntryKind::File),
        entry(&["d"], EntryKind::Dir),
        entry(&["d"], EntryKind::Dir),
        entry(&["d", "y.txt"], EntryKind::File),
    ];
    let root = build_tree(&entries, false);
    assert_eq!(root.files.len(), 1);
    assert_eq!(root.files[0].name, "x.txt");
    assert_eq!(root.dirs.len(), 1);
    assert_eq!(root.dirs[0].files.len(), 1);
    assert_eq!(root.dirs[0].files[0].name, "y.txt");
}
