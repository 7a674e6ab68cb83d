use std::io::Write;
use qshr::entry::{filter_extension, filter_files, filter_modified_since, filter_size, EntryMetadata, PathEntry};
use qshr::globbing::glob;
use qshr::lines::{cat_texts, join_lines, split_lines};
use qshr::ops::{copy_dir_step, copy_entry_step, move_fallback, rm_action, CopyStep, MoveFallback, Removal, TreeWalk};
use qshr::temp::{temp_candidate, temp_file_name};
use qshr::watch::{convert_event, ChangeKind, ObservedPath, WatchEvent};

fn file_meta(len: u64, modified: Option<i128>) -> EntryMetadata {
    EntryMetadata { is_dir: false, is_file: true, len, modified }
}

fn dir_meta() -> EntryMetadata {
    EntryMetadata { is_dir: true, is_file: false, len: 4096, modified: Some(0) }
}

fn entry(path: &str, len: u64, modified: Option<i128>) -> PathEntry {
    PathEntry::new(path.to_string(), file_meta(len, modified))
}

fn strings(items: &[&str]) -> Vec<String> {
    items.iter().map(|s| s.to_string()).collect()
}

// What `write_lines` writes and what `read_lines` reads back: the file text is
// `join_lines`, the lines read are `split_lines`.
#[test]
fn read_and_write_roundtrip() {
    let text = join_lines(&strings(&["first", "second"]));
    assert_eq!(text, "first\nsecond\n");
    let lines = split_lines(&text);
    assert_eq!(lines, vec!["first".to_string(), "second".to_string()]);
}

// `glob` on a real directory; `cat` and `rm` through the text concatenation
// and the removal decision they are built on (the file I/O is the app's).
#[test]
fn glob_and_cat_helpers() {
    let dir = tempfile::tempdir().unwrap();
    let nested = tempfile::Builder::new().prefix("nested").tempdir_in(dir.path()).unwrap();
    let mut file_a = tempfile::Builder::new().prefix("a").suffix(".txt").tempfile_in(dir.path()).unwrap();
    let mut file_b = tempfile::Builder::new().prefix("b").suffix(".txt").tempfile_in(nested.path()).unwrap();
    file_a.write_all(b"alpha\n").unwrap();
    file_b.write_all(b"beta\n").unwrap();
    file_b.write_all(b"beta-2\n").unwrap();
    let mut orphan = tempfile::Builder::new().prefix("orphan").suffix(".txt").tempfile_in(dir.path()).unwrap();
    orphan.write_all(b"single").unwrap();

    let pattern = dir.path().join("**").join("*.txt").to_string_lossy().to_string();
    let mut matches = glob(&pattern).unwrap();
    matches.sort();
    assert!(matches.contains(&file_a.path().to_string_lossy().to_string()));
    assert!(matches.contains(&file_b.path().to_string_lossy().to_string()));
    assert!(matches.contains(&orphan.path().to_string_lossy().to_string()));

    let cat_lines = cat_texts(&strings(&["alpha\n", "beta\nbeta-2\n"]));
    assert_eq!(cat_lines.len(), 3);

    assert_eq!(rm_action(false, true), Removal::File);
    assert_eq!(rm_action(true, true), Removal::Tree);
    assert_eq!(rm_action(false, false), Removal::Nothing);
}

// Temporary-file naming, the removal decision, and a walk driven over a real
// directory and its one file (listing and metadata reads are the app's).
#[test]
fn temp_and_detailed_listing() {
    let name = temp_file_name("crab", 42, 1700000000123, 0);
    assert_eq!(name, "crab-42-1700000000123-0.tmp");
    let path = temp_candidate("/tmp", "crab", 42, 1700000000123, 7);
    assert_eq!(path, "/tmp/crab-42-1700000000123-7.tmp");
    assert_eq!(rm_action(false, true), Removal::File);
    assert_eq!(rm_action(false, false), Removal::Nothing);

    // a walk over a directory and its one file visits both, the root first
    let dir = tempfile::tempdir().unwrap();
    let root = dir.path().to_string_lossy().to_string();
    let file = dir.path().join("entry.txt").to_string_lossy().to_string();
    let mut tree = TreeWalk::new(&root);
    assert_eq!(tree.next_path(), Some(root.clone()));
    tree.push_children(vec![file.clone()]);
    assert_eq!(tree.next_path(), Some(file.clone()));
    assert_eq!(tree.next_path(), None);
    let visited = tree.into_visited();
    assert!(visited.iter().any(|p| *p == file));
    assert_eq!(visited, vec![root, file.clone()]);
    let detailed = vec![PathEntry::new(file.clone(), file_meta(4, Some(1)))];
    assert!(filter_files(detailed).iter().any(|e| e.path == file));
}

// The copy, move and filter decisions behind `copy_dir`, `move_path`,
// `walk_files`, the entry filters and `copy_entries`, on literal paths.
#[test]
fn copy_move_and_walk_files() {
    // copying /src into /dest/copy skips the root and re-roots the rest
    assert!(copy_dir_step("/src", "/dest/copy", "/src", true).ok().unwrap().is_none());
    match copy_dir_step("/src", "/dest/copy", "/src/nested", true).ok().unwrap() {
        Some(CopyStep::CreateDir(d)) => assert_eq!(d, "/dest/copy/nested"),
        _ => panic!("expected a directory step"),
    }
    match copy_dir_step("/src", "/dest/copy", "/src/nested/data.txt", false).ok().unwrap() {
        Some(CopyStep::CopyFile { target, parent }) => {
            assert_eq!(target, "/dest/copy/nested/data.txt");
            assert_eq!(parent, Some("/dest/copy/nested".to_string()));
        }
        _ => panic!("expected a file step"),
    }
    match move_fallback("/dest/moved/data.txt", false) {
        MoveFallback::CopyFile { parent } => assert_eq!(parent, Some("/dest/moved".to_string())),
        MoveFallback::CopyTree => panic!("a file is not copied as a tree"),
    }
    assert!(matches!(move_fallback("/dest/moved", true), MoveFallback::CopyTree));

    let walked = vec![
        PathEntry::new("/dest/moved".to_string(), dir_meta()),
        PathEntry::new("/dest/moved/nested".to_string(), dir_meta()),
        entry("/dest/moved/nested/data.txt", 7, Some(1_000)),
    ];
    let files = filter_files(walked);
    assert_eq!(files.len(), 1);
    assert_eq!(files[0].file_name().unwrap(), "data.txt");

    let globbed = vec![entry("/dest/moved/nested/data.txt", 7, Some(1_000))];
    let filtered = filter_extension(vec![entry("/dest/moved/nested/data.txt", 7, Some(1_000))], "txt");
    assert_eq!(filtered.len(), globbed.len());
    let filtered_size = filter_size(vec![entry("/dest/moved/nested/data.txt", 7, Some(1_000))], 1);
    assert_eq!(filtered_size.len(), globbed.len());
    let filtered_recent =
        filter_modified_since(vec![entry("/dest/moved/nested/data.txt", 7, Some(1_000))], 1_000 - 60);
    assert!(!filtered_recent.is_empty());

    match copy_entry_step("/dest", "/other", "/dest/moved/nested/data.txt", false) {
        Ok(CopyStep::CopyFile { target, .. }) => assert_eq!(target, "/other/moved/nested/data.txt"),
        _ => panic!("expected a file step"),
    }
}

// Turning notifications into created and removed events, as a watcher does
// with what it receives (the watcher itself is the app's).
#[test]
fn watcher_detects_changes() {
    let created = convert_event(
        ChangeKind::Create,
        vec![ObservedPath { path: "/w/watched.txt".to_string(), metadata: Some(file_meta(3, Some(5))) }],
    );
    assert!(matches!(&created[0], WatchEvent::Created(e) if e.path == "/w/watched.txt"));
    let removed = convert_event(
        ChangeKind::Remove,
        vec![ObservedPath { path: "/w/watched.txt".to_string(), metadata: None }],
    );
    assert!(matches!(&removed[0], WatchEvent::Removed(p) if p == "/w/watched.txt"));
}
