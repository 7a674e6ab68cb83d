use qshr::debounce::{debounce_watch, Arrival, Debouncer};
use qshr::entry::{filter_extension, filter_modified_since, filter_size, EntryMetadata, PathEntry};
use qshr::error::Error;
use qshr::globbing::{collect_matches, expansion_result, glob, GlobItem, GlobPattern};
use qshr::lines::{cat_texts, join_lines, split_lines};
use qshr::ops::{copy_dir_step, copy_entry_step, CopyStep, TreeWalk};
use qshr::temp::{temp_file_name, temp_file_step, OpenOutcome, TempStep, TEMP_FILE_ATTEMPTS};
use qshr::text::to_ascii_lowercase;
use qshr::watch::{
    convert_event, watch_glob, ChangeKind, Delivery, ObservedPath, PendingEvents, Received, WatchEvent,
};

fn meta(len: u64, modified: Option<i128>) -> EntryMetadata {
    EntryMetadata { is_dir: false, is_file: true, len, modified }
}

fn entry(path: &str, len: u64, modified: Option<i128>) -> PathEntry {
    PathEntry::new(path.to_string(), meta(len, modified))
}

fn strings(items: &[&str]) -> Vec<String> {
    items.iter().map(|s| s.to_string()).collect()
}

fn modified(path: &str, at: Option<i128>) -> WatchEvent {
    WatchEvent::Modified(entry(path, 1, at))
}

fn arrival(event: WatchEvent, now: i128) -> Arrival {
    Arrival { event: Ok(event), now }
}

fn paths_of(items: &[Result<WatchEvent, Error>]) -> Vec<String> {
    items
        .iter()
        .map(|i| match i {
            Ok(e) => e.path().to_string(),
            Err(_) => "<error>".to_string(),
        })
        .collect()
}

#[test]
fn split_lines_edge_cases() {
    assert!(split_lines("").is_empty());
    assert_eq!(split_lines("a"), strings(&["a"]));
    assert_eq!(split_lines("a\r\nb"), strings(&["a", "b"]));
    assert_eq!(split_lines("a\r"), strings(&["a\r"]));
    assert_eq!(split_lines("\n\n"), strings(&["", ""]));
    assert_eq!(split_lines("a\n\r\nc\n"), strings(&["a", "", "c"]));
    assert_eq!(split_lines("héllo\nwörld"), strings(&["héllo", "wörld"]));
}

#[test]
fn join_lines_appends_newlines() {
    assert_eq!(join_lines(&Vec::new()), "");
    assert_eq!(join_lines(&strings(&["", "x"])), "\nx\n");
}

#[test]
fn split_join_roundtrip_law() {
    let lines = strings(&["one", "", "three", "  four  "]);
    assert_eq!(split_lines(&join_lines(&lines)), lines);
}

#[test]
fn join_split_roundtrip_law() {
    let text = "alpha\n\nbeta\n";
    assert_eq!(join_lines(&split_lines(text)), text);
}

#[test]
fn cat_texts_keeps_file_order() {
    let lines = cat_texts(&strings(&["a\nb", "c\n", ""]));
    assert_eq!(lines, strings(&["a", "b", "c"]));
}

#[test]
fn ascii_lowercase_leaves_other_characters() {
    assert_eq!(to_ascii_lowercase("TxT-Ä9"), "txt-Ä9");
}

#[test]
fn extension_filter_ignores_case() {
    let make = || {
        vec![
            entry("/p/data.TXT", 1, None),
            entry("/p/notes.txt", 1, None),
            entry("/p/.txt", 1, None),
            entry("/p/archive.tar.gz", 1, None),
            entry("/p/README", 1, None),
        ]
    };
    let lower: Vec<String> = filter_extension(make(), "txt").into_iter().map(|e| e.path).collect();
    let upper: Vec<String> = filter_extension(make(), "TxT").into_iter().map(|e| e.path).collect();
    assert_eq!(lower, strings(&["/p/data.TXT", "/p/notes.txt"]));
    assert_eq!(lower, upper);
    assert_eq!(entry("/p/archive.tar.gz", 1, None).extension(), Some("gz".to_string()));
    assert_eq!(entry("/p/.txt", 1, None).extension(), None);
}

#[test]
fn size_filters_combine() {
    let make = || vec![entry("/a", 0, None), entry("/b", 5, None), entry("/c", 10, None)];
    let twice: Vec<String> = filter_size(filter_size(make(), 3), 7).into_iter().map(|e| e.path).collect();
    let once: Vec<String> = filter_size(make(), 7).into_iter().map(|e| e.path).collect();
    assert_eq!(twice, once);
    assert_eq!(once, strings(&["/c"]));
}

#[test]
fn modified_filter_drops_unknown_times() {
    let kept = filter_modified_since(
        vec![entry("/old", 1, Some(-5)), entry("/none", 1, None), entry("/new", 1, Some(7)), entry("/edge", 1, Some(0))],
        0,
    );
    let paths: Vec<String> = kept.into_iter().map(|e| e.path).collect();
    assert_eq!(paths, strings(&["/new", "/edge"]));
}

#[test]
fn entries_compare_as_paths() {
    assert!(entry("/a//b/", 3, Some(1)) == entry("/a/b", 3, Some(1)));
    assert!(entry("/a/b", 3, Some(1)) != entry("/a/b", 4, Some(1)));
    assert!(entry("/a/b", 3, Some(1)) != entry("/a/b", 3, None));
}

#[test]
fn debounce_drops_quick_repeats() {
    let out = debounce_watch(
        vec![
            arrival(modified("/f", None), 100),
            arrival(modified("/f", None), 150),
            arrival(modified("/g", None), 160),
            arrival(modified("/f", None), 200),
            arrival(modified("/f", None), 260),
        ],
        100,
    );
    assert_eq!(paths_of(&out), strings(&["/f", "/g", "/f"]));
}

#[test]
fn debounce_uses_modification_time_first() {
    let out = debounce_watch(
        vec![
            arrival(modified("/f", Some(0)), 1_000),
            arrival(modified("/f", Some(500)), 1_001),
            arrival(WatchEvent::Removed("/f".to_string()), 1_002),
        ],
        400,
    );
    assert_eq!(paths_of(&out), strings(&["/f", "/f", "/f"]));
}

#[test]
fn debounce_backwards_time_counts_as_no_time() {
    let out = debounce_watch(
        vec![arrival(modified("/f", Some(1_000)), 0), arrival(modified("/f", Some(10)), 0)],
        1,
    );
    assert_eq!(paths_of(&out), strings(&["/f"]));
}

#[test]
fn debounce_keeps_errors_and_first_event() {
    let out = debounce_watch(
        vec![
            arrival(modified("/f", None), 0),
            Arrival { event: Err(Error::Watch { message: "lost".to_string() }), now: 1 },
            arrival(modified("/f", None), 2),
        ],
        1_000,
    );
    assert_eq!(paths_of(&out), strings(&["/f", "<error>"]));
}

#[test]
fn debounce_zero_window_keeps_everything() {
    let out = debounce_watch(
        vec![arrival(modified("/f", None), 5), arrival(modified("/f", None), 5), arrival(modified("/f", None), 4)],
        0,
    );
    assert_eq!(out.len(), 3);
}

#[test]
fn debounce_twice_is_debounce_once() {
    let make = || {
        vec![
            arrival(modified("/f", None), 0),
            arrival(modified("/f", None), 10),
            arrival(modified("/g", None), 20),
            arrival(modified("/f", None), 120),
        ]
    };
    let once = debounce_watch(make(), 100);
    let again: Vec<Arrival> = once
        .into_iter()
        .zip([0i128, 20, 120])
        .map(|(e, now)| Arrival { event: e, now })
        .collect();
    let twice = debounce_watch(again, 100);
    assert_eq!(paths_of(&twice), paths_of(&debounce_watch(make(), 100)));
}

#[test]
fn debouncer_compares_paths_as_paths() {
    let mut d = Debouncer::new(50);
    assert!(d.accept(&modified("/a/b", None), 0));
    assert!(!d.accept(&modified("/a//b/", None), 10));
    assert!(d.accept(&modified("/a/b", None), 60));
}

#[test]
fn watch_glob_filters_by_pattern() {
    let events = vec![
        Ok(modified("/w/x.txt", None)),
        Err(Error::Watch { message: "boom".to_string() }),
        Ok(modified("/w/x.rs", None)),
        Ok(WatchEvent::Removed("/w/sub/y.txt".to_string())),
    ];
    let kept = watch_glob(events, "**/*.txt").ok().unwrap();
    assert_eq!(paths_of(&kept), strings(&["/w/x.txt", "<error>", "/w/sub/y.txt"]));
    assert!(matches!(watch_glob(Vec::new(), "[abc"), Err(Error::Pattern { .. })));
}

#[test]
fn glob_patterns_compile_or_fail() {
    assert!(GlobPattern::new("**a").is_err());
    let p = GlobPattern::new("*.rs").ok().unwrap();
    assert_eq!(p.as_str(), "*.rs");
    assert!(p.matches_path("main.rs"));
    assert!(!p.matches_path("main.rc"));
    assert!(matches!(glob("[unclosed"), Err(Error::Pattern { .. })));
}

#[test]
fn convert_event_by_kind() {
    let obs = || {
        vec![
            ObservedPath { path: "/a".to_string(), metadata: Some(meta(1, None)) },
            ObservedPath { path: "/b".to_string(), metadata: None },
        ]
    };
    assert!(convert_event(ChangeKind::Access, obs()).is_empty());
    let modified_events = convert_event(ChangeKind::Modify, obs());
    assert_eq!(modified_events.len(), 1);
    assert!(matches!(&modified_events[0], WatchEvent::Modified(e) if e.path == "/a"));
    assert!(matches!(&convert_event(ChangeKind::Any, obs())[0], WatchEvent::Modified(_)));
    assert!(matches!(&convert_event(ChangeKind::Other, obs())[0], WatchEvent::Modified(_)));
    let removed = convert_event(ChangeKind::Remove, obs());
    assert_eq!(removed.len(), 2);
    assert!(matches!(&removed[1], WatchEvent::Removed(p) if p == "/b"));
    assert_eq!(removed[1].is_dir(), None);
    assert_eq!(modified_events[0].is_dir(), Some(false));
}

#[test]
fn pending_events_are_first_in_first_out() {
    let mut q = PendingEvents::new();
    assert!(q.is_empty());
    q.extend(vec![WatchEvent::Removed("/1".to_string()), WatchEvent::Removed("/2".to_string())]);
    q.extend(vec![WatchEvent::Removed("/3".to_string())]);
    let mut seen = Vec::new();
    while let Some(e) = q.pop() {
        seen.push(e.path().to_string());
    }
    assert_eq!(seen, strings(&["/1", "/2", "/3"]));
}

#[test]
fn temp_file_attempts() {
    assert_eq!(temp_file_step(0, OpenOutcome::Created), TempStep::Done);
    assert_eq!(temp_file_step(0, OpenOutcome::AlreadyExists), TempStep::Retry(1));
    assert_eq!(temp_file_step(TEMP_FILE_ATTEMPTS - 1, OpenOutcome::AlreadyExists), TempStep::Exhausted);
    assert_eq!(temp_file_step(3, OpenOutcome::Failed), TempStep::Fail);
    assert_ne!(temp_file_name("p", 0, 0, 1), temp_file_name("p", 0, 0, 10));
    assert_eq!(temp_file_name("", 0, 0, 0), "-0-0-0.tmp");
    assert_eq!(temp_file_name("x", u32::MAX, u128::MAX, 99), format!("x-{}-{}-99.tmp", u32::MAX, u128::MAX));
}

#[test]
fn tree_walk_is_last_in_first_out() {
    let mut w = TreeWalk::new("/r");
    assert_eq!(w.next_path(), Some("/r".to_string()));
    w.push_children(strings(&["/r/a", "/r/b"]));
    assert_eq!(w.next_path(), Some("/r/b".to_string()));
    w.push_children(strings(&["/r/b/c"]));
    assert_eq!(w.next_path(), Some("/r/b/c".to_string()));
    assert_eq!(w.next_path(), Some("/r/a".to_string()));
    assert_eq!(w.next_path(), None);
    assert_eq!(w.into_visited(), strings(&["/r", "/r/b", "/r/b/c", "/r/a"]));
}

#[test]
fn copies_never_leave_the_destination() {
    // an absolute path outside the root would otherwise be copied onto itself
    assert!(matches!(copy_entry_step("/x", "/dest", "/other/f", false), Err(Error::OutsideRoot { ref path }) if path == "/other/f"));
    // a relative path outside the root keeps its whole path below the destination
    match copy_entry_step("/x", "/dest", "rel/f", false) {
        Ok(CopyStep::CopyFile { target, parent }) => {
            assert_eq!(target, "/dest/rel/f");
            assert_eq!(parent, Some("/dest/rel".to_string()));
        }
        _ => panic!("expected a file step"),
    }
    assert!(matches!(copy_dir_step("/x", "/dest", "y/f", true), Ok(Some(CopyStep::CreateDir(ref d))) if d == "/dest/y/f"));
    assert!(matches!(copy_dir_step("/x", "/dest", "/y/f", false), Err(Error::OutsideRoot { .. })));
    match copy_entry_step("/x", "/dest", "/x/sub/f", false) {
        Ok(CopyStep::CopyFile { target, parent }) => {
            assert_eq!(target, "/dest/sub/f");
            assert_eq!(parent, Some("/dest/sub".to_string()));
        }
        _ => panic!("expected a file step"),
    }
    match copy_entry_step("/x", "/dest", "/x/sub", true) {
        Ok(CopyStep::CreateDir(d)) => assert_eq!(d, "/dest/sub"),
        _ => panic!("expected a directory step"),
    }
}

#[test]
fn watch_events_compare_and_clone() {
    let a = WatchEvent::Modified(entry("/a//b", 1, Some(3)));
    let b = a.clone();
    assert!(a == b);
    assert!(a == WatchEvent::Modified(entry("/a/b", 1, Some(3))));
    assert!(a != WatchEvent::Created(entry("/a/b", 1, Some(3))));
    assert!(WatchEvent::Removed("/r/".to_string()) == WatchEvent::Removed("/r".to_string()));
    let e = entry("/p", 2, None);
    assert!(e.clone() == e);
}

#[test]
fn io_errors_keep_their_kind() {
    let err = Error::Io(std::io::Error::new(std::io::ErrorKind::AlreadyExists, "taken"));
    match err {
        Error::Io(inner) => assert_eq!(inner.kind(), std::io::ErrorKind::AlreadyExists),
        _ => panic!("expected an I/O error"),
    }
}

#[test]
fn cat_of_concatenated_lists_concatenates() {
    let all = cat_texts(&strings(&["a\nb\n", "c", "d\n"]));
    let mut parts = cat_texts(&strings(&["a\nb\n"]));
    parts.extend(cat_texts(&strings(&["c", "d\n"])));
    assert_eq!(all, parts);
    assert_eq!(cat_texts(&strings(&["x\ny"])), split_lines("x\ny"));
    assert!(cat_texts(&Vec::new()).is_empty());
}

#[test]
fn stream_hands_out_waiting_then_received_in_order() {
    let mut q = PendingEvents::new();
    q.extend(vec![WatchEvent::Removed("/w".to_string())]);
    let mut out = Vec::new();
    let mut messages = vec![
        Received::Events(vec![WatchEvent::Removed("/1".to_string()), WatchEvent::Removed("/2".to_string())]),
        Received::Events(Vec::new()),
        Received::Failure(Error::Watch { message: "e".to_string() }),
        Received::Events(vec![WatchEvent::Removed("/3".to_string())]),
        Received::Closed,
        Received::Events(vec![WatchEvent::Removed("/never".to_string())]),
    ]
    .into_iter();
    loop {
        if let Some(e) = q.pop() {
            out.push(e.path().to_string());
            continue;
        }
        match q.receive(messages.next().unwrap()) {
            Delivery::Deliver(Ok(e)) => out.push(e.path().to_string()),
            Delivery::Deliver(Err(_)) => out.push("<error>".to_string()),
            Delivery::Wait => continue,
            Delivery::Finish => break,
        }
    }
    assert_eq!(out, strings(&["/w", "/1", "/2", "<error>", "/3"]));
}

#[test]
fn receiving_feeds_the_queue() {
    let mut q = PendingEvents::new();
    assert!(matches!(q.receive(Received::Events(Vec::new())), Delivery::Wait));
    let d = q.receive(Received::Events(vec![
        WatchEvent::Removed("/1".to_string()),
        WatchEvent::Removed("/2".to_string()),
    ]));
    assert!(matches!(d, Delivery::Deliver(Ok(WatchEvent::Removed(ref p))) if p == "/1"));
    assert!(matches!(
        q.receive(Received::Failure(Error::Watch { message: "x".to_string() })),
        Delivery::Deliver(Err(Error::Watch { .. }))
    ));
    assert!(matches!(q.pop(), Some(WatchEvent::Removed(ref p)) if p == "/2"));
    assert!(matches!(q.receive(Received::Closed), Delivery::Finish));
}

#[test]
fn collect_matches_stops_at_first_error() {
    let all = collect_matches(vec![Ok("/a".to_string()), Ok("/b".to_string())]).ok().unwrap();
    assert_eq!(all, strings(&["/a", "/b"]));
    let failed = collect_matches(vec![
        Ok("/a".to_string()),
        Err(Error::Glob { path: "/x".to_string(), message: "denied".to_string() }),
        Err(Error::Glob { path: "/y".to_string(), message: "denied".to_string() }),
    ]);
    assert!(matches!(failed, Err(Error::Glob { ref path, .. }) if path == "/x"));
}

#[test]
fn expansion_result_item_by_item() {
    let all = expansion_result(vec![GlobItem::Path("/a".to_string()), GlobItem::Path("/b".to_string())]);
    assert_eq!(all.ok().unwrap(), strings(&["/a", "/b"]));
    let odd = expansion_result(vec![
        GlobItem::Path("/a".to_string()),
        GlobItem::NonUtf8("/\u{FFFD}".to_string()),
        GlobItem::Unreadable(Error::Glob { path: "/x".to_string(), message: "denied".to_string() }),
    ]);
    assert!(matches!(odd, Err(Error::NonUtf8Path { ref lossy }) if lossy == "/\u{FFFD}"));
    let unreadable = expansion_result(vec![GlobItem::Unreadable(Error::Glob {
        path: "/x".to_string(),
        message: "denied".to_string(),
    })]);
    assert!(matches!(unreadable, Err(Error::Glob { ref path, .. }) if path == "/x"));
    assert!(expansion_result(Vec::new()).ok().unwrap().is_empty());
}
