use resource_manager::directory::{DirectoryService, DirectoryWalk, PathKind};
use resource_manager::error::AppError;
use resource_manager::paths::{get_file_type, is_hidden, is_ignored_name};
use resource_manager::walker::{
    classify_event, is_pruned, parse_ignore_list, scan_path, EntryKind, FileMetadata, SkipReason, Timestamp, WalkDecision, WalkEntry,
    WalkEvent,
};

fn file(path: &str) -> WalkEvent {
    WalkEvent::Entry(WalkEntry {
        path: path.to_string(),
        kind: EntryKind::File,
        metadata: Some(FileMetadata { size: 12, modified: Some(Timestamp { secs: 1431648000, nanos: 0 }) }),
    })
}

fn dir(path: &str) -> WalkEvent {
    WalkEvent::Entry(WalkEntry { path: path.to_string(), kind: EntryKind::Directory, metadata: None })
}

fn docs_walk() -> DirectoryWalk {
    DirectoryWalk {
        root: "/docs".to_string(),
        events: vec![
            dir("/docs"),
            file("/docs/a.txt"),
            file("/docs/.secret"),
            dir("/docs/node_modules"),
            file("/docs/node_modules/x.js"),
        ],
    }
}

fn docs_service() -> DirectoryService {
    let mut service = DirectoryService::new();
    let bound = service.bind_directory(1, "/docs".to_string(), PathKind::Directory, true, "2026-01-20 16:46:21".to_string());
    assert!(bound.is_ok());
    service
}

#[test]
fn batch_scan_of_docs_returns_the_one_visible_file() {
    let mut service = docs_service();
    let progress = service
        .scan_directory_batch(1, false, Some("node_modules".to_string()), 1, &vec![docs_walk()], "2026-01-21T09:00:00+00:00")
        .unwrap();
    assert_eq!(progress.total_files, 1);
    assert_eq!(progress.scanned_files, 1);
    assert_eq!(progress.current_batch.len(), 1);
    assert_eq!(progress.current_batch[0].file_name, "a.txt");
    assert_eq!(progress.current_batch[0].file_path, "/docs/a.txt");
    assert_eq!(progress.current_batch[0].file_type, "txt");
    assert_eq!(progress.current_batch[0].file_size, 12);
    assert_eq!(progress.current_batch[0].modified_at, "2015-05-15T00:00:00+00:00");
    assert_eq!(progress.current_batch[0].scanned_at, "2026-01-21T09:00:00+00:00");
    assert!(progress.is_complete);
}

#[test]
fn hidden_files_are_included_when_asked_for() {
    let mut service = docs_service();
    let list = service
        .scan_directory(1, true, Some("node_modules".to_string()), &vec![docs_walk()], "2026-01-21T09:00:00+00:00")
        .unwrap();
    let names: Vec<&str> = list.iter().map(|r| r.file_name.as_str()).collect();
    assert_eq!(names, vec!["a.txt", ".secret"]);
    assert_eq!(list[1].file_type, "unknown");
}

#[test]
fn hidden_files_are_left_out_by_default() {
    let mut service = docs_service();
    let list = service.scan_directory(1, false, None, &vec![docs_walk()], "now").unwrap();
    let names: Vec<&str> = list.iter().map(|r| r.file_name.as_str()).collect();
    assert_eq!(names, vec!["a.txt", "x.js"]);
    for item in &list {
        assert!(!item.file_name.starts_with('.'));
        assert!(item.file_path.starts_with("/docs"));
    }
}

#[test]
fn ignored_names_match_whole_segments_in_any_case() {
    let ignore = parse_ignore_list(&Some(" Node_Modules , ,target".to_string()));
    assert_eq!(ignore, vec!["node_modules".to_string(), "target".to_string()]);
    let events = vec![
        file("/docs/NODE_MODULES/x.js"),
        file("/docs/node_modules_old/y.js"),
        file("/docs/deep/Target/z.o"),
        file("/docs/targets.txt"),
    ];
    let found = scan_path("/docs", &events, false, &ignore, "now");
    let names: Vec<&str> = found.iter().map(|r| r.file_name.as_str()).collect();
    assert_eq!(names, vec!["y.js", "targets.txt"]);
    assert!(is_ignored_name("TARGET", &ignore));
    assert!(!is_ignored_name("targets", &ignore));
}

#[test]
fn ignored_names_are_trimmed_of_any_white_space() {
    assert_eq!(parse_ignore_list(&Some("\u{3000}Build\t,\n dist \r\n".to_string())), vec!["build".to_string(), "dist".to_string()]);
    assert_eq!(parse_ignore_list(&Some("a b".to_string())), vec!["a b".to_string()]);
    assert_eq!(parse_ignore_list(&Some("x,,y".to_string())), vec!["x".to_string(), "y".to_string()]);
    assert_eq!(parse_ignore_list(&Some("ÄB".to_string())), vec!["äb".to_string()]);
}

#[test]
fn ignored_names_match_in_any_case_of_any_letter() {
    for list in ["ÉCOLE", "école", "École"] {
        let ignore = parse_ignore_list(&Some(list.to_string()));
        assert_eq!(ignore, vec!["école".to_string()]);
        let events = vec![
            dir("/docs/ÉCOLE"),
            file("/docs/ÉCOLE/a.txt"),
            file("/docs/école/b.txt"),
            file("/docs/Ecole/c.txt"),
        ];
        let found = scan_path("/docs", &events, false, &ignore, "now");
        let names: Vec<&str> = found.iter().map(|r| r.file_name.as_str()).collect();
        assert_eq!(names, vec!["c.txt"]);
        assert!(is_ignored_name("ÉCOLE", &ignore));
        assert!(is_ignored_name("école", &ignore));
        assert!(!is_ignored_name("ecole", &ignore));
        match &events[0] {
            WalkEvent::Entry(entry) => assert!(is_pruned(entry, &ignore)),
            WalkEvent::Failed(_) => unreachable!(),
        }
    }
}

#[test]
fn the_name_of_a_resource_is_the_last_segment_of_its_path() {
    let found = scan_path(
        "/docs",
        &vec![file("/docs/sub/a.txt"), file("/docs\\win\\b.TXT"), file("/docs/.hidden")],
        true,
        &vec![],
        "now",
    );
    let shown: Vec<(&str, &str)> = found.iter().map(|r| (r.file_name.as_str(), r.file_type.as_str())).collect();
    assert_eq!(shown, vec![("a.txt", "txt"), ("b.TXT", "txt"), (".hidden", "unknown")]);
    let trailing = WalkEvent::Entry(WalkEntry {
        path: "/docs/node_modules/".to_string(),
        kind: EntryKind::Directory,
        metadata: None,
    });
    assert_eq!(classify_event("/docs", &trailing, false, &vec!["node_modules".to_string()], "now"), WalkDecision::Prune);
}

#[test]
fn an_empty_ignore_list_ignores_nothing() {
    assert_eq!(parse_ignore_list(&None), Vec::<String>::new());
    assert_eq!(parse_ignore_list(&Some("".to_string())), Vec::<String>::new());
    assert_eq!(parse_ignore_list(&Some(" , ,".to_string())), Vec::<String>::new());
}

#[test]
fn each_event_gets_its_decision() {
    let ignore = vec!["node_modules".to_string()];
    let decide = |event: &WalkEvent, show_hidden: bool| classify_event("/docs", event, show_hidden, &ignore, "now");
    assert_eq!(decide(&dir("/docs/node_modules"), false), WalkDecision::Prune);
    assert_eq!(decide(&dir("/docs/.git"), false), WalkDecision::Skip(SkipReason::NotAFile));
    assert_eq!(decide(&WalkEvent::Failed("permission denied".to_string()), false), WalkDecision::Skip(SkipReason::Unreadable));
    assert_eq!(decide(&file("/docs/.secret"), false), WalkDecision::Skip(SkipReason::Hidden));
    assert_eq!(decide(&file("/docs/node_modules/x.js"), true), WalkDecision::Skip(SkipReason::Ignored));
    assert_eq!(decide(&file("/other/a.txt"), true), WalkDecision::Skip(SkipReason::OutsideRoot));
    assert_eq!(decide(&file("/docs2/a.txt"), true), WalkDecision::Skip(SkipReason::OutsideRoot));
    let unreadable = WalkEvent::Entry(WalkEntry {
        path: "/docs/a.txt".to_string(),
        kind: EntryKind::File,
        metadata: None,
    });
    assert_eq!(decide(&unreadable, true), WalkDecision::Skip(SkipReason::NoMetadata));
    let link = WalkEvent::Entry(WalkEntry {
        path: "/docs/link".to_string(),
        kind: EntryKind::Other,
        metadata: None,
    });
    assert_eq!(decide(&link, true), WalkDecision::Skip(SkipReason::NotAFile));
    match decide(&file("/docs/.git/config"), false) {
        WalkDecision::Emit(item) => assert_eq!(item.file_path, "/docs/.git/config"),
        other => panic!("a file in a dot directory is scanned, got {:?}", other),
    }
}

#[test]
fn a_missing_modification_time_falls_back_to_the_scan_time() {
    let event = WalkEvent::Entry(WalkEntry {
        path: "/docs/a.TXT".to_string(),
        kind: EntryKind::File,
        metadata: Some(FileMetadata { size: 0, modified: None }),
    });
    let found = scan_path("/docs", &vec![event], false, &vec![], "2026-01-21T09:00:00+00:00");
    assert_eq!(found.len(), 1);
    assert_eq!(found[0].modified_at, "2026-01-21T09:00:00+00:00");
    assert_eq!(found[0].file_type, "txt");
    let unwritable = WalkEvent::Entry(WalkEntry {
        path: "/docs/b".to_string(),
        kind: EntryKind::File,
        metadata: Some(FileMetadata { size: 0, modified: Some(Timestamp { secs: i64::MAX, nanos: 0 }) }),
    });
    let found = scan_path("/docs", &vec![unwritable], false, &vec![], "then");
    assert_eq!(found[0].modified_at, "then");
}

#[test]
fn timestamps_are_written_in_utc() {
    let written = |secs: i64, nanos: u32| {
        let event = WalkEvent::Entry(WalkEntry {
            path: "/docs/a".to_string(),
            kind: EntryKind::File,
            metadata: Some(FileMetadata { size: 0, modified: Some(Timestamp { secs, nanos }) }),
        });
        scan_path("/docs", &vec![event], false, &vec![], "none").remove(0).modified_at
    };
    assert_eq!(written(0, 0), "1970-01-01T00:00:00+00:00");
    assert_eq!(written(1, 500_000_000), "1970-01-01T00:00:01.500+00:00");
    assert_eq!(written(-1, 0), "1969-12-31T23:59:59+00:00");
    assert_eq!(written(i64::MAX, 0), "none");
    assert_eq!(written(0, 2_000_000_000), "none");
}

#[test]
fn file_types_follow_the_last_dot() {
    assert_eq!(get_file_type("a.txt"), "txt");
    assert_eq!(get_file_type("archive.tar.GZ"), "gz");
    assert_eq!(get_file_type("README"), "unknown");
    assert_eq!(get_file_type(".bashrc"), "unknown");
    assert_eq!(get_file_type(".."), "unknown");
    assert_eq!(get_file_type("a."), "");
    assert_eq!(get_file_type(".config.JSON"), "json");
    assert!(is_hidden(".bashrc"));
    assert!(!is_hidden("a.txt"));
    assert!(!is_hidden(""));
}

#[test]
fn binding_looks_at_the_path_then_at_the_category() {
    let mut service = DirectoryService::new();
    let now = || "2026-01-20 16:46:21".to_string();
    assert_eq!(
        service.bind_directory(1, "/gone".to_string(), PathKind::Missing, false, now()),
        Err(AppError::PathNotFound("/gone".to_string()))
    );
    assert_eq!(
        service.bind_directory(1, "/a.txt".to_string(), PathKind::NotDirectory, true, now()),
        Err(AppError::InvalidInput("Path is not a directory".to_string()))
    );
    assert_eq!(service.bind_directory(7, "/docs".to_string(), PathKind::Directory, false, now()), Err(AppError::CategoryNotFound));
    let first = service.bind_directory(1, "/docs".to_string(), PathKind::Directory, true, now()).unwrap();
    assert_eq!(first.id, 1);
    assert_eq!(first.category_id, 1);
    assert_eq!(first.directory_path, "/docs");
    assert_eq!(first.created_at, "2026-01-20 16:46:21");
    assert!(matches!(service.bind_directory(1, "/docs".to_string(), PathKind::Directory, true, now()), Err(AppError::Database(_))));
    let second = service.bind_directory(2, "/docs".to_string(), PathKind::Directory, true, now()).unwrap();
    assert_eq!(second.id, 2);
    assert_eq!(service.get_bindings(1), vec![first]);
    service.unbind_directory(1);
    assert_eq!(service.get_bindings(1), vec![]);
    assert_eq!(service.get_bindings(2), vec![second]);
}

#[test]
fn walks_must_be_those_of_the_bindings() {
    let mut service = docs_service();
    assert!(matches!(service.scan_directory(1, false, None, &vec![], "now"), Err(AppError::InvalidInput(_))));
    let other = DirectoryWalk { root: "/other".to_string(), events: vec![] };
    assert!(matches!(service.scan_directory(1, false, None, &vec![other], "now"), Err(AppError::InvalidInput(_))));
    assert_eq!(service.scan_directory(2, false, None, &vec![], "now"), Ok(vec![]));
}

#[test]
fn batch_size_must_be_positive() {
    let mut service = docs_service();
    for size in [0, -1, i32::MIN] {
        assert!(matches!(
            service.scan_directory_batch(1, false, None, size, &vec![docs_walk()], "now"),
            Err(AppError::InvalidInput(_))
        ));
    }
    assert!(service.needs_scan(1));
}

#[test]
fn only_ignored_directories_are_pruned() {
    let ignore = vec!["node_modules".to_string()];
    let entry = |event: WalkEvent| match event {
        WalkEvent::Entry(entry) => entry,
        WalkEvent::Failed(_) => unreachable!(),
    };
    assert!(is_pruned(&entry(dir("/docs/Node_Modules")), &ignore));
    assert!(!is_pruned(&entry(dir("/docs/src")), &ignore));
    assert!(!is_pruned(&entry(file("/docs/node_modules")), &ignore));
    assert!(!is_pruned(&entry(dir("/docs/node_modules")), &vec![]));
}

#[test]
fn stored_resources_carry_the_category_and_new_ids() {
    let mut service = docs_service();
    service.scan_directory(1, true, None, &vec![docs_walk()], "t1").unwrap();
    let rows = service.get_resources(1);
    let stored: Vec<(i64, i64, &str)> = rows.iter().map(|r| (r.id, r.category_id, r.file_name.as_str())).collect();
    assert_eq!(stored, vec![(1, 1, "a.txt"), (2, 1, ".secret"), (3, 1, "x.js")]);
    service.scan_directory(1, false, Some("node_modules".to_string()), &vec![docs_walk()], "t2").unwrap();
    let rows = service.get_resources(1);
    let stored: Vec<(i64, i64, &str)> = rows.iter().map(|r| (r.id, r.category_id, r.file_name.as_str())).collect();
    assert_eq!(stored, vec![(4, 1, "a.txt")]);
    assert_eq!(rows[0].scanned_at, "t2");
    assert_eq!(service.get_resources(2), vec![]);
}
