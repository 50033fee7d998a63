use resource_manager::directory::{DirectoryService, DirectoryWalk, PathKind};
use resource_manager::models::ResourceItem;
use resource_manager::session::{ScanState, SessionStore};
use resource_manager::walker::{EntryKind, FileMetadata, WalkEntry, WalkEvent};

fn resource(name: &str) -> ResourceItem {
    ResourceItem {
        id: 0,
        category_id: 0,
        file_name: name.to_string(),
        file_path: format!("/r/{}", name),
        file_size: 1,
        file_type: "txt".to_string(),
        modified_at: "m".to_string(),
        scanned_at: "s".to_string(),
    }
}

fn resources(n: usize) -> Vec<ResourceItem> {
    (0..n).map(|i| resource(&format!("f{}.txt", i))).collect()
}

fn walk(root: &str, names: &[&str]) -> DirectoryWalk {
    DirectoryWalk {
        root: root.to_string(),
        events: names
            .iter()
            .map(|name| {
                WalkEvent::Entry(WalkEntry {
                    path: format!("{}/{}", root, name),
                    kind: EntryKind::File,
                    metadata: Some(FileMetadata { size: 3, modified: None }),
                })
            })
            .collect(),
    }
}

fn two_categories() -> DirectoryService {
    let mut service = DirectoryService::new();
    service.bind_directory(1, "/a".to_string(), PathKind::Directory, true, "t".to_string()).unwrap();
    service.bind_directory(1, "/b".to_string(), PathKind::Directory, true, "t".to_string()).unwrap();
    service.bind_directory(2, "/c".to_string(), PathKind::Directory, true, "t".to_string()).unwrap();
    service
}

fn walks_of_1() -> Vec<DirectoryWalk> {
    vec![walk("/a", &["1.txt", "2.txt", "3.txt"]), walk("/b", &["4.txt", "5.txt"])]
}

fn names(list: &[ResourceItem]) -> Vec<String> {
    list.iter().map(|r| r.file_name.clone()).collect()
}

#[test]
fn a_scan_state_hands_out_its_resources_in_batches() {
    let mut state = ScanState::new();
    assert_eq!(state.get_total_count(), 0);
    assert_eq!(state.category_id(), 0);
    state.reset(7);
    state.add_resources(resources(3));
    state.add_resources(resources(2));
    assert_eq!(state.category_id(), 7);
    assert_eq!(state.get_total_count(), 5);
    assert_eq!(state.get_scanned_count(), 0);
    assert_eq!(names(&state.get_next_batch(2)), vec!["f0.txt", "f1.txt"]);
    assert_eq!(state.get_scanned_count(), 2);
    assert!(!state.is_complete());
    assert_eq!(names(&state.get_next_batch(0)), Vec::<String>::new());
    assert!(!state.is_complete());
    assert_eq!(names(&state.get_next_batch(usize::MAX)), vec!["f2.txt", "f0.txt", "f1.txt"]);
    assert_eq!(state.get_scanned_count(), 5);
    assert!(state.is_complete());
    assert_eq!(state.get_next_batch(4), vec![]);
    state.reset(8);
    assert_eq!(state.get_total_count(), 0);
    assert!(!state.is_complete());
}

#[test]
fn a_store_keeps_one_session_for_each_category() {
    let mut store = SessionStore::new();
    assert!(store.needs_gather(1));
    assert_eq!(store.next_batch(1, 10), None);
    store.begin(1, resources(3));
    store.begin(2, resources(1));
    assert!(!store.needs_gather(1));
    let first = store.next_batch(1, 2).unwrap();
    assert_eq!((first.total_files, first.scanned_files, first.is_complete), (3, 2, false));
    let other = store.next_batch(2, 2).unwrap();
    assert_eq!((other.total_files, other.scanned_files, other.is_complete), (1, 1, true));
    assert!(store.needs_gather(2));
    let second = store.next_batch(1, 2).unwrap();
    assert_eq!(names(&second.current_batch), vec!["f2.txt"]);
    assert_eq!((second.total_files, second.scanned_files, second.is_complete), (3, 3, true));
    store.remove(1);
    assert_eq!(store.next_batch(1, 2), None);
}

#[test]
fn the_batches_of_a_session_are_the_eager_scan() {
    for batch_size in [1, 2, 3, 5, 100] {
        let mut eager = two_categories();
        let all = eager.scan_directory(1, false, None, &walks_of_1(), "now").unwrap();
        assert_eq!(names(&all), vec!["1.txt", "2.txt", "3.txt", "4.txt", "5.txt"]);
        let mut service = two_categories();
        let mut batches: Vec<ResourceItem> = Vec::new();
        let mut sizes = 0;
        let mut calls = 0;
        loop {
            let progress = service.scan_directory_batch(1, false, None, batch_size, &walks_of_1(), "now").unwrap();
            calls += 1;
            assert_eq!(progress.total_files, 5);
            assert!(progress.current_batch.len() <= batch_size as usize);
            sizes += progress.current_batch.len() as i64;
            assert_eq!(progress.scanned_files, sizes);
            batches.extend(progress.current_batch);
            if progress.is_complete {
                assert_eq!(sizes, progress.total_files);
                break;
            }
        }
        assert_eq!(calls, (5 + batch_size - 1) / batch_size);
        assert_eq!(batches, all);
    }
}

#[test]
fn a_session_keeps_the_snapshot_of_its_gather() {
    let mut service = two_categories();
    let first = service.scan_directory_batch(1, false, None, 2, &walks_of_1(), "now").unwrap();
    assert_eq!(names(&first.current_batch), vec!["1.txt", "2.txt"]);
    assert!(!service.needs_scan(1));
    let later = vec![walk("/a", &["new.txt"]), walk("/b", &[])];
    let second = service.scan_directory_batch(1, false, None, 2, &later, "later").unwrap();
    assert_eq!(names(&second.current_batch), vec!["3.txt", "4.txt"]);
    assert_eq!(second.total_files, 5);
    let third = service.scan_directory_batch(1, false, None, 2, &vec![], "later").unwrap();
    assert_eq!(names(&third.current_batch), vec!["5.txt"]);
    assert!(third.is_complete);
}

#[test]
fn a_finished_session_is_not_gone_on_with() {
    let mut service = two_categories();
    let a = service.scan_directory_batch(1, false, None, 10, &walks_of_1(), "t1").unwrap();
    assert!(a.is_complete);
    let b = service.scan_directory_batch(2, false, None, 10, &vec![walk("/c", &["x.txt"])], "t2").unwrap();
    assert_eq!(names(&b.current_batch), vec!["x.txt"]);
    assert!(service.needs_scan(1));
    let again = service
        .scan_directory_batch(1, false, None, 2, &vec![walk("/a", &["1.txt", "9.txt"]), walk("/b", &["4.txt"])], "t3")
        .unwrap();
    assert_eq!(again.total_files, 3);
    assert_eq!(again.scanned_files, 2);
    assert_eq!(names(&again.current_batch), vec!["1.txt", "9.txt"]);
    assert_eq!(again.current_batch[0].scanned_at, "t3");
    assert!(!again.is_complete);
}

#[test]
fn interleaved_categories_do_not_disturb_each_other() {
    let mut service = two_categories();
    let a1 = service.scan_directory_batch(1, false, None, 2, &walks_of_1(), "t").unwrap();
    let b1 = service.scan_directory_batch(2, false, None, 1, &vec![walk("/c", &["x.txt", "y.txt"])], "t").unwrap();
    let a2 = service.scan_directory_batch(1, false, None, 2, &vec![], "t").unwrap();
    let b2 = service.scan_directory_batch(2, false, None, 1, &vec![], "t").unwrap();
    assert_eq!(names(&a1.current_batch), vec!["1.txt", "2.txt"]);
    assert_eq!(names(&a2.current_batch), vec!["3.txt", "4.txt"]);
    assert_eq!(names(&b1.current_batch), vec!["x.txt"]);
    assert_eq!(names(&b2.current_batch), vec!["y.txt"]);
    assert!(b2.is_complete);
    assert!(!a2.is_complete);
}

#[test]
fn an_empty_scan_is_complete_at_once() {
    let mut service = two_categories();
    let progress = service.scan_directory_batch(3, false, None, 5, &vec![], "t").unwrap();
    assert_eq!((progress.total_files, progress.scanned_files, progress.is_complete), (0, 0, true));
    assert_eq!(progress.current_batch, vec![]);
}

#[test]
fn a_scan_replaces_the_stored_resources_of_its_category() {
    let mut service = two_categories();
    service.scan_directory(1, false, None, &walks_of_1(), "t1").unwrap();
    service.scan_directory(2, false, None, &vec![walk("/c", &["x.txt"])], "t1").unwrap();
    assert_eq!(service.count_resources(1), 5);
    assert_eq!(service.count_resources(2), 1);
    service.scan_directory(1, false, None, &vec![walk("/a", &["1.txt"]), walk("/b", &[])], "t2").unwrap();
    assert_eq!(service.count_resources(1), 1);
    assert_eq!(service.count_resources(2), 1);
    assert_eq!(service.count_directory_bindings(1), 2);
    let stats = service.category_stats(&vec![1, 2, 3]);
    assert_eq!(stats.get(&1), Some(&(2, 1)));
    assert_eq!(stats.get(&2), Some(&(1, 1)));
    assert_eq!(stats.get(&3), Some(&(0, 0)));
    assert_eq!(stats.len(), 3);
}

#[test]
fn a_path_is_stored_once_for_a_category() {
    let mut service = DirectoryService::new();
    service.bind_directory(1, "/a".to_string(), PathKind::Directory, true, "t".to_string()).unwrap();
    service.bind_directory(1, "/a/sub".to_string(), PathKind::Directory, true, "t".to_string()).unwrap();
    let outer = DirectoryWalk { root: "/a".to_string(), events: walk("/a/sub", &["x.txt"]).events };
    let found = service.scan_directory(1, false, None, &vec![outer, walk("/a/sub", &["x.txt", "y.txt"])], "t").unwrap();
    assert_eq!(names(&found), vec!["x.txt", "x.txt", "y.txt"]);
    assert_eq!(service.count_resources(1), 2);
    assert_eq!(service.save_resources(1, &resources(3)), Ok(()));
    assert_eq!(service.count_resources(1), 3);
}

#[test]
fn deleted_categories_leave_nothing_behind() {
    let mut service = two_categories();
    service.scan_directory_batch(1, false, None, 1, &walks_of_1(), "t").unwrap();
    service.scan_directory(2, false, None, &vec![walk("/c", &["x.txt"])], "t").unwrap();
    service.remove_categories(&vec![1, 7]);
    assert_eq!(service.get_bindings(1), vec![]);
    assert_eq!(service.count_resources(1), 0);
    assert!(service.needs_scan(1));
    assert_eq!(service.get_bindings(2).len(), 1);
    assert_eq!(service.count_resources(2), 1);
}

#[test]
fn stored_tables_are_taken_up_again() {
    let mut service = two_categories();
    service.scan_directory(1, false, None, &walks_of_1(), "t").unwrap();
    let bindings = [service.get_bindings(1), service.get_bindings(2)].concat();
    let mut restored = DirectoryService::restore(bindings.clone(), resources(2)).unwrap();
    assert_eq!(restored.get_bindings(1), service.get_bindings(1));
    assert_eq!(restored.count_resources(0), 2);
    let next = restored.bind_directory(2, "/d".to_string(), PathKind::Directory, true, "t".to_string()).unwrap();
    assert_eq!(next.id, 4);
    let twice = [bindings.clone(), bindings].concat();
    assert!(DirectoryService::restore(twice, vec![]).is_err());
}

#[test]
fn progress_counts_agree_with_completion() {
    let mut service = two_categories();
    let mut last_scanned = 0;
    loop {
        let progress = service.scan_directory_batch(1, false, None, 2, &walks_of_1(), "t").unwrap();
        assert!(0 <= progress.scanned_files && progress.scanned_files <= progress.total_files);
        assert_eq!(progress.is_complete, progress.scanned_files == progress.total_files);
        assert!(progress.current_batch.len() <= 2);
        assert!(progress.current_batch.len() == 2 || progress.is_complete);
        assert_eq!(progress.scanned_files, last_scanned + progress.current_batch.len() as i64);
        last_scanned = progress.scanned_files;
        if progress.is_complete {
            break;
        }
    }
    assert_eq!(last_scanned, 5);
}

#[test]
fn a_batch_scan_gives_out_ids_as_a_scan_does() {
    let mut service = two_categories();
    service.scan_directory_batch(1, false, None, 2, &walks_of_1(), "t").unwrap();
    let ids: Vec<i64> = service.get_resources(1).iter().map(|r| r.id).collect();
    assert_eq!(ids, vec![1, 2, 3, 4, 5]);
    service.scan_directory_batch(1, false, None, 2, &vec![], "t").unwrap();
    service.scan_directory(2, false, None, &vec![walk("/c", &["x.txt"])], "t").unwrap();
    let ids: Vec<i64> = service.get_resources(2).iter().map(|r| r.id).collect();
    assert_eq!(ids, vec![6]);
    service.reserve_ids(10, 20);
    service.scan_directory(2, false, None, &vec![walk("/c", &["x.txt"])], "t").unwrap();
    assert_eq!(service.get_resources(2)[0].id, 21);
    let bound = service.bind_directory(2, "/d".to_string(), PathKind::Directory, true, "t".to_string()).unwrap();
    assert_eq!(bound.id, 11);
    service.reserve_ids(0, 0);
    let bound = service.bind_directory(2, "/e".to_string(), PathKind::Directory, true, "t".to_string()).unwrap();
    assert_eq!(bound.id, 12);
}
