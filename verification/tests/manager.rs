use resource_manager::directory::{DirectoryWalk, PathKind};
use resource_manager::error::AppError;
use resource_manager::manager::ResourceManager;
use resource_manager::models::{Category, CreateCategoryRequest, DeleteStrategy, DirectoryBinding, ResourceItem, UpdateCategoryRequest};
use resource_manager::walker::{EntryKind, FileMetadata, WalkEntry, WalkEvent};

fn make(manager: &mut ResourceManager, name: &str, parent_id: Option<i64>) -> Category {
    let req = CreateCategoryRequest { name: name.to_string(), description: None, icon: None, color: None, parent_id };
    manager.create_category(req, "t0".to_string()).unwrap()
}

fn bind(manager: &mut ResourceManager, category_id: i64, path: &str) -> DirectoryBinding {
    manager.bind_directory(category_id, path.to_string(), PathKind::Directory, "t0".to_string()).unwrap()
}

fn walk(root: &str, names: &[&str]) -> DirectoryWalk {
    DirectoryWalk {
        root: root.to_string(),
        events: names
            .iter()
            .map(|name| {
                WalkEvent::Entry(WalkEntry {
                    path: format!("{}/{}", root, name),
                    kind: EntryKind::File,
                    metadata: Some(FileMetadata { size: 3, modified: None }),
                })
            })
            .collect(),
    }
}

/// books (1) with its child novels (2), and music (3); a directory for each.
fn library() -> ResourceManager {
    let mut manager = ResourceManager::new();
    make(&mut manager, "books", None);
    make(&mut manager, "novels", Some(1));
    make(&mut manager, "music", None);
    bind(&mut manager, 1, "/books");
    bind(&mut manager, 2, "/novels");
    bind(&mut manager, 3, "/music");
    manager.scan_directory(1, false, None, &vec![walk("/books", &["a.pdf", "b.pdf"])], "t1").unwrap();
    manager.scan_directory(2, false, None, &vec![walk("/novels", &["n.epub"])], "t1").unwrap();
    manager.scan_directory(3, false, None, &vec![walk("/music", &["s.mp3"])], "t1").unwrap();
    manager
}

fn names(list: &[ResourceItem]) -> Vec<&str> {
    list.iter().map(|r| r.file_name.as_str()).collect()
}

#[test]
fn the_tree_counts_directories_and_resources() {
    let manager = library();
    let tree = manager.get_category_tree();
    assert_eq!(tree.len(), 2);
    assert_eq!(tree[0].category.name, "books");
    assert_eq!((tree[0].directory_count, tree[0].resource_count), (1, 2));
    assert_eq!(tree[0].children.len(), 1);
    assert_eq!(tree[0].children[0].category.name, "novels");
    assert_eq!((tree[0].children[0].directory_count, tree[0].children[0].resource_count), (1, 1));
    assert_eq!(tree[1].category.name, "music");
    assert_eq!(tree[1].children.len(), 0);
}

#[test]
fn scans_of_unknown_categories_are_refused() {
    let mut manager = library();
    assert_eq!(manager.scan_directory(9, false, None, &vec![], "t"), Err(AppError::CategoryNotFound));
    assert_eq!(manager.scan_directory_batch(9, false, None, 5, &vec![], "t"), Err(AppError::CategoryNotFound));
    assert_eq!(
        manager.bind_directory(9, "/x".to_string(), PathKind::Directory, "t".to_string()),
        Err(AppError::CategoryNotFound)
    );
    assert_eq!(
        manager.bind_directory(9, "/x".to_string(), PathKind::Missing, "t".to_string()),
        Err(AppError::PathNotFound("/x".to_string()))
    );
    assert!(matches!(manager.scan_directory_batch(1, false, None, 0, &vec![], "t"), Err(AppError::InvalidInput(_))));
    assert!(matches!(manager.scan_directory(1, false, None, &vec![], "t"), Err(AppError::InvalidInput(_))));
    assert_eq!(names(&manager.get_resources(1)), vec!["a.pdf", "b.pdf"]);
}

#[test]
fn deleting_a_subtree_takes_what_belongs_to_it() {
    let mut manager = library();
    manager.scan_directory_batch(2, false, None, 1, &vec![walk("/novels", &["n.epub", "m.epub"])], "t2").unwrap();
    assert!(!manager.needs_scan(2));
    assert_eq!(manager.delete_category(1, DeleteStrategy::DeleteAll), Ok(vec![1, 2]));
    assert!(!manager.category_exists(1));
    assert!(!manager.category_exists(2));
    assert_eq!(manager.get_bindings(1), vec![]);
    assert_eq!(manager.get_bindings(2), vec![]);
    assert_eq!(manager.get_resources(1), vec![]);
    assert_eq!(manager.get_resources(2), vec![]);
    assert!(manager.needs_scan(2));
    assert_eq!(manager.get_bindings(3).len(), 1);
    assert_eq!(names(&manager.get_resources(3)), vec!["s.mp3"]);
    assert_eq!(manager.delete_category(1, DeleteStrategy::DeleteAll), Err(AppError::CategoryNotFound));
}

#[test]
fn promoting_children_keeps_what_belongs_to_them() {
    let mut manager = library();
    assert_eq!(manager.delete_category(1, DeleteStrategy::PromoteChildren), Ok(vec![1]));
    let list = manager.list_categories();
    assert_eq!(list.iter().map(|c| (c.id, c.parent_id)).collect::<Vec<_>>(), vec![(2, None), (3, None)]);
    assert_eq!(manager.get_bindings(1), vec![]);
    assert_eq!(manager.get_resources(1), vec![]);
    assert_eq!(manager.get_bindings(2).len(), 1);
    assert_eq!(names(&manager.get_resources(2)), vec!["n.epub"]);
    let tree = manager.get_category_tree();
    assert_eq!(tree.iter().map(|n| n.category.id).collect::<Vec<_>>(), vec![2, 3]);
}

#[test]
fn categories_are_changed_through_the_manager() {
    let mut manager = library();
    let req = UpdateCategoryRequest { name: Some("songs".to_string()), description: None, icon: None, color: None, sort_order: None };
    assert_eq!(manager.update_category(3, req, "t2".to_string()).unwrap().name, "songs");
    assert_eq!(manager.reorder_categories(vec![(3, -1)], "t3".to_string()), Ok(()));
    let tree = manager.get_category_tree();
    assert_eq!(tree.iter().map(|n| n.category.id).collect::<Vec<_>>(), vec![3, 1]);
    assert!(matches!(manager.move_category(1, Some(2), "t4".to_string()), Err(AppError::InvalidInput(_))));
    assert_eq!(manager.move_category(2, Some(3), "t4".to_string()).unwrap().parent_id, Some(3));
    let tree = manager.get_category_tree();
    assert_eq!(tree[0].children[0].category.id, 2);
    manager.unbind_directory(1);
    assert_eq!(manager.get_bindings(1), vec![]);
    assert_eq!(manager.get_category_tree()[1].directory_count, 0);
}

#[test]
fn a_stored_state_is_taken_up_again() {
    let manager = library();
    let categories = manager.list_categories();
    let bindings: Vec<DirectoryBinding> = (1..=3).flat_map(|id| manager.get_bindings(id)).collect();
    let resources: Vec<ResourceItem> = (1..=3).flat_map(|id| manager.get_resources(id)).collect();
    let mut restored = ResourceManager::restore(categories.clone(), bindings.clone(), resources.clone()).unwrap();
    assert_eq!(restored.list_categories(), categories);
    assert_eq!(names(&restored.get_resources(1)), vec!["a.pdf", "b.pdf"]);
    assert!(restored.needs_scan(1));
    assert_eq!(make(&mut restored, "films", None).id, 4);
    let mut orphan = bindings.clone();
    orphan[0].category_id = 9;
    assert!(matches!(ResourceManager::restore(categories.clone(), orphan, vec![]), Err(AppError::InvalidInput(_))));
    let mut lost = resources.clone();
    lost[0].category_id = 9;
    assert!(matches!(ResourceManager::restore(categories.clone(), vec![], lost), Err(AppError::InvalidInput(_))));
    let mut cycle = categories;
    cycle[0].parent_id = Some(2);
    assert!(matches!(ResourceManager::restore(cycle, vec![], vec![]), Err(AppError::InvalidInput(_))));
}

#[test]
fn ids_follow_the_counters() {
    let mut manager = ResourceManager::new();
    assert_eq!(make(&mut manager, "a", None).id, 1);
    assert_eq!(make(&mut manager, "b", None).id, 2);
    manager.delete_category(2, DeleteStrategy::DeleteAll).unwrap();
    assert_eq!(make(&mut manager, "c", None).id, 3);
    let list = manager.list_categories();
    let mut restored = ResourceManager::restore(list, vec![], vec![]).unwrap();
    restored.reserve_ids(7, 4, 9);
    assert_eq!(make(&mut restored, "d", None).id, 8);
    assert_eq!(bind(&mut restored, 1, "/a").id, 5);
    restored.scan_directory(1, false, None, &vec![walk("/a", &["f.txt"])], "t").unwrap();
    assert_eq!(restored.get_resources(1)[0].id, 10);
    restored.reserve_ids(1, 1, 1);
    assert_eq!(make(&mut restored, "e", None).id, 9);
}
