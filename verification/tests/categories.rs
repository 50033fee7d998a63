use resource_manager::category::{build_tree_static, sort_by_order, validate_categories, CategoryService};
use resource_manager::error::AppError;
use resource_manager::models::{Category, CategoryNode, CreateCategoryRequest, DeleteStrategy, UpdateCategoryRequest};
use std::collections::HashMap;

fn category(id: i64, parent_id: Option<i64>, sort_order: i32) -> Category {
    Category {
        id,
        name: format!("c{}", id),
        description: None,
        icon: None,
        color: None,
        parent_id,
        sort_order,
        has_password: false,
        created_at: "t0".to_string(),
        updated_at: "t0".to_string(),
    }
}

fn request(name: &str, parent_id: Option<i64>) -> CreateCategoryRequest {
    CreateCategoryRequest { name: name.to_string(), description: None, icon: None, color: None, parent_id }
}

fn no_change() -> UpdateCategoryRequest {
    UpdateCategoryRequest { name: None, description: None, icon: None, color: None, sort_order: None }
}

/// 1 and 2 are roots; 3 and 4 are children of 1; 5 is a child of 3.
fn family() -> Vec<Category> {
    vec![category(1, None, 0), category(2, None, 1), category(3, Some(1), 0), category(4, Some(1), 1), category(5, Some(3), 0)]
}

fn parent_of(list: &[Category], id: i64) -> Option<i64> {
    list.iter().find(|c| c.id == id).unwrap().parent_id
}

fn ids(list: &[Category]) -> Vec<i64> {
    list.iter().map(|c| c.id).collect()
}

fn shape(nodes: &[CategoryNode]) -> String {
    nodes.iter().map(|n| format!("{}[{}]", n.category.id, shape(&n.children))).collect::<Vec<_>>().join(",")
}

#[test]
fn a_list_with_a_cycle_is_refused() {
    let cycle = vec![category(1, Some(2), 0), category(2, Some(3), 0), category(3, Some(1), 0), category(4, None, 0)];
    assert!(!validate_categories(&cycle));
    assert!(matches!(CategoryService::new(cycle), Err(AppError::InvalidInput(_))));
    let own_parent = vec![category(1, Some(1), 0)];
    assert!(!validate_categories(&own_parent));
}

#[test]
fn a_list_with_a_missing_parent_or_a_double_id_is_refused() {
    assert!(!validate_categories(&vec![category(1, Some(9), 0)]));
    assert!(!validate_categories(&vec![category(1, None, 0), category(1, None, 1)]));
    assert!(validate_categories(&vec![]));
}

#[test]
fn parents_end_at_a_root_within_the_number_of_categories() {
    let chain: Vec<Category> = (1..=50).map(|i| category(i, if i == 1 { None } else { Some(i - 1) }, 0)).collect();
    assert!(validate_categories(&chain));
    let service = CategoryService::new(chain).unwrap();
    let list = service.list_categories();
    for start in &list {
        let mut steps = 0;
        let mut at = start.id;
        while let Some(parent) = parent_of(&list, at) {
            at = parent;
            steps += 1;
            assert!(steps <= list.len());
        }
    }
}

#[test]
fn promoting_children_splices_the_category_out() {
    let mut service = CategoryService::new(family()).unwrap();
    assert_eq!(service.delete_category(3, DeleteStrategy::PromoteChildren), Ok(vec![3]));
    let list = service.list_categories();
    assert_eq!(ids(&list), vec![1, 2, 4, 5]);
    assert_eq!(parent_of(&list, 5), Some(1));
    assert_eq!(parent_of(&list, 4), Some(1));
    assert!(!service.category_exists(3));
    assert_eq!(service.delete_category(1, DeleteStrategy::PromoteChildren), Ok(vec![1]));
    let list = service.list_categories();
    assert_eq!(ids(&list), vec![2, 4, 5]);
    assert_eq!(parent_of(&list, 4), None);
    assert_eq!(parent_of(&list, 5), None);
}

#[test]
fn grandchildren_stay_with_the_promoted_child() {
    let mut service = CategoryService::new(family()).unwrap();
    assert_eq!(service.delete_category(1, DeleteStrategy::PromoteChildren), Ok(vec![1]));
    let list = service.list_categories();
    assert_eq!(parent_of(&list, 3), None);
    assert_eq!(parent_of(&list, 4), None);
    assert_eq!(parent_of(&list, 5), Some(3));
}

#[test]
fn deleting_all_takes_the_subtree() {
    let mut service = CategoryService::new(family()).unwrap();
    assert_eq!(service.delete_category(1, DeleteStrategy::DeleteAll), Ok(vec![1, 3, 4, 5]));
    assert_eq!(ids(&service.list_categories()), vec![2]);
    assert_eq!(service.delete_category(1, DeleteStrategy::DeleteAll), Err(AppError::CategoryNotFound));
    assert_eq!(service.delete_category(9, DeleteStrategy::PromoteChildren), Err(AppError::CategoryNotFound));
    assert_eq!(ids(&service.list_categories()), vec![2]);
}

#[test]
fn a_new_category_is_the_last_of_its_siblings() {
    let mut service = CategoryService::new(family()).unwrap();
    let made = service.create_category(request("docs", Some(1)), "t1".to_string()).unwrap();
    assert_eq!(made.id, 6);
    assert_eq!(made.name, "docs");
    assert_eq!(made.parent_id, Some(1));
    assert_eq!(made.sort_order, 2);
    assert!(!made.has_password);
    assert_eq!(made.created_at, "t1");
    assert_eq!(made.updated_at, "t1");
    let first_child = service.create_category(request("leaf", Some(5)), "t2".to_string()).unwrap();
    assert_eq!(first_child.id, 7);
    assert_eq!(first_child.sort_order, 0);
    let root = service.create_category(request("root", None), "t3".to_string()).unwrap();
    assert_eq!(root.sort_order, 2);
    assert_eq!(service.create_category(request("lost", Some(99)), "t4".to_string()), Err(AppError::CategoryNotFound));
    assert_eq!(service.list_categories().len(), 8);
}

#[test]
fn ids_are_not_given_twice() {
    let mut service = CategoryService::new(vec![]).unwrap();
    let a = service.create_category(request("a", None), "t".to_string()).unwrap();
    assert_eq!(a.id, 1);
    service.delete_category(1, DeleteStrategy::DeleteAll).unwrap();
    let b = service.create_category(request("b", None), "t".to_string()).unwrap();
    assert_eq!(b.id, 2);
    let mut full = CategoryService::new(vec![category(i64::MAX, None, 0)]).unwrap();
    assert!(matches!(full.create_category(request("c", None), "t".to_string()), Err(AppError::Database(_))));
    let mut last_order = CategoryService::new(vec![category(1, None, i32::MAX)]).unwrap();
    assert!(matches!(last_order.create_category(request("c", None), "t".to_string()), Err(AppError::Database(_))));
    assert!(last_order.create_category(request("c", Some(1)), "t".to_string()).is_ok());
}

#[test]
fn an_update_changes_the_fields_that_are_given() {
    let mut service = CategoryService::new(family()).unwrap();
    let req = UpdateCategoryRequest { name: Some("books".to_string()), color: Some("#fff".to_string()), sort_order: Some(7), ..no_change() };
    let changed = service.update_category(3, req, "t1".to_string()).unwrap();
    assert_eq!(changed.name, "books");
    assert_eq!(changed.color, Some("#fff".to_string()));
    assert_eq!(changed.sort_order, 7);
    assert_eq!(changed.parent_id, Some(1));
    assert_eq!(changed.created_at, "t0");
    assert_eq!(changed.updated_at, "t1");
    assert_eq!(service.list_categories()[2], changed);
    let same = service.update_category(4, no_change(), "t2".to_string()).unwrap();
    assert_eq!(same, category(4, Some(1), 1));
    assert_eq!(service.update_category(9, no_change(), "t3".to_string()), Err(AppError::CategoryNotFound));
}

#[test]
fn reordering_is_all_or_nothing() {
    let mut service = CategoryService::new(family()).unwrap();
    assert_eq!(service.reorder_categories(vec![(3, 5), (9, 1)], "t1".to_string()), Err(AppError::CategoryNotFound));
    assert_eq!(service.list_categories(), family());
    assert_eq!(service.reorder_categories(vec![(3, 5), (4, 2), (3, 9)], "t1".to_string()), Ok(()));
    let list = service.list_categories();
    assert_eq!(list[2].sort_order, 9);
    assert_eq!(list[2].updated_at, "t1");
    assert_eq!(list[3].sort_order, 2);
    assert_eq!(list[0], category(1, None, 0));
}

#[test]
fn a_category_cannot_be_moved_below_itself() {
    let mut service = CategoryService::new(family()).unwrap();
    assert!(matches!(service.move_category(1, Some(5), "t".to_string()), Err(AppError::InvalidInput(_))));
    assert!(matches!(service.move_category(1, Some(1), "t".to_string()), Err(AppError::InvalidInput(_))));
    assert_eq!(service.move_category(1, Some(9), "t".to_string()), Err(AppError::CategoryNotFound));
    assert_eq!(service.move_category(9, None, "t".to_string()), Err(AppError::CategoryNotFound));
    assert_eq!(service.list_categories(), family());
    let moved = service.move_category(3, Some(2), "t1".to_string()).unwrap();
    assert_eq!(moved.parent_id, Some(2));
    assert_eq!(moved.updated_at, "t1");
    let list = service.list_categories();
    assert_eq!(parent_of(&list, 3), Some(2));
    assert_eq!(parent_of(&list, 5), Some(3));
    assert!(validate_categories(&list));
    assert!(service.move_category(5, None, "t2".to_string()).is_ok());
    assert_eq!(parent_of(&service.list_categories(), 5), None);
}

#[test]
fn the_tree_follows_the_sort_orders() {
    let list = vec![category(1, None, 2), category(2, None, 1), category(3, Some(1), 5), category(4, Some(1), 5), category(5, Some(1), 0)];
    let sorted = sort_by_order(&list);
    assert_eq!(ids(&sorted), vec![5, 2, 1, 3, 4]);
    let service = CategoryService::new(list).unwrap();
    let mut stats = HashMap::new();
    stats.insert(1, (2, 30));
    stats.insert(5, (1, 4));
    let tree = service.get_category_tree(&stats);
    assert_eq!(shape(&tree), "2[],1[5[],3[],4[]]");
    assert_eq!((tree[1].directory_count, tree[1].resource_count), (2, 30));
    assert_eq!((tree[0].directory_count, tree[0].resource_count), (0, 0));
    assert_eq!((tree[1].children[0].directory_count, tree[1].children[0].resource_count), (1, 4));
    assert_eq!(tree[1].children[1].category, category(3, Some(1), 5));
}

#[test]
fn a_deep_tree_is_built_whole() {
    let chain: Vec<Category> = (1..=30).map(|i| category(i, if i == 1 { None } else { Some(i - 1) }, 0)).collect();
    let tree = build_tree_static(&chain, &HashMap::new(), None);
    let mut depth = 0;
    let mut level = &tree;
    while !level.is_empty() {
        assert_eq!(level.len(), 1);
        depth += 1;
        assert_eq!(level[0].category.id, depth);
        level = &level[0].children;
    }
    assert_eq!(depth, 30);
    assert_eq!(shape(&build_tree_static(&family(), &HashMap::new(), Some(1))), "3[5[]],4[]");
    assert_eq!(shape(&build_tree_static(&family(), &HashMap::new(), Some(9))), "");
}

#[test]
fn categories_in_a_cycle_are_not_in_the_tree() {
    let list = vec![category(1, None, 0), category(2, Some(3), 0), category(3, Some(2), 0)];
    assert_eq!(shape(&build_tree_static(&list, &HashMap::new(), None)), "1[]");
}
