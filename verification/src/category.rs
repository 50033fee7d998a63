//! The categories: the test that a list of them is a forest, the changes
//! that keep it one, and the tree that is built from it.

use vstd::prelude::*;
use std::collections::HashMap;
use crate::error::AppError;
use crate::models::{Category, CategoryNode, CreateCategoryRequest, DeleteStrategy, UpdateCategoryRequest};
use crate::tree::{
    descends, has_id, ids_of, in_subtree, index_of, lemma_chain_bounded, lemma_fuel_monotone, lemma_index_of,
    lemma_parents_end_at_root, lemma_promoted_valid, lemma_push_valid, lemma_same_graph_valid,
    lemma_moved_valid, lemma_without_subtree_valid, makes_cycle, moved, parent_of, promoted, reaches_root, reparented,
    same_graph, steps, subtree, unique_ids, valid_categories, well_founded, with_parent, without_subtree,
};

verus! {

broadcast use vstd::std_specs::hash::group_hash_axioms;

/// The place of the category with this id, if the list has one.
pub fn find_category(categories: &Vec<Category>, id: i64) -> (found: Option<usize>)
    ensures
        match found {
            Some(i) => i < categories.len() && categories[i as int].id == id,
            None => !has_id(categories@, id),
        },
{
    let mut i: usize = 0;
    while i < categories.len()
        invariant
            i <= categories.len(),
            forall|k: int| 0 <= k < i ==> (#[trigger] categories[k]).id != id,
        decreases categories.len() - i,
    {
        if categories[i].id == id {
            return Some(i);
        }
        i = i + 1;
    }
    None
}

fn ids_are_unique(categories: &Vec<Category>) -> (unique: bool)
    ensures
        unique == unique_ids(categories@),
{
    let n: usize = categories.len();
    let mut i: usize = 0;
    while i < n
        invariant
            i <= n,
            n == categories.len(),
            forall|a: int, b: int| 0 <= a < i && 0 <= b < n && a != b ==> (#[trigger] categories[a]).id != (#[trigger] categories[b]).id,
        decreases n - i,
    {
        let mut j: usize = 0;
        while j < n
            invariant
                i < n,
                j <= n,
                n == categories.len(),
                forall|b: int| 0 <= b < j && i != b ==> categories[i as int].id != (#[trigger] categories[b]).id,
            decreases n - j,
        {
            if j != i && categories[j].id == categories[i].id {
                return false;
            }
            j = j + 1;
        }
        i = i + 1;
    }
    true
}

/// Whether following parent references from the category at `start` ends at
/// a root within as many steps as the list has categories.
fn chain_ends(categories: &Vec<Category>, start: usize) -> (ends: bool)
    requires
        unique_ids(categories@),
        start < categories.len(),
    ensures
        ends == reaches_root(categories@, categories[start as int].id, categories.len() as nat),
{
    let mut current: usize = start;
    let mut fuel: usize = categories.len();
    loop
        invariant
            unique_ids(categories@),
            start < categories.len(),
            current < categories.len(),
            fuel <= categories.len(),
            reaches_root(categories@, categories[start as int].id, categories.len() as nat) == reaches_root(
                categories@,
                categories[current as int].id,
                fuel as nat,
            ),
        decreases fuel,
    {
        proof {
            lemma_index_of(categories@, current as int);
        }
        match categories[current].parent_id {
            None => {
                return true;
            },
            Some(parent) => {
                if fuel == 0 {
                    return false;
                }
                match find_category(categories, parent) {
                    None => {
                        assert(!reaches_root(categories@, parent, (fuel - 1) as nat));
                        return false;
                    },
                    Some(next) => {
                        current = next;
                        fuel = fuel - 1;
                    },
                }
            },
        }
    }
}

/// Tests a list before the lifecycle manager takes it: ids are unique, every
/// parent that is named exists, and no category is its own ancestor.
pub fn validate_categories(categories: &Vec<Category>) -> (valid: bool)
    ensures
        valid == valid_categories(categories@),
{
    if !ids_are_unique(categories) {
        return false;
    }
    let mut i: usize = 0;
    while i < categories.len()
        invariant
            i <= categories.len(),
            unique_ids(categories@),
            forall|k: int| 0 <= k < i ==> reaches_root(categories@, (#[trigger] categories[k]).id, categories.len() as nat),
        decreases categories.len() - i,
    {
        if !chain_ends(categories, i) {
            proof {
                if well_founded(categories@) {
                    let f = choose|f: nat| reaches_root(categories@, categories[i as int].id, f);
                    lemma_chain_bounded(categories@, categories[i as int].id, f);
                }
            }
            return false;
        }
        i = i + 1;
    }
    true
}

/// The categories that name `parent` as their parent, in the order of the list.
pub open spec fn children_of(cats: Seq<Category>, parent: Option<i64>) -> Seq<Category> {
    cats.filter(|c: Category| c.parent_id == parent)
}

/// The two counts recorded for a category; both are 0 where none is recorded.
pub open spec fn counts_of(stats: Map<i64, (i32, i32)>, id: i64) -> (i32, i32) {
    if stats.dom().contains(id) {
        stats[id]
    } else {
        (0, 0)
    }
}

/// `nodes` is the forest below `parent`, down to `depth` levels: one node for
/// each child of `parent`, in the order of the list, with the counts recorded
/// for it and with the forest below it as its children.
pub open spec fn is_forest(
    nodes: Seq<CategoryNode>,
    cats: Seq<Category>,
    stats: Map<i64, (i32, i32)>,
    parent: Option<i64>,
    depth: nat,
) -> bool
    decreases depth,
{
    if depth == 0 {
        nodes.len() == 0
    } else {
        let kids = children_of(cats, parent);
        &&& nodes.len() == kids.len()
        &&& forall|i: int|
            0 <= i < nodes.len() ==> {
                &&& (#[trigger] nodes[i]).category == kids[i]
                &&& (nodes[i].directory_count, nodes[i].resource_count) == counts_of(stats, kids[i].id)
                &&& is_forest(nodes[i].children@, cats, stats, Some(kids[i].id), (depth - 1) as nat)
            }
    }
}

fn same_parent(a: Option<i64>, b: Option<i64>) -> (same: bool)
    ensures
        same == (a == b),
{
    match a {
        None => b.is_none(),
        Some(x) => match b {
            None => false,
            Some(y) => x == y,
        },
    }
}

fn build_levels(
    categories: &Vec<Category>,
    stats: &HashMap<i64, (i32, i32)>,
    parent_id: Option<i64>,
    depth: usize,
) -> (nodes: Vec<CategoryNode>)
    ensures
        is_forest(nodes@, categories@, stats@, parent_id, depth as nat),
    decreases depth,
{
    let mut nodes: Vec<CategoryNode> = Vec::new();
    if depth == 0 {
        return nodes;
    }
    let ghost pred = |c: Category| c.parent_id == parent_id;
    let mut i: usize = 0;
    proof {
        reveal(Seq::filter);
        assert(categories@.take(0) =~= Seq::<Category>::empty());
    }
    while i < categories.len()
        invariant
            i <= categories.len(),
            depth > 0,
            pred == |c: Category| c.parent_id == parent_id,
            nodes.len() == categories@.take(i as int).filter(pred).len(),
            forall|k: int|
                0 <= k < nodes.len() ==> {
                    &&& (#[trigger] nodes[k]).category == categories@.take(i as int).filter(pred)[k]
                    &&& (nodes[k].directory_count, nodes[k].resource_count) == counts_of(
                        stats@,
                        categories@.take(i as int).filter(pred)[k].id,
                    )
                    &&& is_forest(
                        nodes[k].children@,
                        categories@,
                        stats@,
                        Some(categories@.take(i as int).filter(pred)[k].id),
                        (depth - 1) as nat,
                    )
                },
        decreases categories.len() - i,
    {
        proof {
            categories@.take(i as int).lemma_filter_push(categories[i as int], pred);
            assert(categories@.take(i as int).push(categories[i as int]) =~= categories@.take(i + 1));
        }
        let category = &categories[i];
        if same_parent(category.parent_id, parent_id) {
            let (directory_count, resource_count) = match stats.get(&category.id) {
                Some(counts) => *counts,
                None => (0, 0),
            };
            let children = build_levels(categories, stats, Some(category.id), depth - 1);
            nodes.push(CategoryNode { category: category.clone(), children, directory_count, resource_count });
        }
        i = i + 1;
    }
    assert(categories@.take(categories.len() as int) =~= categories@);
    nodes
}

/// Builds the forest below `parent_id` from a flat list of categories, which
/// is taken in its order, and the counts recorded for each category.
pub fn build_tree_static(
    categories: &Vec<Category>,
    stats: &HashMap<i64, (i32, i32)>,
    parent_id: Option<i64>,
) -> (nodes: Vec<CategoryNode>)
    ensures
        is_forest(nodes@, categories@, stats@, parent_id, categories.len() as nat),
{
    build_levels(categories, stats, parent_id, categories.len())
}


/// The list with `c` put behind the last category whose sort order is not
/// greater than its own.
pub open spec fn insert_by_order(sorted: Seq<Category>, c: Category) -> Seq<Category>
    decreases sorted.len(),
{
    if sorted.len() == 0 {
        seq![c]
    } else if sorted.last().sort_order <= c.sort_order {
        sorted.push(c)
    } else {
        insert_by_order(sorted.drop_last(), c).push(sorted.last())
    }
}

/// The list in the order of the sort orders; categories of one sort order
/// keep the order that they have in the list.
pub open spec fn sorted_by_order(cats: Seq<Category>) -> Seq<Category>
    decreases cats.len(),
{
    if cats.len() == 0 {
        Seq::empty()
    } else {
        insert_by_order(sorted_by_order(cats.drop_last()), cats.last())
    }
}

proof fn lemma_insert_position(sorted: Seq<Category>, c: Category, pos: int)
    requires
        0 <= pos <= sorted.len(),
        forall|k: int| pos <= k < sorted.len() ==> (#[trigger] sorted[k]).sort_order > c.sort_order,
        pos == 0 || sorted[pos - 1].sort_order <= c.sort_order,
    ensures
        insert_by_order(sorted, c) == sorted.insert(pos, c),
    decreases sorted.len(),
{
    if sorted.len() == 0 {
        assert(seq![c] =~= sorted.insert(pos, c));
    } else if pos == sorted.len() {
        assert(sorted.push(c) =~= sorted.insert(pos, c));
    } else {
        let front = sorted.drop_last();
        assert(sorted[sorted.len() - 1].sort_order > c.sort_order);
        assert forall|k: int| pos <= k < front.len() implies (#[trigger] front[k]).sort_order > c.sort_order by {
            assert(front[k] == sorted[k]);
        }
        lemma_insert_position(front, c, pos);
        assert(front.insert(pos, c).push(sorted.last()) =~= sorted.insert(pos, c));
    }
}

/// Sorts the categories by sort order, keeping the order of equals.
pub fn sort_by_order(categories: &Vec<Category>) -> (sorted: Vec<Category>)
    ensures
        sorted@ == sorted_by_order(categories@),
{
    let mut sorted: Vec<Category> = Vec::new();
    let mut i: usize = 0;
    assert(categories@.take(0) =~= Seq::<Category>::empty());
    while i < categories.len()
        invariant
            i <= categories.len(),
            sorted@ == sorted_by_order(categories@.take(i as int)),
        decreases categories.len() - i,
    {
        let c = categories[i].clone();
        let mut pos: usize = sorted.len();
        while pos > 0 && sorted[pos - 1].sort_order > c.sort_order
            invariant
                pos <= sorted.len(),
                forall|k: int| pos <= k < sorted.len() ==> (#[trigger] sorted[k]).sort_order > c.sort_order,
            decreases pos,
        {
            pos = pos - 1;
        }
        proof {
            lemma_insert_position(sorted@, c, pos as int);
            assert(categories@.take(i + 1).drop_last() =~= categories@.take(i as int));
        }
        sorted.insert(pos, c);
        i = i + 1;
    }
    assert(categories@.take(categories.len() as int) =~= categories@);
    sorted
}

/// The highest id in the list, or 0 where no id is above 0.
pub open spec fn highest_id(cats: Seq<Category>) -> i64
    decreases cats.len(),
{
    if cats.len() == 0 {
        0
    } else if cats.last().id > highest_id(cats.drop_last()) {
        cats.last().id
    } else {
        highest_id(cats.drop_last())
    }
}

proof fn lemma_highest_id(cats: Seq<Category>)
    ensures
        forall|i: int| 0 <= i < cats.len() ==> (#[trigger] cats[i]).id <= highest_id(cats),
    decreases cats.len(),
{
    if cats.len() > 0 {
        lemma_highest_id(cats.drop_last());
        assert forall|i: int| 0 <= i < cats.len() implies (#[trigger] cats[i]).id <= highest_id(cats) by {
            if i < cats.len() - 1 {
                assert(cats.drop_last()[i] == cats[i]);
            }
        }
    }
}

/// The highest sort order among the children of `parent`, if it has any.
pub open spec fn max_sibling_order(cats: Seq<Category>, parent: Option<i64>) -> Option<i32>
    decreases cats.len(),
{
    if cats.len() == 0 {
        None
    } else {
        let front = max_sibling_order(cats.drop_last(), parent);
        if cats.last().parent_id == parent && (front is None || cats.last().sort_order > front->0) {
            Some(cats.last().sort_order)
        } else {
            front
        }
    }
}

/// The sort order that a new child of `parent` gets: one more than the highest
/// among its siblings, or 0 for a first child.
pub open spec fn next_sort_order(cats: Seq<Category>, parent: Option<i64>) -> int {
    match max_sibling_order(cats, parent) {
        Some(order) => order + 1,
        None => 0,
    }
}

/// A request to create names a parent that is not in the list.
pub open spec fn parent_missing(cats: Seq<Category>, req: CreateCategoryRequest) -> bool {
    req.parent_id is Some && !has_id(cats, req.parent_id->0)
}

/// The store can take the category that the request asks for: the parent is
/// there, and neither the ids nor the sort orders are used up.
pub open spec fn can_create(cats: Seq<Category>, last_id: i64, req: CreateCategoryRequest) -> bool {
    &&& !parent_missing(cats, req)
    &&& last_id < i64::MAX
    &&& next_sort_order(cats, req.parent_id) <= i32::MAX
}

/// The category that a request creates.
pub open spec fn created(cats: Seq<Category>, req: CreateCategoryRequest, id: i64, now: String) -> Category {
    Category {
        id,
        name: req.name,
        description: req.description,
        icon: req.icon,
        color: req.color,
        parent_id: req.parent_id,
        sort_order: next_sort_order(cats, req.parent_id) as i32,
        has_password: false,
        created_at: now,
        updated_at: now,
    }
}

/// The request changes some field.
pub open spec fn changes_something(req: UpdateCategoryRequest) -> bool {
    req.name is Some || req.description is Some || req.icon is Some || req.color is Some || req.sort_order is Some
}

/// The category after an update: each field that the request gives is taken
/// from it, and the time of the update is recorded if any field is given.
pub open spec fn updated(c: Category, req: UpdateCategoryRequest, now: String) -> Category {
    Category {
        id: c.id,
        name: if req.name is Some {
            req.name->0
        } else {
            c.name
        },
        description: if req.description is Some {
            req.description
        } else {
            c.description
        },
        icon: if req.icon is Some {
            req.icon
        } else {
            c.icon
        },
        color: if req.color is Some {
            req.color
        } else {
            c.color
        },
        parent_id: c.parent_id,
        sort_order: if req.sort_order is Some {
            req.sort_order->0
        } else {
            c.sort_order
        },
        has_password: c.has_password,
        created_at: c.created_at,
        updated_at: if changes_something(req) {
            now
        } else {
            c.updated_at
        },
    }
}

/// The category with a new sort order, given at `now`.
pub open spec fn with_order(c: Category, id: i64, sort_order: i32, now: String) -> Category {
    if c.id == id {
        Category { sort_order, updated_at: now, ..c }
    } else {
        c
    }
}

/// The list after the sort orders were given out one after the other.
pub open spec fn reordered(cats: Seq<Category>, orders: Seq<(i64, i32)>, now: String) -> Seq<Category>
    decreases orders.len(),
{
    if orders.len() == 0 {
        cats
    } else {
        reordered(cats, orders.drop_last(), now).map_values(
            |c: Category| with_order(c, orders.last().0, orders.last().1, now),
        )
    }
}

/// Every id that is given a sort order is in the list.
pub open spec fn all_known(cats: Seq<Category>, orders: Seq<(i64, i32)>) -> bool {
    forall|k: int| 0 <= k < orders.len() ==> has_id(cats, (#[trigger] orders[k]).0)
}

/// The list after the category `id` was deleted with the given strategy.
pub open spec fn after_delete(cats: Seq<Category>, id: i64, strategy: DeleteStrategy) -> Seq<Category> {
    match strategy {
        DeleteStrategy::DeleteAll => without_subtree(cats, id),
        DeleteStrategy::PromoteChildren => promoted(cats, index_of(cats, id)),
    }
}

/// The ids of the categories that deleting `id` removes.
pub open spec fn deleted_ids(cats: Seq<Category>, id: i64, strategy: DeleteStrategy) -> Seq<i64> {
    match strategy {
        DeleteStrategy::DeleteAll => ids_of(subtree(cats, id)),
        DeleteStrategy::PromoteChildren => seq![id],
    }
}

/// The lifecycle manager of the categories: it holds the list of all
/// categories and keeps it a forest.
pub struct CategoryService {
    categories: Vec<Category>,
    last_id: i64,
}

impl View for CategoryService {
    type V = Seq<Category>;

    closed spec fn view(&self) -> Seq<Category> {
        self.categories@
    }
}

impl CategoryService {
    /// The highest id that was ever given out.
    pub closed spec fn last_id(&self) -> i64 {
        self.last_id
    }

    /// The list is valid and no id in it is above the last one given out.
    pub closed spec fn wf(&self) -> bool {
        &&& valid_categories(self.categories@)
        &&& forall|i: int| 0 <= i < self.categories.len() ==> (#[trigger] self.categories[i]).id <= self.last_id
    }

    pub proof fn lemma_wf(&self)
        requires
            self.wf(),
        ensures
            valid_categories(self@),
            forall|i: int| 0 <= i < self@.len() ==> (#[trigger] self@[i]).id <= self.last_id(),
    {
    }

    /// A service without categories.
    pub fn empty() -> (service: Self)
        ensures
            service.wf(),
            service@ == Seq::<Category>::empty(),
            service.last_id() == 0,
    {
        CategoryService { categories: Vec::new(), last_id: 0 }
    }

    /// Takes a list of categories under management, if it is valid: the ids
    /// are unique, every parent that is named exists, and no category is its
    /// own ancestor.
    pub fn new(categories: Vec<Category>) -> (r: Result<Self, AppError>)
        ensures
            match r {
                Ok(service) => {
                    &&& valid_categories(categories@)
                    &&& service.wf()
                    &&& service@ == categories@
                    &&& service.last_id() == highest_id(categories@)
                },
                Err(e) => !valid_categories(categories@) && e is InvalidInput,
            },
    {
        if !validate_categories(&categories) {
            return Err(AppError::invalid_input("categories must have unique ids and parents that form no cycle"));
        }
        let mut last_id: i64 = 0;
        let mut i: usize = 0;
        assert(categories@.take(0) =~= Seq::<Category>::empty());
        while i < categories.len()
            invariant
                i <= categories.len(),
                last_id == highest_id(categories@.take(i as int)),
            decreases categories.len() - i,
        {
            assert(categories@.take(i + 1).drop_last() =~= categories@.take(i as int));
            if categories[i].id > last_id {
                last_id = categories[i].id;
            }
            i = i + 1;
        }
        assert(categories@.take(categories.len() as int) =~= categories@);
        proof {
            lemma_highest_id(categories@);
        }
        Ok(CategoryService { categories, last_id })
    }

    /// Raises the counter of the ids to `id`, where that is higher: an id
    /// that was given to a category that is gone since is then not given
    /// out again.
    pub fn reserve_id(&mut self, id: i64)
        requires
            old(self).wf(),
        ensures
            final(self).wf(),
            final(self)@ == old(self)@,
            final(self).last_id() == if old(self).last_id() >= id {
                old(self).last_id()
            } else {
                id
            },
    {
        if id > self.last_id {
            self.last_id = id;
        }
    }

    /// All categories, in the order in which they are held.
    pub fn list_categories(&self) -> (list: Vec<Category>)
        ensures
            list@ == self@,
    {
        let mut list: Vec<Category> = Vec::new();
        let mut i: usize = 0;
        while i < self.categories.len()
            invariant
                i <= self.categories.len(),
                list@ == self.categories@.take(i as int),
            decreases self.categories.len() - i,
        {
            list.push(self.categories[i].clone());
            assert(self.categories@.take(i + 1) =~= self.categories@.take(i as int).push(self.categories[i as int]));
            i = i + 1;
        }
        assert(self.categories@.take(self.categories.len() as int) =~= self.categories@);
        list
    }

    /// Whether a category with this id exists.
    pub fn category_exists(&self, id: i64) -> (exists: bool)
        ensures
            exists == has_id(self@, id),
    {
        find_category(&self.categories, id).is_some()
    }

    fn max_order(&self, parent: Option<i64>) -> (max: Option<i32>)
        ensures
            max == max_sibling_order(self.categories@, parent),
    {
        let mut max: Option<i32> = None;
        let mut i: usize = 0;
        assert(self.categories@.take(0) =~= Seq::<Category>::empty());
        while i < self.categories.len()
            invariant
                i <= self.categories.len(),
                max == max_sibling_order(self.categories@.take(i as int), parent),
            decreases self.categories.len() - i,
        {
            assert(self.categories@.take(i + 1).drop_last() =~= self.categories@.take(i as int));
            let c = &self.categories[i];
            if same_parent(c.parent_id, parent) {
                let higher = match max {
                    None => true,
                    Some(m) => c.sort_order > m,
                };
                if higher {
                    max = Some(c.sort_order);
                }
            }
            i = i + 1;
        }
        assert(self.categories@.take(self.categories.len() as int) =~= self.categories@);
        max
    }

    /// Creates a category as the last child of the parent that the request
    /// names, or as the last root. `now` is recorded as the time of creation.
    /// Fails with `CategoryNotFound` where the parent does not exist, and with
    /// `Database` where the ids or the sort orders are used up; a call that
    /// fails changes nothing.
    pub fn create_category(&mut self, req: CreateCategoryRequest, now: String) -> (r: Result<Category, AppError>)
        requires
            old(self).wf(),
        ensures
            final(self).wf(),
            match r {
                Ok(c) => {
                    &&& can_create(old(self)@, old(self).last_id(), req)
                    &&& c == created(old(self)@, req, (old(self).last_id() + 1) as i64, now)
                    &&& final(self)@ == old(self)@.push(c)
                    &&& final(self).last_id() == old(self).last_id() + 1
                },
                Err(e) => {
                    &&& !can_create(old(self)@, old(self).last_id(), req)
                    &&& final(self)@ == old(self)@
                    &&& final(self).last_id() == old(self).last_id()
                    &&& (e is CategoryNotFound <==> parent_missing(old(self)@, req))
                    &&& (e is CategoryNotFound || e is Database)
                },
            },
    {
        match req.parent_id {
            Some(parent) => {
                if find_category(&self.categories, parent).is_none() {
                    return Err(AppError::CategoryNotFound);
                }
            },
            None => {},
        }
        if self.last_id == i64::MAX {
            return Err(AppError::store("no category id is left"));
        }
        let sort_order: i32 = match self.max_order(req.parent_id) {
            None => 0,
            Some(max) => {
                if max == i32::MAX {
                    return Err(AppError::store("no sort order is left"));
                }
                max + 1
            },
        };
        let id: i64 = self.last_id + 1;
        let category = Category {
            id,
            name: req.name,
            description: req.description,
            icon: req.icon,
            color: req.color,
            parent_id: req.parent_id,
            sort_order,
            has_password: false,
            created_at: now.clone(),
            updated_at: now,
        };
        let copy = category.clone();
        proof {
            assert(!has_id(self.categories@, id));
            lemma_push_valid(self.categories@, category);
        }
        self.categories.push(category);
        self.last_id = id;
        Ok(copy)
    }

    /// Changes the fields of a category that the request gives. Fails with
    /// `CategoryNotFound`, and changes nothing, where the category does not exist.
    pub fn update_category(&mut self, id: i64, req: UpdateCategoryRequest, now: String) -> (r: Result<Category, AppError>)
        requires
            old(self).wf(),
        ensures
            final(self).wf(),
            final(self).last_id() == old(self).last_id(),
            match r {
                Ok(c) => {
                    &&& has_id(old(self)@, id)
                    &&& c == updated(old(self)@[index_of(old(self)@, id)], req, now)
                    &&& final(self)@ == old(self)@.update(index_of(old(self)@, id), c)
                },
                Err(e) => !has_id(old(self)@, id) && e is CategoryNotFound && final(self)@ == old(self)@,
            },
    {
        let i = match find_category(&self.categories, id) {
            None => {
                return Err(AppError::CategoryNotFound);
            },
            Some(i) => i,
        };
        proof {
            lemma_index_of(self.categories@, i as int);
        }
        let current = &self.categories[i];
        let touched = req.name.is_some() || req.description.is_some() || req.icon.is_some() || req.color.is_some()
            || req.sort_order.is_some();
        let category = Category {
            id: current.id,
            name: match req.name {
                Some(name) => name,
                None => current.name.clone(),
            },
            description: match req.description {
                Some(description) => Some(description),
                None => crate::models::clone_option(&current.description),
            },
            icon: match req.icon {
                Some(icon) => Some(icon),
                None => crate::models::clone_option(&current.icon),
            },
            color: match req.color {
                Some(color) => Some(color),
                None => crate::models::clone_option(&current.color),
            },
            parent_id: current.parent_id,
            sort_order: match req.sort_order {
                Some(sort_order) => sort_order,
                None => current.sort_order,
            },
            has_password: current.has_password,
            created_at: current.created_at.clone(),
            updated_at: if touched {
                now
            } else {
                current.updated_at.clone()
            },
        };
        let copy = category.clone();
        let ghost before = self.categories@;
        self.categories.set(i, category);
        proof {
            assert(same_graph(before, self.categories@));
            lemma_same_graph_valid(before, self.categories@);
            assert forall|k: int| 0 <= k < self.categories.len() implies (#[trigger] self.categories[k]).id <= self.last_id by {
                assert(before[k].id == self.categories[k].id);
            }
        }
        Ok(copy)
    }

    /// Gives the categories new sort orders, one after the other. Fails with
    /// `CategoryNotFound`, and changes nothing, where one of the ids is not
    /// that of a category.
    pub fn reorder_categories(&mut self, orders: Vec<(i64, i32)>, now: String) -> (r: Result<(), AppError>)
        requires
            old(self).wf(),
        ensures
            final(self).wf(),
            final(self).last_id() == old(self).last_id(),
            match r {
                Ok(_) => all_known(old(self)@, orders@) && final(self)@ == reordered(old(self)@, orders@, now),
                Err(e) => !all_known(old(self)@, orders@) && e is CategoryNotFound && final(self)@ == old(self)@,
            },
    {
        let mut k: usize = 0;
        while k < orders.len()
            invariant
                k <= orders.len(),
                self.wf(),
                self.categories@ == old(self).categories@,
                self.last_id == old(self).last_id,
                forall|m: int| 0 <= m < k ==> has_id(self.categories@, (#[trigger] orders[m]).0),
            decreases orders.len() - k,
        {
            if find_category(&self.categories, orders[k].0).is_none() {
                return Err(AppError::CategoryNotFound);
            }
            k = k + 1;
        }
        let ghost before = self.categories@;
        let mut current: Vec<Category> = self.list_categories();
        let mut k: usize = 0;
        assert(orders@.take(0) =~= Seq::<(i64, i32)>::empty());
        while k < orders.len()
            invariant
                k <= orders.len(),
                self.wf(),
                self.last_id == old(self).last_id,
                before == self.categories@,
                current@ == reordered(before, orders@.take(k as int), now),
                same_graph(before, current@),
            decreases orders.len() - k,
        {
            let (id, sort_order) = orders[k];
            let mut next: Vec<Category> = Vec::new();
            let mut i: usize = 0;
            while i < current.len()
                invariant
                    i <= current.len(),
                    next.len() == i,
                    forall|m: int| 0 <= m < i ==> #[trigger] next[m] == with_order(current[m], id, sort_order, now),
                decreases current.len() - i,
            {
                let c = &current[i];
                if c.id == id {
                    next.push(
                        Category {
                            id: c.id,
                            name: c.name.clone(),
                            description: crate::models::clone_option(&c.description),
                            icon: crate::models::clone_option(&c.icon),
                            color: crate::models::clone_option(&c.color),
                            parent_id: c.parent_id,
                            sort_order,
                            has_password: c.has_password,
                            created_at: c.created_at.clone(),
                            updated_at: now.clone(),
                        },
                    );
                } else {
                    next.push(c.clone());
                }
                i = i + 1;
            }
            proof {
                assert(orders@.take(k + 1).drop_last() =~= orders@.take(k as int));
                assert(orders@.take(k + 1).last() == orders[k as int]);
                assert(next@ =~= current@.map_values(|c: Category| with_order(c, id, sort_order, now)));
            }
            current = next;
            k = k + 1;
        }
        assert(orders@.take(orders.len() as int) =~= orders@);
        proof {
            lemma_same_graph_valid(before, current@);
            assert forall|m: int| 0 <= m < current.len() implies (#[trigger] current[m]).id <= self.last_id by {
                assert(before[m].id == current[m].id);
            }
        }
        self.categories = current;
        Ok(())
    }

    /// Whether the category at place `i` is `root_id` or lies below it.
    fn is_below(&self, root_id: i64, i: usize) -> (below: bool)
        requires
            self.wf(),
            i < self.categories.len(),
        ensures
            below == in_subtree(self.categories@, root_id, self.categories[i as int].id),
    {
        let mut current: usize = i;
        let mut fuel: usize = self.categories.len();
        proof {
            lemma_parents_end_at_root(self.categories@, i as int);
        }
        loop
            invariant
                self.wf(),
                i < self.categories.len(),
                current < self.categories.len(),
                fuel <= self.categories.len(),
                reaches_root(self.categories@, self.categories[current as int].id, fuel as nat),
                in_subtree(self.categories@, root_id, self.categories[i as int].id) == descends(
                    self.categories@,
                    self.categories[current as int].id,
                    root_id,
                    fuel as nat,
                ),
            decreases fuel,
        {
            proof {
                lemma_index_of(self.categories@, current as int);
            }
            if self.categories[current].id == root_id {
                return true;
            }
            match self.categories[current].parent_id {
                None => {
                    return false;
                },
                Some(parent) => {
                    match find_category(&self.categories, parent) {
                        None => {
                            // Does not happen: in a valid list every parent that is named is there.
                            assert(reaches_root(self.categories@, parent, (fuel - 1) as nat));
                            return false;
                        },
                        Some(next) => {
                            current = next;
                            fuel = fuel - 1;
                        },
                    }
                },
            }
        }
    }

    /// Moves a category below another parent, or makes it a root. Fails with
    /// `CategoryNotFound` where the category or the parent does not exist,
    /// and with `InvalidInput` where the parent is the category itself or
    /// lies below it, so that the move would close a cycle. A call that
    /// fails changes nothing.
    pub fn move_category(&mut self, id: i64, parent: Option<i64>, now: String) -> (r: Result<Category, AppError>)
        requires
            old(self).wf(),
        ensures
            final(self).wf(),
            final(self).last_id() == old(self).last_id(),
            ({
                let known = has_id(old(self)@, id) && (parent is Some ==> has_id(old(self)@, parent->0));
                match r {
                    Ok(c) => {
                        &&& known
                        &&& !makes_cycle(old(self)@, id, parent)
                        &&& final(self)@ == moved(old(self)@, id, parent, now)
                        &&& c == with_parent(old(self)@[index_of(old(self)@, id)], id, parent, now)
                    },
                    Err(e) => {
                        &&& final(self)@ == old(self)@
                        &&& (e is CategoryNotFound || e is InvalidInput)
                        &&& (e is CategoryNotFound <==> !known)
                        &&& (e is InvalidInput <==> known && makes_cycle(old(self)@, id, parent))
                    },
                }
            }),
    {
        let k = match find_category(&self.categories, id) {
            None => {
                return Err(AppError::CategoryNotFound);
            },
            Some(k) => k,
        };
        proof {
            lemma_index_of(self.categories@, k as int);
        }
        match parent {
            None => {},
            Some(p) => {
                let at = match find_category(&self.categories, p) {
                    None => {
                        return Err(AppError::CategoryNotFound);
                    },
                    Some(at) => at,
                };
                if self.is_below(id, at) {
                    return Err(AppError::invalid_input("a category cannot be moved below itself"));
                }
            },
        }
        let ghost before = self.categories@;
        let mut next: Vec<Category> = Vec::new();
        let mut i: usize = 0;
        while i < self.categories.len()
            invariant
                i <= self.categories.len(),
                before == self.categories@,
                next.len() == i,
                forall|m: int| 0 <= m < i ==> #[trigger] next[m] == with_parent(before[m], id, parent, now),
            decreases self.categories.len() - i,
        {
            let c = &self.categories[i];
            if c.id == id {
                next.push(
                    Category {
                        id: c.id,
                        name: c.name.clone(),
                        description: crate::models::clone_option(&c.description),
                        icon: crate::models::clone_option(&c.icon),
                        color: crate::models::clone_option(&c.color),
                        parent_id: parent,
                        sort_order: c.sort_order,
                        has_password: c.has_password,
                        created_at: c.created_at.clone(),
                        updated_at: now.clone(),
                    },
                );
            } else {
                next.push(c.clone());
            }
            i = i + 1;
        }
        let copy = next[k].clone();
        proof {
            assert(next@ =~= moved(before, id, parent, now));
            lemma_moved_valid(before, id, parent, now);
            assert forall|m: int| 0 <= m < next.len() implies (#[trigger] next[m]).id <= self.last_id by {
                assert(next[m].id == before[m].id);
            }
        }
        self.categories = next;
        Ok(copy)
    }

    /// Deletes a category. With `DeleteAll` its whole subtree goes with it;
    /// with `PromoteChildren` only the category goes, and its children get
    /// its parent as theirs. Returns the ids of the categories that are gone.
    /// Fails with `CategoryNotFound`, and changes nothing, where the category
    /// does not exist.
    pub fn delete_category(&mut self, id: i64, strategy: DeleteStrategy) -> (r: Result<Vec<i64>, AppError>)
        requires
            old(self).wf(),
        ensures
            final(self).wf(),
            final(self).last_id() == old(self).last_id(),
            match r {
                Ok(gone) => {
                    &&& has_id(old(self)@, id)
                    &&& final(self)@ == after_delete(old(self)@, id, strategy)
                    &&& gone@ == deleted_ids(old(self)@, id, strategy)
                    &&& !has_id(final(self)@, id)
                },
                Err(e) => !has_id(old(self)@, id) && e is CategoryNotFound && final(self)@ == old(self)@,
            },
    {
        let k = match find_category(&self.categories, id) {
            None => {
                return Err(AppError::CategoryNotFound);
            },
            Some(k) => k,
        };
        proof {
            lemma_index_of(self.categories@, k as int);
        }
        let ghost before = self.categories@;
        let mut kept: Vec<Category> = Vec::new();
        let mut gone: Vec<i64> = Vec::new();
        match strategy {
            DeleteStrategy::PromoteChildren => {
                let parent = self.categories[k].parent_id;
                let mut i: usize = 0;
                while i < self.categories.len()
                    invariant
                        i <= self.categories.len(),
                        k < self.categories.len(),
                        before == self.categories@,
                        before[k as int].id == id,
                        parent == before[k as int].parent_id,
                        kept.len() == (if i <= k { i as int } else { i - 1 }),
                        forall|m: int|
                            0 <= m < kept.len() ==> #[trigger] kept[m] == reparented(
                                before[if m < k { m } else { m + 1 }],
                                id,
                                parent,
                            ),
                    decreases self.categories.len() - i,
                {
                    if i != k {
                        let c = &self.categories[i];
                        let moves = match c.parent_id {
                            Some(p) => p == id,
                            None => false,
                        };
                        if moves {
                            kept.push(
                                Category {
                                    id: c.id,
                                    name: c.name.clone(),
                                    description: crate::models::clone_option(&c.description),
                                    icon: crate::models::clone_option(&c.icon),
                                    color: crate::models::clone_option(&c.color),
                                    parent_id: parent,
                                    sort_order: c.sort_order,
                                    has_password: c.has_password,
                                    created_at: c.created_at.clone(),
                                    updated_at: c.updated_at.clone(),
                                },
                            );
                        } else {
                            kept.push(c.clone());
                        }
                    }
                    i = i + 1;
                }
                gone.push(id);
                proof {
                    assert(kept@ =~= promoted(before, k as int));
                    lemma_promoted_valid(before, k as int);
                    crate::tree::lemma_promoted_entries(before, k as int);
                    assert forall|m: int| 0 <= m < kept.len() implies (#[trigger] kept[m]).id <= self.last_id by {
                        assert(kept[m].id == before[if m < k { m } else { m + 1 }].id);
                    }
                }
            },
            DeleteStrategy::DeleteAll => {
                let ghost inside = |c: Category| in_subtree(before, id, c.id);
                let ghost outside = |c: Category| !in_subtree(before, id, c.id);
                let mut i: usize = 0;
                proof {
                    reveal(Seq::filter);
                    assert(before.take(0) =~= Seq::<Category>::empty());
                    assert(ids_of(before.take(0).filter(inside)) =~= Seq::<i64>::empty());
                }
                while i < self.categories.len()
                    invariant
                        i <= self.categories.len(),
                        self.wf(),
                        before == self.categories@,
                        inside == |c: Category| in_subtree(before, id, c.id),
                        outside == |c: Category| !in_subtree(before, id, c.id),
                        kept@ == before.take(i as int).filter(outside),
                        gone@ == ids_of(before.take(i as int).filter(inside)),
                    decreases self.categories.len() - i,
                {
                    proof {
                        before.take(i as int).lemma_filter_push(before[i as int], inside);
                        before.take(i as int).lemma_filter_push(before[i as int], outside);
                        assert(before.take(i as int).push(before[i as int]) =~= before.take(i + 1));
                    }
                    if self.is_below(id, i) {
                        let ghost old_gone = gone@;
                        gone.push(self.categories[i].id);
                        assert(gone@ =~= ids_of(before.take(i as int).filter(inside).push(before[i as int])));
                    } else {
                        kept.push(self.categories[i].clone());
                    }
                    i = i + 1;
                }
                proof {
                    assert(before.take(before.len() as int) =~= before);
                    lemma_without_subtree_valid(before, id);
                    assert forall|m: int| 0 <= m < kept.len() implies (#[trigger] kept[m]).id <= self.last_id by {
                        before.lemma_filter_contains_rev(outside, kept[m]);
                        let j = choose|j: int| 0 <= j < before.len() && before[j] == kept[m];
                        assert(before[j].id <= self.last_id);
                    }
                }
            },
        }
        self.categories = kept;
        Ok(gone)
    }

    /// The category tree: the forest of all categories, siblings in the order
    /// of their sort orders, each node with the counts recorded for it.
    pub fn get_category_tree(&self, stats: &HashMap<i64, (i32, i32)>) -> (tree: Vec<CategoryNode>)
        ensures
            is_forest(tree@, sorted_by_order(self@), stats@, None, self@.len()),
    {
        let sorted = sort_by_order(&self.categories);
        proof {
            lemma_sorted_len(self.categories@);
        }
        build_tree_static(&sorted, stats, None)
    }
}

proof fn lemma_insert_len(sorted: Seq<Category>, c: Category)
    ensures
        insert_by_order(sorted, c).len() == sorted.len() + 1,
    decreases sorted.len(),
{
    if sorted.len() > 0 && sorted.last().sort_order > c.sort_order {
        lemma_insert_len(sorted.drop_last(), c);
    }
}

/// Sorting neither adds nor drops a category.
pub proof fn lemma_sorted_len(cats: Seq<Category>)
    ensures
        sorted_by_order(cats).len() == cats.len(),
    decreases cats.len(),
{
    if cats.len() > 0 {
        lemma_sorted_len(cats.drop_last());
        lemma_insert_len(sorted_by_order(cats.drop_last()), cats.last());
    }
}


/// Where the forest below `parent` is built in a valid list, the limit of
/// the depth cuts nothing off: with a higher limit the forest is the same.
/// This holds of the whole forest, with the number of categories as its
/// limit, and below a category that is `steps` levels deep with at least as
/// many levels as are left to that number.
pub proof fn lemma_forest_is_whole(
    nodes: Seq<CategoryNode>,
    cats: Seq<Category>,
    stats: Map<i64, (i32, i32)>,
    parent: Option<i64>,
    depth: nat,
    deeper: nat,
)
    requires
        valid_categories(cats),
        is_forest(nodes, cats, stats, parent, depth),
        depth <= deeper,
        match parent {
            None => depth >= cats.len(),
            Some(p) => has_id(cats, p) && steps(cats, p, cats.len()) + depth + 1 >= cats.len(),
        },
    ensures
        is_forest(nodes, cats, stats, parent, deeper),
    decreases depth,
{
    let pred = |c: Category| c.parent_id == parent;
    let kids = children_of(cats, parent);
    let n = cats.len() as nat;
    if deeper > 0 {
        assert forall|i: int| 0 <= i < kids.len() implies #[trigger] has_id(cats, kids[i].id) && kids[i].parent_id == parent && steps(
            cats,
            kids[i].id,
            n,
        ) < n && (parent is Some ==> steps(cats, kids[i].id, n) == steps(cats, parent->0, n) + 1) by {
            cats.lemma_filter_pred(pred, i);
            cats.lemma_filter_contains_rev(pred, kids[i]);
            let k = choose|k: int| 0 <= k < cats.len() && cats[k] == kids[i];
            lemma_index_of(cats, k);
            lemma_parents_end_at_root(cats, k);
            match parent {
                None => {},
                Some(p) => {
                    let at = index_of(cats, p);
                    lemma_parents_end_at_root(cats, at);
                    lemma_chain_bounded(cats, p, n);
                    lemma_fuel_monotone(cats, p, (n - 1) as nat, n);
                },
            }
        }
        if depth == 0 {
            if kids.len() > 0 {
                assert(has_id(cats, kids[0].id));
                assert(false);
            }
        } else {
            assert forall|i: int| 0 <= i < nodes.len() implies is_forest(
                (#[trigger] nodes[i]).children@,
                cats,
                stats,
                Some(kids[i].id),
                (deeper - 1) as nat,
            ) by {
                assert(has_id(cats, kids[i].id));
                lemma_forest_is_whole(
                    nodes[i].children@,
                    cats,
                    stats,
                    Some(kids[i].id),
                    (depth - 1) as nat,
                    (deeper - 1) as nat,
                );
            }
        }
    }
}


/// The sort orders of the list do not fall from one category to the next.
pub open spec fn ordered(cats: Seq<Category>) -> bool {
    forall|i: int, j: int| 0 <= i <= j < cats.len() ==> (#[trigger] cats[i]).sort_order <= (#[trigger] cats[j]).sort_order
}

proof fn lemma_insert_contains(sorted: Seq<Category>, c: Category, x: Category)
    ensures
        insert_by_order(sorted, c).contains(x) <==> (sorted.contains(x) || x == c),
    decreases sorted.len(),
{
    let out = insert_by_order(sorted, c);
    if sorted.len() == 0 {
        assert(out =~= Seq::<Category>::empty().push(c));
        assert(sorted =~= Seq::<Category>::empty());
        vstd::seq_lib::lemma_seq_contains_after_push(sorted, c, x);
    } else if sorted.last().sort_order <= c.sort_order {
        vstd::seq_lib::lemma_seq_contains_after_push(sorted, c, x);
    } else {
        let front = sorted.drop_last();
        let last = sorted.last();
        let inner = insert_by_order(front, c);
        lemma_insert_contains(front, c, x);
        assert(sorted =~= front.push(last));
        vstd::seq_lib::lemma_seq_contains_after_push(front, last, x);
        vstd::seq_lib::lemma_seq_contains_after_push(inner, last, x);
    }
}

proof fn lemma_insert_ordered(sorted: Seq<Category>, c: Category)
    requires
        ordered(sorted),
    ensures
        ordered(insert_by_order(sorted, c)),
    decreases sorted.len(),
{
    let out = insert_by_order(sorted, c);
    if sorted.len() == 0 {
        assert(out[0] == c);
    } else if sorted.last().sort_order <= c.sort_order {
        assert forall|i: int, j: int| 0 <= i <= j < out.len() implies (#[trigger] out[i]).sort_order <= (#[trigger] out[j]).sort_order by {
            if i < sorted.len() {
                assert(out[i] == sorted[i]);
                assert(sorted[i].sort_order <= sorted[sorted.len() - 1].sort_order);
            }
            if j < sorted.len() {
                assert(out[j] == sorted[j]);
            }
        }
    } else {
        let front = sorted.drop_last();
        let last = sorted.last();
        assert(ordered(front)) by {
            assert forall|i: int, j: int| 0 <= i <= j < front.len() implies (#[trigger] front[i]).sort_order <= (#[trigger] front[j]).sort_order by {
                assert(front[i] == sorted[i] && front[j] == sorted[j]);
            }
        }
        lemma_insert_ordered(front, c);
        let inner = insert_by_order(front, c);
        assert(out == inner.push(last));
        assert forall|i: int, j: int| 0 <= i <= j < out.len() implies (#[trigger] out[i]).sort_order <= (#[trigger] out[j]).sort_order by {
            if j < inner.len() {
                assert(out[i] == inner[i] && out[j] == inner[j]);
            } else if i < inner.len() {
                let x = inner[i];
                assert(out[i] == x);
                assert(out[j] == last);
                assert(inner.contains(x));
                lemma_insert_contains(front, c, x);
                if x != c {
                    let k = choose|k: int| 0 <= k < front.len() && front[k] == x;
                    assert(sorted[k] == x);
                    assert(sorted[k].sort_order <= sorted[sorted.len() - 1].sort_order);
                }
            }
        }
    }
}

/// Sorting puts the categories in the order of their sort orders, and the
/// sorted list holds the categories of the list and no others.
pub proof fn lemma_sorted_by_order(cats: Seq<Category>)
    ensures
        ordered(sorted_by_order(cats)),
        sorted_by_order(cats).len() == cats.len(),
        forall|x: Category| sorted_by_order(cats).contains(x) <==> cats.contains(x),
    decreases cats.len(),
{
    lemma_sorted_len(cats);
    if cats.len() > 0 {
        let front = cats.drop_last();
        let last = cats.last();
        lemma_sorted_by_order(front);
        lemma_insert_ordered(sorted_by_order(front), last);
        assert(cats =~= front.push(last));
        assert forall|x: Category| sorted_by_order(cats).contains(x) <==> cats.contains(x) by {
            lemma_insert_contains(sorted_by_order(front), last, x);
            vstd::seq_lib::lemma_seq_contains_after_push(front, last, x);
        }
    }
}


/// The forest has a node for the category `id` within `depth` levels.
pub open spec fn forest_holds(nodes: Seq<CategoryNode>, id: i64, depth: nat) -> bool
    decreases depth,
{
    depth > 0 && exists|k: int|
        0 <= k < nodes.len() && ((#[trigger] nodes[k]).category.id == id || forest_holds(
            nodes[k].children@,
            id,
            (depth - 1) as nat,
        ))
}

/// Following parent references from `id` comes, within `hops` steps, to a
/// category whose parent is `parent`.
pub open spec fn rises_to(cats: Seq<Category>, id: i64, parent: Option<i64>, hops: nat) -> bool
    decreases hops,
{
    has_id(cats, id) && (parent_of(cats, id) == parent || (hops > 0 && parent_of(cats, id) is Some && rises_to(
        cats,
        parent_of(cats, id)->0,
        parent,
        (hops - 1) as nat,
    )))
}

/// The category at which `rises_to` arrives: the one whose parent is `parent`.
pub open spec fn top_below(cats: Seq<Category>, id: i64, parent: Option<i64>, hops: nat) -> i64
    decreases hops,
{
    if parent_of(cats, id) == parent || hops == 0 || parent_of(cats, id) is None {
        id
    } else {
        top_below(cats, parent_of(cats, id)->0, parent, (hops - 1) as nat)
    }
}

proof fn lemma_top_below(cats: Seq<Category>, id: i64, parent: Option<i64>, hops: nat)
    requires
        rises_to(cats, id, parent, hops),
    ensures
        has_id(cats, top_below(cats, id, parent, hops)),
        parent_of(cats, top_below(cats, id, parent, hops)) == parent,
        top_below(cats, id, parent, hops) != id ==> hops > 0 && rises_to(
            cats,
            id,
            Some(top_below(cats, id, parent, hops)),
            (hops - 1) as nat,
        ),
    decreases hops,
{
    if parent_of(cats, id) != parent {
        let q = parent_of(cats, id)->0;
        lemma_top_below(cats, q, parent, (hops - 1) as nat);
        let top = top_below(cats, q, parent, (hops - 1) as nat);
        assert(top == top_below(cats, id, parent, hops));
        if top != id {
            if top != q {
                assert(rises_to(cats, q, Some(top), (hops - 2) as nat));
            }
            assert(rises_to(cats, id, Some(top), (hops - 1) as nat));
        }
    }
}

proof fn lemma_reaching_rises(cats: Seq<Category>, id: i64, f: nat)
    requires
        reaches_root(cats, id, f),
    ensures
        rises_to(cats, id, None, f),
    decreases f,
{
    match parent_of(cats, id) {
        None => {},
        Some(p) => {
            lemma_reaching_rises(cats, p, (f - 1) as nat);
        },
    }
}

proof fn lemma_subforest_holds(
    nodes: Seq<CategoryNode>,
    cats: Seq<Category>,
    stats: Map<i64, (i32, i32)>,
    parent: Option<i64>,
    depth: nat,
    id: i64,
    hops: nat,
)
    requires
        unique_ids(cats),
        is_forest(nodes, cats, stats, parent, depth),
        rises_to(cats, id, parent, hops),
        hops < depth,
    ensures
        forest_holds(nodes, id, depth),
    decreases hops,
{
    let pred = |c: Category| c.parent_id == parent;
    let kids = children_of(cats, parent);
    lemma_top_below(cats, id, parent, hops);
    let top = top_below(cats, id, parent, hops);
    let at = index_of(cats, top);
    lemma_index_of(cats, at);
    assert(pred(cats[at]));
    cats.lemma_filter_contains(pred, at);
    let k = choose|k: int| 0 <= k < kids.len() && kids[k] == cats[at];
    assert(nodes[k].category == kids[k]);
    if top != id {
        lemma_subforest_holds(nodes[k].children@, cats, stats, Some(top), (depth - 1) as nat, id, (hops - 1) as nat);
    }
}

/// The tree of a valid list is whole: it has a node for every category.
pub proof fn lemma_forest_holds_all(
    nodes: Seq<CategoryNode>,
    cats: Seq<Category>,
    stats: Map<i64, (i32, i32)>,
    i: int,
)
    requires
        valid_categories(cats),
        is_forest(nodes, cats, stats, None, cats.len()),
        0 <= i < cats.len(),
    ensures
        forest_holds(nodes, cats[i].id, cats.len()),
{
    lemma_parents_end_at_root(cats, i);
    lemma_chain_bounded(cats, cats[i].id, cats.len());
    lemma_reaching_rises(cats, cats[i].id, (cats.len() - 1) as nat);
    lemma_subforest_holds(nodes, cats, stats, None, cats.len(), cats[i].id, (cats.len() - 1) as nat);
}

} // verus!
