//! The resource manager: categories and directories together, so that
//! nothing is kept for a category that does not exist.

use vstd::prelude::*;
use std::collections::HashMap;
use crate::category::{
    after_delete, all_known, can_create, children_of, created, deleted_ids, is_forest, parent_missing, reordered,
    sorted_by_order, updated, CategoryService,
};
use crate::directory::{
    bindings_of, count_shown, first_of_each_path, gathered, ignore_of, is_bound, replaced, rows_fit, rows_of,
    under_binding, walks_match, DirectoryService, DirectoryWalk, PathKind,
};
use crate::error::AppError;
use crate::models::{
    resource_views, Category, CategoryNode, CreateCategoryRequest, DeleteStrategy, DirectoryBinding, ResourceItem,
    ResourceItemView, ScanProgress, UpdateCategoryRequest,
};
use crate::paths::{has_ignored_segment, is_hidden_name};
use crate::session::{batch_for_request, needs_gather, sessions_after_request, sound_session, SessionModel};
use crate::tree::{
    has_id, ids_of, in_subtree, index_of, lemma_index_of, lemma_promoted_entries, lemma_subtree_ids,
    lemma_without_subtree_valid, makes_cycle, moved, valid_categories, with_parent,
};

verus! {

broadcast use vstd::std_specs::hash::group_hash_axioms;

/// The counts that the category tree shows for each category of the list:
/// its bound directories and its stored resources.
pub open spec fn tree_stats(
    cats: Seq<Category>,
    bindings: Seq<DirectoryBinding>,
    rows: Seq<ResourceItemView>,
) -> Map<i64, (i32, i32)> {
    Map::new(
        |id: i64| ids_of(cats).contains(id),
        |id: i64| (count_shown(bindings_of(bindings, id).len()), count_shown(rows_of(rows, id).len())),
    )
}

/// Every binding, every stored resource and every scan session belongs to a
/// category of the list.
pub open spec fn owned_by(
    cats: Seq<Category>,
    bindings: Seq<DirectoryBinding>,
    rows: Seq<ResourceItemView>,
    sessions: Map<i64, SessionModel>,
) -> bool {
    &&& forall|i: int| 0 <= i < bindings.len() ==> has_id(cats, (#[trigger] bindings[i]).category_id)
    &&& forall|i: int| 0 <= i < rows.len() ==> has_id(cats, (#[trigger] rows[i]).category_id)
    &&& forall|id: i64| #[trigger] sessions.dom().contains(id) ==> has_id(cats, id)
}

/// The counters of the ids went up by these numbers: that of the
/// categories, that of the bindings and that of the resources.
pub open spec fn counters_moved(
    before: (i64, i64, i64),
    after: (i64, i64, i64),
    categories: int,
    bindings: int,
    resources: int,
) -> bool {
    &&& after.0 == before.0 + categories
    &&& after.1 == before.1 + bindings
    &&& after.2 == before.2 + resources
}

/// The greater of two ids.
pub open spec fn later_id(a: i64, b: i64) -> i64 {
    if a >= b {
        a
    } else {
        b
    }
}

/// The resource manager: the categories with the directories bound to them,
/// the resources that scans of those directories found, and the scans in
/// progress.
pub struct ResourceManager {
    categories: CategoryService,
    directories: DirectoryService,
}

impl ResourceManager {
    /// All categories.
    pub closed spec fn categories(&self) -> Seq<Category> {
        self.categories@
    }

    /// All bindings.
    pub closed spec fn bindings(&self) -> Seq<DirectoryBinding> {
        self.directories.bindings()
    }

    /// All stored resources.
    pub closed spec fn resources(&self) -> Seq<ResourceItemView> {
        self.directories.resources()
    }

    /// The scan sessions, by category.
    pub closed spec fn sessions(&self) -> Map<i64, SessionModel> {
        self.directories.sessions()
    }

    /// The highest ids that were given to a category, a binding and a resource.
    pub closed spec fn last_ids(&self) -> (i64, i64, i64) {
        (self.categories.last_id(), self.directories.last_binding_id(), self.directories.last_resource_id())
    }

    /// The two parts are well formed, and nothing is kept for a category
    /// that does not exist.
    pub closed spec fn wf(&self) -> bool {
        &&& self.categories.wf()
        &&& self.directories.wf()
        &&& owned_by(self.categories@, self.directories.bindings(), self.directories.resources(), self.directories.sessions())
    }

    pub proof fn lemma_wf(&self)
        requires
            self.wf(),
        ensures
            valid_categories(self.categories()),
            owned_by(self.categories(), self.bindings(), self.resources(), self.sessions()),
            crate::directory::pairs_unique(self.bindings()),
            forall|i: int| 0 <= i < self.categories().len() ==> (#[trigger] self.categories()[i]).id <= self.last_ids().0,
            forall|i: int| 0 <= i < self.bindings().len() ==> (#[trigger] self.bindings()[i]).id <= self.last_ids().1,
            forall|i: int| 0 <= i < self.resources().len() ==> (#[trigger] self.resources()[i]).id <= self.last_ids().2,
            forall|id: i64| #[trigger] self.sessions().dom().contains(id) ==> sound_session(self.sessions()[id], id),
    {
        self.categories.lemma_wf();
        self.directories.lemma_wf();
    }

    /// A manager without categories.
    pub fn new() -> (manager: Self)
        ensures
            manager.wf(),
            manager.categories() == Seq::<Category>::empty(),
            manager.bindings() == Seq::<DirectoryBinding>::empty(),
            manager.resources() == Seq::<ResourceItemView>::empty(),
            manager.sessions() == Map::<i64, SessionModel>::empty(),
            manager.last_ids() == (0i64, 0i64, 0i64),
    {
        ResourceManager { categories: CategoryService::empty(), directories: DirectoryService::new() }
    }

    /// A manager over what was stored before. Fails with `InvalidInput`
    /// where the categories are no valid list, a directory is bound to one
    /// category twice, or a binding or a resource belongs to no category.
    pub fn restore(categories: Vec<Category>, bindings: Vec<DirectoryBinding>, resources: Vec<ResourceItem>) -> (r: Result<
        Self,
        AppError,
    >)
        ensures
            ({
                let sound = valid_categories(categories@) && crate::directory::pairs_unique(bindings@) && owned_by(
                    categories@,
                    bindings@,
                    resource_views(resources@),
                    Map::empty(),
                );
                match r {
                    Ok(manager) => {
                        &&& sound
                        &&& manager.wf()
                        &&& manager.categories() == categories@
                        &&& manager.bindings() == bindings@
                        &&& manager.resources() == resource_views(resources@)
                        &&& manager.sessions() == Map::<i64, SessionModel>::empty()
                        &&& manager.last_ids() == (
                            crate::category::highest_id(categories@),
                            crate::directory::highest_binding_id(bindings@),
                            crate::directory::highest_resource_id(resource_views(resources@)),
                        )
                    },
                    Err(e) => !sound && e is InvalidInput,
                }
            }),
    {
        let ghost cats = categories@;
        let ghost bound = bindings@;
        let ghost rows = resource_views(resources@);
        let service = match CategoryService::new(categories) {
            Ok(service) => service,
            Err(e) => {
                return Err(e);
            },
        };
        let mut i: usize = 0;
        while i < bindings.len()
            invariant
                i <= bindings.len(),
                bound == bindings@,
                service@ == cats,
                cats == categories@,
                rows == resource_views(resources@),
                forall|k: int| 0 <= k < i ==> has_id(cats, (#[trigger] bindings[k]).category_id),
            decreases bindings.len() - i,
        {
            if !service.category_exists(bindings[i].category_id) {
                assert(!has_id(cats, bound[i as int].category_id));
                return Err(AppError::invalid_input("a binding belongs to no category"));
            }
            i = i + 1;
        }
        let mut k: usize = 0;
        while k < resources.len()
            invariant
                k <= resources.len(),
                rows == resource_views(resources@),
                bound == bindings@,
                cats == categories@,
                service@ == cats,
                forall|m: int| 0 <= m < k ==> has_id(cats, (#[trigger] rows[m]).category_id),
            decreases resources.len() - k,
        {
            assert(rows[k as int] == resources[k as int]@);
            if !service.category_exists(resources[k].category_id) {
                assert(!has_id(cats, rows[k as int].category_id));
                return Err(AppError::invalid_input("a resource belongs to no category"));
            }
            k = k + 1;
        }
        match DirectoryService::restore(bindings, resources) {
            Err(e) => Err(e),
            Ok(directories) => Ok(ResourceManager { categories: service, directories }),
        }
    }

    /// Raises the counters of the ids to the ids given, where those are
    /// higher: an id that was given out before, to a category, a binding or
    /// a resource that is gone since, is then not given out again.
    pub fn reserve_ids(&mut self, category_id: i64, binding_id: i64, resource_id: i64)
        requires
            old(self).wf(),
        ensures
            final(self).wf(),
            final(self).categories() == old(self).categories(),
            final(self).bindings() == old(self).bindings(),
            final(self).resources() == old(self).resources(),
            final(self).sessions() == old(self).sessions(),
            final(self).last_ids() == (
                later_id(old(self).last_ids().0, category_id),
                later_id(old(self).last_ids().1, binding_id),
                later_id(old(self).last_ids().2, resource_id),
            ),
    {
        self.categories.reserve_id(category_id);
        self.directories.reserve_ids(binding_id, resource_id);
    }

    /// All categories, in the order in which they are held.
    pub fn list_categories(&self) -> (list: Vec<Category>)
        ensures
            list@ == self.categories(),
    {
        self.categories.list_categories()
    }

    /// Whether a category with this id exists.
    pub fn category_exists(&self, id: i64) -> (exists: bool)
        ensures
            exists == has_id(self.categories(), id),
    {
        self.categories.category_exists(id)
    }

    /// The bindings of a category, in the order in which they were made.
    pub fn get_bindings(&self, category_id: i64) -> (bound: Vec<DirectoryBinding>)
        ensures
            bound@ == bindings_of(self.bindings(), category_id),
    {
        self.directories.get_bindings(category_id)
    }

    /// The resources that are stored for a category.
    pub fn get_resources(&self, category_id: i64) -> (rows: Vec<ResourceItem>)
        ensures
            resource_views(rows@) == rows_of(self.resources(), category_id),
    {
        self.directories.get_resources(category_id)
    }

    /// Whether a request for a batch of the category starts a new scan, for
    /// which the category's bound directories have to be walked.
    pub fn needs_scan(&self, category_id: i64) -> (fresh: bool)
        ensures
            fresh == needs_gather(self.sessions(), category_id),
    {
        self.directories.needs_scan(category_id)
    }

    /// Creates a category as the last child of the parent that the request
    /// names, or as the last root. Fails with `CategoryNotFound` where the
    /// parent does not exist, and with `Database` where the ids or the sort
    /// orders are used up; a call that fails changes nothing.
    pub fn create_category(&mut self, req: CreateCategoryRequest, now: String) -> (r: Result<Category, AppError>)
        requires
            old(self).wf(),
        ensures
            final(self).wf(),
            counters_moved(
                old(self).last_ids(),
                final(self).last_ids(),
                if r is Ok { 1int } else { 0int },
                0,
                0,
            ),
            final(self).bindings() == old(self).bindings(),
            final(self).resources() == old(self).resources(),
            final(self).sessions() == old(self).sessions(),
            match r {
                Ok(c) => {
                    &&& can_create(old(self).categories(), old(self).last_ids().0, req)
                    &&& c == created(old(self).categories(), req, (old(self).last_ids().0 + 1) as i64, now)
                    &&& final(self).categories() == old(self).categories().push(c)
                },
                Err(e) => {
                    &&& !can_create(old(self).categories(), old(self).last_ids().0, req)
                    &&& final(self).categories() == old(self).categories()
                    &&& (e is CategoryNotFound <==> parent_missing(old(self).categories(), req))
                    &&& (e is CategoryNotFound || e is Database)
                },
            },
    {
        let ghost before = self.categories@;
        let r = self.categories.create_category(req, now);
        proof {
            lemma_ids_kept_by_push(before, self.categories@);
        }
        r
    }

    /// Changes the fields of a category that the request gives. Fails with
    /// `CategoryNotFound`, and changes nothing, where the category does not exist.
    pub fn update_category(&mut self, id: i64, req: UpdateCategoryRequest, now: String) -> (r: Result<Category, AppError>)
        requires
            old(self).wf(),
        ensures
            final(self).wf(),
            counters_moved(
                old(self).last_ids(),
                final(self).last_ids(),
                0,
                0,
                0,
            ),
            final(self).bindings() == old(self).bindings(),
            final(self).resources() == old(self).resources(),
            final(self).sessions() == old(self).sessions(),
            match r {
                Ok(c) => {
                    &&& has_id(old(self).categories(), id)
                    &&& c == updated(old(self).categories()[index_of(old(self).categories(), id)], req, now)
                    &&& final(self).categories() == old(self).categories().update(index_of(old(self).categories(), id), c)
                },
                Err(e) => !has_id(old(self).categories(), id) && e is CategoryNotFound && final(self).categories() == old(
                    self,
                ).categories(),
            },
    {
        let ghost before = self.categories@;
        let r = self.categories.update_category(id, req, now);
        proof {
            if r is Ok {
                old(self).categories.lemma_wf();
                let k = index_of(before, id);
                assert(before[k].id == id);
                lemma_index_of(before, k);
                assert forall|x: i64| has_id(before, x) implies has_id(self.categories@, x) by {
                    let i = choose|i: int| 0 <= i < before.len() && (#[trigger] before[i]).id == x;
                    assert(self.categories@[i].id == x);
                }
            }
        }
        r
    }

    /// Moves a category below another parent, or makes it a root. Fails with
    /// `CategoryNotFound` where the category or the parent does not exist,
    /// and with `InvalidInput` where the move would close a cycle. A call
    /// that fails changes nothing.
    pub fn move_category(&mut self, id: i64, parent: Option<i64>, now: String) -> (r: Result<Category, AppError>)
        requires
            old(self).wf(),
        ensures
            final(self).wf(),
            counters_moved(
                old(self).last_ids(),
                final(self).last_ids(),
                0,
                0,
                0,
            ),
            final(self).bindings() == old(self).bindings(),
            final(self).resources() == old(self).resources(),
            final(self).sessions() == old(self).sessions(),
            ({
                let cats = old(self).categories();
                let known = has_id(cats, id) && (parent is Some ==> has_id(cats, parent->0));
                match r {
                    Ok(c) => {
                        &&& known
                        &&& !makes_cycle(cats, id, parent)
                        &&& final(self).categories() == moved(cats, id, parent, now)
                        &&& c == with_parent(cats[index_of(cats, id)], id, parent, now)
                    },
                    Err(e) => {
                        &&& final(self).categories() == cats
                        &&& (e is CategoryNotFound || e is InvalidInput)
                        &&& (e is CategoryNotFound <==> !known)
                        &&& (e is InvalidInput <==> known && makes_cycle(cats, id, parent))
                    },
                }
            }),
    {
        let ghost before = self.categories@;
        let r = self.categories.move_category(id, parent, now);
        proof {
            if r is Ok {
                assert forall|x: i64| has_id(before, x) implies has_id(self.categories@, x) by {
                    let i = choose|i: int| 0 <= i < before.len() && (#[trigger] before[i]).id == x;
                    assert(self.categories@[i].id == x);
                }
            }
        }
        r
    }

    /// Gives the categories new sort orders, one after the other. Fails with
    /// `CategoryNotFound`, and changes nothing, where one of the ids is not
    /// that of a category.
    pub fn reorder_categories(&mut self, orders: Vec<(i64, i32)>, now: String) -> (r: Result<(), AppError>)
        requires
            old(self).wf(),
        ensures
            final(self).wf(),
            counters_moved(
                old(self).last_ids(),
                final(self).last_ids(),
                0,
                0,
                0,
            ),
            final(self).bindings() == old(self).bindings(),
            final(self).resources() == old(self).resources(),
            final(self).sessions() == old(self).sessions(),
            match r {
                Ok(_) => all_known(old(self).categories(), orders@) && final(self).categories() == reordered(
                    old(self).categories(),
                    orders@,
                    now,
                ),
                Err(e) => !all_known(old(self).categories(), orders@) && e is CategoryNotFound && final(self).categories()
                    == old(self).categories(),
            },
    {
        let ghost before = self.categories@;
        let r = self.categories.reorder_categories(orders, now);
        proof {
            if r is Ok {
                lemma_reordered_ids(before, orders@, now);
                assert forall|x: i64| has_id(before, x) implies has_id(self.categories@, x) by {
                    let i = choose|i: int| 0 <= i < before.len() && (#[trigger] before[i]).id == x;
                    assert(self.categories@[i].id == x);
                }
            }
        }
        r
    }

    /// Deletes a category. With `DeleteAll` its whole subtree goes with it;
    /// with `PromoteChildren` only the category goes, and its children get
    /// its parent as theirs. With the categories that are gone go their
    /// bindings, their stored resources and their scan sessions. Returns the
    /// ids of the categories that are gone. Fails with `CategoryNotFound`,
    /// and changes nothing, where the category does not exist.
    pub fn delete_category(&mut self, id: i64, strategy: DeleteStrategy) -> (r: Result<Vec<i64>, AppError>)
        requires
            old(self).wf(),
        ensures
            final(self).wf(),
            counters_moved(
                old(self).last_ids(),
                final(self).last_ids(),
                0,
                0,
                0,
            ),
            ({
                let cats = old(self).categories();
                let gone = deleted_ids(cats, id, strategy);
                match r {
                    Ok(ids) => {
                        &&& has_id(cats, id)
                        &&& ids@ == gone
                        &&& !has_id(final(self).categories(), id)
                        &&& final(self).categories() == after_delete(cats, id, strategy)
                        &&& final(self).bindings() == old(self).bindings().filter(
                            |b: DirectoryBinding| !gone.contains(b.category_id),
                        )
                        &&& final(self).resources() == old(self).resources().filter(
                            |r: ResourceItemView| !gone.contains(r.category_id),
                        )
                        &&& final(self).sessions() == old(self).sessions().remove_keys(Set::new(|x: i64| gone.contains(x)))
                    },
                    Err(e) => {
                        &&& !has_id(cats, id)
                        &&& e is CategoryNotFound
                        &&& final(self).categories() == cats
                        &&& final(self).bindings() == old(self).bindings()
                        &&& final(self).resources() == old(self).resources()
                        &&& final(self).sessions() == old(self).sessions()
                    },
                }
            }),
    {
        let ghost cats = self.categories@;
        let ghost bound = self.directories.bindings();
        let ghost rows = self.directories.resources();
        proof {
            self.categories.lemma_wf();
        }
        let gone = match self.categories.delete_category(id, strategy) {
            Err(e) => {
                return Err(e);
            },
            Ok(gone) => gone,
        };
        self.directories.remove_categories(&gone);
        proof {
            let left = self.categories@;
            assert forall|x: i64| has_id(cats, x) && !gone@.contains(x) implies has_id(left, x) by {
                let i = choose|i: int| 0 <= i < cats.len() && (#[trigger] cats[i]).id == x;
                match strategy {
                    DeleteStrategy::DeleteAll => {
                        lemma_without_subtree_valid(cats, id);
                        lemma_subtree_ids(cats, id, x);
                    },
                    DeleteStrategy::PromoteChildren => {
                        let k = index_of(cats, id);
                        lemma_index_of(cats, k);
                        assert(gone@[0] == id);
                        lemma_promoted_entries(cats, k);
                    },
                }
            }
            let keep_binding = |b: DirectoryBinding| !gone@.contains(b.category_id);
            let keep_row = |r: ResourceItemView| !gone@.contains(r.category_id);
            assert forall|i: int| 0 <= i < self.directories.bindings().len() implies has_id(
                left,
                (#[trigger] self.directories.bindings()[i]).category_id,
            ) by {
                let b = self.directories.bindings()[i];
                bound.lemma_filter_pred(keep_binding, i);
                bound.lemma_filter_contains_rev(keep_binding, b);
                let j = choose|j: int| 0 <= j < bound.len() && bound[j] == b;
                assert(has_id(cats, bound[j].category_id));
            }
            assert forall|i: int| 0 <= i < self.directories.resources().len() implies has_id(
                left,
                (#[trigger] self.directories.resources()[i]).category_id,
            ) by {
                let r = self.directories.resources()[i];
                rows.lemma_filter_pred(keep_row, i);
                rows.lemma_filter_contains_rev(keep_row, r);
                let j = choose|j: int| 0 <= j < rows.len() && rows[j] == r;
                assert(has_id(cats, rows[j].category_id));
            }
        }
        Ok(gone)
    }

    /// Binds a directory to a category. `kind` is what the file system says
    /// of `path`, and `now` the time that is recorded. Fails with
    /// `PathNotFound` where nothing is at the path, with `InvalidInput`
    /// where it is no directory, with `CategoryNotFound` where the category
    /// does not exist, and with `Database` where the directory is bound to
    /// the category already or the ids are used up. A call that fails
    /// changes nothing.
    pub fn bind_directory(&mut self, category_id: i64, path: String, kind: PathKind, now: String) -> (r: Result<
        DirectoryBinding,
        AppError,
    >)
        requires
            old(self).wf(),
        ensures
            final(self).wf(),
            counters_moved(
                old(self).last_ids(),
                final(self).last_ids(),
                0,
                if r is Ok { 1int } else { 0int },
                0,
            ),
            final(self).categories() == old(self).categories(),
            final(self).resources() == old(self).resources(),
            final(self).sessions() == old(self).sessions(),
            ({
                let exists = has_id(old(self).categories(), category_id);
                let full = old(self).last_ids().1 == i64::MAX;
                let bound = is_bound(old(self).bindings(), category_id, path@);
                match r {
                    Ok(binding) => {
                        &&& kind == PathKind::Directory
                        &&& exists
                        &&& !bound
                        &&& !full
                        &&& binding == (DirectoryBinding {
                            id: (old(self).last_ids().1 + 1) as i64,
                            category_id,
                            directory_path: path,
                            created_at: now,
                        })
                        &&& final(self).bindings() == old(self).bindings().push(binding)
                    },
                    Err(e) => {
                        &&& final(self).bindings() == old(self).bindings()
                        &&& (e is PathNotFound || e is InvalidInput || e is CategoryNotFound || e is Database)
                        &&& (e is PathNotFound <==> kind == PathKind::Missing)
                        &&& (e is PathNotFound ==> e->PathNotFound_0 == path)
                        &&& (e is InvalidInput <==> kind == PathKind::NotDirectory)
                        &&& (e is CategoryNotFound <==> kind == PathKind::Directory && !exists)
                        &&& (e is Database <==> kind == PathKind::Directory && exists && (bound || full))
                    },
                }
            }),
    {
        let exists = self.categories.category_exists(category_id);
        let ghost before = self.directories.bindings();
        let r = self.directories.bind_directory(category_id, path, kind, exists, now);
        proof {
            if r is Ok {
                assert forall|i: int| 0 <= i < self.directories.bindings().len() implies has_id(
                    self.categories@,
                    (#[trigger] self.directories.bindings()[i]).category_id,
                ) by {
                    if i < before.len() {
                        assert(self.directories.bindings()[i] == before[i]);
                    }
                }
            }
        }
        r
    }

    /// Removes the binding with this id, if there is one.
    pub fn unbind_directory(&mut self, binding_id: i64)
        requires
            old(self).wf(),
        ensures
            final(self).wf(),
            counters_moved(
                old(self).last_ids(),
                final(self).last_ids(),
                0,
                0,
                0,
            ),
            final(self).categories() == old(self).categories(),
            final(self).bindings() == old(self).bindings().filter(|b: DirectoryBinding| b.id != binding_id),
            final(self).resources() == old(self).resources(),
            final(self).sessions() == old(self).sessions(),
    {
        let ghost before = self.directories.bindings();
        let ghost pred = |b: DirectoryBinding| b.id != binding_id;
        self.directories.unbind_directory(binding_id);
        proof {
            assert forall|i: int| 0 <= i < self.directories.bindings().len() implies has_id(
                self.categories@,
                (#[trigger] self.directories.bindings()[i]).category_id,
            ) by {
                let b = self.directories.bindings()[i];
                before.lemma_filter_contains_rev(pred, b);
                let j = choose|j: int| 0 <= j < before.len() && before[j] == b;
                assert(has_id(self.categories@, before[j].category_id));
            }
        }
    }

    /// Scans a category: the resources that the walks of its bound
    /// directories give are stored in place of the category's stored
    /// resources, and returned. `walks` holds one walk for each binding of
    /// the category, in the order of `get_bindings`. Fails with
    /// `CategoryNotFound` where the category does not exist, with
    /// `InvalidInput` where the walks are not those of its bindings, and
    /// with `Database` where the ids are used up; a call that fails changes
    /// nothing.
    pub fn scan_directory(
        &mut self,
        category_id: i64,
        show_hidden: bool,
        ignore_directories: Option<String>,
        walks: &Vec<DirectoryWalk>,
        scanned_at: &str,
    ) -> (r: Result<Vec<ResourceItem>, AppError>)
        requires
            old(self).wf(),
        ensures
            final(self).wf(),
            counters_moved(
                old(self).last_ids(),
                final(self).last_ids(),
                0,
                0,
                if r is Ok {
                    first_of_each_path(gathered(walks@, show_hidden, ignore_of(ignore_directories), scanned_at@)).len() as int
                } else {
                    0
                },
            ),
            final(self).categories() == old(self).categories(),
            final(self).bindings() == old(self).bindings(),
            final(self).sessions() == old(self).sessions(),
            ({
                let found = gathered(walks@, show_hidden, ignore_of(ignore_directories), scanned_at@);
                let exists = has_id(old(self).categories(), category_id);
                let fit = walks_match(walks@, bindings_of(old(self).bindings(), category_id));
                let room = rows_fit(found, old(self).last_ids().2);
                match r {
                    Ok(list) => {
                        &&& exists
                        &&& fit
                        &&& room
                        &&& resource_views(list@) == found
                        &&& final(self).resources() == replaced(old(self).resources(), category_id, found, old(self).last_ids().2)
                        &&& forall|i: int|
                            0 <= i < list.len() ==> {
                                &&& under_binding(old(self).bindings(), category_id, (#[trigger] list[i]).file_path@)
                                &&& !has_ignored_segment(list[i].file_path@, ignore_of(ignore_directories))
                                &&& (!show_hidden ==> !is_hidden_name(list[i].file_name@))
                            }
                    },
                    Err(e) => {
                        &&& final(self).resources() == old(self).resources()
                        &&& (e is CategoryNotFound || e is InvalidInput || e is Database)
                        &&& (e is CategoryNotFound <==> !exists)
                        &&& (e is InvalidInput <==> exists && !fit)
                        &&& (e is Database <==> exists && fit && !room)
                    },
                }
            }),
    {
        if !self.categories.category_exists(category_id) {
            return Err(AppError::CategoryNotFound);
        }
        let ghost rows = self.directories.resources();
        let ghost last = self.directories.last_resource_id();
        let r = self.directories.scan_directory(category_id, show_hidden, ignore_directories, walks, scanned_at);
        proof {
            if r is Ok {
                let found = gathered(walks@, show_hidden, ignore_of(ignore_directories), scanned_at@);
                lemma_replaced_owned(self.categories@, rows, category_id, found, last);
            }
        }
        r
    }

    /// Answers one request for a batch of a category's scan. Where the
    /// category has no session, or one that is complete, a new scan is made
    /// first, as `scan_directory` makes it, and its result becomes the
    /// category's session; `walks` is read only then. The batch holds the
    /// next `batch_size` resources of the session, or those that are left.
    /// Fails with `CategoryNotFound` where the category does not exist, with
    /// `InvalidInput` where `batch_size` is not positive or a new scan is
    /// due and `walks` are not the walks of the category's bindings, and
    /// with `Database` where the ids are used up; a call that fails changes
    /// nothing.
    pub fn scan_directory_batch(
        &mut self,
        category_id: i64,
        show_hidden: bool,
        ignore_directories: Option<String>,
        batch_size: i32,
        walks: &Vec<DirectoryWalk>,
        scanned_at: &str,
    ) -> (r: Result<ScanProgress, AppError>)
        requires
            old(self).wf(),
        ensures
            final(self).wf(),
            counters_moved(
                old(self).last_ids(),
                final(self).last_ids(),
                0,
                0,
                if r is Ok && needs_gather(old(self).sessions(), category_id) {
                    first_of_each_path(gathered(walks@, show_hidden, ignore_of(ignore_directories), scanned_at@)).len() as int
                } else {
                    0
                },
            ),
            final(self).categories() == old(self).categories(),
            final(self).bindings() == old(self).bindings(),
            ({
                let found = gathered(walks@, show_hidden, ignore_of(ignore_directories), scanned_at@);
                let exists = has_id(old(self).categories(), category_id);
                let fit = walks_match(walks@, bindings_of(old(self).bindings(), category_id));
                let fresh = needs_gather(old(self).sessions(), category_id);
                let room = rows_fit(found, old(self).last_ids().2);
                match r {
                    Ok(progress) => {
                        &&& exists
                        &&& batch_size > 0
                        &&& fresh ==> fit && room
                        &&& final(self).sessions() == sessions_after_request(
                            old(self).sessions(),
                            category_id,
                            found,
                            batch_size as int,
                        )
                        &&& resource_views(progress.current_batch@) == batch_for_request(
                            old(self).sessions(),
                            category_id,
                            found,
                            batch_size as int,
                        )
                        &&& progress.total_files == final(self).sessions()[category_id].resources.len()
                        &&& progress.scanned_files == final(self).sessions()[category_id].cursor
                        &&& progress.is_complete == final(self).sessions()[category_id].complete
                        &&& 0 <= progress.scanned_files <= progress.total_files
                        &&& progress.is_complete <==> progress.scanned_files == progress.total_files
                        &&& progress.current_batch.len() <= batch_size
                        &&& progress.current_batch.len() == batch_size || progress.is_complete
                        &&& final(self).resources() == if fresh {
                            replaced(old(self).resources(), category_id, found, old(self).last_ids().2)
                        } else {
                            old(self).resources()
                        }
                        &&& fresh ==> forall|i: int|
                            0 <= i < progress.current_batch.len() ==> {
                                &&& under_binding(
                                    old(self).bindings(),
                                    category_id,
                                    (#[trigger] progress.current_batch[i]).file_path@,
                                )
                                &&& !has_ignored_segment(progress.current_batch[i].file_path@, ignore_of(ignore_directories))
                                &&& (!show_hidden ==> !is_hidden_name(progress.current_batch[i].file_name@))
                            }
                    },
                    Err(e) => {
                        &&& final(self).sessions() == old(self).sessions()
                        &&& final(self).resources() == old(self).resources()
                        &&& (e is CategoryNotFound || e is InvalidInput || e is Database)
                        &&& (e is CategoryNotFound <==> !exists)
                        &&& (e is InvalidInput <==> exists && (batch_size <= 0 || (fresh && !fit)))
                        &&& (e is Database <==> exists && batch_size > 0 && fresh && fit && !room)
                    },
                }
            }),
    {
        if !self.categories.category_exists(category_id) {
            return Err(AppError::CategoryNotFound);
        }
        let ghost rows = self.directories.resources();
        let ghost last = self.directories.last_resource_id();
        let r = self.directories.scan_directory_batch(
            category_id,
            show_hidden,
            ignore_directories,
            batch_size,
            walks,
            scanned_at,
        );
        proof {
            if r is Ok {
                let found = gathered(walks@, show_hidden, ignore_of(ignore_directories), scanned_at@);
                lemma_replaced_owned(self.categories@, rows, category_id, found, last);
            }
        }
        r
    }

    /// The category tree: the forest of all categories, siblings in the order
    /// of their sort orders, each node with the number of directories bound
    /// to its category and the number of resources stored for it.
    pub fn get_category_tree(&self) -> (tree: Vec<CategoryNode>)
        ensures
            is_forest(
                tree@,
                sorted_by_order(self.categories()),
                tree_stats(self.categories(), self.bindings(), self.resources()),
                None,
                self.categories().len(),
            ),
    {
        let list = self.categories.list_categories();
        let mut ids: Vec<i64> = Vec::new();
        let mut i: usize = 0;
        while i < list.len()
            invariant
                i <= list.len(),
                ids@ == ids_of(list@.take(i as int)),
            decreases list.len() - i,
        {
            ids.push(list[i].id);
            assert(ids@ =~= ids_of(list@.take(i + 1)));
            i = i + 1;
        }
        assert(list@.take(list.len() as int) =~= list@);
        let stats = self.directories.category_stats(&ids);
        assert(stats@ =~= tree_stats(self.categories(), self.bindings(), self.resources()));
        self.categories.get_category_tree(&stats)
    }
}

proof fn lemma_ids_kept_by_push(before: Seq<Category>, after: Seq<Category>)
    ensures
        (exists|c: Category| after == before.push(c)) ==> forall|x: i64| has_id(before, x) ==> has_id(after, x),
{
    if exists|c: Category| after == before.push(c) {
        assert forall|x: i64| has_id(before, x) implies has_id(after, x) by {
            let i = choose|i: int| 0 <= i < before.len() && (#[trigger] before[i]).id == x;
            assert(after[i].id == x);
        }
    }
}

proof fn lemma_reordered_ids(cats: Seq<Category>, orders: Seq<(i64, i32)>, now: String)
    ensures
        reordered(cats, orders, now).len() == cats.len(),
        forall|i: int| 0 <= i < cats.len() ==> (#[trigger] reordered(cats, orders, now)[i]).id == cats[i].id,
    decreases orders.len(),
{
    if orders.len() > 0 {
        lemma_reordered_ids(cats, orders.drop_last(), now);
    }
}

proof fn lemma_replaced_owned(
    cats: Seq<Category>,
    rows: Seq<ResourceItemView>,
    category_id: i64,
    found: Seq<ResourceItemView>,
    last_id: i64,
)
    requires
        has_id(cats, category_id),
        forall|i: int| 0 <= i < rows.len() ==> has_id(cats, (#[trigger] rows[i]).category_id),
    ensures
        forall|i: int|
            0 <= i < replaced(rows, category_id, found, last_id).len() ==> has_id(
                cats,
                (#[trigger] replaced(rows, category_id, found, last_id)[i]).category_id,
            ),
{
    let others = |r: ResourceItemView| r.category_id != category_id;
    let kept = rows.filter(others);
    let all = replaced(rows, category_id, found, last_id);
    assert forall|i: int| 0 <= i < all.len() implies has_id(cats, (#[trigger] all[i]).category_id) by {
        if i < kept.len() {
            assert(all[i] == kept[i]);
            rows.lemma_filter_contains_rev(others, kept[i]);
            let j = choose|j: int| 0 <= j < rows.len() && rows[j] == kept[i];
            assert(has_id(cats, rows[j].category_id));
        } else {
            assert(all[i].category_id == category_id);
        }
    }
}

} // verus!
