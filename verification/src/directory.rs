//! Directory bindings, stored resources and scans: what a scan of a
//! category's bound directories stores and returns, at once or in batches.

use vstd::prelude::*;
use std::collections::HashMap;
use vstd::hash_set::StringHashSet;
use crate::error::AppError;
use crate::models::{resource_views, DirectoryBinding, ResourceItem, ResourceItemView, ScanProgress};
use crate::paths::{has_ignored_segment, is_hidden_name, path_under};
use crate::session::{
    batch_for_request, needs_gather, sessions_after_request, sound_session, SessionModel, SessionStore,
};
use crate::text::texts;
use crate::walker::{ignore_names, lemma_scanned_hidden_excluded, lemma_scanned_paths, parse_ignore_list, scan_path, scanned, WalkEvent};

verus! {

broadcast use vstd::std_specs::hash::group_hash_axioms;

/// What the file system says of a path that is to be bound.
#[derive(Debug, Clone, Copy, PartialEq, Eq)]
pub enum PathKind {
    /// Nothing is there.
    Missing,
    /// Something is there that is no directory.
    NotDirectory,
    Directory,
}

/// What one walk of a bound directory came upon.
#[derive(Debug, PartialEq, Eq)]
pub struct DirectoryWalk {
    /// The directory that was walked.
    pub root: String,
    pub events: Vec<WalkEvent>,
}

/// The bindings of a category, in the order in which they were made.
pub open spec fn bindings_of(bindings: Seq<DirectoryBinding>, category_id: i64) -> Seq<DirectoryBinding> {
    bindings.filter(|b: DirectoryBinding| b.category_id == category_id)
}

/// The directory is bound to the category.
pub open spec fn is_bound(bindings: Seq<DirectoryBinding>, category_id: i64, path: Seq<char>) -> bool {
    exists|i: int|
        0 <= i < bindings.len() && (#[trigger] bindings[i]).category_id == category_id && bindings[i].directory_path@ == path
}

/// No directory is bound to one category twice.
pub open spec fn pairs_unique(bindings: Seq<DirectoryBinding>) -> bool {
    forall|i: int, j: int|
        0 <= i < bindings.len() && 0 <= j < bindings.len() && i != j ==> !((#[trigger] bindings[i]).category_id == (
        #[trigger] bindings[j]).category_id && bindings[i].directory_path@ == bindings[j].directory_path@)
}

/// The path lies under a directory that is bound to the category.
pub open spec fn under_binding(bindings: Seq<DirectoryBinding>, category_id: i64, path: Seq<char>) -> bool {
    exists|i: int|
        0 <= i < bindings.len() && (#[trigger] bindings[i]).category_id == category_id && path_under(
            bindings[i].directory_path@,
            path,
        )
}

/// There is one walk for each binding, in the order of the bindings, and each
/// is a walk of the bound directory.
pub open spec fn walks_match(walks: Seq<DirectoryWalk>, bound: Seq<DirectoryBinding>) -> bool {
    &&& walks.len() == bound.len()
    &&& forall|i: int| 0 <= i < walks.len() ==> (#[trigger] walks[i]).root@ == bound[i].directory_path@
}

/// The ignored names that a caller's list stands for.
pub open spec fn ignore_of(list: Option<String>) -> Seq<Seq<char>> {
    ignore_names(
        match list {
            Some(s) => Some(s@),
            None => None,
        },
    )
}

/// What the walks give together: the resources of each walk, walk after walk.
pub open spec fn gathered(
    walks: Seq<DirectoryWalk>,
    show_hidden: bool,
    ignore: Seq<Seq<char>>,
    scanned_at: Seq<char>,
) -> Seq<ResourceItemView>
    decreases walks.len(),
{
    if walks.len() == 0 {
        Seq::empty()
    } else {
        gathered(walks.drop_last(), show_hidden, ignore, scanned_at) + scanned(
            walks.last().root@,
            walks.last().events@,
            show_hidden,
            ignore,
            scanned_at,
        )
    }
}

/// Some resource of the list has this path.
pub open spec fn has_path(items: Seq<ResourceItemView>, path: Seq<char>) -> bool {
    exists|i: int| 0 <= i < items.len() && (#[trigger] items[i]).file_path == path
}

/// The list without the resources whose path an earlier resource has.
pub open spec fn first_of_each_path(items: Seq<ResourceItemView>) -> Seq<ResourceItemView>
    decreases items.len(),
{
    if items.len() == 0 {
        Seq::empty()
    } else {
        let front = first_of_each_path(items.drop_last());
        if has_path(items.drop_last(), items.last().file_path) {
            front
        } else {
            front.push(items.last())
        }
    }
}

/// The rows that are written for a category: each resource with the category
/// and the next free id.
pub open spec fn stored_rows(items: Seq<ResourceItemView>, category_id: i64, last_id: i64) -> Seq<ResourceItemView> {
    Seq::new(
        items.len(),
        |i: int| ResourceItemView { id: (last_id + 1 + i) as i64, category_id, ..items[i] },
    )
}

/// The rows of the other categories.
pub open spec fn rows_of_others(rows: Seq<ResourceItemView>, category_id: i64) -> Seq<ResourceItemView> {
    rows.filter(|r: ResourceItemView| r.category_id != category_id)
}

/// The rows of one category.
pub open spec fn rows_of(rows: Seq<ResourceItemView>, category_id: i64) -> Seq<ResourceItemView> {
    rows.filter(|r: ResourceItemView| r.category_id == category_id)
}

/// The table after the rows of a category were replaced by what a scan found:
/// the rows of the other categories stay, and the first resource of each path
/// is written for the category.
pub open spec fn replaced(
    rows: Seq<ResourceItemView>,
    category_id: i64,
    items: Seq<ResourceItemView>,
    last_id: i64,
) -> Seq<ResourceItemView> {
    rows_of_others(rows, category_id) + stored_rows(first_of_each_path(items), category_id, last_id)
}

/// The store can take what a scan found: the ids for its rows are left, and
/// the number of the resources can be reported.
pub open spec fn rows_fit(items: Seq<ResourceItemView>, last_id: i64) -> bool {
    &&& items.len() <= i64::MAX
    &&& last_id + first_of_each_path(items).len() <= i64::MAX
}

/// The first resource of each path: every path of the list is kept once.
pub proof fn lemma_first_of_each_path(items: Seq<ResourceItemView>)
    ensures
        first_of_each_path(items).len() <= items.len(),
        forall|i: int, j: int|
            0 <= i < j < first_of_each_path(items).len() ==> (#[trigger] first_of_each_path(items)[i]).file_path != (
            #[trigger] first_of_each_path(items)[j]).file_path,
        forall|path: Seq<char>| has_path(first_of_each_path(items), path) <==> has_path(items, path),
    decreases items.len(),
{
    let kept = first_of_each_path(items);
    if items.len() > 0 {
        let front = items.drop_last();
        let kept_front = first_of_each_path(front);
        lemma_first_of_each_path(front);
        assert forall|path: Seq<char>| has_path(kept, path) <==> has_path(items, path) by {
            if has_path(kept, path) {
                let i = choose|i: int| 0 <= i < kept.len() && (#[trigger] kept[i]).file_path == path;
                if i < kept_front.len() {
                    assert(kept_front[i].file_path == path);
                    assert(has_path(kept_front, path));
                    assert(has_path(front, path));
                    let k = choose|k: int| 0 <= k < front.len() && (#[trigger] front[k]).file_path == path;
                    assert(items[k].file_path == path);
                } else {
                    assert(items[items.len() - 1].file_path == path);
                }
            }
            if has_path(items, path) {
                let k = choose|k: int| 0 <= k < items.len() && (#[trigger] items[k]).file_path == path;
                if k < front.len() {
                    assert(front[k].file_path == path);
                    assert(has_path(front, path));
                    assert(has_path(kept_front, path));
                    let i = choose|i: int| 0 <= i < kept_front.len() && (#[trigger] kept_front[i]).file_path == path;
                    assert(kept[i].file_path == path);
                } else if has_path(front, path) {
                    assert(has_path(kept_front, path));
                    let i = choose|i: int| 0 <= i < kept_front.len() && (#[trigger] kept_front[i]).file_path == path;
                    assert(kept[i].file_path == path);
                } else {
                    assert(kept[kept.len() - 1].file_path == path);
                }
            }
        }
        assert forall|i: int, j: int| 0 <= i < j < kept.len() implies (#[trigger] kept[i]).file_path != (#[trigger] kept[j]).file_path by {
            if j < kept_front.len() {
                assert(kept[i] == kept_front[i] && kept[j] == kept_front[j]);
            } else {
                assert(kept[i] == kept_front[i]);
                assert(has_path(kept_front, kept_front[i].file_path));
            }
        }
    }
}

/// Every resource that the walks give lies under the directory of one of
/// the walks, no segment of its path is an ignored name, and unless hidden
/// files were asked for its name does not begin with a dot.
pub proof fn lemma_gathered_paths(
    walks: Seq<DirectoryWalk>,
    show_hidden: bool,
    ignore: Seq<Seq<char>>,
    scanned_at: Seq<char>,
)
    ensures
        forall|i: int|
            0 <= i < gathered(walks, show_hidden, ignore, scanned_at).len() ==> {
                let item = #[trigger] gathered(walks, show_hidden, ignore, scanned_at)[i];
                &&& !has_ignored_segment(item.file_path, ignore)
                &&& (!show_hidden ==> !is_hidden_name(item.file_name))
                &&& exists|w: int| 0 <= w < walks.len() && path_under((#[trigger] walks[w]).root@, item.file_path)
            },
    decreases walks.len(),
{
    if walks.len() > 0 {
        let front = walks.drop_last();
        let all = gathered(walks, show_hidden, ignore, scanned_at);
        let before = gathered(front, show_hidden, ignore, scanned_at);
        let last = scanned(walks.last().root@, walks.last().events@, show_hidden, ignore, scanned_at);
        lemma_gathered_paths(front, show_hidden, ignore, scanned_at);
        lemma_scanned_paths(walks.last().root@, walks.last().events@, show_hidden, ignore, scanned_at);
        if !show_hidden {
            lemma_scanned_hidden_excluded(walks.last().root@, walks.last().events@, ignore, scanned_at);
        }
        assert forall|i: int| 0 <= i < all.len() implies {
            let item = #[trigger] all[i];
            &&& !has_ignored_segment(item.file_path, ignore)
            &&& (!show_hidden ==> !is_hidden_name(item.file_name))
            &&& exists|w: int| 0 <= w < walks.len() && path_under((#[trigger] walks[w]).root@, item.file_path)
        } by {
            if i < before.len() {
                assert(all[i] == before[i]);
                let w = choose|w: int| 0 <= w < front.len() && path_under((#[trigger] front[w]).root@, before[i].file_path);
                assert(walks[w] == front[w]);
            } else {
                assert(all[i] == last[i - before.len()]);
                assert(path_under(walks[walks.len() - 1].root@, all[i].file_path));
            }
        }
    }
}

/// A count as it is shown in the category tree: a count that does not fit
/// the 32 bits of the tree's counts is shown as 0.
pub open spec fn count_shown(n: nat) -> i32 {
    if n > i32::MAX {
        0
    } else {
        n as i32
    }
}

/// The highest id among the bindings, or 0 where none is above 0.
pub open spec fn highest_binding_id(bindings: Seq<DirectoryBinding>) -> i64
    decreases bindings.len(),
{
    if bindings.len() == 0 {
        0
    } else if bindings.last().id > highest_binding_id(bindings.drop_last()) {
        bindings.last().id
    } else {
        highest_binding_id(bindings.drop_last())
    }
}

/// The highest id among the resources, or 0 where none is above 0.
pub open spec fn highest_resource_id(rows: Seq<ResourceItemView>) -> i64
    decreases rows.len(),
{
    if rows.len() == 0 {
        0
    } else if rows.last().id > highest_resource_id(rows.drop_last()) {
        rows.last().id
    } else {
        highest_resource_id(rows.drop_last())
    }
}

proof fn lemma_highest_binding_id(bindings: Seq<DirectoryBinding>)
    ensures
        0 <= highest_binding_id(bindings),
        forall|i: int| 0 <= i < bindings.len() ==> (#[trigger] bindings[i]).id <= highest_binding_id(bindings),
    decreases bindings.len(),
{
    if bindings.len() > 0 {
        lemma_highest_binding_id(bindings.drop_last());
        assert forall|i: int| 0 <= i < bindings.len() implies (#[trigger] bindings[i]).id <= highest_binding_id(bindings) by {
            if i < bindings.len() - 1 {
                assert(bindings.drop_last()[i] == bindings[i]);
            }
        }
    }
}

proof fn lemma_highest_resource_id(rows: Seq<ResourceItemView>)
    ensures
        0 <= highest_resource_id(rows),
        forall|i: int| 0 <= i < rows.len() ==> (#[trigger] rows[i]).id <= highest_resource_id(rows),
    decreases rows.len(),
{
    if rows.len() > 0 {
        lemma_highest_resource_id(rows.drop_last());
        assert forall|i: int| 0 <= i < rows.len() implies (#[trigger] rows[i]).id <= highest_resource_id(rows) by {
            if i < rows.len() - 1 {
                assert(rows.drop_last()[i] == rows[i]);
            }
        }
    }
}

proof fn lemma_take_contains(ids: Seq<i64>, i: int, x: i64)
    requires
        0 <= i < ids.len(),
    ensures
        ids.take(i + 1).contains(x) <==> (ids.take(i).contains(x) || x == ids[i]),
{
    let longer = ids.take(i + 1);
    let shorter = ids.take(i);
    if longer.contains(x) {
        let k = choose|k: int| 0 <= k < longer.len() && longer[k] == x;
        if k < i {
            assert(shorter[k] == x);
        }
    }
    if shorter.contains(x) {
        let k = choose|k: int| 0 <= k < shorter.len() && shorter[k] == x;
        assert(longer[k] == x);
    }
    if x == ids[i] {
        assert(longer[i] == x);
    }
}

fn contains_id(ids: &Vec<i64>, id: i64) -> (found: bool)
    ensures
        found == ids@.contains(id),
{
    let mut i: usize = 0;
    while i < ids.len()
        invariant
            i <= ids.len(),
            forall|k: int| 0 <= k < i ==> ids[k] != id,
        decreases ids.len() - i,
    {
        if ids[i] == id {
            return true;
        }
        i = i + 1;
    }
    false
}

fn pairs_are_unique(bindings: &Vec<DirectoryBinding>) -> (unique: bool)
    ensures
        unique == pairs_unique(bindings@),
{
    let n: usize = bindings.len();
    let mut i: usize = 0;
    while i < n
        invariant
            i <= n,
            n == bindings.len(),
            forall|a: int, b: int|
                0 <= a < i && 0 <= b < n && a != b ==> !((#[trigger] bindings[a]).category_id == (#[trigger] bindings[b]).category_id
                    && bindings[a].directory_path@ == bindings[b].directory_path@),
        decreases n - i,
    {
        let mut j: usize = 0;
        while j < n
            invariant
                i < n,
                j <= n,
                n == bindings.len(),
                forall|b: int|
                    0 <= b < j && i != b ==> !(bindings[i as int].category_id == (#[trigger] bindings[b]).category_id
                        && bindings[i as int].directory_path@ == bindings[b].directory_path@),
            decreases n - j,
        {
            if j != i && bindings[j].category_id == bindings[i].category_id && bindings[j].directory_path
                == bindings[i].directory_path {
                return false;
            }
            j = j + 1;
        }
        i = i + 1;
    }
    true
}

fn gather(walks: &Vec<DirectoryWalk>, show_hidden: bool, ignore: &Vec<String>, scanned_at: &str) -> (all: Vec<ResourceItem>)
    ensures
        resource_views(all@) == gathered(walks@, show_hidden, texts(ignore@), scanned_at@),
{
    let mut all: Vec<ResourceItem> = Vec::new();
    let mut i: usize = 0;
    assert(walks@.take(0) =~= Seq::<DirectoryWalk>::empty());
    assert(resource_views(all@) =~= Seq::<ResourceItemView>::empty());
    while i < walks.len()
        invariant
            i <= walks.len(),
            resource_views(all@) == gathered(walks@.take(i as int), show_hidden, texts(ignore@), scanned_at@),
        decreases walks.len() - i,
    {
        let mut found = scan_path(walks[i].root.as_str(), &walks[i].events, show_hidden, ignore, scanned_at);
        let ghost before = all@;
        let ghost added = found@;
        all.append(&mut found);
        proof {
            assert(walks@.take(i + 1).drop_last() =~= walks@.take(i as int));
            assert(walks@.take(i + 1).last() == walks[i as int]);
            assert(resource_views(all@) =~= resource_views(before) + resource_views(added));
        }
        i = i + 1;
    }
    assert(walks@.take(walks.len() as int) =~= walks@);
    all
}

fn first_per_path(items: &Vec<ResourceItem>) -> (kept: Vec<ResourceItem>)
    ensures
        resource_views(kept@) == first_of_each_path(resource_views(items@)),
{
    let mut kept: Vec<ResourceItem> = Vec::new();
    let mut seen = StringHashSet::new();
    let mut i: usize = 0;
    assert(items@.take(0) =~= Seq::<ResourceItem>::empty());
    assert(resource_views(kept@) =~= Seq::<ResourceItemView>::empty());
    while i < items.len()
        invariant
            i <= items.len(),
            forall|path: Seq<char>| seen@.contains(path) <==> has_path(resource_views(items@.take(i as int)), path),
            resource_views(kept@) == first_of_each_path(resource_views(items@.take(i as int))),
        decreases items.len() - i,
    {
        let ghost before = resource_views(items@.take(i as int));
        let ghost after = resource_views(items@.take(i + 1));
        proof {
            assert(after.drop_last() =~= before);
            assert(after.last() == items[i as int]@);
        }
        let fresh = !seen.contains(items[i].file_path.as_str());
        if fresh {
            let ghost old_kept = kept@;
            seen.insert(items[i].file_path.clone());
            kept.push(items[i].clone());
            assert(resource_views(kept@) =~= resource_views(old_kept).push(items[i as int]@));
        }
        proof {
            assert forall|path: Seq<char>| seen@.contains(path) <==> has_path(after, path) by {
                if has_path(after, path) {
                    let k = choose|k: int| 0 <= k < after.len() && (#[trigger] after[k]).file_path == path;
                    if k < before.len() {
                        assert(before[k].file_path == path);
                    }
                }
                if has_path(before, path) {
                    let k = choose|k: int| 0 <= k < before.len() && (#[trigger] before[k]).file_path == path;
                    assert(after[k].file_path == path);
                }
                if path == items[i as int]@.file_path {
                    assert(after[after.len() - 1].file_path == path);
                }
            }
        }
        i = i + 1;
    }
    assert(items@.take(items.len() as int) =~= items@);
    kept
}

/// The bindings of directories to categories, the resources that the scans
/// of the categories found, and the scan sessions in progress.
pub struct DirectoryService {
    bindings: Vec<DirectoryBinding>,
    resources: Vec<ResourceItem>,
    sessions: SessionStore,
    last_binding_id: i64,
    last_resource_id: i64,
}

impl DirectoryService {
    /// All bindings, in the order in which they were made.
    pub closed spec fn bindings(&self) -> Seq<DirectoryBinding> {
        self.bindings@
    }

    /// All stored resources.
    pub closed spec fn resources(&self) -> Seq<ResourceItemView> {
        resource_views(self.resources@)
    }

    /// The scan sessions, by category.
    pub closed spec fn sessions(&self) -> Map<i64, SessionModel> {
        self.sessions@
    }

    /// The highest id that a binding was ever given.
    pub closed spec fn last_binding_id(&self) -> i64 {
        self.last_binding_id
    }

    /// The highest id that a resource was ever given.
    pub closed spec fn last_resource_id(&self) -> i64 {
        self.last_resource_id
    }

    /// No directory is bound to one category twice, no id is above the last
    /// one given out, and the sessions are well formed.
    pub closed spec fn wf(&self) -> bool {
        &&& self.sessions.wf()
        &&& pairs_unique(self.bindings@)
        &&& 0 <= self.last_binding_id
        &&& 0 <= self.last_resource_id
        &&& forall|i: int| 0 <= i < self.bindings.len() ==> (#[trigger] self.bindings[i]).id <= self.last_binding_id
        &&& forall|i: int| 0 <= i < self.resources.len() ==> (#[trigger] self.resources[i]).id <= self.last_resource_id
    }

    pub proof fn lemma_wf(&self)
        requires
            self.wf(),
        ensures
            pairs_unique(self.bindings()),
            0 <= self.last_binding_id(),
            0 <= self.last_resource_id(),
            forall|i: int| 0 <= i < self.bindings().len() ==> (#[trigger] self.bindings()[i]).id <= self.last_binding_id(),
            forall|i: int| 0 <= i < self.resources().len() ==> (#[trigger] self.resources()[i]).id <= self.last_resource_id(),
            forall|id: i64| #[trigger] self.sessions().dom().contains(id) ==> sound_session(self.sessions()[id], id),
    {
        assert forall|id: i64| #[trigger] self.sessions().dom().contains(id) implies sound_session(self.sessions()[id], id) by {
            self.sessions.lemma_wf(id);
        }
        assert forall|i: int| 0 <= i < self.resources().len() implies (#[trigger] self.resources()[i]).id <= self.last_resource_id() by {
            assert(self.resources()[i] == self.resources[i]@);
        }
    }

    /// A service without bindings, resources or sessions.
    pub fn new() -> (service: Self)
        ensures
            service.wf(),
            service.bindings() == Seq::<DirectoryBinding>::empty(),
            service.resources() == Seq::<ResourceItemView>::empty(),
            service.sessions() == Map::<i64, SessionModel>::empty(),
            service.last_binding_id() == 0,
            service.last_resource_id() == 0,
    {
        let service = DirectoryService {
            bindings: Vec::new(),
            resources: Vec::new(),
            sessions: SessionStore::new(),
            last_binding_id: 0,
            last_resource_id: 0,
        };
        assert(service.resources() =~= Seq::<ResourceItemView>::empty());
        service
    }

    fn find_binding(&self, category_id: i64, path: &String) -> (found: bool)
        ensures
            found == is_bound(self.bindings@, category_id, path@),
    {
        let mut i: usize = 0;
        while i < self.bindings.len()
            invariant
                i <= self.bindings.len(),
                forall|k: int|
                    0 <= k < i ==> !((#[trigger] self.bindings[k]).category_id == category_id && self.bindings[k].directory_path@
                        == path@),
            decreases self.bindings.len() - i,
        {
            if self.bindings[i].category_id == category_id && self.bindings[i].directory_path == *path {
                return true;
            }
            i = i + 1;
        }
        false
    }

    /// Binds a directory to a category. `kind` is what the file system says
    /// of `path`, `category_exists` what the categories say of `category_id`,
    /// and `now` the time that is recorded. Fails with `PathNotFound` where
    /// nothing is at the path, with `InvalidInput` where it is no directory,
    /// with `CategoryNotFound` where the category does not exist, and with
    /// `Database` where the directory is bound to the category already or
    /// the ids are used up. A call that fails changes nothing.
    pub fn bind_directory(
        &mut self,
        category_id: i64,
        path: String,
        kind: PathKind,
        category_exists: bool,
        now: String,
    ) -> (r: Result<DirectoryBinding, AppError>)
        requires
            old(self).wf(),
        ensures
            final(self).wf(),
            final(self).resources() == old(self).resources(),
            final(self).sessions() == old(self).sessions(),
            final(self).last_resource_id() == old(self).last_resource_id(),
            match r {
                Ok(binding) => {
                    &&& kind == PathKind::Directory
                    &&& category_exists
                    &&& !is_bound(old(self).bindings(), category_id, path@)
                    &&& old(self).last_binding_id() < i64::MAX
                    &&& binding == (DirectoryBinding {
                        id: (old(self).last_binding_id() + 1) as i64,
                        category_id,
                        directory_path: path,
                        created_at: now,
                    })
                    &&& final(self).bindings() == old(self).bindings().push(binding)
                    &&& final(self).last_binding_id() == old(self).last_binding_id() + 1
                },
                Err(e) => {
                    &&& final(self).bindings() == old(self).bindings()
                    &&& final(self).last_binding_id() == old(self).last_binding_id()
                    &&& (e is PathNotFound || e is InvalidInput || e is CategoryNotFound || e is Database)
                    &&& (e is PathNotFound <==> kind == PathKind::Missing)
                    &&& (e is PathNotFound ==> e->PathNotFound_0 == path)
                    &&& (e is InvalidInput <==> kind == PathKind::NotDirectory)
                    &&& (e is CategoryNotFound <==> kind == PathKind::Directory && !category_exists)
                    &&& (e is Database <==> kind == PathKind::Directory && category_exists && (is_bound(
                        old(self).bindings(),
                        category_id,
                        path@,
                    ) || old(self).last_binding_id() == i64::MAX))
                },
            },
    {
        match kind {
            PathKind::Missing => {
                return Err(AppError::PathNotFound(path));
            },
            PathKind::NotDirectory => {
                return Err(AppError::invalid_input("Path is not a directory"));
            },
            PathKind::Directory => {},
        }
        if !category_exists {
            return Err(AppError::CategoryNotFound);
        }
        if self.find_binding(category_id, &path) {
            return Err(AppError::store("the directory is bound to the category already"));
        }
        if self.last_binding_id == i64::MAX {
            return Err(AppError::store("no binding id is left"));
        }
        let id: i64 = self.last_binding_id + 1;
        let binding = DirectoryBinding { id, category_id, directory_path: path, created_at: now };
        let copy = binding.clone();
        let ghost before = self.bindings@;
        self.bindings.push(binding);
        self.last_binding_id = id;
        proof {
            assert forall|i: int, j: int| 0 <= i < self.bindings.len() && 0 <= j < self.bindings.len() && i != j implies !((
            #[trigger] self.bindings[i]).category_id == (#[trigger] self.bindings[j]).category_id && self.bindings[i].directory_path@
                == self.bindings[j].directory_path@) by {
                if i < before.len() {
                    assert(self.bindings[i] == before[i]);
                }
                if j < before.len() {
                    assert(self.bindings[j] == before[j]);
                }
            }
            assert forall|i: int| 0 <= i < self.bindings.len() implies (#[trigger] self.bindings[i]).id <= self.last_binding_id by {
                if i < before.len() {
                    assert(self.bindings[i] == before[i]);
                }
            }
        }
        Ok(copy)
    }

    /// Removes the binding with this id, if there is one.
    pub fn unbind_directory(&mut self, binding_id: i64)
        requires
            old(self).wf(),
        ensures
            final(self).wf(),
            final(self).bindings() == old(self).bindings().filter(|b: DirectoryBinding| b.id != binding_id),
            final(self).resources() == old(self).resources(),
            final(self).sessions() == old(self).sessions(),
            final(self).last_binding_id() == old(self).last_binding_id(),
            final(self).last_resource_id() == old(self).last_resource_id(),
    {
        let ghost before = self.bindings@;
        let ghost pred = |b: DirectoryBinding| b.id != binding_id;
        let mut kept: Vec<DirectoryBinding> = Vec::new();
        let mut i: usize = 0;
        proof {
            reveal(Seq::filter);
            assert(before.take(0) =~= Seq::<DirectoryBinding>::empty());
        }
        while i < self.bindings.len()
            invariant
                i <= self.bindings.len(),
                before == self.bindings@,
                pred == |b: DirectoryBinding| b.id != binding_id,
                kept@ == before.take(i as int).filter(pred),
            decreases self.bindings.len() - i,
        {
            proof {
                before.take(i as int).lemma_filter_push(before[i as int], pred);
                assert(before.take(i as int).push(before[i as int]) =~= before.take(i + 1));
            }
            if self.bindings[i].id != binding_id {
                kept.push(self.bindings[i].clone());
            }
            i = i + 1;
        }
        proof {
            assert(before.take(before.len() as int) =~= before);
            lemma_kept_bindings(before, pred);
        }
        self.bindings = kept;
    }

    /// The bindings of a category, in the order in which they were made.
    pub fn get_bindings(&self, category_id: i64) -> (bound: Vec<DirectoryBinding>)
        ensures
            bound@ == bindings_of(self.bindings(), category_id),
    {
        let ghost pred = |b: DirectoryBinding| b.category_id == category_id;
        let mut bound: Vec<DirectoryBinding> = Vec::new();
        let mut i: usize = 0;
        proof {
            reveal(Seq::filter);
            assert(self.bindings@.take(0) =~= Seq::<DirectoryBinding>::empty());
        }
        while i < self.bindings.len()
            invariant
                i <= self.bindings.len(),
                pred == |b: DirectoryBinding| b.category_id == category_id,
                bound@ == self.bindings@.take(i as int).filter(pred),
            decreases self.bindings.len() - i,
        {
            proof {
                self.bindings@.take(i as int).lemma_filter_push(self.bindings[i as int], pred);
                assert(self.bindings@.take(i as int).push(self.bindings[i as int]) =~= self.bindings@.take(i + 1));
            }
            if self.bindings[i].category_id == category_id {
                bound.push(self.bindings[i].clone());
            }
            i = i + 1;
        }
        assert(self.bindings@.take(self.bindings.len() as int) =~= self.bindings@);
        bound
    }

    fn walks_fit(&self, category_id: i64, walks: &Vec<DirectoryWalk>) -> (fit: bool)
        ensures
            fit == walks_match(walks@, bindings_of(self.bindings(), category_id)),
    {
        let bound = self.get_bindings(category_id);
        if walks.len() != bound.len() {
            return false;
        }
        let mut i: usize = 0;
        while i < walks.len()
            invariant
                i <= walks.len(),
                walks.len() == bound.len(),
                bound@ == bindings_of(self.bindings(), category_id),
                forall|k: int| 0 <= k < i ==> (#[trigger] walks[k]).root@ == bound[k].directory_path@,
            decreases walks.len() - i,
        {
            if walks[i].root != bound[i].directory_path {
                return false;
            }
            i = i + 1;
        }
        true
    }

    /// Replaces the stored resources of a category by what a scan found: the
    /// first resource of each path is written, with the category and a new
    /// id; the rows of other categories stay. Fails with `Database`, and
    /// changes nothing, where the ids are used up or the resources are more
    /// than can be counted in 64 bits.
    pub fn save_resources(&mut self, category_id: i64, resources: &Vec<ResourceItem>) -> (r: Result<(), AppError>)
        requires
            old(self).wf(),
        ensures
            final(self).wf(),
            final(self).bindings() == old(self).bindings(),
            final(self).sessions() == old(self).sessions(),
            final(self).last_binding_id() == old(self).last_binding_id(),
            match r {
                Ok(_) => {
                    &&& rows_fit(resource_views(resources@), old(self).last_resource_id())
                    &&& final(self).resources() == replaced(
                        old(self).resources(),
                        category_id,
                        resource_views(resources@),
                        old(self).last_resource_id(),
                    )
                    &&& final(self).last_resource_id() == old(self).last_resource_id() + first_of_each_path(
                        resource_views(resources@),
                    ).len()
                },
                Err(e) => {
                    &&& !rows_fit(resource_views(resources@), old(self).last_resource_id())
                    &&& e is Database
                    &&& final(self).resources() == old(self).resources()
                    &&& final(self).last_resource_id() == old(self).last_resource_id()
                },
            },
    {
        if resources.len() as u64 > i64::MAX as u64 {
            return Err(AppError::store("the resources are too many to count"));
        }
        let fresh = first_per_path(resources);
        let ghost items = first_of_each_path(resource_views(resources@));
        let room: u64 = (i64::MAX - self.last_resource_id) as u64;
        if fresh.len() as u64 > room {
            return Err(AppError::store("no resource id is left"));
        }
        let ghost before = self.resources@;
        let ghost others = |r: ResourceItemView| r.category_id != category_id;
        let mut rows: Vec<ResourceItem> = Vec::new();
        let mut i: usize = 0;
        proof {
            reveal(Seq::filter);
            assert(before.take(0) =~= Seq::<ResourceItem>::empty());
            assert(resource_views(before.take(0)) =~= Seq::<ResourceItemView>::empty());
            assert(resource_views(rows@) =~= Seq::<ResourceItemView>::empty());
        }
        while i < self.resources.len()
            invariant
                i <= self.resources.len(),
                before == self.resources@,
                self.wf(),
                others == |r: ResourceItemView| r.category_id != category_id,
                resource_views(rows@) == resource_views(before.take(i as int)).filter(others),
                forall|k: int| 0 <= k < rows.len() ==> (#[trigger] rows[k]).id <= self.last_resource_id,
            decreases self.resources.len() - i,
        {
            proof {
                resource_views(before.take(i as int)).lemma_filter_push(before[i as int]@, others);
                assert(resource_views(before.take(i as int)).push(before[i as int]@) =~= resource_views(before.take(i + 1)));
            }
            if self.resources[i].category_id != category_id {
                let ghost old_rows = rows@;
                rows.push(self.resources[i].clone());
                assert(resource_views(rows@) =~= resource_views(old_rows).push(before[i as int]@));
            }
            i = i + 1;
        }
        assert(before.take(before.len() as int) =~= before);
        let ghost kept = rows@;
        let last: i64 = self.last_resource_id;
        let mut k: usize = 0;
        while k < fresh.len()
            invariant
                k <= fresh.len(),
                0 <= last,
                last + fresh.len() <= i64::MAX,
                rows.len() == kept.len() + k,
                forall|m: int| 0 <= m < kept.len() ==> rows[m] == kept[m],
                forall|m: int|
                    0 <= m < k ==> (#[trigger] rows[kept.len() + m])@ == (ResourceItemView {
                        id: (last + 1 + m) as i64,
                        category_id,
                        ..fresh[m]@
                    }),
                forall|m: int| 0 <= m < rows.len() ==> (#[trigger] rows[m]).id <= last + k,
            decreases fresh.len() - k,
        {
            let item = &fresh[k];
            rows.push(
                ResourceItem {
                    id: last + 1 + k as i64,
                    category_id,
                    file_name: item.file_name.clone(),
                    file_path: item.file_path.clone(),
                    file_size: item.file_size,
                    file_type: item.file_type.clone(),
                    modified_at: item.modified_at.clone(),
                    scanned_at: item.scanned_at.clone(),
                },
            );
            k = k + 1;
        }
        proof {
            assert(resource_views(fresh@) == items);
            assert(resource_views(rows@) =~= resource_views(kept) + stored_rows(items, category_id, last)) by {
                assert forall|m: int| 0 <= m < rows.len() implies resource_views(rows@)[m] == (resource_views(kept) + stored_rows(
                    items,
                    category_id,
                    last,
                ))[m] by {
                    if m >= kept.len() {
                        assert(rows[kept.len() + (m - kept.len())]@ == (ResourceItemView {
                            id: (last + 1 + (m - kept.len())) as i64,
                            category_id,
                            ..fresh[m - kept.len()]@
                        }));
                        assert(items[m - kept.len()] == fresh[m - kept.len()]@);
                    }
                }
            }
        }
        self.resources = rows;
        self.last_resource_id = last + fresh.len() as i64;
        Ok(())
    }

    /// Scans a category: the resources that the walks of its bound
    /// directories give are stored in place of the category's stored
    /// resources, and returned. `walks` holds one walk for each binding of the
    /// category, in the order of `get_bindings`. Fails with `InvalidInput`
    /// where it does not, and with `Database` where the ids are used up; a
    /// call that fails changes nothing.
    pub fn scan_directory(
        &mut self,
        category_id: i64,
        show_hidden: bool,
        ignore_directories: Option<String>,
        walks: &Vec<DirectoryWalk>,
        scanned_at: &str,
    ) -> (r: Result<Vec<ResourceItem>, AppError>)
        requires
            old(self).wf(),
        ensures
            final(self).wf(),
            final(self).bindings() == old(self).bindings(),
            final(self).sessions() == old(self).sessions(),
            final(self).last_binding_id() == old(self).last_binding_id(),
            ({
                let found = gathered(walks@, show_hidden, ignore_of(ignore_directories), scanned_at@);
                let fit = walks_match(walks@, bindings_of(old(self).bindings(), category_id));
                match r {
                    Ok(list) => {
                        &&& fit
                        &&& rows_fit(found, old(self).last_resource_id())
                        &&& resource_views(list@) == found
                        &&& final(self).resources() == replaced(old(self).resources(), category_id, found, old(self).last_resource_id())
                        &&& final(self).last_resource_id() == old(self).last_resource_id() + first_of_each_path(found).len()
                        &&& forall|i: int|
                            0 <= i < list.len() ==> {
                                &&& under_binding(old(self).bindings(), category_id, (#[trigger] list[i]).file_path@)
                                &&& !has_ignored_segment(list[i].file_path@, ignore_of(ignore_directories))
                                &&& (!show_hidden ==> !is_hidden_name(list[i].file_name@))
                            }
                    },
                    Err(e) => {
                        &&& final(self).resources() == old(self).resources()
                        &&& final(self).last_resource_id() == old(self).last_resource_id()
                        &&& (e is InvalidInput || e is Database)
                        &&& (e is InvalidInput <==> !fit)
                        &&& (e is Database <==> fit && !rows_fit(found, old(self).last_resource_id()))
                    },
                }
            }),
    {
        if !self.walks_fit(category_id, walks) {
            return Err(AppError::invalid_input("the walks are not those of the category's bound directories"));
        }
        let ignore = parse_ignore_list(&ignore_directories);
        let list = gather(walks, show_hidden, &ignore, scanned_at);
        match self.save_resources(category_id, &list) {
            Err(e) => Err(e),
            Ok(_) => {
                proof {
                    lemma_under_bindings(
                        old(self).bindings(),
                        category_id,
                        walks@,
                        show_hidden,
                        ignore_of(ignore_directories),
                        scanned_at@,
                    );
                    let found = gathered(walks@, show_hidden, ignore_of(ignore_directories), scanned_at@);
                    assert forall|i: int| 0 <= i < list.len() implies {
                        &&& under_binding(old(self).bindings(), category_id, (#[trigger] list[i]).file_path@)
                        &&& !has_ignored_segment(list[i].file_path@, ignore_of(ignore_directories))
                        &&& (!show_hidden ==> !is_hidden_name(list[i].file_name@))
                    } by {
                        assert(found[i] == list[i]@);
                    }
                }
                Ok(list)
            },
        }
    }

    /// Answers one request for a batch of a category's scan. Where the
    /// category has no session, or one that is complete, a new scan is made
    /// first, as `scan_directory` makes it, and its result becomes the
    /// category's session; `walks` is read only then. The batch holds the
    /// next `batch_size` resources of the session, or those that are left.
    /// Fails with `InvalidInput` where `batch_size` is not positive or a new
    /// scan is due and `walks` are not the walks of the category's bindings,
    /// and with `Database` where the ids are used up; a call that fails
    /// changes nothing.
    pub fn scan_directory_batch(
        &mut self,
        category_id: i64,
        show_hidden: bool,
        ignore_directories: Option<String>,
        batch_size: i32,
        walks: &Vec<DirectoryWalk>,
        scanned_at: &str,
    ) -> (r: Result<ScanProgress, AppError>)
        requires
            old(self).wf(),
        ensures
            final(self).wf(),
            final(self).bindings() == old(self).bindings(),
            final(self).last_binding_id() == old(self).last_binding_id(),
            ({
                let found = gathered(walks@, show_hidden, ignore_of(ignore_directories), scanned_at@);
                let fit = walks_match(walks@, bindings_of(old(self).bindings(), category_id));
                let fresh = needs_gather(old(self).sessions(), category_id);
                match r {
                    Ok(progress) => {
                        &&& batch_size > 0
                        &&& fresh ==> fit && rows_fit(found, old(self).last_resource_id())
                        &&& final(self).sessions() == sessions_after_request(
                            old(self).sessions(),
                            category_id,
                            found,
                            batch_size as int,
                        )
                        &&& resource_views(progress.current_batch@) == batch_for_request(
                            old(self).sessions(),
                            category_id,
                            found,
                            batch_size as int,
                        )
                        &&& progress.total_files == final(self).sessions()[category_id].resources.len()
                        &&& progress.scanned_files == final(self).sessions()[category_id].cursor
                        &&& progress.is_complete == final(self).sessions()[category_id].complete
                        &&& 0 <= progress.scanned_files <= progress.total_files
                        &&& progress.is_complete <==> progress.scanned_files == progress.total_files
                        &&& progress.current_batch.len() <= batch_size
                        &&& progress.current_batch.len() == batch_size || progress.is_complete
                        &&& final(self).resources() == if fresh {
                            replaced(old(self).resources(), category_id, found, old(self).last_resource_id())
                        } else {
                            old(self).resources()
                        }
                        &&& final(self).last_resource_id() == old(self).last_resource_id() + if fresh {
                            first_of_each_path(found).len() as int
                        } else {
                            0
                        }
                        &&& fresh ==> forall|i: int|
                            0 <= i < progress.current_batch.len() ==> {
                                &&& under_binding(
                                    old(self).bindings(),
                                    category_id,
                                    (#[trigger] progress.current_batch[i]).file_path@,
                                )
                                &&& !has_ignored_segment(progress.current_batch[i].file_path@, ignore_of(ignore_directories))
                                &&& (!show_hidden ==> !is_hidden_name(progress.current_batch[i].file_name@))
                            }
                    },
                    Err(e) => {
                        &&& final(self).sessions() == old(self).sessions()
                        &&& final(self).resources() == old(self).resources()
                        &&& final(self).last_resource_id() == old(self).last_resource_id()
                        &&& (e is InvalidInput || e is Database)
                        &&& (e is InvalidInput <==> batch_size <= 0 || (fresh && !fit))
                        &&& (e is Database <==> batch_size > 0 && fresh && fit && !rows_fit(found, old(self).last_resource_id()))
                    },
                }
            }),
    {
        if batch_size <= 0 {
            return Err(AppError::invalid_input("the batch size must be positive"));
        }
        if self.sessions.needs_gather(category_id) {
            match self.scan_directory(category_id, show_hidden, ignore_directories, walks, scanned_at) {
                Err(e) => {
                    return Err(e);
                },
                Ok(list) => {
                    self.sessions.begin(category_id, list);
                },
            }
        }
        let ghost begun = self.sessions@;
        match self.sessions.next_batch(category_id, batch_size as usize) {
            Some(progress) => {
                proof {
                    let found = gathered(walks@, show_hidden, ignore_of(ignore_directories), scanned_at@);
                    if needs_gather(old(self).sessions(), category_id) {
                        assert(begun[category_id] == crate::session::fresh_session(category_id, found));
                        assert(resource_views(progress.current_batch@) == crate::session::next_batch_of(
                            begun[category_id],
                            batch_size as int,
                        ));
                        lemma_under_bindings(
                            old(self).bindings(),
                            category_id,
                            walks@,
                            show_hidden,
                            ignore_of(ignore_directories),
                            scanned_at@,
                        );
                        let batch = resource_views(progress.current_batch@);
                        assert forall|i: int| 0 <= i < progress.current_batch.len() implies {
                            &&& under_binding(
                                old(self).bindings(),
                                category_id,
                                (#[trigger] progress.current_batch[i]).file_path@,
                            )
                            &&& !has_ignored_segment(progress.current_batch[i].file_path@, ignore_of(ignore_directories))
                            &&& (!show_hidden ==> !is_hidden_name(progress.current_batch[i].file_name@))
                        } by {
                            let end = crate::session::batch_end(found.len() as int, 0, batch_size as int);
                            assert(batch == found.subrange(0, end));
                            assert(batch.len() == progress.current_batch.len());
                            assert(0 <= end <= found.len());
                            assert(found.subrange(0, end).len() == end);
                            assert(batch[i] == progress.current_batch[i]@);
                            assert(found.subrange(0, end)[i] == found[i]);
                        }
                    }
                }
                Ok(progress)
            },
            // Does not happen: the session was there, or it has just begun.
            None => Err(AppError::invalid_input("the category has no scan session")),
        }
    }

    /// A service over bindings and resources that were stored before. Fails
    /// with `InvalidInput` where a directory is bound to one category twice.
    pub fn restore(bindings: Vec<DirectoryBinding>, resources: Vec<ResourceItem>) -> (r: Result<Self, AppError>)
        ensures
            match r {
                Ok(service) => {
                    &&& pairs_unique(bindings@)
                    &&& service.wf()
                    &&& service.bindings() == bindings@
                    &&& service.resources() == resource_views(resources@)
                    &&& service.sessions() == Map::<i64, SessionModel>::empty()
                    &&& service.last_binding_id() == highest_binding_id(bindings@)
                    &&& service.last_resource_id() == highest_resource_id(resource_views(resources@))
                },
                Err(e) => !pairs_unique(bindings@) && e is InvalidInput,
            },
    {
        if !pairs_are_unique(&bindings) {
            return Err(AppError::invalid_input("a directory is bound to one category twice"));
        }
        let mut last_binding_id: i64 = 0;
        let mut i: usize = 0;
        assert(bindings@.take(0) =~= Seq::<DirectoryBinding>::empty());
        while i < bindings.len()
            invariant
                i <= bindings.len(),
                last_binding_id == highest_binding_id(bindings@.take(i as int)),
            decreases bindings.len() - i,
        {
            assert(bindings@.take(i + 1).drop_last() =~= bindings@.take(i as int));
            if bindings[i].id > last_binding_id {
                last_binding_id = bindings[i].id;
            }
            i = i + 1;
        }
        assert(bindings@.take(bindings.len() as int) =~= bindings@);
        let ghost rows = resource_views(resources@);
        let mut last_resource_id: i64 = 0;
        let mut k: usize = 0;
        assert(rows.take(0) =~= Seq::<ResourceItemView>::empty());
        while k < resources.len()
            invariant
                k <= resources.len(),
                rows == resource_views(resources@),
                last_resource_id == highest_resource_id(rows.take(k as int)),
            decreases resources.len() - k,
        {
            assert(rows.take(k + 1).drop_last() =~= rows.take(k as int));
            assert(rows.take(k + 1).last() == resources[k as int]@);
            if resources[k].id > last_resource_id {
                last_resource_id = resources[k].id;
            }
            k = k + 1;
        }
        assert(rows.take(resources.len() as int) =~= rows);
        proof {
            lemma_highest_binding_id(bindings@);
            lemma_highest_resource_id(rows);
            assert forall|m: int| 0 <= m < resources.len() implies (#[trigger] resources[m]).id <= last_resource_id by {
                assert(rows[m] == resources[m]@);
            }
        }
        Ok(DirectoryService { bindings, resources, sessions: SessionStore::new(), last_binding_id, last_resource_id })
    }

    /// The resources that are stored for the category.
    pub fn get_resources(&self, category_id: i64) -> (rows: Vec<ResourceItem>)
        ensures
            resource_views(rows@) == rows_of(self.resources(), category_id),
    {
        let ghost all = resource_views(self.resources@);
        let ghost pred = |r: ResourceItemView| r.category_id == category_id;
        let mut rows: Vec<ResourceItem> = Vec::new();
        let mut i: usize = 0;
        proof {
            reveal(Seq::filter);
            assert(all.take(0) =~= Seq::<ResourceItemView>::empty());
            assert(resource_views(rows@) =~= Seq::<ResourceItemView>::empty());
        }
        while i < self.resources.len()
            invariant
                i <= self.resources.len(),
                all == resource_views(self.resources@),
                pred == |r: ResourceItemView| r.category_id == category_id,
                resource_views(rows@) == all.take(i as int).filter(pred),
            decreases self.resources.len() - i,
        {
            proof {
                all.take(i as int).lemma_filter_push(all[i as int], pred);
                assert(all.take(i as int).push(all[i as int]) =~= all.take(i + 1));
                assert(all[i as int] == self.resources[i as int]@);
            }
            if self.resources[i].category_id == category_id {
                let ghost before = rows@;
                rows.push(self.resources[i].clone());
                assert(resource_views(rows@) =~= resource_views(before).push(self.resources[i as int]@));
            }
            i = i + 1;
        }
        assert(all.take(self.resources.len() as int) =~= all);
        rows
    }

    /// Raises the counters of the ids to the ids given, where those are
    /// higher: an id that was given to a binding or a resource that is gone
    /// since is then not given out again.
    pub fn reserve_ids(&mut self, binding_id: i64, resource_id: i64)
        requires
            old(self).wf(),
        ensures
            final(self).wf(),
            final(self).bindings() == old(self).bindings(),
            final(self).resources() == old(self).resources(),
            final(self).sessions() == old(self).sessions(),
            final(self).last_binding_id() == if old(self).last_binding_id() >= binding_id {
                old(self).last_binding_id()
            } else {
                binding_id
            },
            final(self).last_resource_id() == if old(self).last_resource_id() >= resource_id {
                old(self).last_resource_id()
            } else {
                resource_id
            },
    {
        if binding_id > self.last_binding_id {
            self.last_binding_id = binding_id;
        }
        if resource_id > self.last_resource_id {
            self.last_resource_id = resource_id;
        }
    }

    /// How many directories are bound to the category.
    pub fn count_directory_bindings(&self, category_id: i64) -> (n: usize)
        ensures
            n == bindings_of(self.bindings(), category_id).len(),
    {
        let bound = self.get_bindings(category_id);
        bound.len()
    }

    /// How many resources are stored for the category.
    pub fn count_resources(&self, category_id: i64) -> (n: usize)
        ensures
            n == rows_of(self.resources(), category_id).len(),
    {
        let rows = self.get_resources(category_id);
        assert(resource_views(rows@).len() == rows.len());
        rows.len()
    }

    /// The counts of bound directories and of stored resources for each of
    /// the categories, as the category tree shows them.
    pub fn category_stats(&self, category_ids: &Vec<i64>) -> (stats: HashMap<i64, (i32, i32)>)
        ensures
            forall|id: i64| stats@.dom().contains(id) <==> category_ids@.contains(id),
            forall|id: i64| #[trigger]
                stats@.dom().contains(id) ==> stats@[id] == (
                    count_shown(bindings_of(self.bindings(), id).len()),
                    count_shown(rows_of(self.resources(), id).len()),
                ),
    {
        let mut stats: HashMap<i64, (i32, i32)> = HashMap::new();
        let mut i: usize = 0;
        while i < category_ids.len()
            invariant
                i <= category_ids.len(),
                forall|id: i64| stats@.dom().contains(id) <==> category_ids@.take(i as int).contains(id),
                forall|id: i64| #[trigger]
                    stats@.dom().contains(id) ==> stats@[id] == (
                        count_shown(bindings_of(self.bindings(), id).len()),
                        count_shown(rows_of(self.resources(), id).len()),
                    ),
            decreases category_ids.len() - i,
        {
            let id = category_ids[i];
            let bound = self.count_directory_bindings(id);
            let stored = self.count_resources(id);
            let directory_count: i32 = if bound > i32::MAX as usize {
                0
            } else {
                bound as i32
            };
            let resource_count: i32 = if stored > i32::MAX as usize {
                0
            } else {
                stored as i32
            };
            stats.insert(id, (directory_count, resource_count));
            proof {
                assert forall|x: i64| stats@.dom().contains(x) <==> category_ids@.take(i + 1).contains(x) by {
                    lemma_take_contains(category_ids@, i as int, x);
                }
            }
            i = i + 1;
        }
        assert(category_ids@.take(category_ids.len() as int) =~= category_ids@);
        stats
    }

    /// Drops what belongs to categories that were deleted: their bindings,
    /// their stored resources and their scan sessions.
    pub fn remove_categories(&mut self, category_ids: &Vec<i64>)
        requires
            old(self).wf(),
        ensures
            final(self).wf(),
            final(self).bindings() == old(self).bindings().filter(|b: DirectoryBinding| !category_ids@.contains(b.category_id)),
            final(self).resources() == old(self).resources().filter(
                |r: ResourceItemView| !category_ids@.contains(r.category_id),
            ),
            final(self).sessions() == old(self).sessions().remove_keys(Set::new(|id: i64| category_ids@.contains(id))),
            final(self).last_binding_id() == old(self).last_binding_id(),
            final(self).last_resource_id() == old(self).last_resource_id(),
    {
        let ghost bound = self.bindings@;
        let ghost keep_binding = |b: DirectoryBinding| !category_ids@.contains(b.category_id);
        let mut bindings: Vec<DirectoryBinding> = Vec::new();
        let mut i: usize = 0;
        proof {
            reveal(Seq::filter);
            assert(bound.take(0) =~= Seq::<DirectoryBinding>::empty());
        }
        while i < self.bindings.len()
            invariant
                i <= self.bindings.len(),
                bound == self.bindings@,
                keep_binding == |b: DirectoryBinding| !category_ids@.contains(b.category_id),
                bindings@ == bound.take(i as int).filter(keep_binding),
            decreases self.bindings.len() - i,
        {
            proof {
                bound.take(i as int).lemma_filter_push(bound[i as int], keep_binding);
                assert(bound.take(i as int).push(bound[i as int]) =~= bound.take(i + 1));
            }
            if !contains_id(category_ids, self.bindings[i].category_id) {
                bindings.push(self.bindings[i].clone());
            }
            i = i + 1;
        }
        let ghost stored = self.resources@;
        let ghost rows = resource_views(stored);
        let ghost keep_row = |r: ResourceItemView| !category_ids@.contains(r.category_id);
        let mut resources: Vec<ResourceItem> = Vec::new();
        let mut k: usize = 0;
        proof {
            assert(bound.take(bound.len() as int) =~= bound);
            assert(rows.take(0) =~= Seq::<ResourceItemView>::empty());
            assert(resource_views(resources@) =~= Seq::<ResourceItemView>::empty());
        }
        while k < self.resources.len()
            invariant
                k <= self.resources.len(),
                stored == self.resources@,
                rows == resource_views(stored),
                self.wf(),
                keep_row == |r: ResourceItemView| !category_ids@.contains(r.category_id),
                resource_views(resources@) == rows.take(k as int).filter(keep_row),
                forall|m: int| 0 <= m < resources.len() ==> (#[trigger] resources[m]).id <= self.last_resource_id,
            decreases self.resources.len() - k,
        {
            proof {
                rows.take(k as int).lemma_filter_push(rows[k as int], keep_row);
                assert(rows.take(k as int).push(rows[k as int]) =~= rows.take(k + 1));
                assert(rows[k as int] == stored[k as int]@);
            }
            if !contains_id(category_ids, self.resources[k].category_id) {
                let ghost before = resources@;
                resources.push(self.resources[k].clone());
                assert(resource_views(resources@) =~= resource_views(before).push(stored[k as int]@));
            }
            k = k + 1;
        }
        assert(rows.take(rows.len() as int) =~= rows);
        let ghost sessions = self.sessions@;
        let mut j: usize = 0;
        while j < category_ids.len()
            invariant
                j <= category_ids.len(),
                self.sessions.wf(),
                self.bindings@ == bound,
                self.resources@ == stored,
                self.last_binding_id == old(self).last_binding_id,
                self.last_resource_id == old(self).last_resource_id,
                self.sessions@ == sessions.remove_keys(Set::new(|id: i64| category_ids@.take(j as int).contains(id))),
            decreases category_ids.len() - j,
        {
            let ghost before = self.sessions@;
            self.sessions.remove(category_ids[j]);
            proof {
                assert forall|x: i64| category_ids@.take(j + 1).contains(x) <==> (category_ids@.take(j as int).contains(x) || x
                    == category_ids[j as int]) by {
                    lemma_take_contains(category_ids@, j as int, x);
                }
                assert(self.sessions@ =~= sessions.remove_keys(Set::new(|id: i64| category_ids@.take(j + 1).contains(id))));
            }
            j = j + 1;
        }
        proof {
            assert(category_ids@.take(category_ids.len() as int) =~= category_ids@);
            lemma_kept_bindings(bound, keep_binding);
            assert forall|m: int| 0 <= m < bindings.len() implies (#[trigger] bindings[m]).id <= self.last_binding_id by {
                assert(bound.contains(bindings[m]));
                let n = choose|n: int| 0 <= n < bound.len() && bound[n] == bindings[m];
                assert(bound[n].id <= self.last_binding_id);
            }
        }
        self.bindings = bindings;
        self.resources = resources;
    }

    /// Whether a request for a batch of the category starts a new scan, for
    /// which the category's bound directories have to be walked.
    pub fn needs_scan(&self, category_id: i64) -> (fresh: bool)
        ensures
            fresh == needs_gather(self.sessions(), category_id),
    {
        self.sessions.needs_gather(category_id)
    }
}

proof fn lemma_kept_bindings(bindings: Seq<DirectoryBinding>, pred: spec_fn(DirectoryBinding) -> bool)
    ensures
        pairs_unique(bindings) ==> pairs_unique(bindings.filter(pred)),
        forall|j: int| 0 <= j < bindings.filter(pred).len() ==> bindings.contains(#[trigger] bindings.filter(pred)[j]),
    decreases bindings.len(),
{
    reveal(Seq::filter);
    let kept = bindings.filter(pred);
    if bindings.len() > 0 {
        let front = bindings.drop_last();
        let kept_front = front.filter(pred);
        lemma_kept_bindings(front, pred);
        assert forall|j: int| 0 <= j < kept.len() implies bindings.contains(#[trigger] kept[j]) by {
            if j < kept_front.len() {
                assert(kept[j] == kept_front[j]);
                let i = choose|i: int| 0 <= i < front.len() && front[i] == kept_front[j];
                assert(bindings[i] == kept[j]);
            } else {
                assert(bindings[bindings.len() - 1] == kept[j]);
            }
        }
        if pairs_unique(bindings) {
            assert(pairs_unique(front)) by {
                assert forall|i: int, j: int| 0 <= i < front.len() && 0 <= j < front.len() && i != j implies !((
                #[trigger] front[i]).category_id == (#[trigger] front[j]).category_id && front[i].directory_path@
                    == front[j].directory_path@) by {
                    assert(front[i] == bindings[i] && front[j] == bindings[j]);
                }
            }
            assert forall|i: int, j: int| 0 <= i < kept.len() && 0 <= j < kept.len() && i != j implies !((
            #[trigger] kept[i]).category_id == (#[trigger] kept[j]).category_id && kept[i].directory_path@
                == kept[j].directory_path@) by {
                if i < kept_front.len() && j < kept_front.len() {
                    assert(kept[i] == kept_front[i] && kept[j] == kept_front[j]);
                } else {
                    let other = if i < kept_front.len() { i } else { j };
                    assert(kept[other] == kept_front[other]);
                    let i0 = choose|i0: int| 0 <= i0 < front.len() && front[i0] == kept_front[other];
                    assert(bindings[i0] == kept[other]);
                    assert(bindings[bindings.len() - 1] == kept[if other == i { j } else { i }]);
                }
            }
        }
    }
}

/// Where the walks are those of a category's bindings, every resource that
/// they give lies under a directory that is bound to the category.
pub proof fn lemma_under_bindings(
    bindings: Seq<DirectoryBinding>,
    category_id: i64,
    walks: Seq<DirectoryWalk>,
    show_hidden: bool,
    ignore: Seq<Seq<char>>,
    scanned_at: Seq<char>,
)
    requires
        walks_match(walks, bindings_of(bindings, category_id)),
    ensures
        forall|i: int|
            0 <= i < gathered(walks, show_hidden, ignore, scanned_at).len() ==> {
                let item = #[trigger] gathered(walks, show_hidden, ignore, scanned_at)[i];
                &&& under_binding(bindings, category_id, item.file_path)
                &&& !has_ignored_segment(item.file_path, ignore)
                &&& (!show_hidden ==> !is_hidden_name(item.file_name))
            },
{
    let found = gathered(walks, show_hidden, ignore, scanned_at);
    let pred = |b: DirectoryBinding| b.category_id == category_id;
    let bound = bindings_of(bindings, category_id);
    lemma_gathered_paths(walks, show_hidden, ignore, scanned_at);
    lemma_kept_bindings(bindings, pred);
    assert forall|i: int| 0 <= i < found.len() implies under_binding(bindings, category_id, (#[trigger] found[i]).file_path) by {
        let w = choose|w: int| 0 <= w < walks.len() && path_under((#[trigger] walks[w]).root@, found[i].file_path);
        bindings.lemma_filter_pred(pred, w);
        assert(bindings.contains(bound[w]));
        let k = choose|k: int| 0 <= k < bindings.len() && bindings[k] == bound[w];
        assert(bindings[k].category_id == category_id);
    }
}

} // verus!
