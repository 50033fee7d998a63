//! The parent references of a list of categories as a graph: what it means
//! that they form a forest, and which changes keep them one.

use vstd::prelude::*;
use vstd::seq_lib::seq_to_set_is_finite;
use vstd::set_lib::lemma_len_subset;
use crate::models::Category;

verus! {

/// Some category of the list has this id.
pub open spec fn has_id(cats: Seq<Category>, id: i64) -> bool {
    exists|i: int| 0 <= i < cats.len() && (#[trigger] cats[i]).id == id
}

/// The place of a category with this id in the list.
pub open spec fn index_of(cats: Seq<Category>, id: i64) -> int {
    choose|i: int| 0 <= i < cats.len() && (#[trigger] cats[i]).id == id
}

/// The parent that the category with this id names.
pub open spec fn parent_of(cats: Seq<Category>, id: i64) -> Option<i64> {
    cats[index_of(cats, id)].parent_id
}

/// No two categories of the list share an id.
pub open spec fn unique_ids(cats: Seq<Category>) -> bool {
    forall|i: int, j: int|
        0 <= i < cats.len() && 0 <= j < cats.len() && i != j ==> (#[trigger] cats[i]).id != (#[trigger] cats[j]).id
}

/// Following parent references from `id` ends at a root after at most `fuel`
/// steps, and every category named on the way is in the list.
pub open spec fn reaches_root(cats: Seq<Category>, id: i64, fuel: nat) -> bool
    decreases fuel,
{
    has_id(cats, id) && match parent_of(cats, id) {
        None => true,
        Some(p) => fuel > 0 && reaches_root(cats, p, (fuel - 1) as nat),
    }
}

/// Following parent references from any category ends at a root.
pub open spec fn well_founded(cats: Seq<Category>) -> bool {
    forall|i: int| 0 <= i < cats.len() ==> exists|fuel: nat| reaches_root(cats, (#[trigger] cats[i]).id, fuel)
}

/// A list of categories that the lifecycle manager accepts: the ids are
/// unique, every parent that is named exists, and the parent references form
/// no cycle.
pub open spec fn valid_categories(cats: Seq<Category>) -> bool {
    unique_ids(cats) && well_founded(cats)
}

/// The number of parent references followed from `id`, at most `fuel`.
pub open spec fn steps(cats: Seq<Category>, id: i64, fuel: nat) -> nat
    decreases fuel,
{
    match parent_of(cats, id) {
        None => 0,
        Some(p) => if fuel == 0 {
            0
        } else {
            1 + steps(cats, p, (fuel - 1) as nat)
        },
    }
}

/// The ids met when following parent references from `id`, `id` among them.
pub open spec fn ancestors(cats: Seq<Category>, id: i64, fuel: nat) -> Set<i64>
    decreases fuel,
{
    match parent_of(cats, id) {
        None => set![id],
        Some(p) => if fuel == 0 {
            set![id]
        } else {
            ancestors(cats, p, (fuel - 1) as nat).insert(id)
        },
    }
}

/// With unique ids, a category is found at its own place.
pub proof fn lemma_index_of(cats: Seq<Category>, i: int)
    requires
        unique_ids(cats),
        0 <= i < cats.len(),
    ensures
        has_id(cats, cats[i].id),
        index_of(cats, cats[i].id) == i,
        parent_of(cats, cats[i].id) == cats[i].parent_id,
{
}

/// More fuel changes neither whether the root is reached nor in how many steps.
pub proof fn lemma_fuel_monotone(cats: Seq<Category>, id: i64, f: nat, g: nat)
    requires
        reaches_root(cats, id, f),
        f <= g,
    ensures
        reaches_root(cats, id, g),
        steps(cats, id, g) == steps(cats, id, f),
        steps(cats, id, f) <= f,
    decreases f,
{
    match parent_of(cats, id) {
        None => {},
        Some(p) => {
            lemma_fuel_monotone(cats, p, (f - 1) as nat, (g - 1) as nat);
        },
    }
}

/// The root is reached with exactly as much fuel as steps are taken.
pub proof fn lemma_exact_fuel(cats: Seq<Category>, id: i64, f: nat)
    requires
        reaches_root(cats, id, f),
    ensures
        reaches_root(cats, id, steps(cats, id, f)),
    decreases f,
{
    match parent_of(cats, id) {
        None => {},
        Some(p) => {
            lemma_exact_fuel(cats, p, (f - 1) as nat);
        },
    }
}

proof fn lemma_ancestors(cats: Seq<Category>, id: i64, f: nat)
    requires
        reaches_root(cats, id, f),
    ensures
        ancestors(cats, id, f).finite(),
        ancestors(cats, id, f).len() == steps(cats, id, f) + 1,
        forall|x: i64| #[trigger]
            ancestors(cats, id, f).contains(x) ==> has_id(cats, x) && reaches_root(cats, x, f) && steps(cats, x, f) <= steps(
                cats,
                id,
                f,
            ),
    decreases f,
{
    match parent_of(cats, id) {
        None => {
            assert(ancestors(cats, id, f) =~= set![id]);
        },
        Some(p) => {
            let g = (f - 1) as nat;
            let above = ancestors(cats, p, g);
            lemma_ancestors(cats, p, g);
            if above.contains(id) {
                lemma_fuel_monotone(cats, id, g, f);
                assert(false);
            }
            assert forall|x: i64| #[trigger] ancestors(cats, id, f).contains(x) implies has_id(cats, x) && reaches_root(cats, x, f)
                && steps(cats, x, f) <= steps(cats, id, f) by {
                if x != id {
                    assert(above.contains(x));
                    lemma_fuel_monotone(cats, x, g, f);
                }
            }
        },
    }
}

/// The ids of the categories, in the order of the list.
pub open spec fn ids_of(cats: Seq<Category>) -> Seq<i64> {
    cats.map_values(|c: Category| c.id)
}

/// Parent chains are short: where following parent references from a category
/// ends at a root at all, it does so within as many steps as the list has
/// categories.
pub proof fn lemma_chain_bounded(cats: Seq<Category>, id: i64, f: nat)
    requires
        reaches_root(cats, id, f),
    ensures
        steps(cats, id, f) < cats.len(),
        reaches_root(cats, id, (cats.len() - 1) as nat),
        reaches_root(cats, id, cats.len()),
{
    let ids = ids_of(cats);
    let all = ids.to_set();
    let met = ancestors(cats, id, f);
    lemma_ancestors(cats, id, f);
    seq_to_set_is_finite(ids);
    ids.lemma_cardinality_of_set();
    assert forall|x: i64| met.contains(x) implies all.contains(x) by {
        let i = index_of(cats, x);
        assert(ids[i] == x);
    }
    lemma_len_subset(met, all);
    lemma_exact_fuel(cats, id, f);
    lemma_fuel_monotone(cats, id, steps(cats, id, f), (cats.len() - 1) as nat);
    lemma_fuel_monotone(cats, id, steps(cats, id, f), cats.len());
}

/// In a list that the lifecycle manager accepts, following parent references
/// from any category ends at a root within at most as many steps as the list
/// has categories.
pub proof fn lemma_parents_end_at_root(cats: Seq<Category>, i: int)
    requires
        valid_categories(cats),
        0 <= i < cats.len(),
    ensures
        reaches_root(cats, cats[i].id, cats.len()),
        steps(cats, cats[i].id, cats.len()) < cats.len(),
{
    let f = choose|f: nat| reaches_root(cats, cats[i].id, f);
    lemma_chain_bounded(cats, cats[i].id, f);
    lemma_fuel_monotone(cats, cats[i].id, (cats.len() - 1) as nat, cats.len());
}


/// Two lists name the same categories with the same parents, place by place.
pub open spec fn same_graph(a: Seq<Category>, b: Seq<Category>) -> bool {
    &&& a.len() == b.len()
    &&& forall|i: int| 0 <= i < a.len() ==> (#[trigger] a[i]).id == b[i].id && a[i].parent_id == b[i].parent_id
}

proof fn lemma_same_graph_unique(a: Seq<Category>, b: Seq<Category>)
    requires
        same_graph(a, b),
        unique_ids(a),
    ensures
        unique_ids(b),
{
    assert forall|i: int, j: int| 0 <= i < b.len() && 0 <= j < b.len() && i != j implies (#[trigger] b[i]).id != (#[trigger] b[j]).id by {
        assert(a[i].id == b[i].id && a[j].id == b[j].id);
    }
}

proof fn lemma_same_graph_reaches(a: Seq<Category>, b: Seq<Category>, id: i64, f: nat)
    requires
        same_graph(a, b),
        unique_ids(a),
        reaches_root(a, id, f),
    ensures
        reaches_root(b, id, f),
    decreases f,
{
    let i = index_of(a, id);
    lemma_same_graph_unique(a, b);
    assert(a[i].id == b[i].id);
    lemma_index_of(b, i);
    match a[i].parent_id {
        None => {},
        Some(p) => {
            lemma_same_graph_reaches(a, b, p, (f - 1) as nat);
        },
    }
}

/// A change that leaves ids and parents as they are leaves a valid list valid.
pub proof fn lemma_same_graph_valid(a: Seq<Category>, b: Seq<Category>)
    requires
        same_graph(a, b),
        valid_categories(a),
    ensures
        valid_categories(b),
{
    lemma_same_graph_unique(a, b);
    assert forall|i: int| 0 <= i < b.len() implies exists|fuel: nat| reaches_root(b, (#[trigger] b[i]).id, fuel) by {
        assert(a[i].id == b[i].id);
        let f = choose|f: nat| reaches_root(a, a[i].id, f);
        lemma_same_graph_reaches(a, b, a[i].id, f);
    }
}

proof fn lemma_push_reaches(a: Seq<Category>, c: Category, id: i64, f: nat)
    requires
        unique_ids(a),
        !has_id(a, c.id),
        reaches_root(a, id, f),
    ensures
        reaches_root(a.push(c), id, f),
    decreases f,
{
    let b = a.push(c);
    let i = index_of(a, id);
    lemma_push_unique(a, c);
    assert(b[i] == a[i]);
    lemma_index_of(b, i);
    match a[i].parent_id {
        None => {},
        Some(p) => {
            lemma_push_reaches(a, c, p, (f - 1) as nat);
        },
    }
}

proof fn lemma_push_unique(a: Seq<Category>, c: Category)
    requires
        unique_ids(a),
        !has_id(a, c.id),
    ensures
        unique_ids(a.push(c)),
{
    let b = a.push(c);
    assert forall|i: int, j: int| 0 <= i < b.len() && 0 <= j < b.len() && i != j implies (#[trigger] b[i]).id != (#[trigger] b[j]).id by {
        if i < a.len() {
            assert(b[i] == a[i]);
        }
        if j < a.len() {
            assert(b[j] == a[j]);
        }
    }
}

/// A valid list stays valid when a category with a new id is added whose
/// parent, if it names one, is in the list.
pub proof fn lemma_push_valid(a: Seq<Category>, c: Category)
    requires
        valid_categories(a),
        !has_id(a, c.id),
        c.parent_id is Some ==> has_id(a, c.parent_id->0),
    ensures
        valid_categories(a.push(c)),
{
    let b = a.push(c);
    lemma_push_unique(a, c);
    assert forall|i: int| 0 <= i < b.len() implies exists|fuel: nat| reaches_root(b, (#[trigger] b[i]).id, fuel) by {
        if i < a.len() {
            assert(b[i] == a[i]);
            let f = choose|f: nat| reaches_root(a, a[i].id, f);
            lemma_push_reaches(a, c, a[i].id, f);
        } else {
            lemma_index_of(b, i);
            match c.parent_id {
                None => {
                    assert(reaches_root(b, c.id, 0));
                },
                Some(p) => {
                    let k = index_of(a, p);
                    let f = choose|f: nat| reaches_root(a, a[k].id, f);
                    lemma_push_reaches(a, c, p, f);
                    assert(reaches_root(b, c.id, f + 1));
                },
            }
        }
    }
}

/// The category with its parent changed from `from` to `to`, where `from`
/// was its parent.
pub open spec fn reparented(c: Category, from: i64, to: Option<i64>) -> Category {
    if c.parent_id == Some(from) {
        Category { parent_id: to, ..c }
    } else {
        c
    }
}

/// The list after the category at place `k` was spliced out: it is gone, and
/// each of its children has the parent that it had.
pub open spec fn promoted(cats: Seq<Category>, k: int) -> Seq<Category> {
    cats.remove(k).map_values(|c: Category| reparented(c, cats[k].id, cats[k].parent_id))
}

/// No category that reaches a root is its own parent.
proof fn lemma_not_own_parent(cats: Seq<Category>, id: i64, f: nat)
    requires
        reaches_root(cats, id, f),
    ensures
        parent_of(cats, id) != Some(id),
    decreases f,
{
    if parent_of(cats, id) == Some(id) {
        lemma_not_own_parent(cats, id, (f - 1) as nat);
    }
}

/// Where the categories of a list are found after one of them was spliced out.
pub proof fn lemma_promoted_entries(cats: Seq<Category>, k: int)
    requires
        unique_ids(cats),
        0 <= k < cats.len(),
    ensures
        promoted(cats, k).len() == cats.len() - 1,
        unique_ids(promoted(cats, k)),
        !has_id(promoted(cats, k), cats[k].id),
        forall|i: int|
            0 <= i < cats.len() && i != k ==> {
                let j = if i < k {
                    i
                } else {
                    i - 1
                };
                &&& promoted(cats, k)[j] == reparented(#[trigger] cats[i], cats[k].id, cats[k].parent_id)
                &&& has_id(promoted(cats, k), cats[i].id)
                &&& index_of(promoted(cats, k), cats[i].id) == j
            },
{
    let b = promoted(cats, k);
    assert forall|i: int, j: int| 0 <= i < b.len() && 0 <= j < b.len() && i != j implies (#[trigger] b[i]).id != (#[trigger] b[j]).id by {
        let i0 = if i < k { i } else { i + 1 };
        let j0 = if j < k { j } else { j + 1 };
        assert(b[i].id == cats[i0].id);
        assert(b[j].id == cats[j0].id);
    }
    assert forall|j: int| 0 <= j < b.len() implies (#[trigger] b[j]).id != cats[k].id by {
        let j0 = if j < k { j } else { j + 1 };
        assert(b[j].id == cats[j0].id);
    }
    assert forall|i: int| 0 <= i < cats.len() && i != k implies {
        let j = if i < k { i } else { i - 1 };
        &&& b[j] == reparented(#[trigger] cats[i], cats[k].id, cats[k].parent_id)
        &&& has_id(b, cats[i].id)
        &&& index_of(b, cats[i].id) == j
    } by {
        let j = if i < k { i } else { i - 1 };
        assert(b[j] == reparented(cats[i], cats[k].id, cats[k].parent_id));
        assert(b[j].id == cats[i].id);
        lemma_index_of(b, j);
    }
}

proof fn lemma_promoted_reaches(cats: Seq<Category>, k: int, id: i64, f: nat)
    requires
        unique_ids(cats),
        0 <= k < cats.len(),
        id != cats[k].id,
        reaches_root(cats, id, f),
        exists|g: nat| reaches_root(cats, cats[k].id, g),
    ensures
        reaches_root(promoted(cats, k), id, f),
    decreases f,
{
    let b = promoted(cats, k);
    let x = cats[k].id;
    let i = index_of(cats, id);
    lemma_index_of(cats, i);
    lemma_index_of(cats, k);
    lemma_promoted_entries(cats, k);
    let j = if i < k { i } else { i - 1 };
    assert(b[j] == reparented(cats[i], x, cats[k].parent_id));
    assert(parent_of(b, id) == b[j].parent_id);
    match cats[i].parent_id {
        None => {},
        Some(p) => {
            if p == x {
                match cats[k].parent_id {
                    None => {},
                    Some(q) => {
                        let g = choose|g: nat| reaches_root(cats, x, g);
                        lemma_not_own_parent(cats, x, g);
                        assert(reaches_root(cats, x, (f - 1) as nat));
                        assert(reaches_root(cats, q, (f - 2) as nat));
                        lemma_promoted_reaches(cats, k, q, (f - 2) as nat);
                        lemma_fuel_monotone(b, q, (f - 2) as nat, (f - 1) as nat);
                    },
                }
            } else {
                lemma_promoted_reaches(cats, k, p, (f - 1) as nat);
            }
        },
    }
}

/// Splicing a category out of a valid list leaves a valid list.
pub proof fn lemma_promoted_valid(cats: Seq<Category>, k: int)
    requires
        valid_categories(cats),
        0 <= k < cats.len(),
    ensures
        valid_categories(promoted(cats, k)),
{
    let b = promoted(cats, k);
    lemma_promoted_entries(cats, k);
    assert forall|j: int| 0 <= j < b.len() implies exists|fuel: nat| reaches_root(b, (#[trigger] b[j]).id, fuel) by {
        let i = if j < k { j } else { j + 1 };
        assert(b[j] == reparented(cats[i], cats[k].id, cats[k].parent_id));
        let f = choose|f: nat| reaches_root(cats, cats[i].id, f);
        lemma_promoted_reaches(cats, k, cats[i].id, f);
    }
}

/// After a category was spliced out it is gone, every category that had it as
/// its parent has the parent that it had, and every other category has the
/// parent that it had before.
pub proof fn lemma_promote_children(cats: Seq<Category>, k: int, i: int)
    requires
        valid_categories(cats),
        0 <= k < cats.len(),
        0 <= i < cats.len(),
        i != k,
    ensures
        !has_id(promoted(cats, k), cats[k].id),
        has_id(promoted(cats, k), cats[i].id),
        cats[i].parent_id == Some(cats[k].id) ==> parent_of(promoted(cats, k), cats[i].id) == cats[k].parent_id,
        cats[i].parent_id != Some(cats[k].id) ==> parent_of(promoted(cats, k), cats[i].id) == cats[i].parent_id,
{
    lemma_promoted_entries(cats, k);
}

/// Following parent references from `id` meets `from` within `fuel` steps.
pub open spec fn descends(cats: Seq<Category>, id: i64, from: i64, fuel: nat) -> bool
    decreases fuel,
{
    id == from || match parent_of(cats, id) {
        None => false,
        Some(p) => fuel > 0 && descends(cats, p, from, (fuel - 1) as nat),
    }
}

/// The category `id` is `root_id` or lies below it.
pub open spec fn in_subtree(cats: Seq<Category>, root_id: i64, id: i64) -> bool {
    descends(cats, id, root_id, cats.len())
}

/// The categories at and below `root_id`, in the order of the list.
pub open spec fn subtree(cats: Seq<Category>, root_id: i64) -> Seq<Category> {
    cats.filter(|c: Category| in_subtree(cats, root_id, c.id))
}

/// The list without the categories at and below `root_id`.
pub open spec fn without_subtree(cats: Seq<Category>, root_id: i64) -> Seq<Category> {
    cats.filter(|c: Category| !in_subtree(cats, root_id, c.id))
}

/// An ancestor is met before the root is.
proof fn lemma_descends_tight(cats: Seq<Category>, id: i64, from: i64, f: nat, g: nat)
    requires
        descends(cats, id, from, f),
        reaches_root(cats, id, g),
    ensures
        descends(cats, id, from, g),
    decreases f,
{
    if id != from {
        let p = parent_of(cats, id)->0;
        lemma_descends_tight(cats, p, from, (f - 1) as nat, (g - 1) as nat);
    }
}

proof fn lemma_filter_entries(cats: Seq<Category>, pred: spec_fn(Category) -> bool)
    requires
        unique_ids(cats),
    ensures
        unique_ids(cats.filter(pred)),
        forall|j: int| 0 <= j < cats.filter(pred).len() ==> pred(#[trigger] cats.filter(pred)[j]) && cats.contains(cats.filter(pred)[j]),
        forall|i: int| 0 <= i < cats.len() && pred(cats[i]) ==> cats.filter(pred).contains(#[trigger] cats[i]),
    decreases cats.len(),
{
    reveal(Seq::filter);
    let b = cats.filter(pred);
    if cats.len() > 0 {
        let front = cats.drop_last();
        let fb = front.filter(pred);
        assert forall|i: int, j: int| 0 <= i < front.len() && 0 <= j < front.len() && i != j implies (#[trigger] front[i]).id != (#[trigger] front[j]).id by {
            assert(front[i] == cats[i] && front[j] == cats[j]);
        }
        lemma_filter_entries(front, pred);
        assert forall|j: int| 0 <= j < b.len() implies pred(#[trigger] b[j]) && cats.contains(b[j]) by {
            if j < fb.len() {
                assert(b[j] == fb[j]);
                let i = choose|i: int| 0 <= i < front.len() && front[i] == fb[j];
                assert(cats[i] == fb[j]);
            } else {
                assert(b[j] == cats[cats.len() - 1]);
            }
        }
        assert forall|i: int| 0 <= i < cats.len() && pred(cats[i]) implies b.contains(#[trigger] cats[i]) by {
            if i < front.len() {
                assert(front[i] == cats[i]);
                let j = choose|j: int| 0 <= j < fb.len() && fb[j] == front[i];
                assert(b[j] == cats[i]);
            } else {
                assert(b[b.len() - 1] == cats[i]);
            }
        }
        assert forall|i: int, j: int| 0 <= i < b.len() && 0 <= j < b.len() && i != j implies (#[trigger] b[i]).id != (#[trigger] b[j]).id by {
            if i < fb.len() && j < fb.len() {
                assert(b[i] == fb[i] && b[j] == fb[j]);
            } else {
                let other = if i < fb.len() { i } else { j };
                assert(b[other] == fb[other]);
                let i0 = choose|i0: int| 0 <= i0 < front.len() && front[i0] == fb[other];
                assert(cats[i0] == fb[other]);
                assert(cats[i0].id != cats[cats.len() - 1].id);
            }
        }
    }
}

proof fn lemma_without_subtree_reaches(cats: Seq<Category>, root_id: i64, id: i64, f: nat)
    requires
        unique_ids(cats),
        reaches_root(cats, id, f),
        !in_subtree(cats, root_id, id),
    ensures
        reaches_root(without_subtree(cats, root_id), id, f),
    decreases f,
{
    let pred = |c: Category| !in_subtree(cats, root_id, c.id);
    let b = without_subtree(cats, root_id);
    lemma_filter_entries(cats, pred);
    let i = index_of(cats, id);
    lemma_index_of(cats, i);
    assert(pred(cats[i]));
    assert(b.contains(cats[i]));
    let j = choose|j: int| 0 <= j < b.len() && b[j] == cats[i];
    lemma_index_of(b, j);
    match cats[i].parent_id {
        None => {},
        Some(p) => {
            if in_subtree(cats, root_id, p) {
                lemma_chain_bounded(cats, p, (f - 1) as nat);
                lemma_descends_tight(cats, p, root_id, cats.len(), (cats.len() - 1) as nat);
                assert(descends(cats, id, root_id, cats.len()));
            }
            lemma_without_subtree_reaches(cats, root_id, p, (f - 1) as nat);
        },
    }
}

/// Taking a whole subtree out of a valid list leaves a valid list, in which
/// no category of the subtree is left and every other category is.
pub proof fn lemma_without_subtree_valid(cats: Seq<Category>, root_id: i64)
    requires
        valid_categories(cats),
    ensures
        valid_categories(without_subtree(cats, root_id)),
        !has_id(without_subtree(cats, root_id), root_id),
        forall|i: int|
            0 <= i < cats.len() ==> (has_id(without_subtree(cats, root_id), (#[trigger] cats[i]).id) <==> !in_subtree(
                cats,
                root_id,
                cats[i].id,
            )),
{
    let pred = |c: Category| !in_subtree(cats, root_id, c.id);
    let b = without_subtree(cats, root_id);
    lemma_filter_entries(cats, pred);
    assert forall|j: int| 0 <= j < b.len() implies exists|fuel: nat| reaches_root(b, (#[trigger] b[j]).id, fuel) by {
        let i = choose|i: int| 0 <= i < cats.len() && cats[i] == b[j];
        let f = choose|f: nat| reaches_root(cats, cats[i].id, f);
        lemma_without_subtree_reaches(cats, root_id, cats[i].id, f);
    }
    assert forall|j: int| 0 <= j < b.len() implies (#[trigger] b[j]).id != root_id by {
        assert(pred(b[j]));
    }
    assert forall|i: int| 0 <= i < cats.len() implies (has_id(b, (#[trigger] cats[i]).id) <==> !in_subtree(cats, root_id, cats[i].id)) by {
        if !in_subtree(cats, root_id, cats[i].id) {
            assert(pred(cats[i]));
            assert(b.contains(cats[i]));
        }
        if has_id(b, cats[i].id) {
            let j = choose|j: int| 0 <= j < b.len() && b[j].id == cats[i].id;
            assert(pred(b[j]));
        }
    }
}


/// The category with a new parent, given at `now`, where it is the category `id`.
pub open spec fn with_parent(c: Category, id: i64, parent: Option<i64>, now: String) -> Category {
    if c.id == id {
        Category { parent_id: parent, updated_at: now, ..c }
    } else {
        c
    }
}

/// The list after the category `id` was moved below `parent`.
pub open spec fn moved(cats: Seq<Category>, id: i64, parent: Option<i64>, now: String) -> Seq<Category> {
    cats.map_values(|c: Category| with_parent(c, id, parent, now))
}

/// Moving the category `id` below `parent` would make it its own ancestor:
/// `parent` is the category or lies below it.
pub open spec fn makes_cycle(cats: Seq<Category>, id: i64, parent: Option<i64>) -> bool {
    parent is Some && in_subtree(cats, id, parent->0)
}

proof fn lemma_moved_unique(cats: Seq<Category>, id: i64, parent: Option<i64>, now: String)
    requires
        unique_ids(cats),
    ensures
        unique_ids(moved(cats, id, parent, now)),
        forall|i: int| 0 <= i < cats.len() ==> (#[trigger] moved(cats, id, parent, now)[i]).id == cats[i].id,
{
    let b = moved(cats, id, parent, now);
    assert forall|i: int, j: int| 0 <= i < b.len() && 0 <= j < b.len() && i != j implies (#[trigger] b[i]).id != (#[trigger] b[j]).id by {
        assert(b[i].id == cats[i].id && b[j].id == cats[j].id);
    }
}

proof fn lemma_moved_outside(cats: Seq<Category>, id: i64, parent: Option<i64>, now: String, y: i64, f: nat)
    requires
        unique_ids(cats),
        reaches_root(cats, y, f),
        !in_subtree(cats, id, y),
    ensures
        reaches_root(moved(cats, id, parent, now), y, f),
    decreases f,
{
    let b = moved(cats, id, parent, now);
    let i = index_of(cats, y);
    lemma_index_of(cats, i);
    lemma_moved_unique(cats, id, parent, now);
    assert(b[i] == cats[i]);
    lemma_index_of(b, i);
    match cats[i].parent_id {
        None => {},
        Some(p) => {
            if in_subtree(cats, id, p) {
                lemma_chain_bounded(cats, p, (f - 1) as nat);
                lemma_descends_tight(cats, p, id, cats.len(), (cats.len() - 1) as nat);
                assert(descends(cats, y, id, cats.len()));
            }
            lemma_moved_outside(cats, id, parent, now, p, (f - 1) as nat);
        },
    }
}

proof fn lemma_moved_reaches(cats: Seq<Category>, id: i64, parent: Option<i64>, now: String, y: i64, f: nat, g: nat)
    requires
        unique_ids(cats),
        reaches_root(cats, y, f),
        parent is Some ==> reaches_root(moved(cats, id, parent, now), parent->0, g),
    ensures
        reaches_root(moved(cats, id, parent, now), y, f + g + 1),
    decreases f,
{
    let b = moved(cats, id, parent, now);
    let i = index_of(cats, y);
    lemma_index_of(cats, i);
    lemma_moved_unique(cats, id, parent, now);
    assert(b[i] == with_parent(cats[i], id, parent, now));
    lemma_index_of(b, i);
    if y == id {
        match parent {
            None => {
                assert(reaches_root(b, y, 0));
                lemma_fuel_monotone(b, y, 0, f + g + 1);
            },
            Some(p) => {
                assert(reaches_root(b, y, g + 1));
                lemma_fuel_monotone(b, y, g + 1, f + g + 1);
            },
        }
    } else {
        match cats[i].parent_id {
            None => {
                assert(reaches_root(b, y, 0));
                lemma_fuel_monotone(b, y, 0, f + g + 1);
            },
            Some(q) => {
                lemma_moved_reaches(cats, id, parent, now, q, (f - 1) as nat, g);
            },
        }
    }
}

/// A valid list stays valid when a category is moved below a parent that is
/// in the list and is neither the category itself nor below it.
pub proof fn lemma_moved_valid(cats: Seq<Category>, id: i64, parent: Option<i64>, now: String)
    requires
        valid_categories(cats),
        parent is Some ==> has_id(cats, parent->0),
        !makes_cycle(cats, id, parent),
    ensures
        valid_categories(moved(cats, id, parent, now)),
{
    let b = moved(cats, id, parent, now);
    lemma_moved_unique(cats, id, parent, now);
    assert forall|i: int| 0 <= i < b.len() implies exists|fuel: nat| reaches_root(b, (#[trigger] b[i]).id, fuel) by {
        assert(b[i].id == cats[i].id);
        let f = choose|f: nat| reaches_root(cats, cats[i].id, f);
        match parent {
            None => {
                lemma_moved_reaches(cats, id, parent, now, cats[i].id, f, 0);
            },
            Some(p) => {
                let k = index_of(cats, p);
                let g = choose|g: nat| reaches_root(cats, cats[k].id, g);
                lemma_moved_outside(cats, id, parent, now, p, g);
                lemma_moved_reaches(cats, id, parent, now, cats[i].id, f, g);
            },
        }
    }
}


/// The ids of a subtree are those of the categories at and below its root.
pub proof fn lemma_subtree_ids(cats: Seq<Category>, root_id: i64, x: i64)
    requires
        unique_ids(cats),
    ensures
        ids_of(subtree(cats, root_id)).contains(x) <==> has_id(cats, x) && in_subtree(cats, root_id, x),
{
    let pred = |c: Category| in_subtree(cats, root_id, c.id);
    let below = subtree(cats, root_id);
    let ids = ids_of(below);
    lemma_filter_entries(cats, pred);
    if ids.contains(x) {
        let j = choose|j: int| 0 <= j < ids.len() && ids[j] == x;
        assert(below[j].id == x);
        assert(pred(below[j]) && cats.contains(below[j]));
        let i = choose|i: int| 0 <= i < cats.len() && cats[i] == below[j];
        assert(cats[i].id == x);
    }
    if has_id(cats, x) && in_subtree(cats, root_id, x) {
        let i = choose|i: int| 0 <= i < cats.len() && (#[trigger] cats[i]).id == x;
        assert(pred(cats[i]));
        assert(below.contains(cats[i]));
        let j = choose|j: int| 0 <= j < below.len() && below[j] == cats[i];
        assert(ids[j] == x);
    }
}

} // verus!
