//! The changes that a builder collects.

use std::sync::Arc;

use vstd::prelude::*;

use super::item::{Inode, Item};
use super::lists::{IdList, MoveList};
use super::merge::ChangeView;
use super::moves::{
    claims, first_free, frees, lemma_claims, renamed, settled, settled_change, settled_id,
    takes_back,
};
use super::rebuild::{render, rendered};
use super::sort::item_views;
use super::store::{issues_all, lemma_issues_more, Store};
use crate::id::Unique;

verus! {

/// A change that a builder makes to the items of a tree.
pub enum ItemChange {
    /// A new entry for a new file.
    InsertDirEntry {
        file_id: Unique,
        name: Vec<u8>,
        is_dir: bool,
        child_id: Unique,
        child_inode: Inode,
    },
    /// The deletion of an entry.
    RemoveDirEntry { entry: Item, inode: Inode },
    /// A new entry for a directory that the tree knows.
    MoveDirEntry { file_id: Unique, name: Vec<u8>, is_dir: bool, child_id: Unique },
}

impl View for ItemChange {
    type V = ChangeView;

    open spec fn view(&self) -> ChangeView {
        match self {
            ItemChange::InsertDirEntry { file_id, name, is_dir, child_id, child_inode } => {
                ChangeView::Insert {
                    file_id: *file_id,
                    name: name@,
                    is_dir: *is_dir,
                    child_id: *child_id,
                    child_inode: *child_inode,
                }
            },
            ItemChange::RemoveDirEntry { entry, inode } => ChangeView::Remove {
                entry: entry@,
                inode: *inode,
            },
            ItemChange::MoveDirEntry { file_id, name, is_dir, child_id } => ChangeView::Move {
                file_id: *file_id,
                name: name@,
                is_dir: *is_dir,
                child_id: *child_id,
            },
        }
    }
}

/// The models of changes.
pub open spec fn change_views(changes: Seq<ItemChange>) -> Seq<ChangeView> {
    Seq::new(changes.len(), |k: int| changes[k]@)
}

/// The models of what was given to changes.
pub open spec fn claim_views(claims: Seq<Option<usize>>) -> Seq<Option<int>> {
    Seq::new(claims.len(), |x: int| claim_view(claims[x]))
}

/// The model of what was given to a change.
pub open spec fn claim_view(claim: Option<usize>) -> Option<int> {
    match claim {
        Some(y) => Some(y as int),
        None => None,
    }
}

/// Whether the deletion at `y` was given to a change.
fn is_claimed(claims: &Vec<Option<usize>>, y: usize) -> (claimed: bool)
    ensures
        claimed == claim_views(claims@).contains(Some(y as int)),
{
    let ghost views = claim_views(claims@);
    let mut x: usize = 0;
    while x < claims.len()
        invariant
            x <= claims.len(),
            views == claim_views(claims@),
            forall|z: int| 0 <= z < x ==> #[trigger] views[z] != Some(y as int),
        decreases claims.len() - x,
    {
        if let Some(other) = claims[x] {
            if other == y {
                assert(views[x as int] == Some(y as int));
                return true;
            }
        }
        x = x + 1;
    }
    false
}

/// Decides [`frees`].
pub(crate) fn is_freeing(change: &ItemChange, inode: Inode) -> (b: bool)
    ensures
        b == frees(change@, inode),
{
    match change {
        ItemChange::RemoveDirEntry { entry, inode: old_inode } => {
            let is_dir = match entry {
                Item::Metadata { is_dir, .. } => *is_dir,
                Item::DirEntry { is_dir, .. } => *is_dir,
            };
            is_dir && *old_inode == inode
        },
        _ => false,
    }
}

/// Decides [`takes_back`].
fn is_taking_back(changes: &Vec<ItemChange>, x: usize) -> (b: bool)
    ensures
        b == takes_back(change_views(changes@), x as int),
{
    if x == 0 || x >= changes.len() {
        return false;
    }
    proof {
        let views = change_views(changes@);
        assert(views[x as int] == changes[x as int]@);
        assert(views[x - 1] == changes[x - 1]@);
    }
    match &changes[x] {
        ItemChange::InsertDirEntry { is_dir, child_inode, .. } => {
            *is_dir && is_freeing(&changes[x - 1], *child_inode)
        },
        _ => false,
    }
}

/// Looks for the first deletion of a directory with the given inode that no change was given yet,
/// and that is not for the change behind it.
fn find_free(
    changes: &Vec<ItemChange>,
    claims: &Vec<Option<usize>>,
    inode: Inode,
) -> (found: Option<usize>)
    ensures
        claim_view(found) == first_free(change_views(changes@), claim_views(claims@), inode, 0),
{
    let ghost views = change_views(changes@);
    let ghost given = claim_views(claims@);
    let mut y: usize = 0;
    while y < changes.len()
        invariant
            y <= changes.len(),
            views == change_views(changes@),
            given == claim_views(claims@),
            first_free(views, given, inode, 0) == first_free(views, given, inode, y as int),
        decreases changes.len() - y,
    {
        assert(views[y as int] == changes[y as int]@);
        if is_freeing(&changes[y], inode) && !is_taking_back(changes, y + 1) && !is_claimed(
            claims,
            y,
        ) {
            return Some(y);
        }
        y = y + 1;
    }
    None
}

/// Gives each change that inserts a directory the deletion that it undoes, if there is one.
fn find_claims(changes: &Vec<ItemChange>) -> (result: Vec<Option<usize>>)
    ensures
        claim_views(result@) == claims(change_views(changes@), changes.len() as int),
{
    let ghost views = change_views(changes@);
    let mut result: Vec<Option<usize>> = Vec::new();
    assert(claim_views(result@) =~= claims(views, 0));
    let mut x: usize = 0;
    while x < changes.len()
        invariant
            x <= changes.len(),
            views == change_views(changes@),
            claim_views(result@) == claims(views, x as int),
        decreases changes.len() - x,
    {
        let ghost before = claim_views(result@);
        assert(views[x as int] == changes[x as int]@);
        let claim = match &changes[x] {
            ItemChange::InsertDirEntry { is_dir, child_inode, .. } => {
                if !*is_dir {
                    None
                } else if is_taking_back(changes, x) {
                    Some(x - 1)
                } else {
                    find_free(changes, &result, *child_inode)
                }
            },
            _ => None,
        };
        result.push(claim);
        x = x + 1;
        assert(claim_views(result@) =~= before.push(claim_view(claim)));
    }
    result
}

/// The identifier of the file whose entry the change at `y` deletes.
fn freed_id(changes: &Vec<ItemChange>, y: usize) -> (id: Unique)
    requires
        y < changes.len(),
        changes[y as int]@ is Remove,
        changes[y as int]@->Remove_entry is DirEntry,
    ensures
        id == change_views(changes@)[y as int]->Remove_entry.child_id(),
{
    match &changes[y] {
        ItemChange::RemoveDirEntry { entry: Item::DirEntry { child_id, .. }, .. } => *child_id,
        _ => vstd::pervasive::unreached(),
    }
}

/// Whether the deletions among the changes are deletions of entries.
pub open spec fn removes_entries(changes: Seq<ItemChange>) -> bool {
    forall|x: int|
        0 <= x < changes.len() && #[trigger] changes[x]@ is Remove
            ==> changes[x]@->Remove_entry is DirEntry
}

/// The identifier that a file has in the new tree.
fn rename(changes: &Vec<ItemChange>, given: &Vec<Option<usize>>, id: Unique) -> (result: Unique)
    requires
        removes_entries(changes@),
        claim_views(given@) == claims(change_views(changes@), changes.len() as int),
    ensures
        result == settled_id(change_views(changes@), id),
{
    let ghost views = change_views(changes@);
    let ghost c = claim_views(given@);
    proof {
        lemma_claims(views, changes.len() as int);
    }
    let mut x: usize = 0;
    while x < changes.len()
        invariant
            x <= changes.len(),
            removes_entries(changes@),
            views == change_views(changes@),
            c == claim_views(given@),
            c == claims(views, changes.len() as int),
            c.len() == changes.len(),
            renamed(views, c, id, 0) == renamed(views, c, id, x as int),
        decreases changes.len() - x,
    {
        assert(views[x as int] == changes[x as int]@);
        if let ItemChange::InsertDirEntry { child_id, .. } = &changes[x] {
            if *child_id == id {
                assert(c[x as int] == claim_view(given[x as int]));
                return match given[x] {
                    Some(y) => {
                        proof {
                            lemma_claims(views, changes.len() as int);
                            assert(views[y as int] == changes[y as int]@);
                        }
                        freed_id(changes, y)
                    },
                    None => id,
                };
            }
        }
        x = x + 1;
    }
    id
}

/// Finds out which of the pushed directories were moved, and makes the changes say so.
pub(crate) fn settle_changes(changes: Vec<ItemChange>) -> (result: Vec<ItemChange>)
    requires
        removes_entries(changes@),
    ensures
        change_views(result@) == settled(change_views(changes@)),
        removes_entries(result@),
{
    let ghost views = change_views(changes@);
    let ghost n = changes.len() as int;
    let given = find_claims(&changes);
    let ghost c = claim_views(given@);
    proof {
        lemma_claims(views, n);
    }
    // Where each inserted entry goes, and the directory that it moves.
    let mut places: Vec<(Unique, Option<Unique>)> = Vec::new();
    let mut x: usize = 0;
    while x < changes.len()
        invariant
            x <= changes.len(),
            n == changes.len(),
            removes_entries(changes@),
            views == change_views(changes@),
            c == claim_views(given@),
            c == claims(views, n),
            c.len() == n,
            places.len() == x,
            forall|z: int|
                0 <= z < x && (#[trigger] views[z]) is Insert ==> places[z].0 == settled_id(
                    views,
                    views[z]->Insert_file_id,
                ) && places[z].1 == match c[z] {
                    Some(y) => Some(views[y]->Remove_entry.child_id()),
                    None => None,
                },
        decreases changes.len() - x,
    {
        assert(views[x as int] == changes[x as int]@);
        let place = match &changes[x] {
            ItemChange::InsertDirEntry { file_id, .. } => {
                let parent = rename(&changes, &given, *file_id);
                assert(c[x as int] == claim_view(given[x as int]));
                let moved = match given[x] {
                    Some(y) => {
                        proof {
                            lemma_claims(views, n);
                            assert(views[y as int] == changes[y as int]@);
                        }
                        Some(freed_id(&changes, y))
                    },
                    None => None,
                };
                (parent, moved)
            },
            _ => (Unique::default(), None),
        };
        places.push(place);
        x = x + 1;
    }
    let mut result: Vec<ItemChange> = Vec::new();
    for change in it: changes
        invariant
            it.seq() == changes@,
            n == changes.len(),
            removes_entries(changes@),
            views == change_views(changes@),
            c == claims(views, n),
            places.len() == n,
            result.len() == it.index(),
            forall|z: int|
                0 <= z < n && (#[trigger] views[z]) is Insert ==> places[z].0 == settled_id(
                    views,
                    views[z]->Insert_file_id,
                ) && places[z].1 == match c[z] {
                    Some(y) => Some(views[y]->Remove_entry.child_id()),
                    None => None,
                },
            forall|z: int|
                0 <= z < result.len() ==> #[trigger] result[z]@ == settled_change(views, z),
    {
        let z: usize = result.len();
        assert(views[z as int] == change@);
        let settled_one = match change {
            ItemChange::InsertDirEntry { name, is_dir, child_id, child_inode, .. } => {
                let (file_id, moved) = places[z];
                match moved {
                    Some(child_id) => {
                        ItemChange::MoveDirEntry { file_id, name, is_dir, child_id }
                    },
                    None => ItemChange::InsertDirEntry {
                        file_id,
                        name,
                        is_dir,
                        child_id,
                        child_inode,
                    },
                }
            },
            other => other,
        };
        result.push(settled_one);
    }
    proof {
        assert(change_views(result@) =~= settled(views));
        assert forall|z: int| 0 <= z < result.len() && #[trigger] result[z]@ is Remove implies
            result[z]@->Remove_entry is DirEntry by {
            assert(result[z]@ == settled_change(views, z));
            assert(changes[z]@ == views[z]);
        }
    }
    result
}

/// Makes the items that the changes ask for. Every change takes one new identifier.
pub(crate) fn render_changes<S: Store>(changes: Vec<ItemChange>, db: &mut S) -> (result: (
    Vec<Item>,
    Ghost<Seq<Unique>>,
))
    requires
        old(db).supply() >= changes.len(),
        removes_entries(changes@),
    ensures
        result.1@.len() == changes.len(),
        issues_all(&*old(db), &*final(db), result.1@),
        item_views(result.0@) == rendered(
            change_views(changes@),
            result.1@,
            changes.len() as int,
        ),
{
    let ghost views = change_views(changes@);
    let ghost mut ids: Seq<Unique> = Seq::empty();
    let mut items: Vec<Item> = Vec::new();
    assert(item_views(items@) =~= rendered(views, ids, 0));
    for change in it: changes
        invariant
            it.seq() == changes@,
            old(db).supply() >= changes.len(),
            views == change_views(changes@),
            ids.len() == it.index(),
            issues_all(&*old(db), &*db, ids),
            item_views(items@) == rendered(views, ids, it.index()),
            removes_entries(changes@),
    {
        let ghost n = it.index();
        let ghost before = item_views(items@);
        assert(views[n] == change@);
        assert(changes[n]@ == change@);
        let ghost last = *db;
        let id = db.gen_id();
        match change {
            ItemChange::InsertDirEntry { file_id, name, is_dir, child_id, child_inode } => {
                items.push(Item::Metadata { file_id: child_id, is_dir, inode: child_inode });
                items.push(
                    Item::DirEntry {
                        file_id,
                        entry_id: id,
                        child_id,
                        name: Arc::new(name),
                        is_dir,
                        deletions: IdList::new(),
                        moves: MoveList::new(),
                    },
                );
            },
            ItemChange::MoveDirEntry { file_id, name, is_dir, child_id } => {
                items.push(
                    Item::DirEntry {
                        file_id,
                        entry_id: id,
                        child_id,
                        name: Arc::new(name),
                        is_dir,
                        deletions: IdList::new(),
                        moves: MoveList::new(),
                    },
                );
            },
            ItemChange::RemoveDirEntry { entry, .. } => {
                let mut entry = entry;
                entry.deletions_mut().push(id);
                items.push(entry);
            },
        }
        proof {
            lemma_issues_more(&*old(db), &last, &*db, ids, id);
            let more = ids.push(id);
            lemma_rendered_prefix(views, ids, more, n);
            assert(item_views(items@) =~= before + render(views[n], id));
            assert(rendered(views, more, n + 1) == rendered(views, more, n) + render(views[n], id));
            ids = more;
        }
    }
    (items, Ghost(ids))
}

/// What the first changes make depends on the first identifiers only.
proof fn lemma_rendered_prefix(
    changes: Seq<ChangeView>,
    ids: Seq<Unique>,
    more: Seq<Unique>,
    n: int,
)
    requires
        n <= ids.len() <= more.len(),
        forall|k: int| 0 <= k < n ==> #[trigger] ids[k] == more[k],
    ensures
        rendered(changes, ids, n) == rendered(changes, more, n),
    decreases n,
{
    if n > 0 {
        lemma_rendered_prefix(changes, ids, more, n - 1);
        assert(ids[n - 1] == more[n - 1]);
    }
}

} // verus!
