//! Folders: the record, what it stands for in contracts, and the operations of
//! a store on its folders.
//!
//! The parent that a folder names is held to a rule when the folder is
//! written. A folder is created only with no parent or with one that is in the
//! store. A snapshot is saved only with no parent or with one that is in the
//! store and neither is the folder itself nor lies in it. What breaks the rule
//! is refused with `ForeignKeyError`, and nothing is written. The removal of a
//! folder takes nothing else from the store: a folder or bookmark that lay in
//! it goes on naming it, and the way up from there ends at the name.

use vstd::prelude::*;

use crate::error::{StoreError, StoreErrorView};
use crate::seqs::{lemma_filter_ends, lemma_filter_next};
use crate::store::{views, Store, StoreView};

verus! {

/// What a folder is in contracts: its fields as plain values.
pub struct FolderView {
    pub id: i32,
    pub label: Seq<char>,
    pub parent: Option<i32>,
}

/// A folder as it was read from a store: a detached copy. Changing it changes
/// nothing in the store until it is saved.
#[derive(Debug, PartialEq, Eq)]
pub struct Folder {
    /// The id that the store gave this folder.
    pub id: i32,
    /// The label shown for this folder.
    pub label: String,
    /// The id of the folder this folder lies in; a root folder has none.
    pub parent: Option<i32>,
}

impl View for Folder {
    type V = FolderView;

    open spec fn view(&self) -> FolderView {
        FolderView { id: self.id, label: self.label@, parent: self.parent }
    }
}

impl Clone for Folder {
    fn clone(&self) -> (r: Self)
        ensures
            r@ == self@,
    {
        Folder { id: self.id, label: self.label.clone(), parent: self.parent }
    }
}

/// Folders that lie in no folder.
pub open spec fn is_root() -> spec_fn(FolderView) -> bool {
    |f: FolderView| f.parent is None
}

impl StoreView {
    /// The id that the next folder gets.
    pub open spec fn next_folder_id(self) -> i32 {
        (self.last_folder_id + 1) as i32
    }

    /// Whether a folder may be created with this parent: it names none, or a
    /// folder that is in the store.
    pub open spec fn parent_known(self, parent: Option<i32>) -> bool {
        match parent {
            Some(p) => self.has_folder(p),
            None => true,
        }
    }

    /// The store after a folder of these fields was created in it: the new
    /// folder stands last and has the next id. Where the parent is not known,
    /// the store is as it was.
    pub open spec fn create_folder(self, label: Seq<char>, parent: Option<i32>) -> StoreView {
        if self.parent_known(parent) {
            let id = self.next_folder_id();
            StoreView {
                folders: self.folders.push(FolderView { id, label, parent }),
                last_folder_id: id,
                ..self
            }
        } else {
            self
        }
    }

    /// The store after the removal of the folder `id`. Nothing else changes:
    /// what lay in the folder stays, and still names it. Where there is no such
    /// folder, the store is as it was.
    pub open spec fn remove_folder(self, id: i32) -> StoreView {
        if self.has_folder(id) {
            StoreView { folders: self.folders.remove(self.folder_index(id)), ..self }
        } else {
            self
        }
    }

    /// The store after `snapshot` was saved: the folder with the snapshot's id
    /// has the snapshot's fields, and stands where it stood. Where there is no
    /// such folder, or the folder may not be written with the snapshot's
    /// parent, the store is as it was.
    pub open spec fn save_folder(self, snapshot: FolderView) -> StoreView {
        if self.has_folder(snapshot.id) && self.parent_allowed(snapshot.id, snapshot.parent) {
            StoreView {
                folders: self.folders.update(self.folder_index(snapshot.id), snapshot),
                ..self
            }
        } else {
            self
        }
    }

    /// A store stays as a store must be when a folder is created in it.
    pub proof fn lemma_create_folder_wf(self, label: Seq<char>, parent: Option<i32>)
        requires
            self.wf(),
            self.last_folder_id < i32::MAX,
        ensures
            self.create_folder(label, parent).wf(),
    {
        self.lemma_create_folder_sound(label, parent);
    }

    /// A store stays as a store must be when a folder is removed from it; the
    /// folder is then gone, and every other folder is in the store if it was.
    pub proof fn lemma_remove_folder_wf(self, id: i32)
        requires
            self.wf(),
        ensures
            self.remove_folder(id).wf(),
            !self.remove_folder(id).has_folder(id),
            forall|other: i32|
                other != id ==> (self.remove_folder(id).has_folder(other) <==> self.has_folder(
                    other,
                )),
    {
        self.lemma_remove_folder_sound(id);
        if self.has_folder(id) {
            let after = self.remove_folder(id);
            let at = self.folder_index(id);
            assert forall|i: int| 0 <= i < after.folders.len() implies #[trigger] after.folders[i]
                == self.folders[if i < at {
                i
            } else {
                i + 1
            }] by {}
            assert forall|other: i32| other != id && self.has_folder(other) implies after.has_folder(
                other,
            ) by {
                let k = self.folder_index(other);
                let k2 = if k < at {
                    k
                } else {
                    k - 1
                };
                assert(after.folders[k2].id == other);
            }
        }
    }

    /// A store stays as a store must be when a folder is saved in it, and
    /// holds a folder of each id that it held.
    pub proof fn lemma_save_folder_wf(self, snapshot: FolderView)
        requires
            self.wf(),
        ensures
            self.save_folder(snapshot).wf(),
            forall|id: i32| self.save_folder(snapshot).has_folder(id) <==> self.has_folder(id),
    {
        self.lemma_save_folder_sound(snapshot);
        if self.has_folder(snapshot.id) && self.parent_allowed(snapshot.id, snapshot.parent) {
            let after = self.save_folder(snapshot);
            assert forall|id: i32| self.has_folder(id) implies after.has_folder(id) by {
                let k = self.folder_index(id);
                assert(after.folders[k].id == id);
            }
            assert forall|id: i32| after.has_folder(id) implies self.has_folder(id) by {
                let k = after.folder_index(id);
                assert(self.folders[k].id == id);
            }
        }
    }
}

impl Folder {
    /// All folders of the store, oldest first.
    pub fn all(store: &Store) -> (r: Vec<Folder>)
        ensures
            views(r@) == store@.folders,
    {
        let mut found: Vec<Folder> = Vec::new();
        let mut i: usize = 0;
        while i < store.folders.len()
            invariant
                i <= store.folders.len(),
                views(found@) == store@.folders.take(i as int),
            decreases store.folders.len() - i,
        {
            let ghost before = found@;
            found.push(store.folders[i].clone());
            assert(views(found@) =~= views(before).push(store@.folders[i as int]));
            assert(store@.folders.take(i + 1) =~= store@.folders.take(i as int).push(
                store@.folders[i as int],
            ));
            i += 1;
        }
        assert(store@.folders.take(i as int) =~= store@.folders);
        found
    }

    /// The folder with this id, or `NotFound` if the store has none.
    pub fn find(id: i32, store: &Store) -> (r: Result<Folder, StoreError>)
        requires
            store.wf(),
        ensures
            match r {
                Ok(f) => store@.has_folder(id) && f@ == store@.folder(id),
                Err(e) => !store@.has_folder(id) && e@ == (StoreErrorView::NotFound { id }),
            },
    {
        match store.folder_position(id) {
            Some(i) => Ok(store.folders[i].clone()),
            None => Err(StoreError::NotFound { id }),
        }
    }

    /// Removes the folder `id` from the store, or reports `NotFound` and
    /// leaves the store as it is. Only the folder goes: the bookmarks and
    /// folders that lay in it stay, and still name it.
    pub fn remove_folder(id: i32, store: &mut Store) -> (r: Result<(), StoreError>)
        requires
            old(store).wf(),
        ensures
            final(store).wf(),
            final(store)@ == old(store)@.remove_folder(id),
            match r {
                Ok(_) => old(store)@.has_folder(id),
                Err(e) => !old(store)@.has_folder(id) && e@ == (StoreErrorView::NotFound { id }),
            },
    {
        match store.folder_position(id) {
            Some(i) => {
                store.folders.remove(i);
                proof {
                    assert(final(store)@.folders =~= old(store)@.folders.remove(i as int));
                    old(store)@.lemma_remove_folder_wf(id);
                }
                Ok(())
            },
            None => Err(StoreError::NotFound { id }),
        }
    }

    /// Removes this folder from the store, or reports `NotFound` and leaves
    /// the store as it is.
    pub fn delete(&self, store: &mut Store) -> (r: Result<(), StoreError>)
        requires
            old(store).wf(),
        ensures
            final(store).wf(),
            final(store)@ == old(store)@.remove_folder(self.id),
            match r {
                Ok(_) => old(store)@.has_folder(self.id),
                Err(e) => !old(store)@.has_folder(self.id) && e@ == (StoreErrorView::NotFound {
                    id: self.id,
                }),
            },
    {
        Folder::remove_folder(self.id, store)
    }

    /// Creates a folder of these fields and returns its id, the next one.
    /// Where `parent` names a folder that is not in the store, nothing is
    /// created and the answer is `ForeignKeyError` with that id.
    pub fn create(label: String, parent: Option<i32>, store: &mut Store) -> (r: Result<
        i32,
        StoreError,
    >)
        requires
            old(store).wf(),
            old(store)@.last_folder_id < i32::MAX,
        ensures
            final(store).wf(),
            final(store)@ == old(store)@.create_folder(label@, parent),
            match r {
                Ok(id) => old(store)@.parent_known(parent) && id == old(store)@.next_folder_id(),
                Err(e) => !old(store)@.parent_known(parent) && e@ == (
                StoreErrorView::ForeignKeyError { id: parent.unwrap() }),
            },
    {
        match parent {
            Some(p) => {
                if store.folder_position(p).is_none() {
                    return Err(StoreError::ForeignKeyError { id: p });
                }
            },
            None => {},
        }
        let id: i32 = store.last_folder_id + 1;
        let ghost record = (FolderView { id, label: label@, parent });
        store.folders.push(Folder { id, label, parent });
        store.last_folder_id = id;
        proof {
            assert(final(store)@.folders =~= old(store)@.folders.push(record));
            old(store)@.lemma_create_folder_wf(record.label, parent);
        }
        Ok(id)
    }

    /// Takes over the fields of `snapshot`, all but the id.
    pub fn overwrite(&mut self, snapshot: &Folder)
        ensures
            final(self)@ == (FolderView { id: old(self)@.id, ..snapshot@ }),
    {
        self.label = snapshot.label.clone();
        self.parent = snapshot.parent;
    }

    /// Saves this snapshot: the folder of the store that has its id takes over
    /// its label and parent, whether they differ or not. Where the store has
    /// no such folder the answer is `NotFound`. Where it has, but the
    /// snapshot's parent is not a folder of the store, or is the folder itself
    /// or a folder that lies in it, the answer is `ForeignKeyError` with the
    /// parent's id. Either way the store stays as it is.
    pub fn save(&self, store: &mut Store) -> (r: Result<(), StoreError>)
        requires
            old(store).wf(),
        ensures
            final(store).wf(),
            final(store)@ == old(store)@.save_folder(self@),
            match r {
                Ok(_) => old(store)@.has_folder(self.id) && old(store)@.parent_allowed(
                    self.id,
                    self.parent,
                ),
                Err(e) => if !old(store)@.has_folder(self.id) {
                    e@ == (StoreErrorView::NotFound { id: self.id })
                } else {
                    !old(store)@.parent_allowed(self.id, self.parent) && e@ == (
                    StoreErrorView::ForeignKeyError { id: self.parent.unwrap() })
                },
            },
    {
        match store.folder_position(self.id) {
            Some(i) => {
                match self.parent {
                    Some(p) => {
                        if store.folder_position(p).is_none() || store.reaches(p, self.id) {
                            return Err(StoreError::ForeignKeyError { id: p });
                        }
                    },
                    None => {},
                }
                let mut record = store.folders[i].clone();
                record.overwrite(self);
                store.folders[i] = record;
                proof {
                    assert(final(store)@.folders =~= old(store)@.folders.update(i as int, self@));
                    old(store)@.lemma_save_folder_wf(self@);
                }
                Ok(())
            },
            None => Err(StoreError::NotFound { id: self.id }),
        }
    }
}

/// The folders that lie in no folder, oldest first.
pub fn root_folders(store: &Store) -> (r: Vec<Folder>)
    ensures
        views(r@) == store@.folders.filter(is_root()),
{
    let ghost all = store@.folders;
    let ghost keep = is_root();
    let mut found: Vec<Folder> = Vec::new();
    let mut i: usize = 0;
    proof {
        lemma_filter_ends(all, keep);
    }
    while i < store.folders.len()
        invariant
            i <= store.folders.len(),
            all == store@.folders,
            keep == is_root(),
            views(found@) =~= all.take(i as int).filter(keep),
        decreases store.folders.len() - i,
    {
        proof {
            lemma_filter_next(all, keep, i as int);
        }
        if store.folders[i].parent.is_none() {
            found.push(store.folders[i].clone());
        }
        i += 1;
    }
    proof {
        lemma_filter_ends(all, keep);
    }
    found
}

} // verus!
