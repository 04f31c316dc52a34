//! The folders as a forest: the way up from a folder to its parent, the
//! parent's parent and so on, and the rule that no folder lies in itself.

use vstd::prelude::*;
use vstd::set_lib::{lemma_int_range, lemma_len_subset, set_int_range};

use crate::folder::FolderView;
use crate::store::StoreView;

verus! {

impl StoreView {
    /// The parent that the folder `id` names; none where it names none, or is
    /// not in the store.
    pub open spec fn parent_of(self, id: i32) -> Option<i32> {
        if self.has_folder(id) {
            self.folder(id).parent
        } else {
            None
        }
    }

    /// Where the way up from `from` is after `steps` steps, each from a folder
    /// of the store to the parent it names: `from` itself after none, and
    /// nowhere once the way has ended.
    pub open spec fn ancestor(self, from: i32, steps: nat) -> Option<i32>
        decreases steps,
    {
        if steps == 0 {
            Some(from)
        } else {
            match self.ancestor(from, (steps - 1) as nat) {
                Some(id) => self.parent_of(id),
                None => None,
            }
        }
    }

    /// Whether the way up from `from` meets `id`: `from` is `id`, or lies in
    /// it, directly or further down.
    pub open spec fn reaches(self, from: i32, id: i32) -> bool {
        exists|steps: nat| self.ancestor(from, steps) == Some(id)
    }

    /// No way up comes back to where it began: no folder lies in itself.
    pub open spec fn is_forest(self) -> bool {
        forall|id: i32, steps: nat| steps >= 1 ==> self.ancestor(id, steps) != Some(id)
    }

    /// Every parent that a folder names is an id that was given to a folder.
    pub open spec fn parents_issued(self) -> bool {
        forall|i: int|
            0 <= i < self.folders.len() ==> match (#[trigger] self.folders[i]).parent {
                Some(p) => 1 <= p <= self.last_folder_id,
                None => true,
            }
    }

    /// Going `more` steps on from where `steps` steps have led is going
    /// `steps + more` steps.
    pub proof fn lemma_ancestor_add(self, from: i32, steps: nat, more: nat)
        ensures
            self.ancestor(from, steps + more) == match self.ancestor(from, steps) {
                Some(id) => self.ancestor(id, more),
                None => None,
            },
        decreases more,
    {
        if more > 0 {
            self.lemma_ancestor_add(from, steps, (more - 1) as nat);
            assert(steps + more - 1 == steps + (more - 1) as nat);
        }
    }

    /// A way that has ended stays ended.
    pub proof fn lemma_ancestor_ended(self, from: i32, steps: nat, later: nat)
        requires
            self.ancestor(from, steps) is None,
            steps <= later,
        ensures
            self.ancestor(from, later) is None,
    {
        self.lemma_ancestor_add(from, steps, (later - steps) as nat);
        assert(steps + (later - steps) as nat == later);
    }

    /// Where ids are in order, what a step leads to was named as a parent, and
    /// so is an id that was given out.
    pub proof fn lemma_ancestor_issued(self, from: i32, steps: nat)
        requires
            self.ids_in_order(),
            self.parents_issued(),
            steps >= 1,
        ensures
            match self.ancestor(from, steps) {
                Some(id) => 1 <= id <= self.last_folder_id,
                None => true,
            },
    {
        match self.ancestor(from, (steps - 1) as nat) {
            Some(below) => {
                if self.has_folder(below) {
                    let k = self.folder_index(below);
                    assert(self.folders[k].parent == self.parent_of(below));
                }
            },
            None => {},
        }
    }

    /// The ways up are the same in two stores that hold the same folders.
    pub proof fn lemma_same_folders(self, other: StoreView, from: i32, steps: nat)
        requires
            self.folders == other.folders,
        ensures
            self.ancestor(from, steps) == other.ancestor(from, steps),
        decreases steps,
    {
        if steps > 0 {
            self.lemma_same_folders(other, from, (steps - 1) as nat);
        }
    }

    /// Of two stores that hold the same folders and have given out the same
    /// folder ids, the parents are sound together.
    pub proof fn lemma_same_parents(self, other: StoreView)
        requires
            self.folders == other.folders,
            self.last_folder_id == other.last_folder_id,
        ensures
            self.parents_sound() == other.parents_sound(),
    {
        assert forall|id: i32, steps: nat|
            self.ancestor(id, steps) == other.ancestor(id, steps) by {
            self.lemma_same_folders(other, id, steps);
        }
    }

    /// Whether the folder `id` may be written with this parent: it names none,
    /// or a folder that is in the store and neither is `id` nor lies in it.
    pub open spec fn parent_allowed(self, id: i32, parent: Option<i32>) -> bool {
        match parent {
            Some(p) => self.has_folder(p) && !self.reaches(p, id),
            None => true,
        }
    }

    /// What holds of the parents that the folders of every store name: they
    /// are ids that were given out, and no folder lies in itself.
    pub open spec fn parents_sound(self) -> bool {
        self.parents_issued() && self.is_forest()
    }

    /// After a folder was created, it names the parent it was created with,
    /// and every other folder names the parent it named.
    pub proof fn lemma_parents_after_create(self, label: Seq<char>, parent: Option<i32>)
        requires
            self.ids_in_order(),
            self.last_folder_id < i32::MAX,
            self.parent_known(parent),
        ensures
            forall|id: i32| #[trigger]
                self.create_folder(label, parent).parent_of(id) == if id
                    == self.next_folder_id() {
                    parent
                } else {
                    self.parent_of(id)
                },
    {
        let after = self.create_folder(label, parent);
        let new = self.next_folder_id();
        assert(after.ids_in_order());
        assert forall|id: i32| #[trigger] after.parent_of(id) == if id == new {
            parent
        } else {
            self.parent_of(id)
        } by {
            if id == new {
                after.lemma_folder_at(self.folders.len() as int);
            } else if self.has_folder(id) {
                let k = self.folder_index(id);
                assert(after.folders[k] == self.folders[k]);
                after.lemma_folder_at(k);
            } else if after.has_folder(id) {
                let k = after.folder_index(id);
                assert(self.folders[k].id == id);
            }
        }
    }

    /// After a folder was created, the way up from any other id is as it was.
    pub proof fn lemma_ways_after_create(
        self,
        label: Seq<char>,
        parent: Option<i32>,
        from: i32,
        steps: nat,
    )
        requires
            self.ids_in_order(),
            self.parents_issued(),
            self.last_folder_id < i32::MAX,
            self.parent_known(parent),
            from != self.next_folder_id(),
        ensures
            self.create_folder(label, parent).ancestor(from, steps) == self.ancestor(from, steps),
        decreases steps,
    {
        if steps > 0 {
            self.lemma_ways_after_create(label, parent, from, (steps - 1) as nat);
            self.lemma_parents_after_create(label, parent);
            if steps > 1 {
                self.lemma_ancestor_issued(from, (steps - 1) as nat);
            }
        }
    }

    /// The parents stay sound when a folder is created.
    pub proof fn lemma_create_folder_sound(self, label: Seq<char>, parent: Option<i32>)
        requires
            self.ids_in_order(),
            self.parents_sound(),
            self.last_folder_id < i32::MAX,
        ensures
            self.create_folder(label, parent).parents_sound(),
    {
        let after = self.create_folder(label, parent);
        let new = self.next_folder_id();
        if self.parent_known(parent) {
            assert(after.ids_in_order());
            assert(after.parents_issued()) by {
                if parent is Some {
                    let k = self.folder_index(parent.unwrap());
                    assert(self.folders[k].id == parent.unwrap());
                }
            }
            self.lemma_parents_after_create(label, parent);
            assert forall|id: i32, steps: nat| steps >= 1 implies after.ancestor(id, steps)
                != Some(id) by {
                if id != new {
                    self.lemma_ways_after_create(label, parent, id, steps);
                } else {
                    after.lemma_ancestor_add(new, 1, (steps - 1) as nat);
                    assert(1 + (steps - 1) as nat == steps);
                    assert(after.ancestor(new, 0) == Some(new));
                    assert(after.ancestor(new, 1) == after.parent_of(new));
                    if parent is Some {
                        let p = parent.unwrap();
                        let k = self.folder_index(p);
                        assert(self.folders[k].id == p);
                        self.lemma_ways_after_create(label, parent, p, (steps - 1) as nat);
                        if steps > 1 {
                            self.lemma_ancestor_issued(p, (steps - 1) as nat);
                        }
                    }
                }
            }
        }
    }

    /// After a folder was removed, it names no parent, and every other folder
    /// names the parent it named.
    pub proof fn lemma_parents_after_remove(self, id: i32)
        requires
            self.ids_in_order(),
            self.has_folder(id),
        ensures
            forall|other: i32| #[trigger]
                self.remove_folder(id).parent_of(other) == if other == id {
                    None
                } else {
                    self.parent_of(other)
                },
    {
        let after = self.remove_folder(id);
        let at = self.folder_index(id);
        assert forall|i: int| 0 <= i < after.folders.len() implies #[trigger] after.folders[i]
            == self.folders[if i < at {
            i
        } else {
            i + 1
        }] by {}
        assert(after.ids_in_order());
        assert forall|other: i32| #[trigger] after.parent_of(other) == if other == id {
            None
        } else {
            self.parent_of(other)
        } by {
            if after.has_folder(other) {
                let k = after.folder_index(other);
                let k0 = if k < at {
                    k
                } else {
                    k + 1
                };
                assert(self.folders[k0].id == other);
                self.lemma_folder_at(k0);
                self.lemma_folder_at(at);
            } else if other != id && self.has_folder(other) {
                let k0 = self.folder_index(other);
                let k = if k0 < at {
                    k0
                } else {
                    k0 - 1
                };
                assert(after.folders[k].id == other);
            }
        }
    }

    /// After a folder was removed, a way up is as it was, or has ended.
    pub proof fn lemma_ways_after_remove(self, id: i32, from: i32, steps: nat)
        requires
            self.ids_in_order(),
            self.has_folder(id),
        ensures
            self.remove_folder(id).ancestor(from, steps) is None || self.remove_folder(
                id,
            ).ancestor(from, steps) == self.ancestor(from, steps),
        decreases steps,
    {
        if steps > 0 {
            self.lemma_ways_after_remove(id, from, (steps - 1) as nat);
            self.lemma_parents_after_remove(id);
        }
    }

    /// The parents stay sound when a folder is removed.
    pub proof fn lemma_remove_folder_sound(self, id: i32)
        requires
            self.ids_in_order(),
            self.parents_sound(),
        ensures
            self.remove_folder(id).parents_sound(),
    {
        let after = self.remove_folder(id);
        if self.has_folder(id) {
            let at = self.folder_index(id);
            assert forall|i: int| 0 <= i < after.folders.len() implies #[trigger] after.folders[i]
                == self.folders[if i < at {
                i
            } else {
                i + 1
            }] by {}
            assert forall|from: i32, steps: nat| steps >= 1 implies after.ancestor(from, steps)
                != Some(from) by {
                self.lemma_ways_after_remove(id, from, steps);
            }
        }
    }

    /// After a snapshot of a folder was saved, the folder names the snapshot's
    /// parent, and every other folder names the parent it named.
    pub proof fn lemma_parents_after_save(self, snapshot: FolderView)
        requires
            self.ids_in_order(),
            self.has_folder(snapshot.id),
            self.parent_allowed(snapshot.id, snapshot.parent),
        ensures
            forall|id: i32| #[trigger]
                self.save_folder(snapshot).parent_of(id) == if id == snapshot.id {
                    snapshot.parent
                } else {
                    self.parent_of(id)
                },
    {
        let after = self.save_folder(snapshot);
        let at = self.folder_index(snapshot.id);
        assert(after.ids_in_order());
        assert forall|id: i32| #[trigger] after.parent_of(id) == if id == snapshot.id {
            snapshot.parent
        } else {
            self.parent_of(id)
        } by {
            if after.has_folder(id) {
                let k = after.folder_index(id);
                assert(self.folders[k].id == id);
                self.lemma_folder_at(k);
                self.lemma_folder_at(at);
            } else if self.has_folder(id) {
                let k = self.folder_index(id);
                assert(after.folders[k].id == id);
            }
        }
    }

    /// After a snapshot of a folder was saved, a way up is as it was until it
    /// has met the folder; from there it goes on as the way up from the
    /// snapshot's parent went. The result is the number of steps after which the
    /// way met the folder, if it did in fewer than `steps`.
    pub proof fn lemma_ways_after_save(self, snapshot: FolderView, from: i32, steps: nat) -> (met:
        Option<nat>)
        requires
            self.ids_in_order(),
            self.has_folder(snapshot.id),
            self.parent_allowed(snapshot.id, snapshot.parent),
        ensures
            match met {
                Some(at) => at < steps && self.ancestor(from, at) == Some(snapshot.id)
                    && self.save_folder(snapshot).ancestor(from, steps) == match snapshot.parent {
                    Some(p) => self.ancestor(p, (steps - at - 1) as nat),
                    None => None,
                },
                None => self.save_folder(snapshot).ancestor(from, steps) == self.ancestor(
                    from,
                    steps,
                ) && forall|at: nat| at < steps ==> self.ancestor(from, at) != Some(snapshot.id),
            },
        decreases steps,
    {
        if steps == 0 {
            None
        } else {
            let before = (steps - 1) as nat;
            let met = self.lemma_ways_after_save(snapshot, from, before);
            self.lemma_parents_after_save(snapshot);
            match met {
                Some(at) => {
                    if snapshot.parent is Some {
                        let p = snapshot.parent.unwrap();
                        let on = (before - at - 1) as nat;
                        assert(self.ancestor(p, on) != Some(snapshot.id));
                        assert((steps - at - 1) as nat == on + 1);
                    }
                    Some(at)
                },
                None => {
                    if self.ancestor(from, before) == Some(snapshot.id) {
                        Some(before)
                    } else {
                        None
                    }
                },
            }
        }
    }

    /// The parents stay sound when a snapshot of a folder is saved.
    pub proof fn lemma_save_folder_sound(self, snapshot: FolderView)
        requires
            self.ids_in_order(),
            self.parents_sound(),
        ensures
            self.save_folder(snapshot).parents_sound(),
    {
        let after = self.save_folder(snapshot);
        if self.has_folder(snapshot.id) && self.parent_allowed(snapshot.id, snapshot.parent) {
            assert(after.ids_in_order());
            assert(after.parents_issued()) by {
                if snapshot.parent is Some {
                    let k = self.folder_index(snapshot.parent.unwrap());
                    assert(self.folders[k].id == snapshot.parent.unwrap());
                }
            }
            assert forall|from: i32, steps: nat| steps >= 1 implies after.ancestor(from, steps)
                != Some(from) by {
                let met = self.lemma_ways_after_save(snapshot, from, steps);
                if met is Some && after.ancestor(from, steps) == Some(from) {
                    let at = met.unwrap();
                    let p = snapshot.parent.unwrap();
                    let on = (steps - at - 1) as nat;
                    self.lemma_ancestor_add(p, on, at);
                    assert(self.ancestor(p, on + at) == Some(snapshot.id));
                }
            }
        }
    }

    /// A way up that has not ended after `steps` steps is shorter than the
    /// store has folders: the folders it met are all different.
    pub proof fn lemma_way_is_short(self, from: i32, steps: nat)
        requires
            self.ids_in_order(),
            self.is_forest(),
            forall|m: nat|
                m <= steps ==> match #[trigger] self.ancestor(from, m) {
                    Some(id) => self.has_folder(id),
                    None => false,
                },
        ensures
            steps < self.folders.len(),
    {
        let places = Seq::new(
            steps + 1,
            |m: int| self.folder_index(self.ancestor(from, m as nat).unwrap()),
        );
        let all = set_int_range(0, self.folders.len() as int);
        assert forall|i: int, j: int|
            0 <= i < places.len() && 0 <= j < places.len() && i != j implies places[i]
            != places[j] by {
            let a = self.ancestor(from, i as nat).unwrap();
            let b = self.ancestor(from, j as nat).unwrap();
            assert(self.has_folder(a) && self.has_folder(b));
            if places[i] == places[j] {
                assert(a == b);
                if i < j {
                    self.lemma_ancestor_add(from, i as nat, (j - i) as nat);
                    assert(i as nat + (j - i) as nat == j as nat);
                } else {
                    self.lemma_ancestor_add(from, j as nat, (i - j) as nat);
                    assert(j as nat + (i - j) as nat == i as nat);
                }
            }
        }
        places.unique_seq_to_set();
        lemma_int_range(0, self.folders.len() as int);
        assert forall|k: int| places.to_set().contains(k) implies all.contains(k) by {
            let m = choose|m: int| 0 <= m < places.len() && places[m] == k;
            assert(self.has_folder(self.ancestor(from, m as nat).unwrap()));
        }
        lemma_len_subset(places.to_set(), all);
    }
}

} // verus!
