//! The store: the records it holds, in the order in which they were created,
//! the pairs of a bookmark and a tag, in the order in which they were made, and
//! the last id given out for each kind of record.

use vstd::prelude::*;

use crate::bookmark::{BookMark, BookMarkView};
use crate::folder::{Folder, FolderView};
use crate::seqs::{lemma_filter_ends, lemma_filter_next};
use crate::tag::{Tag, TagView};

verus! {

/// A pair of a bookmark and a tag: the bookmark carries the tag.
#[derive(Debug, Clone, Copy, PartialEq, Eq, Structural)]
pub struct Link {
    pub bookmark: i32,
    pub tag: i32,
}

/// Pairs of the bookmark `id`.
pub open spec fn of_bookmark(id: i32) -> spec_fn(Link) -> bool {
    |link: Link| link.bookmark == id
}

/// Pairs of other bookmarks than `id`.
pub open spec fn not_of_bookmark(id: i32) -> spec_fn(Link) -> bool {
    |link: Link| link.bookmark != id
}

/// Pairs of the tag `id`.
pub open spec fn of_tag(id: i32) -> spec_fn(Link) -> bool {
    |link: Link| link.tag == id
}

/// Pairs of other tags than `id`.
pub open spec fn not_of_tag(id: i32) -> spec_fn(Link) -> bool {
    |link: Link| link.tag != id
}

/// What a store is in contracts.
pub struct StoreView {
    /// The bookmarks, oldest first.
    pub bookmarks: Seq<BookMarkView>,
    /// The folders, oldest first.
    pub folders: Seq<FolderView>,
    /// The tags, oldest first.
    pub tags: Seq<TagView>,
    /// The pairs of a bookmark and a tag, oldest first.
    pub links: Seq<Link>,
    /// The last id given to a bookmark; 0 before the first.
    pub last_bookmark_id: i32,
    /// The last id given to a folder; 0 before the first.
    pub last_folder_id: i32,
    /// The last id given to a tag; 0 before the first.
    pub last_tag_id: i32,
}

/// The views of a sequence of records, in the same order.
pub open spec fn views<T: View>(records: Seq<T>) -> Seq<T::V> {
    records.map_values(|record: T| record@)
}

impl StoreView {
    /// The store that holds nothing and has given out no id.
    pub open spec fn empty() -> StoreView {
        StoreView {
            bookmarks: Seq::empty(),
            folders: Seq::empty(),
            tags: Seq::empty(),
            links: Seq::empty(),
            last_bookmark_id: 0,
            last_folder_id: 0,
            last_tag_id: 0,
        }
    }

    /// The last ids given: to a bookmark, to a folder and to a tag.
    pub open spec fn ids_given(self) -> (i32, i32, i32) {
        (self.last_bookmark_id, self.last_folder_id, self.last_tag_id)
    }

    /// Whether a bookmark with this id is in the store.
    pub open spec fn has_bookmark(self, id: i32) -> bool {
        exists|i: int| 0 <= i < self.bookmarks.len() && (#[trigger] self.bookmarks[i]).id == id
    }

    /// Where the bookmark with this id stands among the bookmarks.
    pub open spec fn bookmark_index(self, id: i32) -> int {
        choose|i: int| 0 <= i < self.bookmarks.len() && (#[trigger] self.bookmarks[i]).id == id
    }

    /// The bookmark with this id.
    pub open spec fn bookmark(self, id: i32) -> BookMarkView
        recommends
            self.has_bookmark(id),
    {
        self.bookmarks[self.bookmark_index(id)]
    }

    /// Whether a folder with this id is in the store.
    pub open spec fn has_folder(self, id: i32) -> bool {
        exists|i: int| 0 <= i < self.folders.len() && (#[trigger] self.folders[i]).id == id
    }

    /// Where the folder with this id stands among the folders.
    pub open spec fn folder_index(self, id: i32) -> int {
        choose|i: int| 0 <= i < self.folders.len() && (#[trigger] self.folders[i]).id == id
    }

    /// The folder with this id.
    pub open spec fn folder(self, id: i32) -> FolderView
        recommends
            self.has_folder(id),
    {
        self.folders[self.folder_index(id)]
    }

    /// Whether a tag with this id is in the store.
    pub open spec fn has_tag(self, id: i32) -> bool {
        exists|i: int| 0 <= i < self.tags.len() && (#[trigger] self.tags[i]).id == id
    }

    /// Where the tag with this id stands among the tags.
    pub open spec fn tag_index(self, id: i32) -> int {
        choose|i: int| 0 <= i < self.tags.len() && (#[trigger] self.tags[i]).id == id
    }

    /// The tag with this id.
    pub open spec fn tag(self, id: i32) -> TagView
        recommends
            self.has_tag(id),
    {
        self.tags[self.tag_index(id)]
    }

    /// The ids of each kind were given out in order, starting at 1: the records
    /// stand in the order of their ids, and none has an id above the last one
    /// given.
    pub open spec fn ids_in_order(self) -> bool {
        &&& 0 <= self.last_bookmark_id
        &&& 0 <= self.last_folder_id
        &&& 0 <= self.last_tag_id
        &&& forall|i: int|
            0 <= i < self.bookmarks.len() ==> 1 <= (#[trigger] self.bookmarks[i]).id
                <= self.last_bookmark_id
        &&& forall|i: int, j: int|
            0 <= i < j < self.bookmarks.len() ==> (#[trigger] self.bookmarks[i]).id < (
            #[trigger] self.bookmarks[j]).id
        &&& forall|i: int|
            0 <= i < self.folders.len() ==> 1 <= (#[trigger] self.folders[i]).id
                <= self.last_folder_id
        &&& forall|i: int, j: int|
            0 <= i < j < self.folders.len() ==> (#[trigger] self.folders[i]).id < (
            #[trigger] self.folders[j]).id
        &&& forall|i: int|
            0 <= i < self.tags.len() ==> 1 <= (#[trigger] self.tags[i]).id <= self.last_tag_id
        &&& forall|i: int, j: int|
            0 <= i < j < self.tags.len() ==> (#[trigger] self.tags[i]).id < (
            #[trigger] self.tags[j]).id
    }

    /// Where ids are in order, the bookmark at a place is the one found under
    /// its id.
    pub proof fn lemma_bookmark_at(self, i: int)
        requires
            self.ids_in_order(),
            0 <= i < self.bookmarks.len(),
        ensures
            self.has_bookmark(self.bookmarks[i].id),
            self.bookmark_index(self.bookmarks[i].id) == i,
            self.bookmark(self.bookmarks[i].id) == self.bookmarks[i],
    {
        let id = self.bookmarks[i].id;
        let k = self.bookmark_index(id);
        if k < i {
            assert(self.bookmarks[k].id < self.bookmarks[i].id);
        } else if i < k {
            assert(self.bookmarks[i].id < self.bookmarks[k].id);
        }
    }

    /// Where ids are in order, the folder at a place is the one found under
    /// its id.
    pub proof fn lemma_folder_at(self, i: int)
        requires
            self.ids_in_order(),
            0 <= i < self.folders.len(),
        ensures
            self.has_folder(self.folders[i].id),
            self.folder_index(self.folders[i].id) == i,
            self.folder(self.folders[i].id) == self.folders[i],
    {
        let id = self.folders[i].id;
        let k = self.folder_index(id);
        if k < i {
            assert(self.folders[k].id < self.folders[i].id);
        } else if i < k {
            assert(self.folders[i].id < self.folders[k].id);
        }
    }

    /// Where ids are in order, the tag at a place is the one found under its
    /// id.
    pub proof fn lemma_tag_at(self, i: int)
        requires
            self.ids_in_order(),
            0 <= i < self.tags.len(),
        ensures
            self.has_tag(self.tags[i].id),
            self.tag_index(self.tags[i].id) == i,
            self.tag(self.tags[i].id) == self.tags[i],
    {
        let id = self.tags[i].id;
        let k = self.tag_index(id);
        if k < i {
            assert(self.tags[k].id < self.tags[i].id);
        } else if i < k {
            assert(self.tags[i].id < self.tags[k].id);
        }
    }

    /// No pair stands twice, and each pair names a bookmark and a tag that are
    /// in the store.
    pub open spec fn links_sound(self) -> bool {
        &&& self.links.no_duplicates()
        &&& forall|i: int|
            0 <= i < self.links.len() ==> self.has_bookmark((#[trigger] self.links[i]).bookmark)
                && self.has_tag(self.links[i].tag)
    }

    /// What holds of every store: the ids are in order, the pairs are sound,
    /// and so are the parents that the folders name.
    pub open spec fn wf(self) -> bool {
        self.ids_in_order() && self.links_sound() && self.parents_sound()
    }
}

/// A store of bookmarks, folders and tags.
pub struct Store {
    pub(crate) bookmarks: Vec<BookMark>,
    pub(crate) folders: Vec<Folder>,
    pub(crate) tags: Vec<Tag>,
    pub(crate) links: Vec<Link>,
    pub(crate) last_bookmark_id: i32,
    pub(crate) last_folder_id: i32,
    pub(crate) last_tag_id: i32,
}

impl View for Store {
    type V = StoreView;

    open(crate) spec fn view(&self) -> StoreView {
        StoreView {
            bookmarks: views(self.bookmarks@),
            folders: views(self.folders@),
            tags: views(self.tags@),
            links: self.links@,
            last_bookmark_id: self.last_bookmark_id,
            last_folder_id: self.last_folder_id,
            last_tag_id: self.last_tag_id,
        }
    }
}

impl Store {
    /// What holds of every store: see `StoreView::wf`.
    pub open spec fn wf(&self) -> bool {
        self@.wf()
    }

    /// Where the bookmark with this id stands, if it is in the store.
    pub(crate) fn bookmark_position(&self, id: i32) -> (r: Option<usize>)
        requires
            self.wf(),
        ensures
            match r {
                Some(i) => self@.has_bookmark(id) && i == self@.bookmark_index(id) && i
                    < self.bookmarks.len(),
                None => !self@.has_bookmark(id),
            },
    {
        let mut i: usize = 0;
        while i < self.bookmarks.len()
            invariant
                self.wf(),
                i <= self.bookmarks.len(),
                forall|j: int| 0 <= j < i ==> (#[trigger] self@.bookmarks[j]).id != id,
            decreases self.bookmarks.len() - i,
        {
            if self.bookmarks[i].id == id {
                assert(self@.bookmarks[i as int].id == id);
                return Some(i);
            }
            i += 1;
        }
        None
    }

    /// Where the folder with this id stands, if it is in the store.
    pub(crate) fn folder_position(&self, id: i32) -> (r: Option<usize>)
        requires
            self.wf(),
        ensures
            match r {
                Some(i) => self@.has_folder(id) && i == self@.folder_index(id) && i
                    < self.folders.len(),
                None => !self@.has_folder(id),
            },
    {
        let mut i: usize = 0;
        while i < self.folders.len()
            invariant
                self.wf(),
                i <= self.folders.len(),
                forall|j: int| 0 <= j < i ==> (#[trigger] self@.folders[j]).id != id,
            decreases self.folders.len() - i,
        {
            if self.folders[i].id == id {
                assert(self@.folders[i as int].id == id);
                return Some(i);
            }
            i += 1;
        }
        None
    }

    /// Where the tag with this id stands, if it is in the store.
    pub(crate) fn tag_position(&self, id: i32) -> (r: Option<usize>)
        requires
            self.wf(),
        ensures
            match r {
                Some(i) => self@.has_tag(id) && i == self@.tag_index(id) && i < self.tags.len(),
                None => !self@.has_tag(id),
            },
    {
        let mut i: usize = 0;
        while i < self.tags.len()
            invariant
                self.wf(),
                i <= self.tags.len(),
                forall|j: int| 0 <= j < i ==> (#[trigger] self@.tags[j]).id != id,
            decreases self.tags.len() - i,
        {
            if self.tags[i].id == id {
                assert(self@.tags[i as int].id == id);
                return Some(i);
            }
            i += 1;
        }
        None
    }

    /// Where this pair stands, if it is in the store.
    pub(crate) fn link_position(&self, link: Link) -> (r: Option<usize>)
        requires
            self.wf(),
        ensures
            match r {
                Some(i) => self@.links.contains(link) && i == self@.links.index_of(link) && i
                    < self.links.len(),
                None => !self@.links.contains(link),
            },
    {
        let mut i: usize = 0;
        while i < self.links.len()
            invariant
                self.wf(),
                i <= self.links.len(),
                forall|j: int| 0 <= j < i ==> #[trigger] self@.links[j] != link,
            decreases self.links.len() - i,
        {
            if self.links[i].bookmark == link.bookmark && self.links[i].tag == link.tag {
                assert(self@.links[i as int] == link);
                return Some(i);
            }
            i += 1;
        }
        None
    }

    /// Whether the way up from the folder `from` meets `id`: whether `from`
    /// is `id` or lies in it.
    pub(crate) fn reaches(&self, from: i32, id: i32) -> (r: bool)
        requires
            self.wf(),
        ensures
            r == self@.reaches(from, id),
    {
        let mut at: i32 = from;
        let ghost mut steps: nat = 0;
        loop
            invariant
                self.wf(),
                steps <= self.folders.len(),
                self@.ancestor(from, steps) == Some(at),
                forall|m: nat|
                    m < steps ==> match #[trigger] self@.ancestor(from, m) {
                        Some(met) => met != id && self@.has_folder(met),
                        None => false,
                    },
            decreases self.folders.len() - steps,
        {
            if at == id {
                return true;
            }
            let parent = match self.folder_position(at) {
                Some(k) => self.folders[k].parent,
                None => None,
            };
            assert(parent == self@.parent_of(at));
            match parent {
                Some(p) => {
                    proof {
                        self@.lemma_way_is_short(from, steps);
                        steps = steps + 1;
                    }
                    at = p;
                },
                None => {
                    proof {
                        assert(self@.ancestor(from, steps + 1) is None);
                        assert forall|m: nat| self@.ancestor(from, m) != Some(id) by {
                            if m > steps {
                                self@.lemma_ancestor_ended(from, steps + 1, m);
                            }
                        }
                    }
                    return false;
                },
            }
        }
    }

    /// The pairs of the store but those of the bookmark `id`, in their order.
    pub(crate) fn links_without_bookmark(&self, id: i32) -> (r: Vec<Link>)
        ensures
            r@ == self@.links.filter(not_of_bookmark(id)),
    {
        let ghost all = self@.links;
        let ghost keep = not_of_bookmark(id);
        let mut kept: Vec<Link> = Vec::new();
        let mut i: usize = 0;
        proof {
            lemma_filter_ends(all, keep);
        }
        while i < self.links.len()
            invariant
                i <= self.links.len(),
                all == self@.links,
                keep == not_of_bookmark(id),
                kept@ =~= all.take(i as int).filter(keep),
            decreases self.links.len() - i,
        {
            proof {
                lemma_filter_next(all, keep, i as int);
            }
            if self.links[i].bookmark != id {
                kept.push(self.links[i]);
            }
            i += 1;
        }
        proof {
            lemma_filter_ends(all, keep);
        }
        kept
    }

    /// The pairs of the store but those of the tag `id`, in their order.
    pub(crate) fn links_without_tag(&self, id: i32) -> (r: Vec<Link>)
        ensures
            r@ == self@.links.filter(not_of_tag(id)),
    {
        let ghost all = self@.links;
        let ghost keep = not_of_tag(id);
        let mut kept: Vec<Link> = Vec::new();
        let mut i: usize = 0;
        proof {
            lemma_filter_ends(all, keep);
        }
        while i < self.links.len()
            invariant
                i <= self.links.len(),
                all == self@.links,
                keep == not_of_tag(id),
                kept@ =~= all.take(i as int).filter(keep),
            decreases self.links.len() - i,
        {
            proof {
                lemma_filter_next(all, keep, i as int);
            }
            if self.links[i].tag != id {
                kept.push(self.links[i]);
            }
            i += 1;
        }
        proof {
            lemma_filter_ends(all, keep);
        }
        kept
    }

    /// The last id given to a bookmark; 0 before the first. A bookmark can be
    /// created as long as this is below `i32::MAX`.
    pub fn last_bookmark_id(&self) -> (id: i32)
        ensures
            id == self@.last_bookmark_id,
    {
        self.last_bookmark_id
    }

    /// The last id given to a folder; 0 before the first. A folder can be
    /// created as long as this is below `i32::MAX`.
    pub fn last_folder_id(&self) -> (id: i32)
        ensures
            id == self@.last_folder_id,
    {
        self.last_folder_id
    }

    /// The last id given to a tag; 0 before the first. A tag can be created as
    /// long as this is below `i32::MAX`.
    pub fn last_tag_id(&self) -> (id: i32)
        ensures
            id == self@.last_tag_id,
    {
        self.last_tag_id
    }

    /// A store that holds nothing.
    pub fn new() -> (store: Store)
        ensures
            store.wf(),
            store@ == StoreView::empty(),
    {
        let store = Store {
            bookmarks: Vec::new(),
            folders: Vec::new(),
            tags: Vec::new(),
            links: Vec::new(),
            last_bookmark_id: 0,
            last_folder_id: 0,
            last_tag_id: 0,
        };
        assert(store@.bookmarks =~= Seq::empty());
        assert(store@.folders =~= Seq::empty());
        assert(store@.tags =~= Seq::empty());
        store
    }
}

} // verus!
