//! Bookmarks: the record, what it stands for in contracts, and the operations
//! of a store on its bookmarks.

use vstd::prelude::*;

use crate::error::{StoreError, StoreErrorView};
use crate::seqs::{lemma_filter_distinct, lemma_filter_ends, lemma_filter_members, lemma_filter_next};
use crate::store::{not_of_bookmark, of_bookmark, views, Link, Store, StoreView};
use crate::tag::{Tag, TagView};
use crate::text::{copy_text, text_is, text_view};

verus! {

/// What a bookmark is in contracts: its fields as plain values.
pub struct BookMarkView {
    pub id: i32,
    pub url: Seq<char>,
    pub label: Option<Seq<char>>,
    pub folder: Option<i32>,
    pub starred: bool,
}

/// A bookmark as it was read from a store: a detached copy. Changing it
/// changes nothing in the store until it is saved.
#[derive(Debug, PartialEq, Eq)]
pub struct BookMark {
    /// The id that the store gave this bookmark.
    pub id: i32,
    /// The url this bookmark links to.
    pub url: String,
    /// The label shown for this bookmark.
    pub label: Option<String>,
    /// The id of the folder this bookmark lies in.
    pub folder: Option<i32>,
    /// Whether this bookmark is starred.
    pub starred: bool,
}

impl View for BookMark {
    type V = BookMarkView;

    open spec fn view(&self) -> BookMarkView {
        BookMarkView {
            id: self.id,
            url: self.url@,
            label: text_view(self.label),
            folder: self.folder,
            starred: self.starred,
        }
    }
}

impl Clone for BookMark {
    fn clone(&self) -> (r: Self)
        ensures
            r@ == self@,
    {
        BookMark {
            id: self.id,
            url: self.url.clone(),
            label: copy_text(&self.label),
            folder: self.folder,
            starred: self.starred,
        }
    }
}

/// Bookmarks whose url is `url`.
pub open spec fn url_is(url: Seq<char>) -> spec_fn(BookMarkView) -> bool {
    |b: BookMarkView| b.url == url
}

/// Bookmarks that have a label, and it is `label`.
pub open spec fn label_is(label: Seq<char>) -> spec_fn(BookMarkView) -> bool {
    |b: BookMarkView| b.label == Some(label)
}

/// Bookmarks that lie in the folder `folder`.
pub open spec fn folder_is(folder: i32) -> spec_fn(BookMarkView) -> bool {
    |b: BookMarkView| b.folder == Some(folder)
}

/// Bookmarks whose star is as `starred` says.
pub open spec fn starred_is(starred: bool) -> spec_fn(BookMarkView) -> bool {
    |b: BookMarkView| b.starred == starred
}

/// The star of a new bookmark: as asked for, and none where nothing was asked.
pub open spec fn star_or_none(starred: Option<bool>) -> bool {
    match starred {
        Some(s) => s,
        None => false,
    }
}

impl StoreView {
    /// The id that the next bookmark gets.
    pub open spec fn next_bookmark_id(self) -> i32 {
        (self.last_bookmark_id + 1) as i32
    }

    /// The store after a bookmark of these fields was created in it: the new
    /// bookmark stands last and has the next id.
    pub open spec fn create_bookmark(
        self,
        url: Seq<char>,
        label: Option<Seq<char>>,
        folder: Option<i32>,
        starred: Option<bool>,
    ) -> StoreView {
        let id = self.next_bookmark_id();
        StoreView {
            bookmarks: self.bookmarks.push(
                BookMarkView { id, url, label, folder, starred: star_or_none(starred) },
            ),
            last_bookmark_id: id,
            ..self
        }
    }

    /// The store after the removal of the bookmark `id`: the bookmark is gone,
    /// and so are its pairs. Where there is no such bookmark, the store is as
    /// it was.
    pub open spec fn remove_bookmark(self, id: i32) -> StoreView {
        if self.has_bookmark(id) {
            StoreView {
                bookmarks: self.bookmarks.remove(self.bookmark_index(id)),
                links: self.links.filter(not_of_bookmark(id)),
                ..self
            }
        } else {
            self
        }
    }

    /// The store after `snapshot` was saved: the bookmark with the snapshot's
    /// id has the snapshot's fields, and stands where it stood. Where there is
    /// no such bookmark, the store is as it was.
    pub open spec fn save_bookmark(self, snapshot: BookMarkView) -> StoreView {
        if self.has_bookmark(snapshot.id) {
            StoreView {
                bookmarks: self.bookmarks.update(self.bookmark_index(snapshot.id), snapshot),
                ..self
            }
        } else {
            self
        }
    }

    /// Whether the bookmark carries the tag.
    pub open spec fn tagged(self, bookmark: i32, tag: i32) -> bool {
        self.links.contains(Link { bookmark, tag })
    }

    /// The store after the bookmark was given the tag: the pair stands last.
    /// Where the pair was there already, or the store lacks the bookmark or
    /// the tag, the store is as it was.
    pub open spec fn assign_tag(self, bookmark: i32, tag: i32) -> StoreView {
        if self.has_bookmark(bookmark) && self.has_tag(tag) && !self.tagged(bookmark, tag) {
            StoreView { links: self.links.push(Link { bookmark, tag }), ..self }
        } else {
            self
        }
    }

    /// The store after the tag was taken from the bookmark: the pair is gone.
    /// Where there was no such pair, the store is as it was.
    pub open spec fn unassign_tag(self, bookmark: i32, tag: i32) -> StoreView {
        if self.tagged(bookmark, tag) {
            StoreView {
                links: self.links.remove(self.links.index_of(Link { bookmark, tag })),
                ..self
            }
        } else {
            self
        }
    }

    /// The tag that a pair names.
    pub open spec fn tag_of(self) -> spec_fn(Link) -> TagView {
        |link: Link| self.tag(link.tag)
    }

    /// The tags of the bookmark `id`, in the order in which it got them.
    pub open spec fn tags_of(self, id: i32) -> Seq<TagView> {
        self.links.filter(of_bookmark(id)).map_values(self.tag_of())
    }

    /// A store stays as a store must be when a bookmark is created in it.
    pub proof fn lemma_create_bookmark_wf(
        self,
        url: Seq<char>,
        label: Option<Seq<char>>,
        folder: Option<i32>,
        starred: Option<bool>,
    )
        requires
            self.wf(),
            self.last_bookmark_id < i32::MAX,
        ensures
            self.create_bookmark(url, label, folder, starred).wf(),
    {
        self.lemma_same_parents(self.create_bookmark(url, label, folder, starred));
        let after = self.create_bookmark(url, label, folder, starred);
        assert forall|i: int| 0 <= i < after.links.len() implies after.has_bookmark(
            (#[trigger] after.links[i]).bookmark,
        ) && after.has_tag(after.links[i].tag) by {
            let b = self.links[i].bookmark;
            assert(self.has_bookmark(b));
            let k = self.bookmark_index(b);
            assert(after.bookmarks[k].id == b);
        }
    }

    /// A store stays as a store must be when a bookmark is removed from it;
    /// the bookmark is then gone, and every other bookmark is in the store if
    /// it was.
    pub proof fn lemma_remove_bookmark_wf(self, id: i32)
        requires
            self.wf(),
        ensures
            self.remove_bookmark(id).wf(),
            !self.remove_bookmark(id).has_bookmark(id),
            forall|other: i32|
                other != id ==> (self.remove_bookmark(id).has_bookmark(other)
                    <==> self.has_bookmark(other)),
    {
        self.lemma_same_parents(self.remove_bookmark(id));
        if self.has_bookmark(id) {
            let after = self.remove_bookmark(id);
            let at = self.bookmark_index(id);
            assert forall|i: int| 0 <= i < after.bookmarks.len() implies #[trigger] after.bookmarks[i]
                == self.bookmarks[if i < at {
                i
            } else {
                i + 1
            }] by {}
            assert forall|other: i32| other != id && self.has_bookmark(other) implies after.has_bookmark(
                other,
            ) by {
                let k = self.bookmark_index(other);
                let k2 = if k < at {
                    k
                } else {
                    k - 1
                };
                assert(after.bookmarks[k2].id == other);
            }
            lemma_filter_distinct(self.links, not_of_bookmark(id));
            lemma_filter_members(self.links, not_of_bookmark(id));
            assert forall|i: int| 0 <= i < after.links.len() implies after.has_bookmark(
                (#[trigger] after.links[i]).bookmark,
            ) && after.has_tag(after.links[i].tag) by {
                let link = after.links[i];
                assert(after.links.contains(link));
                assert(self.links.contains(link));
                let j = choose|j: int| 0 <= j < self.links.len() && self.links[j] == link;
                assert(self.has_bookmark(self.links[j].bookmark));
            }
        }
    }

    /// A store stays as a store must be when a bookmark is saved in it, and
    /// holds a bookmark of each id that it held.
    pub proof fn lemma_save_bookmark_wf(self, snapshot: BookMarkView)
        requires
            self.wf(),
        ensures
            self.save_bookmark(snapshot).wf(),
            forall|id: i32| self.save_bookmark(snapshot).has_bookmark(id) <==> self.has_bookmark(id),
    {
        self.lemma_same_parents(self.save_bookmark(snapshot));
        if self.has_bookmark(snapshot.id) {
            let after = self.save_bookmark(snapshot);
            assert forall|id: i32| self.has_bookmark(id) implies after.has_bookmark(id) by {
                let k = self.bookmark_index(id);
                assert(after.bookmarks[k].id == id);
            }
            assert forall|id: i32| after.has_bookmark(id) implies self.has_bookmark(id) by {
                let k = after.bookmark_index(id);
                assert(self.bookmarks[k].id == id);
            }
        }
    }

    /// A store stays as a store must be when a bookmark is given a tag.
    pub proof fn lemma_assign_tag_wf(self, bookmark: i32, tag: i32)
        requires
            self.wf(),
        ensures
            self.assign_tag(bookmark, tag).wf(),
    {
        self.lemma_same_parents(self.assign_tag(bookmark, tag));
    }

    /// A store stays as a store must be when a tag is taken from a bookmark.
    pub proof fn lemma_unassign_tag_wf(self, bookmark: i32, tag: i32)
        requires
            self.wf(),
        ensures
            self.unassign_tag(bookmark, tag).wf(),
    {
        self.lemma_same_parents(self.unassign_tag(bookmark, tag));
        let link = Link { bookmark, tag };
        if self.links.contains(link) {
            let at = self.links.index_of(link);
            let after = self.unassign_tag(bookmark, tag);
            assert forall|i: int| 0 <= i < after.links.len() implies #[trigger] after.links[i]
                == self.links[if i < at {
                i
            } else {
                i + 1
            }] by {}
        }
    }
}

impl BookMark {
    /// Takes over the fields of `snapshot`, all but the id.
    pub fn overwrite(&mut self, snapshot: &BookMark)
        ensures
            final(self)@ == (BookMarkView { id: old(self)@.id, ..snapshot@ }),
    {
        self.url = snapshot.url.clone();
        self.label = copy_text(&snapshot.label);
        self.folder = snapshot.folder;
        self.starred = snapshot.starred;
    }

    /// Saves this snapshot: the bookmark of the store that has its id takes
    /// over its url, label, folder and star, whether they differ or not. Where
    /// the store has no such bookmark it stays as it is, and the answer is
    /// `NotFound`.
    pub fn save(&self, store: &mut Store) -> (r: Result<(), StoreError>)
        requires
            old(store).wf(),
        ensures
            final(store).wf(),
            final(store)@ == old(store)@.save_bookmark(self@),
            match r {
                Ok(_) => old(store)@.has_bookmark(self.id),
                Err(e) => !old(store)@.has_bookmark(self.id) && e@ == (StoreErrorView::NotFound {
                    id: self.id,
                }),
            },
    {
        match store.bookmark_position(self.id) {
            Some(i) => {
                let mut record = store.bookmarks[i].clone();
                record.overwrite(self);
                store.bookmarks[i] = record;
                proof {
                    assert(final(store)@.bookmarks =~= old(store)@.bookmarks.update(
                        i as int,
                        self@,
                    ));
                    old(store)@.lemma_save_bookmark_wf(self@);
                }
                Ok(())
            },
            None => Err(StoreError::NotFound { id: self.id }),
        }
    }

    /// Gives this bookmark the tag `id`. Where it has the tag already nothing
    /// changes, and that is no error. Where the store has no bookmark of this
    /// id the answer is `NotFound`; where it has the bookmark but no tag `id`,
    /// `ForeignKeyError`; either way the store stays as it is.
    pub fn assign_tag(&self, id: i32, store: &mut Store) -> (r: Result<(), StoreError>)
        requires
            old(store).wf(),
        ensures
            final(store).wf(),
            final(store)@ == old(store)@.assign_tag(self.id, id),
            match r {
                Ok(_) => old(store)@.has_bookmark(self.id) && old(store)@.has_tag(id),
                Err(e) => if !old(store)@.has_bookmark(self.id) {
                    e@ == (StoreErrorView::NotFound { id: self.id })
                } else {
                    !old(store)@.has_tag(id) && e@ == (StoreErrorView::ForeignKeyError { id })
                },
            },
    {
        if store.bookmark_position(self.id).is_none() {
            return Err(StoreError::NotFound { id: self.id });
        }
        if store.tag_position(id).is_none() {
            return Err(StoreError::ForeignKeyError { id });
        }
        let link = Link { bookmark: self.id, tag: id };
        if store.link_position(link).is_none() {
            store.links.push(link);
        }
        proof {
            old(store)@.lemma_assign_tag_wf(self.id, id);
        }
        Ok(())
    }

    /// Takes the tag `id` from this bookmark. Where it has no such tag nothing
    /// changes, and that is no error: the answer is always `Ok`.
    pub fn remove_tag(&self, id: i32, store: &mut Store) -> (r: Result<(), StoreError>)
        requires
            old(store).wf(),
        ensures
            final(store).wf(),
            r is Ok,
            final(store)@ == old(store)@.unassign_tag(self.id, id),
    {
        let link = Link { bookmark: self.id, tag: id };
        match store.link_position(link) {
            Some(i) => {
                store.links.remove(i);
            },
            None => {},
        }
        proof {
            old(store)@.lemma_unassign_tag_wf(self.id, id);
        }
        Ok(())
    }

    /// The tags of this bookmark, in the order in which it got them, or
    /// `NotFound` where the store has no bookmark of this id.
    pub fn tags(&self, store: &Store) -> (r: Result<Vec<Tag>, StoreError>)
        requires
            store.wf(),
        ensures
            match r {
                Ok(tags) => store@.has_bookmark(self.id) && views(tags@) == store@.tags_of(self.id),
                Err(e) => !store@.has_bookmark(self.id) && e@ == (StoreErrorView::NotFound {
                    id: self.id,
                }),
            },
    {
        if store.bookmark_position(self.id).is_none() {
            return Err(StoreError::NotFound { id: self.id });
        }
        let ghost all = store@.links;
        let ghost keep = of_bookmark(self.id);
        let mut found: Vec<Tag> = Vec::new();
        let mut i: usize = 0;
        proof {
            lemma_filter_ends(all, keep);
        }
        while i < store.links.len()
            invariant
                store.wf(),
                i <= store.links.len(),
                all == store@.links,
                keep == of_bookmark(self.id),
                views(found@) =~= all.take(i as int).filter(keep).map_values(store@.tag_of()),
            decreases store.links.len() - i,
        {
            proof {
                lemma_filter_next(all, keep, i as int);
            }
            let link = store.links[i];
            if link.bookmark == self.id {
                match store.tag_position(link.tag) {
                    Some(k) => {
                        let ghost before = found@;
                        let ghost kept = all.take(i as int).filter(keep);
                        found.push(store.tags[k].clone());
                        assert(views(found@) =~= views(before).push(store@.tags[k as int]));
                        assert(kept.push(link).map_values(store@.tag_of()) =~= kept.map_values(
                            store@.tag_of(),
                        ).push(store@.tag(link.tag)));
                    },
                    None => {
                        assert(false);
                    },
                }
            }
            i += 1;
        }
        proof {
            lemma_filter_ends(all, keep);
        }
        Ok(found)
    }

    /// All bookmarks of the store, oldest first.
    pub fn all(store: &Store) -> (r: Vec<BookMark>)
        ensures
            views(r@) == store@.bookmarks,
    {
        let mut found: Vec<BookMark> = Vec::new();
        let mut i: usize = 0;
        while i < store.bookmarks.len()
            invariant
                i <= store.bookmarks.len(),
                views(found@) == store@.bookmarks.take(i as int),
            decreases store.bookmarks.len() - i,
        {
            let ghost before = found@;
            found.push(store.bookmarks[i].clone());
            assert(views(found@) =~= views(before).push(store@.bookmarks[i as int]));
            assert(store@.bookmarks.take(i + 1) =~= store@.bookmarks.take(i as int).push(
                store@.bookmarks[i as int],
            ));
            i += 1;
        }
        assert(store@.bookmarks.take(i as int) =~= store@.bookmarks);
        found
    }

    /// The bookmark with this id, or `NotFound` if the store has none.
    pub fn find(id: i32, store: &Store) -> (r: Result<BookMark, StoreError>)
        requires
            store.wf(),
        ensures
            match r {
                Ok(b) => store@.has_bookmark(id) && b@ == store@.bookmark(id),
                Err(e) => !store@.has_bookmark(id) && e@ == (StoreErrorView::NotFound { id }),
            },
    {
        match store.bookmark_position(id) {
            Some(i) => Ok(store.bookmarks[i].clone()),
            None => Err(StoreError::NotFound { id }),
        }
    }

    /// The bookmarks whose url is exactly `url`, oldest first.
    pub fn find_url(url: String, store: &Store) -> (r: Vec<BookMark>)
        ensures
            views(r@) == store@.bookmarks.filter(url_is(url@)),
    {
        let ghost all = store@.bookmarks;
        let ghost keep = url_is(url@);
        let mut found: Vec<BookMark> = Vec::new();
        let mut i: usize = 0;
        proof {
            lemma_filter_ends(all, keep);
        }
        while i < store.bookmarks.len()
            invariant
                i <= store.bookmarks.len(),
                all == store@.bookmarks,
                keep == url_is(url@),
                views(found@) =~= all.take(i as int).filter(keep),
            decreases store.bookmarks.len() - i,
        {
            proof {
                lemma_filter_next(all, keep, i as int);
            }
            if store.bookmarks[i].url == url {
                found.push(store.bookmarks[i].clone());
            }
            i += 1;
        }
        proof {
            lemma_filter_ends(all, keep);
        }
        found
    }

    /// The bookmarks whose label is exactly `label`, oldest first. A bookmark
    /// without a label is never among them.
    pub fn find_label(label: String, store: &Store) -> (r: Vec<BookMark>)
        ensures
            views(r@) == store@.bookmarks.filter(label_is(label@)),
    {
        let ghost all = store@.bookmarks;
        let ghost keep = label_is(label@);
        let mut found: Vec<BookMark> = Vec::new();
        let mut i: usize = 0;
        proof {
            lemma_filter_ends(all, keep);
        }
        while i < store.bookmarks.len()
            invariant
                i <= store.bookmarks.len(),
                all == store@.bookmarks,
                keep == label_is(label@),
                views(found@) =~= all.take(i as int).filter(keep),
            decreases store.bookmarks.len() - i,
        {
            proof {
                lemma_filter_next(all, keep, i as int);
            }
            if text_is(&store.bookmarks[i].label, &label) {
                found.push(store.bookmarks[i].clone());
            }
            i += 1;
        }
        proof {
            lemma_filter_ends(all, keep);
        }
        found
    }

    /// The bookmarks that lie in the folder `folder`, oldest first. Whether a
    /// folder with that id is in the store makes no difference.
    pub fn find_folder(folder: i32, store: &Store) -> (r: Vec<BookMark>)
        ensures
            views(r@) == store@.bookmarks.filter(folder_is(folder)),
    {
        let ghost all = store@.bookmarks;
        let ghost keep = folder_is(folder);
        let mut found: Vec<BookMark> = Vec::new();
        let mut i: usize = 0;
        proof {
            lemma_filter_ends(all, keep);
        }
        while i < store.bookmarks.len()
            invariant
                i <= store.bookmarks.len(),
                all == store@.bookmarks,
                keep == folder_is(folder),
                views(found@) =~= all.take(i as int).filter(keep),
            decreases store.bookmarks.len() - i,
        {
            proof {
                lemma_filter_next(all, keep, i as int);
            }
            let lies_there = match store.bookmarks[i].folder {
                Some(f) => f == folder,
                None => false,
            };
            if lies_there {
                found.push(store.bookmarks[i].clone());
            }
            i += 1;
        }
        proof {
            lemma_filter_ends(all, keep);
        }
        found
    }

    /// The bookmarks whose star is as `starred` says, oldest first: the
    /// starred ones for `true`, the others for `false`.
    pub fn find_starred(starred: bool, store: &Store) -> (r: Vec<BookMark>)
        ensures
            views(r@) == store@.bookmarks.filter(starred_is(starred)),
    {
        let ghost all = store@.bookmarks;
        let ghost keep = starred_is(starred);
        let mut found: Vec<BookMark> = Vec::new();
        let mut i: usize = 0;
        proof {
            lemma_filter_ends(all, keep);
        }
        while i < store.bookmarks.len()
            invariant
                i <= store.bookmarks.len(),
                all == store@.bookmarks,
                keep == starred_is(starred),
                views(found@) =~= all.take(i as int).filter(keep),
            decreases store.bookmarks.len() - i,
        {
            proof {
                lemma_filter_next(all, keep, i as int);
            }
            if store.bookmarks[i].starred == starred {
                found.push(store.bookmarks[i].clone());
            }
            i += 1;
        }
        proof {
            lemma_filter_ends(all, keep);
        }
        found
    }

    /// Removes the bookmark `id` and its pairs from the store, or reports
    /// `NotFound` and leaves the store as it is.
    pub fn remove_bookmark(id: i32, store: &mut Store) -> (r: Result<(), StoreError>)
        requires
            old(store).wf(),
        ensures
            final(store).wf(),
            final(store)@ == old(store)@.remove_bookmark(id),
            match r {
                Ok(_) => old(store)@.has_bookmark(id),
                Err(e) => !old(store)@.has_bookmark(id) && e@ == (StoreErrorView::NotFound { id }),
            },
    {
        match store.bookmark_position(id) {
            Some(i) => {
                let kept = store.links_without_bookmark(id);
                store.bookmarks.remove(i);
                store.links = kept;
                proof {
                    assert(final(store)@.bookmarks =~= old(store)@.bookmarks.remove(i as int));
                    old(store)@.lemma_remove_bookmark_wf(id);
                }
                Ok(())
            },
            None => Err(StoreError::NotFound { id }),
        }
    }

    /// Removes this bookmark and its pairs from the store, or reports
    /// `NotFound` and leaves the store as it is.
    pub fn delete(&self, store: &mut Store) -> (r: Result<(), StoreError>)
        requires
            old(store).wf(),
        ensures
            final(store).wf(),
            final(store)@ == old(store)@.remove_bookmark(self.id),
            match r {
                Ok(_) => old(store)@.has_bookmark(self.id),
                Err(e) => !old(store)@.has_bookmark(self.id) && e@ == (StoreErrorView::NotFound {
                    id: self.id,
                }),
            },
    {
        BookMark::remove_bookmark(self.id, store)
    }

    /// Creates a bookmark of these fields and returns its id, the next one.
    /// Without a word on the star the bookmark has none.
    pub fn create(
        url: String,
        label: Option<String>,
        folder: Option<i32>,
        starred: Option<bool>,
        store: &mut Store,
    ) -> (id: i32)
        requires
            old(store).wf(),
            old(store)@.last_bookmark_id < i32::MAX,
        ensures
            final(store).wf(),
            id == old(store)@.next_bookmark_id(),
            final(store)@ == old(store)@.create_bookmark(url@, text_view(label), folder, starred),
    {
        let id: i32 = store.last_bookmark_id + 1;
        let starred = match starred {
            Some(s) => s,
            None => false,
        };
        let ghost record = (BookMarkView { id, url: url@, label: text_view(label), folder, starred });
        store.bookmarks.push(BookMark { id, url, label, folder, starred });
        store.last_bookmark_id = id;
        proof {
            assert(final(store)@.bookmarks =~= old(store)@.bookmarks.push(record));
            old(store)@.lemma_create_bookmark_wf(record.url, record.label, folder, Some(starred));
        }
        id
    }
}

} // verus!
