//! Tags: the record, what it stands for in contracts, and the operations of a
//! store on its tags.

use vstd::prelude::*;

use crate::bookmark::{BookMark, BookMarkView};
use crate::error::{StoreError, StoreErrorView};
use crate::seqs::{lemma_filter_distinct, lemma_filter_ends, lemma_filter_members, lemma_filter_next};
use crate::store::{not_of_tag, of_tag, views, Link, Store, StoreView};
use crate::text::{copy_text, text_view};

verus! {

/// What a tag is in contracts: its fields as plain values.
pub struct TagView {
    pub id: i32,
    pub label: Seq<char>,
    pub color: Option<Seq<char>>,
}

/// A tag as it was read from a store: a detached copy. Changing it changes
/// nothing in the store until it is saved.
#[derive(Debug, PartialEq, Eq)]
pub struct Tag {
    /// The id that the store gave this tag.
    pub id: i32,
    /// The label shown for this tag.
    pub label: String,
    /// The color in which this tag is shown.
    pub color: Option<String>,
}

impl View for Tag {
    type V = TagView;

    open spec fn view(&self) -> TagView {
        TagView { id: self.id, label: self.label@, color: text_view(self.color) }
    }
}

impl Clone for Tag {
    fn clone(&self) -> (r: Self)
        ensures
            r@ == self@,
    {
        Tag { id: self.id, label: self.label.clone(), color: copy_text(&self.color) }
    }
}

impl StoreView {
    /// The id that the next tag gets.
    pub open spec fn next_tag_id(self) -> i32 {
        (self.last_tag_id + 1) as i32
    }

    /// The store after a tag of these fields was created in it: the new tag
    /// stands last and has the next id.
    pub open spec fn create_tag(self, label: Seq<char>, color: Option<Seq<char>>) -> StoreView {
        let id = self.next_tag_id();
        StoreView { tags: self.tags.push(TagView { id, label, color }), last_tag_id: id, ..self }
    }

    /// The store after the removal of the tag `id`: the tag is gone, and so
    /// are its pairs. Where there is no such tag, the store is as it was.
    pub open spec fn remove_tag(self, id: i32) -> StoreView {
        if self.has_tag(id) {
            StoreView {
                tags: self.tags.remove(self.tag_index(id)),
                links: self.links.filter(not_of_tag(id)),
                ..self
            }
        } else {
            self
        }
    }

    /// The store after `snapshot` was saved: the tag with the snapshot's id
    /// has the snapshot's fields, and stands where it stood. Where there is no
    /// such tag, the store is as it was.
    pub open spec fn save_tag(self, snapshot: TagView) -> StoreView {
        if self.has_tag(snapshot.id) {
            StoreView { tags: self.tags.update(self.tag_index(snapshot.id), snapshot), ..self }
        } else {
            self
        }
    }

    /// The bookmark that a pair names.
    pub open spec fn bookmark_of(self) -> spec_fn(Link) -> BookMarkView {
        |link: Link| self.bookmark(link.bookmark)
    }

    /// The bookmarks that carry the tag `id`, in the order in which they got
    /// it.
    pub open spec fn bookmarks_of(self, id: i32) -> Seq<BookMarkView> {
        self.links.filter(of_tag(id)).map_values(self.bookmark_of())
    }

    /// A store stays as a store must be when a tag is created in it.
    pub proof fn lemma_create_tag_wf(self, label: Seq<char>, color: Option<Seq<char>>)
        requires
            self.wf(),
            self.last_tag_id < i32::MAX,
        ensures
            self.create_tag(label, color).wf(),
    {
        self.lemma_same_parents(self.create_tag(label, color));
        let after = self.create_tag(label, color);
        assert forall|i: int| 0 <= i < after.links.len() implies after.has_bookmark(
            (#[trigger] after.links[i]).bookmark,
        ) && after.has_tag(after.links[i].tag) by {
            let t = self.links[i].tag;
            assert(self.has_tag(t));
            let k = self.tag_index(t);
            assert(after.tags[k].id == t);
        }
    }

    /// A store stays as a store must be when a tag is removed from it; the tag
    /// is then gone, and every other tag is in the store if it was.
    pub proof fn lemma_remove_tag_wf(self, id: i32)
        requires
            self.wf(),
        ensures
            self.remove_tag(id).wf(),
            !self.remove_tag(id).has_tag(id),
            forall|other: i32|
                other != id ==> (self.remove_tag(id).has_tag(other) <==> self.has_tag(other)),
    {
        self.lemma_same_parents(self.remove_tag(id));
        if self.has_tag(id) {
            let after = self.remove_tag(id);
            let at = self.tag_index(id);
            assert forall|i: int| 0 <= i < after.tags.len() implies #[trigger] after.tags[i]
                == self.tags[if i < at {
                i
            } else {
                i + 1
            }] by {}
            assert forall|other: i32| other != id && self.has_tag(other) implies after.has_tag(
                other,
            ) by {
                let k = self.tag_index(other);
                let k2 = if k < at {
                    k
                } else {
                    k - 1
                };
                assert(after.tags[k2].id == other);
            }
            lemma_filter_distinct(self.links, not_of_tag(id));
            lemma_filter_members(self.links, not_of_tag(id));
            assert forall|i: int| 0 <= i < after.links.len() implies after.has_bookmark(
                (#[trigger] after.links[i]).bookmark,
            ) && after.has_tag(after.links[i].tag) by {
                let link = after.links[i];
                assert(after.links.contains(link));
                assert(self.links.contains(link));
                let j = choose|j: int| 0 <= j < self.links.len() && self.links[j] == link;
                assert(self.has_tag(self.links[j].tag));
            }
        }
    }

    /// A store stays as a store must be when a tag is saved in it, and holds a
    /// tag of each id that it held.
    pub proof fn lemma_save_tag_wf(self, snapshot: TagView)
        requires
            self.wf(),
        ensures
            self.save_tag(snapshot).wf(),
            forall|id: i32| self.save_tag(snapshot).has_tag(id) <==> self.has_tag(id),
    {
        self.lemma_same_parents(self.save_tag(snapshot));
        if self.has_tag(snapshot.id) {
            let after = self.save_tag(snapshot);
            assert forall|id: i32| self.has_tag(id) implies after.has_tag(id) by {
                let k = self.tag_index(id);
                assert(after.tags[k].id == id);
            }
            assert forall|id: i32| after.has_tag(id) implies self.has_tag(id) by {
                let k = after.tag_index(id);
                assert(self.tags[k].id == id);
            }
        }
    }
}

impl Tag {
    /// Creates a tag of these fields and returns its id, the next one.
    pub fn create(label: String, color: Option<String>, store: &mut Store) -> (id: i32)
        requires
            old(store).wf(),
            old(store)@.last_tag_id < i32::MAX,
        ensures
            final(store).wf(),
            id == old(store)@.next_tag_id(),
            final(store)@ == old(store)@.create_tag(label@, text_view(color)),
    {
        let id: i32 = store.last_tag_id + 1;
        let ghost record = (TagView { id, label: label@, color: text_view(color) });
        store.tags.push(Tag { id, label, color });
        store.last_tag_id = id;
        proof {
            assert(final(store)@.tags =~= old(store)@.tags.push(record));
            old(store)@.lemma_create_tag_wf(record.label, record.color);
        }
        id
    }

    /// The tag with this id, or `NotFound` if the store has none.
    pub fn find(id: i32, store: &Store) -> (r: Result<Tag, StoreError>)
        requires
            store.wf(),
        ensures
            match r {
                Ok(t) => store@.has_tag(id) && t@ == store@.tag(id),
                Err(e) => !store@.has_tag(id) && e@ == (StoreErrorView::NotFound { id }),
            },
    {
        match store.tag_position(id) {
            Some(i) => Ok(store.tags[i].clone()),
            None => Err(StoreError::NotFound { id }),
        }
    }

    /// Removes the tag `id` and its pairs from the store, or reports
    /// `NotFound` and leaves the store as it is. No bookmark is removed.
    pub fn remove_tag(id: i32, store: &mut Store) -> (r: Result<(), StoreError>)
        requires
            old(store).wf(),
        ensures
            final(store).wf(),
            final(store)@ == old(store)@.remove_tag(id),
            match r {
                Ok(_) => old(store)@.has_tag(id),
                Err(e) => !old(store)@.has_tag(id) && e@ == (StoreErrorView::NotFound { id }),
            },
    {
        match store.tag_position(id) {
            Some(i) => {
                let kept = store.links_without_tag(id);
                store.tags.remove(i);
                store.links = kept;
                proof {
                    assert(final(store)@.tags =~= old(store)@.tags.remove(i as int));
                    old(store)@.lemma_remove_tag_wf(id);
                }
                Ok(())
            },
            None => Err(StoreError::NotFound { id }),
        }
    }

    /// Removes this tag and its pairs from the store, or reports `NotFound`
    /// and leaves the store as it is.
    pub fn delete(&self, store: &mut Store) -> (r: Result<(), StoreError>)
        requires
            old(store).wf(),
        ensures
            final(store).wf(),
            final(store)@ == old(store)@.remove_tag(self.id),
            match r {
                Ok(_) => old(store)@.has_tag(self.id),
                Err(e) => !old(store)@.has_tag(self.id) && e@ == (StoreErrorView::NotFound {
                    id: self.id,
                }),
            },
    {
        Tag::remove_tag(self.id, store)
    }

    /// All tags of the store, oldest first.
    pub fn all(store: &Store) -> (r: Vec<Tag>)
        ensures
            views(r@) == store@.tags,
    {
        let mut found: Vec<Tag> = Vec::new();
        let mut i: usize = 0;
        while i < store.tags.len()
            invariant
                i <= store.tags.len(),
                views(found@) == store@.tags.take(i as int),
            decreases store.tags.len() - i,
        {
            let ghost before = found@;
            found.push(store.tags[i].clone());
            assert(views(found@) =~= views(before).push(store@.tags[i as int]));
            assert(store@.tags.take(i + 1) =~= store@.tags.take(i as int).push(
                store@.tags[i as int],
            ));
            i += 1;
        }
        assert(store@.tags.take(i as int) =~= store@.tags);
        found
    }

    /// Takes over the fields of `snapshot`, all but the id.
    pub fn overwrite(&mut self, snapshot: &Tag)
        ensures
            final(self)@ == (TagView { id: old(self)@.id, ..snapshot@ }),
    {
        self.label = snapshot.label.clone();
        self.color = copy_text(&snapshot.color);
    }

    /// Saves this snapshot: the tag of the store that has its id takes over
    /// its label and color, whether they differ or not. Where the store has no
    /// such tag it stays as it is, and the answer is `NotFound`.
    pub fn save(&self, store: &mut Store) -> (r: Result<(), StoreError>)
        requires
            old(store).wf(),
        ensures
            final(store).wf(),
            final(store)@ == old(store)@.save_tag(self@),
            match r {
                Ok(_) => old(store)@.has_tag(self.id),
                Err(e) => !old(store)@.has_tag(self.id) && e@ == (StoreErrorView::NotFound {
                    id: self.id,
                }),
            },
    {
        match store.tag_position(self.id) {
            Some(i) => {
                let mut record = store.tags[i].clone();
                record.overwrite(self);
                store.tags[i] = record;
                proof {
                    assert(final(store)@.tags =~= old(store)@.tags.update(i as int, self@));
                    old(store)@.lemma_save_tag_wf(self@);
                }
                Ok(())
            },
            None => Err(StoreError::NotFound { id: self.id }),
        }
    }

    /// The bookmarks that carry this tag, in the order in which they got it,
    /// or `NotFound` where the store has no tag of this id.
    pub fn bookmarks(&self, store: &Store) -> (r: Result<Vec<BookMark>, StoreError>)
        requires
            store.wf(),
        ensures
            match r {
                Ok(bookmarks) => store@.has_tag(self.id) && views(bookmarks@)
                    == store@.bookmarks_of(self.id),
                Err(e) => !store@.has_tag(self.id) && e@ == (StoreErrorView::NotFound {
                    id: self.id,
                }),
            },
    {
        if store.tag_position(self.id).is_none() {
            return Err(StoreError::NotFound { id: self.id });
        }
        let ghost all = store@.links;
        let ghost keep = of_tag(self.id);
        let mut found: Vec<BookMark> = Vec::new();
        let mut i: usize = 0;
        proof {
            lemma_filter_ends(all, keep);
        }
        while i < store.links.len()
            invariant
                store.wf(),
                i <= store.links.len(),
                all == store@.links,
                keep == of_tag(self.id),
                views(found@) =~= all.take(i as int).filter(keep).map_values(store@.bookmark_of()),
            decreases store.links.len() - i,
        {
            proof {
                lemma_filter_next(all, keep, i as int);
            }
            let link = store.links[i];
            if link.tag == self.id {
                match store.bookmark_position(link.bookmark) {
                    Some(k) => {
                        let ghost before = found@;
                        let ghost kept = all.take(i as int).filter(keep);
                        found.push(store.bookmarks[k].clone());
                        assert(views(found@) =~= views(before).push(store@.bookmarks[k as int]));
                        assert(kept.push(link).map_values(store@.bookmark_of())
                            =~= kept.map_values(store@.bookmark_of()).push(
                            store@.bookmark(link.bookmark),
                        ));
                    },
                    None => {
                        assert(false);
                    },
                }
            }
            i += 1;
        }
        proof {
            lemma_filter_ends(all, keep);
        }
        Ok(found)
    }
}

} // verus!
