//! What holds of the store's operations taken together. Each law is stated
//! over what a store is in contracts, and so holds of every `Store` through
//! the contracts of its operations.

use vstd::prelude::*;

use crate::bookmark::{star_or_none, starred_is, BookMarkView};
use crate::folder::{is_root, FolderView};
use crate::seqs::lemma_filter_members;
use crate::store::{not_of_bookmark, of_bookmark, of_tag, Link, StoreView};
use crate::tag::TagView;

verus! {

/// A bookmark that was created is in the store under the id it got, with the
/// fields it was created with; where nothing was said of the star, it has
/// none.
pub proof fn law_created_bookmark_is_found(
    s: StoreView,
    url: Seq<char>,
    label: Option<Seq<char>>,
    folder: Option<i32>,
    starred: Option<bool>,
)
    requires
        s.wf(),
        s.last_bookmark_id < i32::MAX,
    ensures
        ({
            let id = s.next_bookmark_id();
            let after = s.create_bookmark(url, label, folder, starred);
            &&& !s.has_bookmark(id)
            &&& after.has_bookmark(id)
            &&& after.bookmark(id) == (BookMarkView {
                id,
                url,
                label,
                folder,
                starred: star_or_none(starred),
            })
            &&& starred is None ==> !after.bookmark(id).starred
        }),
{
    let after = s.create_bookmark(url, label, folder, starred);
    s.lemma_create_bookmark_wf(url, label, folder, starred);
    after.lemma_bookmark_at(s.bookmarks.len() as int);
}

/// After a snapshot was saved, the bookmark found under its id is the
/// snapshot: url, label, folder and star are the snapshot's, and the id is
/// the one it had. Every other bookmark is as it was. Where the store had no
/// bookmark of the snapshot's id, it has none afterwards, and is as it was.
pub proof fn law_saved_bookmark_is_found(s: StoreView, snapshot: BookMarkView)
    requires
        s.wf(),
    ensures
        ({
            let after = s.save_bookmark(snapshot);
            if s.has_bookmark(snapshot.id) {
                &&& after.has_bookmark(snapshot.id)
                &&& after.bookmark(snapshot.id) == snapshot
                &&& after.bookmark(snapshot.id).id == s.bookmark(snapshot.id).id
                &&& forall|other: i32|
                    other != snapshot.id && s.has_bookmark(other) ==> after.has_bookmark(other)
                        && after.bookmark(other) == s.bookmark(other)
            } else {
                !after.has_bookmark(snapshot.id) && after == s
            }
        }),
{
    let after = s.save_bookmark(snapshot);
    if s.has_bookmark(snapshot.id) {
        let at = s.bookmark_index(snapshot.id);
        s.lemma_save_bookmark_wf(snapshot);
        after.lemma_bookmark_at(at);
        assert forall|other: i32|
            other != snapshot.id && s.has_bookmark(other) implies after.has_bookmark(other)
            && after.bookmark(other) == s.bookmark(other) by {
            let k = s.bookmark_index(other);
            after.lemma_bookmark_at(k);
        }
    }
}

/// To give a bookmark a tag a second time changes nothing: the store is as it
/// was after the first time, and the bookmark has as many tags.
pub proof fn law_assign_tag_twice(s: StoreView, bookmark: i32, tag: i32)
    ensures
        ({
            let once = s.assign_tag(bookmark, tag);
            let twice = once.assign_tag(bookmark, tag);
            &&& twice == once
            &&& twice.tags_of(bookmark).len() == once.tags_of(bookmark).len()
        }),
{
    let once = s.assign_tag(bookmark, tag);
    if s.has_bookmark(bookmark) && s.has_tag(tag) && !s.tagged(bookmark, tag) {
        assert(once.links[s.links.len() as int] == Link { bookmark, tag });
    }
}

/// To take a tag from a bookmark that does not carry it changes nothing.
pub proof fn law_remove_absent_tag(s: StoreView, bookmark: i32, tag: i32)
    requires
        !s.tagged(bookmark, tag),
    ensures
        s.unassign_tag(bookmark, tag) == s,
{
}

/// After the removal of a bookmark the store has no bookmark of its id, and
/// no tag has a bookmark of that id among its bookmarks.
pub proof fn law_removed_bookmark_is_gone(s: StoreView, id: i32)
    requires
        s.wf(),
    ensures
        ({
            let after = s.remove_bookmark(id);
            &&& !after.has_bookmark(id)
            &&& forall|tag: i32, i: int|
                0 <= i < after.bookmarks_of(tag).len() ==> (#[trigger] after.bookmarks_of(
                    tag,
                )[i]).id != id
        }),
{
    let after = s.remove_bookmark(id);
    s.lemma_remove_bookmark_wf(id);
    assert forall|tag: i32, i: int| 0 <= i < after.bookmarks_of(tag).len() implies (
    #[trigger] after.bookmarks_of(tag)[i]).id != id by {
        let of = after.links.filter(of_tag(tag));
        let link = of[i];
        lemma_filter_members(after.links, of_tag(tag));
        assert(of.contains(link));
        assert(after.links.contains(link));
        let j = choose|j: int| 0 <= j < after.links.len() && after.links[j] == link;
        assert(after.has_bookmark(after.links[j].bookmark));
        assert(after.bookmark(link.bookmark).id == link.bookmark);
    }
}

/// Bookmarks of other ids than `id`.
pub open spec fn id_is_not(id: i32) -> spec_fn(BookMarkView) -> bool {
    |b: BookMarkView| b.id != id
}

/// Of pairs of bookmarks of the store: the bookmarks that the pairs of a tag
/// name after the removal of the bookmark `id` are those that they named
/// before, without that bookmark.
proof fn lemma_pairs_after_removal(s: StoreView, id: i32, tag: i32, links: Seq<Link>)
    requires
        s.wf(),
        forall|i: int| 0 <= i < links.len() ==> s.has_bookmark((#[trigger] links[i]).bookmark),
    ensures
        links.filter(not_of_bookmark(id)).filter(of_tag(tag)).map_values(
            s.remove_bookmark(id).bookmark_of(),
        ) == links.filter(of_tag(tag)).map_values(s.bookmark_of()).filter(id_is_not(id)),
    decreases links.len(),
{
    let after = s.remove_bookmark(id);
    reveal(Seq::filter);
    if links.len() == 0 {
        assert(links.filter(not_of_bookmark(id)).filter(of_tag(tag)).map_values(
            after.bookmark_of(),
        ) =~= links.filter(of_tag(tag)).map_values(s.bookmark_of()).filter(id_is_not(id)));
    } else {
        let init = links.drop_last();
        let x = links.last();
        assert(links =~= init.push(x));
        assert forall|i: int| 0 <= i < init.len() implies s.has_bookmark(
            (#[trigger] init[i]).bookmark,
        ) by {
            assert(init[i] == links[i]);
        }
        lemma_pairs_after_removal(s, id, tag, init);
        init.lemma_filter_push(x, not_of_bookmark(id));
        init.lemma_filter_push(x, of_tag(tag));
        init.filter(not_of_bookmark(id)).lemma_filter_push(x, of_tag(tag));
        assert(s.has_bookmark(links[links.len() - 1].bookmark));
        assert(s.bookmark(x.bookmark).id == x.bookmark);
        let was = init.filter(of_tag(tag)).map_values(s.bookmark_of());
        let is = init.filter(not_of_bookmark(id)).filter(of_tag(tag)).map_values(
            after.bookmark_of(),
        );
        if x.tag == tag {
            assert(init.filter(of_tag(tag)).push(x).map_values(s.bookmark_of()) =~= was.push(
                s.bookmark(x.bookmark),
            ));
            was.lemma_filter_push(s.bookmark(x.bookmark), id_is_not(id));
            if x.bookmark != id {
                s.lemma_remove_bookmark_wf(id);
                if s.has_bookmark(id) {
                    let k = s.bookmark_index(x.bookmark);
                    let at = s.bookmark_index(id);
                    let k2 = if k < at {
                        k
                    } else {
                        k - 1
                    };
                    assert(after.bookmarks[k2] == s.bookmarks[k]);
                    after.lemma_bookmark_at(k2);
                }
                assert(after.bookmark(x.bookmark) == s.bookmark(x.bookmark));
                assert(init.filter(not_of_bookmark(id)).filter(of_tag(tag)).push(x).map_values(
                    after.bookmark_of(),
                ) =~= is.push(after.bookmark(x.bookmark)));
            }
        }
    }
}

/// After the removal of a bookmark, the bookmarks of each tag are those that
/// it had, in their order, without the one that was removed.
pub proof fn law_removed_bookmark_leaves_the_others(s: StoreView, id: i32, tag: i32)
    requires
        s.wf(),
        s.has_bookmark(id),
    ensures
        s.remove_bookmark(id).bookmarks_of(tag) == s.bookmarks_of(tag).filter(id_is_not(id)),
{
    lemma_pairs_after_removal(s, id, tag, s.links);
}

/// After the removal of a tag the store has no tag of its id, and no bookmark
/// has a tag of that id among its tags. The bookmarks are as they were.
pub proof fn law_removed_tag_is_gone(s: StoreView, id: i32)
    requires
        s.wf(),
    ensures
        ({
            let after = s.remove_tag(id);
            &&& !after.has_tag(id)
            &&& after.bookmarks == s.bookmarks
            &&& forall|bookmark: i32, i: int|
                0 <= i < after.tags_of(bookmark).len() ==> (#[trigger] after.tags_of(
                    bookmark,
                )[i]).id != id
        }),
{
    let after = s.remove_tag(id);
    s.lemma_remove_tag_wf(id);
    assert forall|bookmark: i32, i: int| 0 <= i < after.tags_of(bookmark).len() implies (
    #[trigger] after.tags_of(bookmark)[i]).id != id by {
        let of = after.links.filter(of_bookmark(bookmark));
        let link = of[i];
        lemma_filter_members(after.links, of_bookmark(bookmark));
        assert(of.contains(link));
        assert(after.links.contains(link));
        let j = choose|j: int| 0 <= j < after.links.len() && after.links[j] == link;
        assert(after.has_tag(after.links[j].tag));
        assert(after.tag(link.tag).id == link.tag);
    }
}

/// The removal of a folder takes the folder from the store and nothing else:
/// the bookmarks, the tags and the pairs are as they were, and so is every
/// other folder.
pub proof fn law_removed_folder_leaves_the_rest(s: StoreView, id: i32)
    requires
        s.wf(),
    ensures
        ({
            let after = s.remove_folder(id);
            &&& !after.has_folder(id)
            &&& after.bookmarks == s.bookmarks
            &&& after.tags == s.tags
            &&& after.links == s.links
            &&& forall|other: i32|
                other != id && s.has_folder(other) ==> after.has_folder(other) && after.folder(
                    other,
                ) == s.folder(other)
        }),
{
    let after = s.remove_folder(id);
    s.lemma_remove_folder_wf(id);
    if s.has_folder(id) {
        let at = s.folder_index(id);
        assert forall|other: i32| other != id && s.has_folder(other) implies after.has_folder(
            other,
        ) && after.folder(other) == s.folder(other) by {
            let k = s.folder_index(other);
            let k2 = if k < at {
                k
            } else {
                k - 1
            };
            assert(after.folders[k2] == s.folders[k]);
            after.lemma_folder_at(k2);
        }
    }
}

/// A tag that was created is in the store under the id it got, with the
/// fields it was created with.
pub proof fn law_created_tag_is_found(s: StoreView, label: Seq<char>, color: Option<Seq<char>>)
    requires
        s.wf(),
        s.last_tag_id < i32::MAX,
    ensures
        ({
            let id = s.next_tag_id();
            let after = s.create_tag(label, color);
            &&& !s.has_tag(id)
            &&& after.has_tag(id)
            &&& after.tag(id) == (TagView { id, label, color })
        }),
{
    let after = s.create_tag(label, color);
    s.lemma_create_tag_wf(label, color);
    after.lemma_tag_at(s.tags.len() as int);
}

/// After a snapshot of a tag was saved, the tag found under its id is the
/// snapshot.
pub proof fn law_saved_tag_is_found(s: StoreView, snapshot: TagView)
    requires
        s.wf(),
        s.has_tag(snapshot.id),
    ensures
        s.save_tag(snapshot).has_tag(snapshot.id),
        s.save_tag(snapshot).tag(snapshot.id) == snapshot,
{
    s.lemma_save_tag_wf(snapshot);
    s.save_tag(snapshot).lemma_tag_at(s.tag_index(snapshot.id));
}

/// A folder that was created is in the store under the id it got, with the
/// fields it was created with; it is created if it names no parent, or one
/// that is in the store.
pub proof fn law_created_folder_is_found(s: StoreView, label: Seq<char>, parent: Option<i32>)
    requires
        s.wf(),
        s.last_folder_id < i32::MAX,
        s.parent_known(parent),
    ensures
        ({
            let id = s.next_folder_id();
            let after = s.create_folder(label, parent);
            &&& !s.has_folder(id)
            &&& after.has_folder(id)
            &&& after.folder(id) == (FolderView { id, label, parent })
        }),
{
    let after = s.create_folder(label, parent);
    s.lemma_create_folder_wf(label, parent);
    after.lemma_folder_at(s.folders.len() as int);
}

/// A snapshot of a folder is saved if it names no parent, or a folder of the
/// store that neither is the folder nor lies in it. The folder found under
/// its id is then the snapshot, and lies in the parent that the snapshot
/// named.
pub proof fn law_saved_folder_is_found(s: StoreView, snapshot: FolderView)
    requires
        s.wf(),
        s.has_folder(snapshot.id),
        s.parent_allowed(snapshot.id, snapshot.parent),
    ensures
        ({
            let after = s.save_folder(snapshot);
            &&& after.has_folder(snapshot.id)
            &&& after.folder(snapshot.id) == snapshot
            &&& after.parent_of(snapshot.id) == snapshot.parent
        }),
{
    let after = s.save_folder(snapshot);
    s.lemma_save_folder_wf(snapshot);
    s.lemma_parents_after_save(snapshot);
    after.lemma_folder_at(s.folder_index(snapshot.id));
}

/// In no store does a folder lie in itself: however many steps one goes up
/// from a folder, one does not come back to it. Creating, saving and removing
/// folders keeps it so.
pub proof fn law_no_folder_lies_in_itself(
    s: StoreView,
    label: Seq<char>,
    parent: Option<i32>,
    snapshot: FolderView,
    removed: i32,
)
    requires
        s.wf(),
        s.last_folder_id < i32::MAX,
    ensures
        s.is_forest(),
        s.create_folder(label, parent).is_forest(),
        s.save_folder(snapshot).is_forest(),
        s.remove_folder(removed).is_forest(),
{
    s.lemma_create_folder_wf(label, parent);
    s.lemma_save_folder_wf(snapshot);
    s.lemma_remove_folder_wf(removed);
}

/// The last id given to a kind of record never falls, and rises only, by one,
/// when a record of the kind is created: so no id is given twice, not even
/// that of a record that was removed.
pub proof fn law_last_ids_never_fall(
    s: StoreView,
    bookmark: BookMarkView,
    folder: FolderView,
    tag: TagView,
)
    ensures
        s.create_bookmark(
            bookmark.url,
            bookmark.label,
            bookmark.folder,
            Some(bookmark.starred),
        ).ids_given() == (s.next_bookmark_id(), s.last_folder_id, s.last_tag_id),
        s.create_tag(tag.label, tag.color).ids_given() == (
            s.last_bookmark_id,
            s.last_folder_id,
            s.next_tag_id(),
        ),
        s.create_folder(folder.label, folder.parent).ids_given() == (
            s.last_bookmark_id,
            if s.parent_known(folder.parent) {
                s.next_folder_id()
            } else {
                s.last_folder_id
            },
            s.last_tag_id,
        ),
        s.save_bookmark(bookmark).ids_given() == s.ids_given(),
        s.save_folder(folder).ids_given() == s.ids_given(),
        s.save_tag(tag).ids_given() == s.ids_given(),
        s.remove_bookmark(bookmark.id).ids_given() == s.ids_given(),
        s.remove_folder(folder.id).ids_given() == s.ids_given(),
        s.remove_tag(tag.id).ids_given() == s.ids_given(),
        s.assign_tag(bookmark.id, tag.id).ids_given() == s.ids_given(),
        s.unassign_tag(bookmark.id, tag.id).ids_given() == s.ids_given(),
{
}

/// The bookmarks found by their star are exactly the bookmarks of the store
/// whose star is as asked for.
pub proof fn law_starred_are_found(s: StoreView, starred: bool)
    ensures
        forall|b: BookMarkView|
            #[trigger] s.bookmarks.filter(starred_is(starred)).contains(b) <==> s.bookmarks.contains(
                b,
            ) && b.starred == starred,
{
    lemma_filter_members(s.bookmarks, starred_is(starred));
}

/// The root folders are exactly the folders of the store that name no parent.
pub proof fn law_roots_are_found(s: StoreView)
    ensures
        forall|f: FolderView|
            #[trigger] s.folders.filter(is_root()).contains(f) <==> s.folders.contains(f)
                && f.parent is None,
{
    lemma_filter_members(s.folders, is_root());
}

/// A folder created in a folder leaves the root folders as they were; one
/// created in none becomes the last of them.
pub proof fn law_roots_after_create(s: StoreView, label: Seq<char>, parent: Option<i32>)
    ensures
        ({
            let after = s.create_folder(label, parent);
            let roots = s.folders.filter(is_root());
            after.folders.filter(is_root()) == if parent is None {
                roots.push(FolderView { id: s.next_folder_id(), label, parent })
            } else {
                roots
            }
        }),
{
    if s.parent_known(parent) {
        s.folders.lemma_filter_push(
            FolderView { id: s.next_folder_id(), label, parent },
            is_root(),
        );
    }
}

} // verus!
