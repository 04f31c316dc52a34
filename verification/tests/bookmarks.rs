use bookmark_store::{BookMark, Folder, Store, StoreError, Tag};

fn text(s: &str) -> String {
    s.to_string()
}

fn bookmark(id: i32, url: &str, label: Option<&str>, folder: Option<i32>, starred: bool) -> BookMark {
    BookMark { id, url: text(url), label: label.map(text), folder, starred }
}

#[test]
fn new_store_holds_nothing() {
    let store = Store::new();
    assert_eq!(BookMark::all(&store), vec![]);
    assert_eq!(Folder::all(&store), vec![]);
    assert_eq!(Tag::all(&store), vec![]);
}

#[test]
fn create_gives_ids_from_one_upwards() {
    let mut store = Store::new();
    assert_eq!(BookMark::create(text("https://a"), None, None, None, &mut store), 1);
    assert_eq!(BookMark::create(text("https://b"), None, None, None, &mut store), 2);
    assert_eq!(BookMark::create(text("https://c"), None, None, None, &mut store), 3);
}

#[test]
fn created_bookmark_is_found_with_its_fields() {
    let mut store = Store::new();
    let id = BookMark::create(
        text("https://example.org"),
        Some(text("Example")),
        Some(7),
        Some(true),
        &mut store,
    );
    assert_eq!(
        BookMark::find(id, &store),
        Ok(bookmark(1, "https://example.org", Some("Example"), Some(7), true))
    );
}

#[test]
fn star_defaults_to_false_when_omitted() {
    let mut store = Store::new();
    let id = BookMark::create(text("https://a"), None, None, None, &mut store);
    let found = BookMark::find(id, &store).unwrap();
    assert!(!found.starred);
    assert_eq!(found, bookmark(1, "https://a", None, None, false));
}

#[test]
fn find_of_unknown_bookmark_is_not_found() {
    let mut store = Store::new();
    assert_eq!(BookMark::find(1, &store), Err(StoreError::NotFound { id: 1 }));
    BookMark::create(text("https://a"), None, None, None, &mut store);
    assert_eq!(BookMark::find(2, &store), Err(StoreError::NotFound { id: 2 }));
    assert_eq!(BookMark::find(0, &store), Err(StoreError::NotFound { id: 0 }));
    assert_eq!(BookMark::find(-1, &store), Err(StoreError::NotFound { id: -1 }));
}

#[test]
fn all_lists_bookmarks_in_creation_order() {
    let mut store = Store::new();
    BookMark::create(text("https://c"), None, None, None, &mut store);
    BookMark::create(text("https://a"), Some(text("A")), None, Some(true), &mut store);
    BookMark::create(text("https://b"), None, Some(2), None, &mut store);
    assert_eq!(
        BookMark::all(&store),
        vec![
            bookmark(1, "https://c", None, None, false),
            bookmark(2, "https://a", Some("A"), None, true),
            bookmark(3, "https://b", None, Some(2), false),
        ]
    );
}

#[test]
fn find_url_matches_exactly_and_may_find_several() {
    let mut store = Store::new();
    BookMark::create(text("https://a"), Some(text("one")), None, None, &mut store);
    BookMark::create(text("https://a/"), None, None, None, &mut store);
    BookMark::create(text("https://a"), Some(text("two")), None, None, &mut store);
    assert_eq!(
        BookMark::find_url(text("https://a"), &store),
        vec![
            bookmark(1, "https://a", Some("one"), None, false),
            bookmark(3, "https://a", Some("two"), None, false),
        ]
    );
    assert_eq!(BookMark::find_url(text("https://A"), &store), vec![]);
    assert_eq!(BookMark::find_url(text(""), &store), vec![]);
}

#[test]
fn find_label_matches_exactly_and_skips_the_unlabelled() {
    let mut store = Store::new();
    BookMark::create(text("https://a"), Some(text("news")), None, None, &mut store);
    BookMark::create(text("https://b"), None, None, None, &mut store);
    BookMark::create(text("https://c"), Some(text("news")), None, None, &mut store);
    BookMark::create(text("https://d"), Some(text("")), None, None, &mut store);
    assert_eq!(
        BookMark::find_label(text("news"), &store),
        vec![
            bookmark(1, "https://a", Some("news"), None, false),
            bookmark(3, "https://c", Some("news"), None, false),
        ]
    );
    assert_eq!(
        BookMark::find_label(text(""), &store),
        vec![bookmark(4, "https://d", Some(""), None, false)]
    );
    assert_eq!(BookMark::find_label(text("new"), &store), vec![]);
}

#[test]
fn find_folder_gives_the_bookmarks_of_that_folder() {
    let mut store = Store::new();
    let f = Folder::create(text("f"), None, &mut store).unwrap();
    let g = Folder::create(text("g"), None, &mut store).unwrap();
    BookMark::create(text("https://a"), None, Some(f), None, &mut store);
    BookMark::create(text("https://b"), None, Some(g), None, &mut store);
    BookMark::create(text("https://c"), None, None, None, &mut store);
    BookMark::create(text("https://d"), None, Some(f), None, &mut store);
    assert_eq!(
        BookMark::find_folder(f, &store),
        vec![
            bookmark(1, "https://a", None, Some(1), false),
            bookmark(4, "https://d", None, Some(1), false),
        ]
    );
    assert_eq!(BookMark::find_folder(g, &store), vec![bookmark(2, "https://b", None, Some(2), false)]);
    assert_eq!(BookMark::find_folder(3, &store), vec![]);
}

#[test]
fn find_starred_splits_the_bookmarks_in_two() {
    let mut store = Store::new();
    BookMark::create(text("https://a"), None, None, Some(true), &mut store);
    BookMark::create(text("https://b"), None, None, Some(false), &mut store);
    BookMark::create(text("https://c"), None, None, None, &mut store);
    BookMark::create(text("https://d"), None, None, Some(true), &mut store);
    assert_eq!(
        BookMark::find_starred(true, &store),
        vec![
            bookmark(1, "https://a", None, None, true),
            bookmark(4, "https://d", None, None, true),
        ]
    );
    assert_eq!(
        BookMark::find_starred(false, &store),
        vec![
            bookmark(2, "https://b", None, None, false),
            bookmark(3, "https://c", None, None, false),
        ]
    );
}

#[test]
fn find_starred_of_empty_store_is_empty() {
    let store = Store::new();
    assert_eq!(BookMark::find_starred(true, &store), vec![]);
    assert_eq!(BookMark::find_starred(false, &store), vec![]);
}

#[test]
fn save_overwrites_every_field_but_the_id() {
    let mut store = Store::new();
    let f = Folder::create(text("f"), None, &mut store).unwrap();
    let id = BookMark::create(text("https://a"), Some(text("A")), None, Some(true), &mut store);
    let mut snapshot = BookMark::find(id, &store).unwrap();
    snapshot.url = text("https://b");
    snapshot.label = None;
    snapshot.folder = Some(f);
    snapshot.starred = false;
    assert_eq!(snapshot.save(&mut store), Ok(()));
    assert_eq!(BookMark::find(id, &store), Ok(bookmark(1, "https://b", None, Some(1), false)));
    assert_eq!(BookMark::all(&store).len(), 1);
}

#[test]
fn save_of_unchanged_snapshot_changes_nothing() {
    let mut store = Store::new();
    BookMark::create(text("https://a"), Some(text("A")), None, Some(true), &mut store);
    BookMark::create(text("https://b"), None, None, None, &mut store);
    let before = BookMark::all(&store);
    let snapshot = BookMark::find(1, &store).unwrap();
    assert_eq!(snapshot.save(&mut store), Ok(()));
    assert_eq!(BookMark::all(&store), before);
}

#[test]
fn save_leaves_other_bookmarks_and_the_order_alone() {
    let mut store = Store::new();
    BookMark::create(text("https://a"), None, None, None, &mut store);
    BookMark::create(text("https://b"), None, None, None, &mut store);
    BookMark::create(text("https://c"), None, None, None, &mut store);
    let mut snapshot = BookMark::find(2, &store).unwrap();
    snapshot.url = text("https://changed");
    snapshot.starred = true;
    assert_eq!(snapshot.save(&mut store), Ok(()));
    assert_eq!(
        BookMark::all(&store),
        vec![
            bookmark(1, "https://a", None, None, false),
            bookmark(2, "https://changed", None, None, true),
            bookmark(3, "https://c", None, None, false),
        ]
    );
}

#[test]
fn local_change_of_a_snapshot_does_not_reach_the_store() {
    let mut store = Store::new();
    let id = BookMark::create(text("https://a"), None, None, None, &mut store);
    let mut snapshot = BookMark::find(id, &store).unwrap();
    snapshot.url = text("https://b");
    snapshot.starred = true;
    assert_eq!(BookMark::find(id, &store), Ok(bookmark(1, "https://a", None, None, false)));
}

#[test]
fn save_of_removed_bookmark_is_not_found() {
    let mut store = Store::new();
    let id = BookMark::create(text("https://a"), None, None, None, &mut store);
    let snapshot = BookMark::find(id, &store).unwrap();
    assert_eq!(BookMark::remove_bookmark(id, &mut store), Ok(()));
    assert_eq!(snapshot.save(&mut store), Err(StoreError::NotFound { id: 1 }));
    assert_eq!(BookMark::all(&store), vec![]);
}

#[test]
fn later_save_of_two_snapshots_wins() {
    let mut store = Store::new();
    let id = BookMark::create(text("https://a"), Some(text("A")), None, None, &mut store);
    let mut first = BookMark::find(id, &store).unwrap();
    let mut second = BookMark::find(id, &store).unwrap();
    first.url = text("https://first");
    second.label = Some(text("second"));
    assert_eq!(first.save(&mut store), Ok(()));
    assert_eq!(second.save(&mut store), Ok(()));
    assert_eq!(BookMark::find(id, &store), Ok(bookmark(1, "https://a", Some("second"), None, false)));
}

#[test]
fn save_accepts_a_folder_that_is_not_in_the_store() {
    let mut store = Store::new();
    let id = BookMark::create(text("https://a"), None, None, None, &mut store);
    let mut snapshot = BookMark::find(id, &store).unwrap();
    snapshot.folder = Some(99);
    assert_eq!(snapshot.save(&mut store), Ok(()));
    assert_eq!(BookMark::find(id, &store), Ok(bookmark(1, "https://a", None, Some(99), false)));
    assert_eq!(BookMark::find_folder(99, &store), vec![bookmark(1, "https://a", None, Some(99), false)]);
}

#[test]
fn overwrite_takes_all_fields_but_the_id() {
    let mut canonical = bookmark(5, "https://old", Some("old"), Some(1), false);
    let snapshot = bookmark(9, "https://new", None, Some(2), true);
    canonical.overwrite(&snapshot);
    assert_eq!(canonical, bookmark(5, "https://new", None, Some(2), true));
}

#[test]
fn remove_bookmark_deletes_only_that_bookmark() {
    let mut store = Store::new();
    BookMark::create(text("https://a"), None, None, None, &mut store);
    BookMark::create(text("https://b"), None, None, None, &mut store);
    BookMark::create(text("https://c"), None, None, None, &mut store);
    assert_eq!(BookMark::remove_bookmark(2, &mut store), Ok(()));
    assert_eq!(BookMark::find(2, &store), Err(StoreError::NotFound { id: 2 }));
    assert_eq!(
        BookMark::all(&store),
        vec![bookmark(1, "https://a", None, None, false), bookmark(3, "https://c", None, None, false)]
    );
}

#[test]
fn remove_of_unknown_bookmark_is_not_found() {
    let mut store = Store::new();
    BookMark::create(text("https://a"), None, None, None, &mut store);
    assert_eq!(BookMark::remove_bookmark(5, &mut store), Err(StoreError::NotFound { id: 5 }));
    assert_eq!(BookMark::all(&store), vec![bookmark(1, "https://a", None, None, false)]);
    assert_eq!(BookMark::remove_bookmark(1, &mut store), Ok(()));
    assert_eq!(BookMark::remove_bookmark(1, &mut store), Err(StoreError::NotFound { id: 1 }));
}

#[test]
fn delete_removes_the_bookmark_of_the_snapshot() {
    let mut store = Store::new();
    let id = BookMark::create(text("https://a"), None, None, None, &mut store);
    let snapshot = BookMark::find(id, &store).unwrap();
    assert_eq!(snapshot.delete(&mut store), Ok(()));
    assert_eq!(BookMark::find(id, &store), Err(StoreError::NotFound { id: 1 }));
    assert_eq!(snapshot.delete(&mut store), Err(StoreError::NotFound { id: 1 }));
}

#[test]
fn ids_of_removed_bookmarks_are_not_given_again() {
    let mut store = Store::new();
    BookMark::create(text("https://a"), None, None, None, &mut store);
    BookMark::create(text("https://b"), None, None, None, &mut store);
    assert_eq!(BookMark::remove_bookmark(2, &mut store), Ok(()));
    assert_eq!(BookMark::create(text("https://c"), None, None, None, &mut store), 3);
    assert_eq!(BookMark::remove_bookmark(1, &mut store), Ok(()));
    assert_eq!(BookMark::remove_bookmark(3, &mut store), Ok(()));
    assert_eq!(BookMark::create(text("https://d"), None, None, None, &mut store), 4);
    assert_eq!(BookMark::all(&store), vec![bookmark(4, "https://d", None, None, false)]);
}

#[test]
fn clone_of_a_bookmark_is_equal_to_it() {
    let b = bookmark(3, "https://a", Some("A"), Some(2), true);
    assert_eq!(b.clone(), b);
}

#[test]
fn last_ids_count_what_was_created_and_never_fall() {
    let mut store = Store::new();
    assert_eq!(
        (store.last_bookmark_id(), store.last_folder_id(), store.last_tag_id()),
        (0, 0, 0)
    );
    BookMark::create(text("https://a"), None, None, None, &mut store);
    BookMark::create(text("https://b"), None, None, None, &mut store);
    Folder::create(text("f"), None, &mut store).unwrap();
    Tag::create(text("t"), None, &mut store);
    Tag::create(text("u"), None, &mut store);
    Tag::create(text("v"), None, &mut store);
    assert_eq!(
        (store.last_bookmark_id(), store.last_folder_id(), store.last_tag_id()),
        (2, 1, 3)
    );
    assert_eq!(BookMark::remove_bookmark(2, &mut store), Ok(()));
    assert_eq!(Folder::remove_folder(1, &mut store), Ok(()));
    assert_eq!(Tag::remove_tag(3, &mut store), Ok(()));
    assert_eq!(
        (store.last_bookmark_id(), store.last_folder_id(), store.last_tag_id()),
        (2, 1, 3)
    );
    assert!(Folder::create(text("g"), Some(1), &mut store).is_err());
    assert_eq!(store.last_folder_id(), 1);
}
