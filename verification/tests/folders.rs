use bookmark_store::{root_folders, BookMark, Folder, Store, StoreError, Tag};

fn text(s: &str) -> String {
    s.to_string()
}

fn folder(id: i32, label: &str, parent: Option<i32>) -> Folder {
    Folder { id, label: text(label), parent }
}

#[test]
fn created_folder_is_found_with_its_fields() {
    let mut store = Store::new();
    assert_eq!(Folder::create(text("top"), None, &mut store), Ok(1));
    assert_eq!(Folder::create(text("sub"), Some(1), &mut store), Ok(2));
    assert_eq!(Folder::find(1, &store), Ok(folder(1, "top", None)));
    assert_eq!(Folder::find(2, &store), Ok(folder(2, "sub", Some(1))));
    assert_eq!(Folder::find(3, &store), Err(StoreError::NotFound { id: 3 }));
}

#[test]
fn all_lists_folders_in_creation_order() {
    let mut store = Store::new();
    Folder::create(text("b"), None, &mut store).unwrap();
    Folder::create(text("a"), Some(1), &mut store).unwrap();
    Folder::create(text("c"), None, &mut store).unwrap();
    assert_eq!(
        Folder::all(&store),
        vec![folder(1, "b", None), folder(2, "a", Some(1)), folder(3, "c", None)]
    );
}

#[test]
fn create_with_unknown_parent_is_a_foreign_key_error() {
    let mut store = Store::new();
    assert_eq!(
        Folder::create(text("sub"), Some(1), &mut store),
        Err(StoreError::ForeignKeyError { id: 1 })
    );
    assert_eq!(Folder::all(&store), vec![]);
    assert_eq!(Folder::create(text("top"), None, &mut store), Ok(1));
    assert_eq!(
        Folder::create(text("sub"), Some(2), &mut store),
        Err(StoreError::ForeignKeyError { id: 2 })
    );
    assert_eq!(Folder::all(&store), vec![folder(1, "top", None)]);
}

#[test]
fn a_refused_create_uses_up_no_id() {
    let mut store = Store::new();
    assert_eq!(
        Folder::create(text("sub"), Some(5), &mut store),
        Err(StoreError::ForeignKeyError { id: 5 })
    );
    assert_eq!(Folder::create(text("top"), None, &mut store), Ok(1));
}

#[test]
fn folder_save_overwrites_label_and_parent() {
    let mut store = Store::new();
    Folder::create(text("a"), None, &mut store).unwrap();
    Folder::create(text("b"), None, &mut store).unwrap();
    let mut snapshot = Folder::find(2, &store).unwrap();
    snapshot.label = text("b2");
    snapshot.parent = Some(1);
    assert_eq!(snapshot.save(&mut store), Ok(()));
    assert_eq!(Folder::all(&store), vec![folder(1, "a", None), folder(2, "b2", Some(1))]);
    snapshot.parent = None;
    assert_eq!(snapshot.save(&mut store), Ok(()));
    assert_eq!(Folder::all(&store), vec![folder(1, "a", None), folder(2, "b2", None)]);
}

#[test]
fn folder_save_with_unknown_parent_is_a_foreign_key_error() {
    let mut store = Store::new();
    Folder::create(text("a"), None, &mut store).unwrap();
    let mut snapshot = Folder::find(1, &store).unwrap();
    snapshot.label = text("changed");
    snapshot.parent = Some(4);
    assert_eq!(snapshot.save(&mut store), Err(StoreError::ForeignKeyError { id: 4 }));
    assert_eq!(Folder::find(1, &store), Ok(folder(1, "a", None)));
}

#[test]
fn folder_save_of_removed_folder_is_not_found() {
    let mut store = Store::new();
    Folder::create(text("a"), None, &mut store).unwrap();
    let snapshot = Folder::find(1, &store).unwrap();
    assert_eq!(Folder::remove_folder(1, &mut store), Ok(()));
    assert_eq!(snapshot.save(&mut store), Err(StoreError::NotFound { id: 1 }));
}

#[test]
fn folder_save_names_the_folder_first_when_folder_and_parent_are_unknown() {
    let mut store = Store::new();
    assert_eq!(folder(3, "x", Some(8)).save(&mut store), Err(StoreError::NotFound { id: 3 }));
}

#[test]
fn folder_overwrite_takes_all_fields_but_the_id() {
    let mut canonical = folder(2, "old", None);
    canonical.overwrite(&folder(6, "new", Some(1)));
    assert_eq!(canonical, folder(2, "new", Some(1)));
}

#[test]
fn remove_folder_deletes_the_folder_and_nothing_else() {
    let mut store = Store::new();
    Folder::create(text("top"), None, &mut store).unwrap();
    Folder::create(text("sub"), Some(1), &mut store).unwrap();
    let b = BookMark::create(text("https://a"), None, Some(1), None, &mut store);
    let t = Tag::create(text("work"), None, &mut store);
    let bookmark = BookMark::find(b, &store).unwrap();
    assert_eq!(bookmark.assign_tag(t, &mut store), Ok(()));
    assert_eq!(Folder::remove_folder(1, &mut store), Ok(()));
    assert_eq!(Folder::find(1, &store), Err(StoreError::NotFound { id: 1 }));
    assert_eq!(Folder::all(&store), vec![folder(2, "sub", Some(1))]);
    assert_eq!(BookMark::find(b, &store), Ok(bookmark.clone()));
    assert_eq!(BookMark::find_folder(1, &store), vec![bookmark.clone()]);
    assert_eq!(bookmark.tags(&store).unwrap().len(), 1);
}

#[test]
fn remove_of_unknown_folder_is_not_found() {
    let mut store = Store::new();
    assert_eq!(Folder::remove_folder(1, &mut store), Err(StoreError::NotFound { id: 1 }));
    Folder::create(text("top"), None, &mut store).unwrap();
    assert_eq!(Folder::remove_folder(2, &mut store), Err(StoreError::NotFound { id: 2 }));
    assert_eq!(Folder::all(&store).len(), 1);
}

#[test]
fn folder_delete_removes_the_folder_of_the_snapshot() {
    let mut store = Store::new();
    Folder::create(text("top"), None, &mut store).unwrap();
    let snapshot = Folder::find(1, &store).unwrap();
    assert_eq!(snapshot.delete(&mut store), Ok(()));
    assert_eq!(Folder::all(&store), vec![]);
    assert_eq!(snapshot.delete(&mut store), Err(StoreError::NotFound { id: 1 }));
}

#[test]
fn a_folder_left_without_its_parent_must_be_saved_with_a_known_one() {
    let mut store = Store::new();
    Folder::create(text("top"), None, &mut store).unwrap();
    Folder::create(text("sub"), Some(1), &mut store).unwrap();
    assert_eq!(Folder::remove_folder(1, &mut store), Ok(()));
    let mut snapshot = Folder::find(2, &store).unwrap();
    assert_eq!(snapshot.parent, Some(1));
    assert_eq!(snapshot.save(&mut store), Err(StoreError::ForeignKeyError { id: 1 }));
    snapshot.parent = None;
    assert_eq!(snapshot.save(&mut store), Ok(()));
    assert_eq!(root_folders(&store), vec![folder(2, "sub", None)]);
}

#[test]
fn root_folders_are_the_folders_without_parent() {
    let mut store = Store::new();
    Folder::create(text("a"), None, &mut store).unwrap();
    Folder::create(text("a1"), Some(1), &mut store).unwrap();
    Folder::create(text("b"), None, &mut store).unwrap();
    Folder::create(text("a2"), Some(1), &mut store).unwrap();
    Folder::create(text("a11"), Some(2), &mut store).unwrap();
    assert_eq!(root_folders(&store), vec![folder(1, "a", None), folder(3, "b", None)]);
}

#[test]
fn root_folders_do_not_depend_on_the_other_folders() {
    let mut store = Store::new();
    Folder::create(text("a"), None, &mut store).unwrap();
    Folder::create(text("b"), None, &mut store).unwrap();
    let before = root_folders(&store);
    for i in 0..20 {
        Folder::create(text("sub"), Some(1 + i % 2), &mut store).unwrap();
    }
    assert_eq!(Folder::all(&store).len(), 22);
    assert_eq!(root_folders(&store), before);
}

#[test]
fn root_folders_of_empty_store_is_empty() {
    let store = Store::new();
    assert_eq!(root_folders(&store), vec![]);
}

#[test]
fn a_folder_that_loses_its_parent_becomes_a_root() {
    let mut store = Store::new();
    Folder::create(text("a"), None, &mut store).unwrap();
    Folder::create(text("b"), Some(1), &mut store).unwrap();
    let mut snapshot = Folder::find(2, &store).unwrap();
    snapshot.parent = None;
    assert_eq!(snapshot.save(&mut store), Ok(()));
    assert_eq!(root_folders(&store), vec![folder(1, "a", None), folder(2, "b", None)]);
}

#[test]
fn a_folder_cannot_be_its_own_parent() {
    let mut store = Store::new();
    Folder::create(text("a"), None, &mut store).unwrap();
    let mut snapshot = Folder::find(1, &store).unwrap();
    snapshot.parent = Some(1);
    assert_eq!(snapshot.save(&mut store), Err(StoreError::ForeignKeyError { id: 1 }));
    assert_eq!(Folder::find(1, &store), Ok(folder(1, "a", None)));
}

#[test]
fn a_folder_cannot_be_moved_into_a_folder_that_lies_in_it() {
    let mut store = Store::new();
    Folder::create(text("a"), None, &mut store).unwrap();
    Folder::create(text("b"), Some(1), &mut store).unwrap();
    Folder::create(text("c"), Some(2), &mut store).unwrap();
    let before = Folder::all(&store);
    let mut top = Folder::find(1, &store).unwrap();
    top.parent = Some(2);
    assert_eq!(top.save(&mut store), Err(StoreError::ForeignKeyError { id: 2 }));
    top.parent = Some(3);
    assert_eq!(top.save(&mut store), Err(StoreError::ForeignKeyError { id: 3 }));
    let mut middle = Folder::find(2, &store).unwrap();
    middle.parent = Some(3);
    assert_eq!(middle.save(&mut store), Err(StoreError::ForeignKeyError { id: 3 }));
    assert_eq!(Folder::all(&store), before);
}

#[test]
fn a_folder_can_be_moved_to_another_branch() {
    let mut store = Store::new();
    Folder::create(text("a"), None, &mut store).unwrap();
    Folder::create(text("a1"), Some(1), &mut store).unwrap();
    Folder::create(text("b"), None, &mut store).unwrap();
    Folder::create(text("b1"), Some(3), &mut store).unwrap();
    let mut moved = Folder::find(2, &store).unwrap();
    moved.parent = Some(4);
    assert_eq!(moved.save(&mut store), Ok(()));
    assert_eq!(Folder::find(2, &store), Ok(folder(2, "a1", Some(4))));
    let mut root = Folder::find(1, &store).unwrap();
    root.parent = Some(2);
    assert_eq!(root.save(&mut store), Ok(()));
    assert_eq!(root_folders(&store), vec![folder(3, "b", None)]);
    let mut other = Folder::find(3, &store).unwrap();
    other.parent = Some(1);
    assert_eq!(other.save(&mut store), Err(StoreError::ForeignKeyError { id: 1 }));
}

#[test]
fn a_folder_saved_with_the_parent_it_has_is_accepted() {
    let mut store = Store::new();
    Folder::create(text("a"), None, &mut store).unwrap();
    Folder::create(text("b"), Some(1), &mut store).unwrap();
    Folder::create(text("c"), Some(2), &mut store).unwrap();
    let mut snapshot = Folder::find(3, &store).unwrap();
    snapshot.label = text("c2");
    assert_eq!(snapshot.save(&mut store), Ok(()));
    assert_eq!(Folder::find(3, &store), Ok(folder(3, "c2", Some(2))));
}

#[test]
fn the_way_up_ends_at_a_folder_that_was_removed() {
    let mut store = Store::new();
    Folder::create(text("a"), None, &mut store).unwrap();
    Folder::create(text("b"), Some(1), &mut store).unwrap();
    Folder::create(text("c"), Some(2), &mut store).unwrap();
    assert_eq!(Folder::remove_folder(2, &mut store), Ok(()));
    let mut top = Folder::find(1, &store).unwrap();
    top.parent = Some(3);
    assert_eq!(top.save(&mut store), Ok(()));
    assert_eq!(Folder::all(&store), vec![folder(1, "a", Some(3)), folder(3, "c", Some(2))]);
    assert_eq!(root_folders(&store), vec![]);
}

#[test]
fn a_long_chain_of_folders_can_be_closed_nowhere() {
    let mut store = Store::new();
    Folder::create(text("f"), None, &mut store).unwrap();
    for i in 1..30 {
        Folder::create(text("f"), Some(i), &mut store).unwrap();
    }
    let mut top = Folder::find(1, &store).unwrap();
    for i in 1..=30 {
        top.parent = Some(i);
        assert_eq!(top.save(&mut store), Err(StoreError::ForeignKeyError { id: i }));
    }
    let mut last = Folder::find(30, &store).unwrap();
    last.parent = Some(1);
    assert_eq!(last.save(&mut store), Ok(()));
    let mut second = Folder::find(2, &store).unwrap();
    second.parent = Some(30);
    assert_eq!(second.save(&mut store), Ok(()));
    top.parent = Some(29);
    assert_eq!(top.save(&mut store), Err(StoreError::ForeignKeyError { id: 29 }));
    assert_eq!(root_folders(&store), vec![folder(1, "f", None)]);
}
