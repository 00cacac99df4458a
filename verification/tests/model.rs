use folders::model::{Entry, EntryClone, Folder};

#[test]
fn test_folder_getter_setter() {
    let name = String::from("some_name");
    let folder = Folder::empty(&name);
    assert_eq!(name, folder.name());
    assert!(folder.is_empty());
    assert_eq!(false, folder.has_children());

    let child = Folder::empty(&"child_1".to_string());
    let mut folder = folder;
    folder.insert_child(Box::new(child.clone()));
    assert_eq!(1, folder.children_count());

    folder.delete_child(&child.name());
}

#[test]
fn empty_folder_reports_its_name() {
    let f = Folder::empty(&"root".to_string());
    assert_eq!("root".to_string(), f.name());
    assert!(f.is_empty());
    assert_eq!(0, f.children_count());
    assert!(!f.has_children());
}

#[test]
fn insert_new_name_increases_count() {
    let mut f = Folder::empty(&"root".to_string());
    f.insert_child(Box::new(Folder::empty(&"a".to_string())));
    assert_eq!(1, f.children_count());
    assert!(f.has_children());
    assert!(!f.is_empty());
    f.insert_child(Box::new(Folder::empty(&"b".to_string())));
    assert_eq!(2, f.children_count());
}

#[test]
fn insert_duplicate_name_keeps_count() {
    let mut f = Folder::empty(&"root".to_string());
    f.insert_child(Box::new(Folder::empty(&"a".to_string())));
    assert_eq!(1, f.children_count());
    f.insert_child(Box::new(Folder::empty(&"a".to_string())));
    assert_eq!(1, f.children_count());
}

#[test]
fn delete_present_child_removes_it() {
    let mut f = Folder::empty(&"root".to_string());
    f.insert_child(Box::new(Folder::empty(&"a".to_string())));
    f.delete_child(&"a".to_string());
    assert_eq!(0, f.children_count());
    assert!(f.is_empty());
}

#[test]
fn delete_absent_name_is_a_no_op() {
    let mut f = Folder::empty(&"root".to_string());
    f.insert_child(Box::new(Folder::empty(&"a".to_string())));
    f.delete_child(&"nonexistent".to_string());
    assert_eq!(1, f.children_count());
}

#[test]
fn delete_twice_equals_delete_once() {
    let mut f = Folder::empty(&"root".to_string());
    f.insert_child(Box::new(Folder::empty(&"a".to_string())));
    f.insert_child(Box::new(Folder::empty(&"b".to_string())));
    f.delete_child(&"a".to_string());
    assert_eq!(1, f.children_count());
    f.delete_child(&"a".to_string());
    assert_eq!(1, f.children_count());
}

#[test]
fn clone_keeps_observable_state() {
    let mut f = Folder::empty(&"root".to_string());
    f.insert_child(Box::new(Folder::empty(&"a".to_string())));
    let g = f.clone();
    assert_eq!(f.name(), g.name());
    assert_eq!(f.children_count(), g.children_count());
}

#[test]
fn mutating_a_clone_leaves_the_original_alone() {
    let mut f = Folder::empty(&"root".to_string());
    f.insert_child(Box::new(Folder::empty(&"a".to_string())));
    let mut g = f.clone();
    g.insert_child(Box::new(Folder::empty(&"x".to_string())));
    assert_eq!(1, f.children_count());
    assert_eq!(2, g.children_count());
    g.delete_child(&"a".to_string());
    assert_eq!(1, f.children_count());
    g.set_name(&"renamed".to_string());
    assert_eq!("root".to_string(), f.name());
}

#[test]
fn mutating_the_original_leaves_a_clone_alone() {
    let mut f = Folder::empty(&"root".to_string());
    f.insert_child(Box::new(Folder::empty(&"a".to_string())));
    let g = f.clone();
    f.delete_child(&"a".to_string());
    f.set_name(&"changed".to_string());
    assert_eq!(1, g.children_count());
    assert_eq!("root".to_string(), g.name());
}

#[test]
fn set_name_round_trip() {
    let mut f = Folder::empty(&"before".to_string());
    f.set_name(&"after".to_string());
    assert_eq!("after".to_string(), f.name());
    f.set_name(&"".to_string());
    assert_eq!("".to_string(), f.name());
}

#[test]
fn set_name_keeps_children() {
    let mut f = Folder::empty(&"root".to_string());
    f.insert_child(Box::new(Folder::empty(&"a".to_string())));
    f.set_name(&"renamed".to_string());
    assert_eq!(1, f.children_count());
}

#[test]
fn clone_box_copies_the_entry() {
    let f = Folder::empty(&"node".to_string());
    let copy = f.clone_box();
    assert_eq!("node".to_string(), copy.name());
    assert_eq!(0, copy.children_count());
}

#[test]
fn nested_folders_clone_deeply() {
    let mut inner = Folder::empty(&"inner".to_string());
    inner.insert_child(Box::new(Folder::empty(&"leaf".to_string())));
    let mut outer = Folder::empty(&"outer".to_string());
    outer.insert_child(Box::new(inner));
    let copy = outer.clone();
    assert_eq!(1, copy.children_count());
    assert_eq!("outer".to_string(), copy.name());
}

#[test]
fn empty_name_is_accepted() {
    let mut f = Folder::empty(&"".to_string());
    assert_eq!("".to_string(), f.name());
    f.insert_child(Box::new(Folder::empty(&"".to_string())));
    assert_eq!(1, f.children_count());
    f.delete_child(&"".to_string());
    assert!(f.is_empty());
}
