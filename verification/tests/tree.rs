use dgen::tree::{is_valid_name, FileNode, FolderNode};

fn folder_with_files(names: &[&str]) -> FolderNode {
    let mut folder = FolderNode::new(String::from("root"));
    for name in names {
        folder.push_file(FileNode::new(String::from(*name), String::new()));
    }
    folder
}

#[test]
fn base_names_are_valid() {
    assert!(is_valid_name("a"));
    assert!(is_valid_name("a.txt"));
    assert!(is_valid_name("caf\u{e9} au lait"));
    assert!(is_valid_name(".."));
}

#[test]
fn empty_name_is_not_valid() {
    assert!(!is_valid_name(""));
}

#[test]
fn name_with_a_separator_is_not_valid() {
    assert!(!is_valid_name("/"));
    assert!(!is_valid_name("a/b"));
    assert!(!is_valid_name("a/"));
    assert!(!is_valid_name("/a"));
}

#[test]
fn new_folder_is_empty() {
    let folder = FolderNode::new(String::from("root"));
    assert_eq!(folder.name, "root");
    assert!(folder.files.is_empty());
    assert!(folder.folders.is_empty());
}

#[test]
fn pushes_keep_the_order() {
    let mut folder = folder_with_files(&["b", "a"]);
    folder.push_folder(FolderNode::new(String::from("y")));
    folder.push_folder(FolderNode::new(String::from("x")));
    assert_eq!(folder.name, "root");
    assert_eq!(folder.files[0].name, "b");
    assert_eq!(folder.files[1].name, "a");
    assert_eq!(folder.folders[0].name, "y");
    assert_eq!(folder.folders[1].name, "x");
}

#[test]
fn tree_of_distinct_base_names_is_well_formed() {
    let mut root = folder_with_files(&["a", "b", "c"]);
    let mut sub = FolderNode::new(String::from("a"));
    sub.push_file(FileNode::new(String::from("a"), String::from("x")));
    root.push_folder(sub);
    root.push_folder(FolderNode::new(String::from("b")));
    assert!(root.is_well_formed());
    assert!(FolderNode::new(String::from("only")).is_well_formed());
}

#[test]
fn tree_with_a_bad_root_name_is_not_well_formed() {
    assert!(!FolderNode::new(String::new()).is_well_formed());
    assert!(!FolderNode::new(String::from("a/b")).is_well_formed());
}

#[test]
fn tree_with_a_bad_file_name_is_not_well_formed() {
    assert!(!folder_with_files(&["a", ""]).is_well_formed());
    assert!(!folder_with_files(&["a", "../b"]).is_well_formed());
}

#[test]
fn tree_with_a_file_name_twice_is_not_well_formed() {
    assert!(!folder_with_files(&["a", "b", "a"]).is_well_formed());
}

#[test]
fn tree_with_a_folder_name_twice_is_not_well_formed() {
    let mut root = FolderNode::new(String::from("root"));
    root.push_folder(FolderNode::new(String::from("x")));
    root.push_folder(FolderNode::new(String::from("y")));
    root.push_folder(FolderNode::new(String::from("x")));
    assert!(!root.is_well_formed());
}

#[test]
fn fault_deep_in_the_tree_is_found() {
    let mut deep = FolderNode::new(String::from("deep"));
    deep.push_file(FileNode::new(String::from("a/b"), String::new()));
    let mut mid = FolderNode::new(String::from("mid"));
    mid.push_folder(deep);
    let mut root = FolderNode::new(String::from("root"));
    root.push_folder(FolderNode::new(String::from("fine")));
    root.push_folder(mid);
    assert!(!root.is_well_formed());
}

#[test]
fn file_and_folder_may_share_a_name() {
    let mut root = folder_with_files(&["same"]);
    root.push_folder(FolderNode::new(String::from("same")));
    assert!(root.is_well_formed());
}
