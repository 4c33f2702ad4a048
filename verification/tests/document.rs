use dgen::document::{blueprint_file_name, frame_file, frame_folder, join_documents};
use dgen::tree::{FileNode, FolderNode};

fn sample_tree() -> FolderNode {
    let mut sub = FolderNode::new(String::from("sub"));
    sub.push_file(FileNode::new(String::from("b.txt"), String::from("bye")));
    let mut root = FolderNode::new(String::from("root"));
    root.push_file(FileNode::new(String::from("a.txt"), String::from("hi")));
    root.push_folder(sub);
    root
}

#[test]
fn document_of_a_small_tree() {
    let doc = sample_tree().to_json();
    assert_eq!(
        doc,
        Some(String::from(
            "{\"name\":\"root\",\"files\":[{\"name\":\"a.txt\",\"content\":\"hi\"}],\"folders\":[{\"name\":\"sub\",\"files\":[{\"name\":\"b.txt\",\"content\":\"bye\"}],\"folders\":[]}]}"
        ))
    );
}

#[test]
fn document_is_the_same_each_time() {
    let tree = sample_tree();
    assert_eq!(tree.to_json(), tree.to_json());
    assert_eq!(tree.to_json(), sample_tree().to_json());
}

#[test]
fn document_of_an_empty_folder() {
    let folder = FolderNode::new(String::from("empty"));
    assert_eq!(
        folder.to_json(),
        Some(String::from(
            "{\"name\":\"empty\",\"files\":[],\"folders\":[]}"
        ))
    );
}

#[test]
fn document_escapes_names_and_contents() {
    let file = FileNode::new(String::from("a\"b"), String::from("line\nnext\\\ttab"));
    assert_eq!(
        file.to_json(),
        Some(String::from(
            "{\"name\":\"a\\\"b\",\"content\":\"line\\nnext\\\\\\ttab\"}"
        ))
    );
}

#[test]
fn document_keeps_text_outside_ascii() {
    let file = FileNode::new(String::from("caf\u{e9}"), String::from("\u{1f600}"));
    assert_eq!(
        file.to_json(),
        Some(String::from(
            "{\"name\":\"caf\u{e9}\",\"content\":\"\u{1f600}\"}"
        ))
    );
}

#[test]
fn document_lists_files_and_folders_in_order() {
    let mut root = FolderNode::new(String::from("r"));
    root.push_file(FileNode::new(String::from("1"), String::from("x")));
    root.push_file(FileNode::new(String::from("2"), String::from("y")));
    root.push_folder(FolderNode::new(String::from("p")));
    root.push_folder(FolderNode::new(String::from("q")));
    assert_eq!(
        root.to_json(),
        Some(String::from(
            "{\"name\":\"r\",\"files\":[{\"name\":\"1\",\"content\":\"x\"},{\"name\":\"2\",\"content\":\"y\"}],\"folders\":[{\"name\":\"p\",\"files\":[],\"folders\":[]},{\"name\":\"q\",\"files\":[],\"folders\":[]}]}"
        ))
    );
}

#[test]
fn frame_file_puts_the_literals_in_place() {
    assert_eq!(frame_file("N", "C"), "{\"name\":N,\"content\":C}");
}

#[test]
fn join_documents_puts_commas_between() {
    assert_eq!(join_documents(&Vec::new()), "");
    assert_eq!(join_documents(&vec![String::from("a")]), "a");
    assert_eq!(
        join_documents(&vec![
            String::from("a"),
            String::from("b"),
            String::from("c")
        ]),
        "a,b,c"
    );
}

#[test]
fn frame_folder_puts_the_parts_in_place() {
    assert_eq!(
        frame_folder(
            "N",
            &vec![String::from("F1"), String::from("F2")],
            &vec![String::from("D1")]
        ),
        "{\"name\":N,\"files\":[F1,F2],\"folders\":[D1]}"
    );
    assert_eq!(
        frame_folder("N", &Vec::new(), &Vec::new()),
        "{\"name\":N,\"files\":[],\"folders\":[]}"
    );
}

#[test]
fn blueprint_file_name_adds_the_extension() {
    assert_eq!(blueprint_file_name("root"), "root.json");
}
