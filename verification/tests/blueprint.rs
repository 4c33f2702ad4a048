use dgen::blueprint::{generate_dir, generate_json, Blueprint};
use dgen::materialize::Step;
use dgen::scan::ScanEntry;
use dgen::tree::{FileNode, FolderNode};

#[test]
fn blueprint_of_a_small_directory() {
    let listing = vec![
        ScanEntry::File {
            name: String::from("a.txt"),
            content: Some(String::from("hi")),
        },
        ScanEntry::File {
            name: String::from("logo.png"),
            content: None,
        },
        ScanEntry::Folder {
            name: String::from("sub"),
            entries: vec![ScanEntry::File {
                name: String::from("b.txt"),
                content: Some(String::from("bye")),
            }],
        },
    ];
    assert_eq!(
        generate_json("root", &listing),
        Some(Blueprint {
            file_name: String::from("root.json"),
            document: String::from(
                "{\"name\":\"root\",\"files\":[{\"name\":\"a.txt\",\"content\":\"hi\"}],\"folders\":[{\"name\":\"sub\",\"files\":[{\"name\":\"b.txt\",\"content\":\"bye\"}],\"folders\":[]}]}"
            ),
        })
    );
}

#[test]
fn blueprint_of_an_empty_directory() {
    assert_eq!(
        generate_json("e", &Vec::new()),
        Some(Blueprint {
            file_name: String::from("e.json"),
            document: String::from("{\"name\":\"e\",\"files\":[],\"folders\":[]}"),
        })
    );
}

#[test]
fn plan_begins_under_the_current_directory() {
    let mut tree = FolderNode::new(String::from("root"));
    tree.push_file(FileNode::new(String::from("a.txt"), String::from("hi")));
    assert_eq!(
        generate_dir(&tree, "/home/me"),
        vec![
            Step::CreateDir {
                path: String::from("/home/me/root/"),
                inside: 1
            },
            Step::WriteFile {
                path: String::from("/home/me/root/a.txt"),
                content: String::from("hi")
            },
        ]
    );
}
