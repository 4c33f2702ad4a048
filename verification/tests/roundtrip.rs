use dgen::materialize::{dir_from_json, next_step, Step};
use dgen::scan::{build_tree, ScanEntry};
use std::collections::BTreeMap;

/// What lies at a place of the disk that these tests keep in memory: `None`
/// for a directory, the content for a file.
type Disk = BTreeMap<String, Option<String>>;

fn run(plan: &Vec<Step>, disk: &mut Disk) -> Vec<usize> {
    let mut failed = Vec::new();
    let mut at = 0;
    while at < plan.len() {
        let succeeded = match &plan[at] {
            Step::CreateDir { path, .. } => {
                let place = path.trim_end_matches('/').to_string();
                if disk.contains_key(&place) {
                    false
                } else {
                    disk.insert(place, None);
                    true
                }
            }
            Step::WriteFile { path, content } => {
                if disk.get(path) == Some(&None) {
                    false
                } else {
                    disk.insert(path.clone(), Some(content.clone()));
                    true
                }
            }
        };
        if !succeeded {
            failed.push(at);
        }
        at = next_step(plan, at, succeeded);
    }
    failed
}

fn sample_listing() -> Vec<ScanEntry> {
    vec![
        ScanEntry::File {
            name: String::from("a.txt"),
            content: Some(String::from("hi")),
        },
        ScanEntry::Folder {
            name: String::from("sub"),
            entries: vec![ScanEntry::File {
                name: String::from("b.txt"),
                content: Some(String::from("bye")),
            }],
        },
    ]
}

fn dir() -> Option<String> {
    None
}

fn file(content: &str) -> Option<String> {
    Some(String::from(content))
}

#[test]
fn scanned_tree_is_written_whole_into_an_empty_place() {
    let tree = build_tree(String::from("root"), &sample_listing());
    assert!(tree.is_well_formed());
    let plan = dir_from_json(&tree, String::from("/t/"));
    let mut disk = Disk::new();
    let failed = run(&plan, &mut disk);
    assert!(failed.is_empty());
    let mut expected = Disk::new();
    expected.insert(String::from("/t/root"), dir());
    expected.insert(String::from("/t/root/a.txt"), file("hi"));
    expected.insert(String::from("/t/root/sub"), dir());
    expected.insert(String::from("/t/root/sub/b.txt"), file("bye"));
    assert_eq!(disk, expected);
}

#[test]
fn existing_root_directory_is_not_merged() {
    let tree = build_tree(String::from("root"), &sample_listing());
    let plan = dir_from_json(&tree, String::from("/t/"));
    let mut disk = Disk::new();
    disk.insert(String::from("/t/root"), dir());
    disk.insert(String::from("/t/root/old.txt"), file("old"));
    let before = disk.clone();
    let failed = run(&plan, &mut disk);
    assert_eq!(failed, vec![0]);
    assert_eq!(disk, before);
}

#[test]
fn existing_sub_directory_is_passed_over_and_the_rest_written() {
    let mut listing = sample_listing();
    listing.push(ScanEntry::Folder {
        name: String::from("z"),
        entries: vec![ScanEntry::File {
            name: String::from("c.txt"),
            content: Some(String::from("c")),
        }],
    });
    let tree = build_tree(String::from("root"), &listing);
    let plan = dir_from_json(&tree, String::from(""));
    let mut disk = Disk::new();
    disk.insert(String::from("root/sub"), dir());
    let failed = run(&plan, &mut disk);
    assert_eq!(failed, vec![2]);
    assert_eq!(disk.get("root/sub/b.txt"), None);
    assert_eq!(disk.get("root/a.txt"), Some(&file("hi")));
    assert_eq!(disk.get("root/z"), Some(&dir()));
    assert_eq!(disk.get("root/z/c.txt"), Some(&file("c")));
}

#[test]
fn existing_file_is_written_over() {
    let plan = vec![Step::WriteFile {
        path: String::from("d/a.txt"),
        content: String::from("new"),
    }];
    let mut disk = Disk::new();
    disk.insert(String::from("d"), dir());
    disk.insert(String::from("d/a.txt"), file("old"));
    let failed = run(&plan, &mut disk);
    assert!(failed.is_empty());
    assert_eq!(disk.get("d/a.txt"), Some(&file("new")));
    assert_eq!(disk.len(), 2);
}

#[test]
fn file_named_as_a_folder_beside_it_stops_that_folder() {
    let listing = vec![
        ScanEntry::File {
            name: String::from("same"),
            content: Some(String::from("f")),
        },
        ScanEntry::Folder {
            name: String::from("same"),
            entries: vec![],
        },
    ];
    let tree = build_tree(String::from("root"), &listing);
    assert!(tree.is_well_formed());
    let plan = dir_from_json(&tree, String::from(""));
    let mut disk = Disk::new();
    let failed = run(&plan, &mut disk);
    assert_eq!(failed, vec![2]);
    assert_eq!(disk.get("root/same"), Some(&file("f")));
}
