use dgen::materialize::{
    dir_from_json, directory_path, file_path, next_step, next_step_under, OnFailure, Step,
};
use dgen::tree::{FileNode, FolderNode};

fn sample_tree() -> FolderNode {
    let mut sub = FolderNode::new(String::from("sub"));
    sub.push_file(FileNode::new(String::from("b.txt"), String::from("bye")));
    let mut root = FolderNode::new(String::from("root"));
    root.push_file(FileNode::new(String::from("a.txt"), String::from("hi")));
    root.push_folder(sub);
    root
}

fn create(path: &str, inside: usize) -> Step {
    Step::CreateDir {
        path: String::from(path),
        inside,
    }
}

fn write(path: &str, content: &str) -> Step {
    Step::WriteFile {
        path: String::from(path),
        content: String::from(content),
    }
}

#[test]
fn plan_of_a_small_tree() {
    let plan = dir_from_json(&sample_tree(), String::from("/work/"));
    assert_eq!(
        plan,
        vec![
            create("/work/root/", 3),
            write("/work/root/a.txt", "hi"),
            create("/work/root/sub/", 1),
            write("/work/root/sub/b.txt", "bye"),
        ]
    );
}

#[test]
fn plan_of_an_empty_folder() {
    let plan = dir_from_json(&FolderNode::new(String::from("e")), String::from(""));
    assert_eq!(plan, vec![create("e/", 0)]);
}

#[test]
fn plan_writes_files_before_folders_and_siblings_in_order() {
    let mut first = FolderNode::new(String::from("p"));
    first.push_folder(FolderNode::new(String::from("pp")));
    first.push_file(FileNode::new(String::from("pf"), String::from("1")));
    let mut root = FolderNode::new(String::from("r"));
    root.push_folder(first);
    root.push_folder(FolderNode::new(String::from("q")));
    root.push_file(FileNode::new(String::from("f"), String::from("2")));
    let plan = dir_from_json(&root, String::from("x/"));
    assert_eq!(
        plan,
        vec![
            create("x/r/", 5),
            write("x/r/f", "2"),
            create("x/r/p/", 2),
            write("x/r/p/pf", "1"),
            create("x/r/p/pp/", 0),
            create("x/r/q/", 0),
        ]
    );
}

#[test]
fn failed_root_directory_ends_the_plan() {
    let plan = dir_from_json(&sample_tree(), String::from("/work/"));
    assert_eq!(next_step(&plan, 0, false), plan.len());
    assert_eq!(next_step(&plan, 0, true), 1);
}

#[test]
fn failed_directory_passes_over_what_is_inside_it() {
    let mut first = FolderNode::new(String::from("p"));
    first.push_file(FileNode::new(String::from("pf"), String::from("1")));
    let mut root = FolderNode::new(String::from("r"));
    root.push_folder(first);
    root.push_folder(FolderNode::new(String::from("q")));
    let plan = dir_from_json(&root, String::from(""));
    assert_eq!(plan.len(), 4);
    assert_eq!(next_step(&plan, 1, false), 3);
    assert_eq!(next_step(&plan, 1, true), 2);
    assert_eq!(next_step(&plan, 3, false), 4);
}

#[test]
fn failed_file_goes_on_with_the_next_step() {
    let plan = dir_from_json(&sample_tree(), String::from(""));
    assert_eq!(next_step(&plan, 1, false), 2);
    assert_eq!(next_step(&plan, 1, true), 2);
    assert_eq!(next_step(&plan, 3, false), 4);
}

#[test]
fn next_step_behind_the_plan_is_its_length() {
    let plan = dir_from_json(&sample_tree(), String::from(""));
    assert_eq!(next_step(&plan, 4, true), 4);
    assert_eq!(next_step(&plan, 9, false), 4);
}

#[test]
fn next_step_on_a_step_that_claims_too_much() {
    let plan = vec![create("a/", usize::MAX), write("a/f", "")];
    assert_eq!(next_step(&plan, 0, false), 2);
}

#[test]
fn directory_path_ends_in_a_separator() {
    assert_eq!(directory_path("/work/", "root"), "/work/root/");
    assert_eq!(directory_path("", "root"), "root/");
}

#[test]
fn file_path_is_directory_then_name() {
    assert_eq!(file_path("/work/root/", "a.txt"), "/work/root/a.txt");
}

#[test]
fn going_on_is_the_default() {
    assert_eq!(OnFailure::default(), OnFailure::Continue);
}

#[test]
fn under_continue_the_next_step_is_as_without_a_rule() {
    let plan = dir_from_json(&sample_tree(), String::from(""));
    for at in 0..6 {
        for succeeded in [true, false] {
            assert_eq!(
                next_step_under(&plan, at, succeeded, OnFailure::Continue),
                next_step(&plan, at, succeeded)
            );
        }
    }
}

#[test]
fn under_abort_a_failure_ends_the_plan() {
    let plan = dir_from_json(&sample_tree(), String::from(""));
    assert_eq!(next_step_under(&plan, 1, false, OnFailure::Abort), 4);
    assert_eq!(next_step_under(&plan, 2, false, OnFailure::Abort), 4);
    assert_eq!(next_step_under(&plan, 1, true, OnFailure::Abort), 2);
    assert_eq!(next_step_under(&plan, 2, true, OnFailure::Abort), 3);
}
