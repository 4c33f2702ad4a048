//! The two directions, each as one call: from the listing of a directory to
//! its document and the name of the file that holds it, and from a tree and
//! the directory to write it in to the plan that writes it.
use crate::document::{blueprint_file_name, folder_json, has_literals};
use crate::materialize::{dir_from_json, folder_steps, plan_view, Step};
use crate::scan::{build_tree, built_tree, listing_view, ScanEntry};
use crate::tree::FolderNode;
use vstd::prelude::*;
use vstd::string::*;

verus! {

/// A document and the name of the file that holds it.
#[derive(Debug, PartialEq, Eq)]
pub struct Blueprint {
    pub file_name: String,
    pub document: String,
}

/// The blueprint of the directory called `root_name` that lists `entries`:
/// the document of the tree built from the listing, to be kept in the file
/// `root_name.json`. `None` where a name or a content of that tree has no
/// JSON literal.
pub fn generate_json(root_name: &str, entries: &Vec<ScanEntry>) -> (res: Option<Blueprint>)
    ensures
        res is Some <==> has_literals(built_tree(root_name@, listing_view(*entries))),
        res matches Some(blueprint) ==> {
            &&& blueprint.file_name@ == root_name@ + ".json"@
            &&& blueprint.document@ == folder_json(
                built_tree(root_name@, listing_view(*entries)),
            )
        },
{
    let tree = build_tree(root_name.to_owned(), entries);
    match tree.to_json() {
        Some(document) => Some(Blueprint { file_name: blueprint_file_name(root_name), document }),
        None => None,
    }
}

/// The plan that writes `tree` into the directory `current_dir`, whose path
/// is given without a separator at its end.
pub fn generate_dir(tree: &FolderNode, current_dir: &str) -> (plan: Vec<Step>)
    ensures
        plan_view(plan@) == folder_steps(current_dir@ + "/"@, tree@),
{
    let mut init_path = String::from_str(current_dir);
    init_path.append("/");
    dir_from_json(tree, init_path)
}

} // verus!
