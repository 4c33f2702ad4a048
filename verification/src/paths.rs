//! Where the steps of a plan work on the disk, and why no two of them meet.
use crate::disk::{
    distinct_paths, free_for, lemma_directory_place, lemma_run_on_free_disk,
    lemma_written_holds_each_step, lemma_written_keeps_the_rest, run_from, step_entry, step_path,
    written, Entry,
};
use crate::materialize::{child_path, file_step, file_steps, folder_steps, folders_steps, StepView};
use crate::scan::{built_tree, lemma_built_tree_well_formed, well_listed, ScanView};
use crate::tree::{
    clash_free, distinct_folder_names, valid_name, well_formed, FileView, FolderView,
};
use vstd::prelude::*;
use vstd::string::*;

verus! {

/// `path` begins with `start`.
pub open spec fn starts_with(path: Seq<char>, start: Seq<char>) -> bool {
    start.len() <= path.len() && forall|i: int| 0 <= i < start.len() ==> path[i] == start[i]
}

/// `path` is the place of the directory `name` under `dir`, or lies inside
/// that directory.
pub open spec fn in_child(path: Seq<char>, dir: Seq<char>, name: Seq<char>) -> bool {
    &&& starts_with(path, dir + name)
    &&& path.len() == dir.len() + name.len() || path[(dir.len() + name.len()) as int] == '/'
}

/// `path` is the place of one of the first `n` of `folders` under `dir`, or
/// lies inside it.
pub open spec fn under_child(path: Seq<char>, dir: Seq<char>, folders: Seq<FolderView>, n: nat) -> bool {
    exists|c: int|
        0 <= c < n && c < folders.len() && in_child(path, dir, (#[trigger] folders[c]).name)
}

/// A directory's path, character by character: the parent, the name, a separator.
pub proof fn lemma_child_path(parent: Seq<char>, name: Seq<char>)
    ensures
        child_path(parent, name).len() == parent.len() + name.len() + 1,
        forall|i: int| 0 <= i < parent.len() ==> child_path(parent, name)[i] == parent[i],
        forall|i: int|
            0 <= i < name.len() ==> child_path(parent, name)[parent.len() + i] == name[i],
        child_path(parent, name)[(parent.len() + name.len()) as int] == '/',
        starts_with(child_path(parent, name), parent + name),
{
    reveal_strlit("/");
}

/// A place on the disk belongs to one directory of a given parent at most.
pub proof fn lemma_same_child(path: Seq<char>, dir: Seq<char>, a: Seq<char>, b: Seq<char>)
    requires
        valid_name(a),
        valid_name(b),
        in_child(path, dir, a),
        in_child(path, dir, b),
    ensures
        a == b,
{
    if a.len() < b.len() {
        assert(path[(dir.len() + a.len()) as int] == (dir + b)[(dir.len() + a.len()) as int]);
        assert((dir + b)[(dir.len() + a.len()) as int] == b[a.len() as int]);
    } else if b.len() < a.len() {
        assert(path[(dir.len() + b.len()) as int] == (dir + a)[(dir.len() + b.len()) as int]);
        assert((dir + a)[(dir.len() + b.len()) as int] == a[b.len() as int]);
    } else {
        assert forall|i: int| 0 <= i < a.len() implies a[i] == b[i] by {
            assert(path[dir.len() + i] == (dir + a)[dir.len() + i]);
            assert(path[dir.len() + i] == (dir + b)[dir.len() + i]);
        }
        assert(a =~= b);
    }
}

/// What belongs to a directory of `parent/name/` lies inside `parent/name`.
pub proof fn lemma_in_child_of_child(
    path: Seq<char>,
    parent: Seq<char>,
    name: Seq<char>,
    below: Seq<char>,
)
    requires
        in_child(path, child_path(parent, name), below),
    ensures
        in_child(path, parent, name),
        path.len() > parent.len() + name.len(),
{
    let dir = child_path(parent, name);
    lemma_child_path(parent, name);
    assert forall|i: int| 0 <= i < (parent + name).len() implies path[i] == (parent + name)[i] by {
        assert(path[i] == (dir + below)[i]);
        assert((dir + below)[i] == dir[i]);
    }
    let at = (parent.len() + name.len()) as int;
    assert(path[at] == (dir + below)[at]);
    assert((dir + below)[at] == dir[at]);
}

/// A file in the directory `parent/name/` lies inside `parent/name`.
pub proof fn lemma_file_in_child(parent: Seq<char>, name: Seq<char>, file: Seq<char>)
    ensures
        in_child(child_path(parent, name) + file, parent, name),
{
    let dir = child_path(parent, name);
    lemma_child_path(parent, name);
    assert forall|i: int| 0 <= i < (parent + name).len() implies (dir + file)[i] == (parent
        + name)[i] by {
        assert((dir + file)[i] == dir[i]);
    }
    let at = (parent.len() + name.len()) as int;
    assert((dir + file)[at] == dir[at]);
}

/// Every step in the plans of sub-folders works on the place of one of them
/// or inside it.
pub proof fn lemma_folders_under(dir: Seq<char>, folders: Seq<FolderView>, n: nat)
    requires
        n <= folders.len(),
    ensures
        forall|k: int|
            0 <= k < folders_steps(dir, folders, n).len() ==> under_child(
                step_path(#[trigger] folders_steps(dir, folders, n)[k]),
                dir,
                folders,
                n,
            ),
    decreases folders, n,
{
    if n > 0 {
        lemma_folders_under(dir, folders, (n - 1) as nat);
        lemma_folder_under(dir, folders[n - 1]);
        let before = folders_steps(dir, folders, (n - 1) as nat);
        let last = folder_steps(dir, folders[n - 1]);
        let all = folders_steps(dir, folders, n);
        assert(all == before + last);
        assert forall|k: int| 0 <= k < all.len() implies under_child(
            step_path(#[trigger] all[k]),
            dir,
            folders,
            n,
        ) by {
            if k < before.len() {
                assert(all[k] == before[k]);
                assert(under_child(step_path(before[k]), dir, folders, (n - 1) as nat));
                let c = choose|c: int|
                    0 <= c < n - 1 && c < folders.len() && in_child(
                        step_path(before[k]),
                        dir,
                        (#[trigger] folders[c]).name,
                    );
                assert(in_child(step_path(all[k]), dir, folders[c].name));
            } else {
                assert(all[k] == last[k - before.len()]);
                assert(in_child(step_path(all[k]), dir, folders[n - 1].name));
            }
        }
    } else {
        assert(folders_steps(dir, folders, n) == Seq::<StepView>::empty());
    }
}

/// Every step of a folder's plan works on the place of the folder's own
/// directory or inside it.
pub proof fn lemma_folder_under(parent: Seq<char>, folder: FolderView)
    ensures
        forall|k: int|
            0 <= k < folder_steps(parent, folder).len() ==> in_child(
                step_path(#[trigger] folder_steps(parent, folder)[k]),
                parent,
                folder.name,
            ),
    decreases folder, 1nat,
{
    let dir = child_path(parent, folder.name);
    let plan = folder_steps(parent, folder);
    let files = file_steps(dir, folder.files);
    let below = folders_steps(dir, folder.folders, folder.folders.len());
    lemma_folders_under(dir, folder.folders, folder.folders.len());
    lemma_directory_place(parent, folder.name);
    assert(plan == seq![StepView::CreateDir { path: dir, inside: (files + below).len() }] + (files
        + below));
    assert forall|k: int| 0 <= k < plan.len() implies in_child(
        step_path(#[trigger] plan[k]),
        parent,
        folder.name,
    ) by {
        if k == 0 {
            assert(step_path(plan[0]) == parent + folder.name);
        } else if k - 1 < files.len() {
            assert(plan[k] == file_step(dir, folder.files[k - 1]));
            lemma_file_in_child(parent, folder.name, folder.files[k - 1].name);
        } else {
            let at = k - 1 - files.len();
            assert(plan[k] == below[at]);
            assert(under_child(step_path(below[at]), dir, folder.folders, folder.folders.len()));
            let c = choose|c: int|
                0 <= c < folder.folders.len() && in_child(
                    step_path(below[at]),
                    dir,
                    (#[trigger] folder.folders[c]).name,
                );
            lemma_in_child_of_child(step_path(below[at]), parent, folder.name, folder.folders[c].name);
        }
    }
}

/// The plans of sub-folders that a disk can hold, with distinct names, do
/// not meet.
pub proof fn lemma_folders_distinct(dir: Seq<char>, folders: Seq<FolderView>, n: nat)
    requires
        n <= folders.len(),
        distinct_folder_names(folders),
        forall|j: int| 0 <= j < folders.len() ==> well_formed(#[trigger] folders[j]),
        forall|j: int| 0 <= j < folders.len() ==> clash_free(#[trigger] folders[j]),
    ensures
        distinct_paths(folders_steps(dir, folders, n)),
    decreases folders, n,
{
    if n > 0 {
        lemma_folders_distinct(dir, folders, (n - 1) as nat);
        lemma_folder_distinct(dir, folders[n - 1]);
        lemma_folders_under(dir, folders, (n - 1) as nat);
        lemma_folder_under(dir, folders[n - 1]);
        let before = folders_steps(dir, folders, (n - 1) as nat);
        let last = folder_steps(dir, folders[n - 1]);
        let all = folders_steps(dir, folders, n);
        assert(all == before + last);
        assert forall|i: int, j: int| 0 <= i < j < all.len() implies step_path(#[trigger] all[i])
            != step_path(#[trigger] all[j]) by {
            if j < before.len() {
                assert(all[i] == before[i] && all[j] == before[j]);
            } else if i >= before.len() {
                assert(all[i] == last[i - before.len()] && all[j] == last[j - before.len()]);
            } else {
                assert(all[i] == before[i] && all[j] == last[j - before.len()]);
                assert(under_child(step_path(before[i]), dir, folders, (n - 1) as nat));
                let c = choose|c: int|
                    0 <= c < n - 1 && c < folders.len() && in_child(
                        step_path(before[i]),
                        dir,
                        (#[trigger] folders[c]).name,
                    );
                assert(well_formed(folders[c]));
                assert(well_formed(folders[n - 1]));
                if step_path(all[i]) == step_path(all[j]) {
                    lemma_same_child(
                        step_path(all[i]),
                        dir,
                        folders[c].name,
                        folders[n - 1].name,
                    );
                    assert(false);
                }
            }
        }
    } else {
        assert(folders_steps(dir, folders, n) == Seq::<StepView>::empty());
    }
}

/// No two steps of the plan of a folder that a disk can hold work on the
/// same place.
pub proof fn lemma_folder_distinct(parent: Seq<char>, folder: FolderView)
    requires
        well_formed(folder),
        clash_free(folder),
    ensures
        distinct_paths(folder_steps(parent, folder)),
    decreases folder, 1nat,
{
    let dir = child_path(parent, folder.name);
    let plan = folder_steps(parent, folder);
    let files = file_steps(dir, folder.files);
    let below = folders_steps(dir, folder.folders, folder.folders.len());
    lemma_folders_distinct(dir, folder.folders, folder.folders.len());
    lemma_folders_under(dir, folder.folders, folder.folders.len());
    lemma_directory_place(parent, folder.name);
    lemma_child_path(parent, folder.name);
    assert(step_path(plan[0]) == parent + folder.name);
    assert(plan == seq![StepView::CreateDir { path: dir, inside: (files + below).len() }] + (files
        + below));
    assert forall|i: int, j: int| 0 <= i < j < plan.len() implies step_path(#[trigger] plan[i])
        != step_path(#[trigger] plan[j]) by {
        let nfiles = files.len() as int;
        if j - 1 < nfiles {
            let second = folder.files[j - 1];
            assert(plan[j] == file_step(dir, second));
            assert(valid_name(second.name));
            if i == 0 {
                assert(step_path(plan[j]).len() > (parent + folder.name).len());
            } else {
                let first = folder.files[i - 1];
                assert(plan[i] == file_step(dir, first));
                if step_path(plan[i]) == step_path(plan[j]) {
                    assert((dir + first.name).len() == (dir + second.name).len());
                    assert(first.name.len() == second.name.len());
                    assert forall|x: int| 0 <= x < first.name.len() implies first.name[x]
                        == second.name[x] by {
                        assert((dir + first.name)[dir.len() + x] == first.name[x]);
                        assert((dir + second.name)[dir.len() + x] == second.name[x]);
                    }
                    assert(first.name =~= second.name);
                    assert(false);
                }
            }
        } else {
            let at = j - 1 - nfiles;
            assert(plan[j] == below[at]);
            assert(under_child(step_path(below[at]), dir, folder.folders, folder.folders.len()));
            let c = choose|c: int|
                0 <= c < folder.folders.len() && in_child(
                    step_path(below[at]),
                    dir,
                    (#[trigger] folder.folders[c]).name,
                );
            let child = folder.folders[c].name;
            if i == 0 {
                lemma_in_child_of_child(step_path(below[at]), parent, folder.name, child);
            } else if i - 1 < nfiles {
                let first = folder.files[i - 1];
                assert(plan[i] == file_step(dir, first));
                assert(valid_name(first.name));
                if step_path(plan[i]) == step_path(plan[j]) {
                    let path = dir + first.name;
                    assert(in_child(path, dir, child));
                    if first.name.len() == child.len() {
                        assert forall|x: int| 0 <= x < child.len() implies first.name[x]
                            == child[x] by {
                            assert(path[dir.len() + x] == first.name[x]);
                            assert(path[dir.len() + x] == (dir + child)[dir.len() + x]);
                        }
                        assert(first.name =~= child);
                        assert(false);
                    } else {
                        assert(path[(dir.len() + child.len()) as int] == first.name[child.len() as int]);
                        assert(false);
                    }
                }
            } else {
                assert(plan[i] == below[i - 1 - nfiles]);
            }
        }
    }
}

/// Each step of `plan` has left on `disk` what it puts there.
pub open spec fn holds_plan(disk: Map<Seq<char>, Entry>, plan: Seq<StepView>) -> bool {
    forall|k: int|
        0 <= k < plan.len() ==> disk.contains_key(step_path(#[trigger] plan[k])) && disk[step_path(
            plan[k],
        )] == step_entry(plan[k])
}

/// Each of `files` lies in the directory `dir` with its content.
pub open spec fn files_on_disk(disk: Map<Seq<char>, Entry>, dir: Seq<char>, files: Seq<FileView>) -> bool {
    forall|i: int|
        0 <= i < files.len() ==> disk.contains_key(dir + (#[trigger] files[i]).name) && disk[dir
            + files[i].name] == (Entry::File { content: files[i].content })
}

/// The tree lies on the disk under `parent`: the folder's directory is there,
/// each of its files lies in it with its content, and each of its sub-folders
/// lies under it in the same way.
pub open spec fn tree_on_disk(disk: Map<Seq<char>, Entry>, parent: Seq<char>, folder: FolderView) -> bool
    decreases folder,
{
    &&& disk.contains_key(parent + folder.name)
    &&& disk[parent + folder.name] == Entry::Directory
    &&& files_on_disk(disk, child_path(parent, folder.name), folder.files)
    &&& forall|i: int|
        0 <= i < folder.folders.len() ==> tree_on_disk(
            disk,
            child_path(parent, folder.name),
            #[trigger] folder.folders[i],
        )
}

/// A disk that holds what a plan leaves holds what each part of it leaves.
pub proof fn lemma_holds_parts(disk: Map<Seq<char>, Entry>, a: Seq<StepView>, b: Seq<StepView>)
    requires
        holds_plan(disk, a + b),
    ensures
        holds_plan(disk, a),
        holds_plan(disk, b),
{
    let all = a + b;
    assert forall|k: int| 0 <= k < a.len() implies disk.contains_key(step_path(#[trigger] a[k]))
        && disk[step_path(a[k])] == step_entry(a[k]) by {
        assert(all[k] == a[k]);
    }
    assert forall|k: int| 0 <= k < b.len() implies disk.contains_key(step_path(#[trigger] b[k]))
        && disk[step_path(b[k])] == step_entry(b[k]) by {
        assert(all[a.len() + k] == b[k]);
    }
}

/// A disk that holds what the plans of sub-folders leave holds each of them.
pub proof fn lemma_folders_on_disk(
    disk: Map<Seq<char>, Entry>,
    dir: Seq<char>,
    folders: Seq<FolderView>,
    n: nat,
)
    requires
        n <= folders.len(),
        holds_plan(disk, folders_steps(dir, folders, n)),
    ensures
        forall|c: int| 0 <= c < n ==> tree_on_disk(disk, dir, #[trigger] folders[c]),
    decreases folders, n,
{
    if n > 0 {
        let before = folders_steps(dir, folders, (n - 1) as nat);
        let last = folder_steps(dir, folders[n - 1]);
        assert(folders_steps(dir, folders, n) == before + last);
        lemma_holds_parts(disk, before, last);
        lemma_folders_on_disk(disk, dir, folders, (n - 1) as nat);
        lemma_folder_on_disk(disk, dir, folders[n - 1]);
    }
}

/// A disk that holds what a folder's plan leaves holds the folder's tree.
pub proof fn lemma_folder_on_disk(
    disk: Map<Seq<char>, Entry>,
    parent: Seq<char>,
    folder: FolderView,
)
    requires
        holds_plan(disk, folder_steps(parent, folder)),
    ensures
        tree_on_disk(disk, parent, folder),
    decreases folder, 1nat,
{
    let dir = child_path(parent, folder.name);
    let plan = folder_steps(parent, folder);
    let files = file_steps(dir, folder.files);
    let below = folders_steps(dir, folder.folders, folder.folders.len());
    let first = seq![StepView::CreateDir { path: dir, inside: (files + below).len() }];
    assert(plan == first + (files + below));
    lemma_holds_parts(disk, first, files + below);
    lemma_holds_parts(disk, files, below);
    lemma_directory_place(parent, folder.name);
    assert(step_path(first[0]) == parent + folder.name);
    assert forall|i: int| 0 <= i < folder.files.len() implies disk.contains_key(
        dir + (#[trigger] folder.files[i]).name,
    ) && disk[dir + folder.files[i].name] == (Entry::File { content: folder.files[i].content }) by {
        assert(files[i] == file_step(dir, folder.files[i]));
    }
    lemma_folders_on_disk(disk, dir, folder.folders, folder.folders.len());
}

/// Into an empty place, the whole tree is written. Let the folder be well
/// formed, with no file named as a folder beside it, and let the disk hold
/// nothing where the plan works. Then running the plan does every step: the
/// tree lies on the disk afterwards, and what the disk held before it holds
/// still.
pub proof fn lemma_materialize_into_empty_place(
    parent: Seq<char>,
    folder: FolderView,
    disk: Map<Seq<char>, Entry>,
)
    requires
        well_formed(folder),
        clash_free(folder),
        free_for(disk, folder_steps(parent, folder)),
    ensures
        run_from(folder_steps(parent, folder), 0, disk) == written(
            folder_steps(parent, folder),
            folder_steps(parent, folder).len(),
            disk,
        ),
        tree_on_disk(run_from(folder_steps(parent, folder), 0, disk), parent, folder),
        forall|path: Seq<char>| #[trigger]
            disk.contains_key(path) ==> run_from(folder_steps(parent, folder), 0, disk).contains_key(
                path,
            ) && run_from(folder_steps(parent, folder), 0, disk)[path] == disk[path],
{
    let plan = folder_steps(parent, folder);
    lemma_folder_distinct(parent, folder);
    lemma_run_on_free_disk(plan, disk);
    lemma_written_holds_each_step(plan, plan.len(), disk);
    lemma_folder_on_disk(run_from(plan, 0, disk), parent, folder);
    assert forall|path: Seq<char>| #[trigger] disk.contains_key(path) implies run_from(
        plan,
        0,
        disk,
    ).contains_key(path) && run_from(plan, 0, disk)[path] == disk[path] by {
        lemma_written_keeps_the_rest(plan, plan.len(), disk, path);
    }
}

/// What was scanned can be written again. The tree built under a base name
/// from a listing that a disk can give lies on the disk once its plan was run
/// in a place that was empty for it.
pub proof fn lemma_scanned_tree_is_written(
    name: Seq<char>,
    entries: Seq<ScanView>,
    parent: Seq<char>,
    disk: Map<Seq<char>, Entry>,
)
    requires
        valid_name(name),
        well_listed(entries),
        free_for(disk, folder_steps(parent, built_tree(name, entries))),
    ensures
        tree_on_disk(
            run_from(folder_steps(parent, built_tree(name, entries)), 0, disk),
            parent,
            built_tree(name, entries),
        ),
{
    lemma_built_tree_well_formed(name, entries);
    lemma_materialize_into_empty_place(parent, built_tree(name, entries), disk);
}

} // verus!
