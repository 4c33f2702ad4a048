//! What a plan does to a disk, as a model.
//!
//! The disk is a map from paths to what lies there. A directory lies at its
//! path without the separator that ends it, so that a file and a directory
//! of one name meet. A directory can be created where nothing lies yet and
//! not otherwise; a file is written where nothing lies yet or a file lies,
//! whose content it replaces. The model knows nothing of parents: whoever
//! runs a plan sees to it that the directory in which the plan begins exists.
use crate::materialize::{child_path, folder_steps, step_after, StepView};
use crate::tree::FolderView;
use vstd::prelude::*;
use vstd::string::*;

verus! {

/// What lies at a path.
pub ghost enum Entry {
    Directory,
    File { content: Seq<char> },
}

/// `path` without the separator at its end, if it has one.
pub open spec fn without_separator(path: Seq<char>) -> Seq<char> {
    if path.len() > 0 && path.last() == '/' {
        path.drop_last()
    } else {
        path
    }
}

/// The place on the disk that a step works on.
pub open spec fn step_path(step: StepView) -> Seq<char> {
    match step {
        StepView::CreateDir { path, .. } => without_separator(path),
        StepView::WriteFile { path, .. } => path,
    }
}

/// What lies at a step's path once the step is done.
pub open spec fn step_entry(step: StepView) -> Entry {
    match step {
        StepView::CreateDir { .. } => Entry::Directory,
        StepView::WriteFile { content, .. } => Entry::File { content: content },
    }
}

/// Whether `step` can be done on `disk`.
pub open spec fn succeeds(disk: Map<Seq<char>, Entry>, step: StepView) -> bool {
    match step {
        StepView::CreateDir { .. } => !disk.contains_key(step_path(step)),
        StepView::WriteFile { path, .. } => !(disk.contains_key(path) && disk[path]
            == Entry::Directory),
    }
}

/// The disk after `step` was tried on it.
pub open spec fn disk_after(disk: Map<Seq<char>, Entry>, step: StepView) -> Map<Seq<char>, Entry> {
    if succeeds(disk, step) {
        disk.insert(step_path(step), step_entry(step))
    } else {
        disk
    }
}

/// The disk after `plan` was run on it from the step at `at` on.
pub open spec fn run_from(plan: Seq<StepView>, at: int, disk: Map<Seq<char>, Entry>) -> Map<
    Seq<char>,
    Entry,
>
    decreases plan.len() - at,
{
    if at < 0 || at >= plan.len() {
        disk
    } else {
        run_from(
            plan,
            step_after(plan, at, succeeds(disk, plan[at])),
            disk_after(disk, plan[at]),
        )
    }
}

/// The disk after the first `n` steps of `plan` were all done on it.
pub open spec fn written(plan: Seq<StepView>, n: nat, disk: Map<Seq<char>, Entry>) -> Map<
    Seq<char>,
    Entry,
>
    decreases n,
{
    if n == 0 || n > plan.len() {
        disk
    } else {
        written(plan, (n - 1) as nat, disk).insert(step_path(plan[n - 1]), step_entry(plan[n - 1]))
    }
}

/// No two steps of `plan` work on the same path.
pub open spec fn distinct_paths(plan: Seq<StepView>) -> bool {
    forall|i: int, j: int|
        0 <= i < j < plan.len() ==> step_path(#[trigger] plan[i]) != step_path(#[trigger] plan[j])
}

/// Nothing lies on `disk` at a path of `plan`.
pub open spec fn free_for(disk: Map<Seq<char>, Entry>, plan: Seq<StepView>) -> bool {
    forall|i: int| 0 <= i < plan.len() ==> !disk.contains_key(step_path(#[trigger] plan[i]))
}

/// After the first `n` steps, a path holds something only if it did before
/// or one of those steps worked on it.
pub proof fn lemma_written_keys(
    plan: Seq<StepView>,
    n: nat,
    disk: Map<Seq<char>, Entry>,
    path: Seq<char>,
)
    requires
        n <= plan.len(),
        written(plan, n, disk).contains_key(path),
    ensures
        disk.contains_key(path) || exists|k: int| 0 <= k < n && step_path(#[trigger] plan[k]) == path,
    decreases n,
{
    if n > 0 {
        if step_path(plan[n - 1]) != path {
            lemma_written_keys(plan, (n - 1) as nat, disk, path);
        }
    }
}

/// Once the first `n` steps of a plan of distinct paths are done, each of
/// their paths holds what its step put there.
pub proof fn lemma_written_holds_each_step(
    plan: Seq<StepView>,
    n: nat,
    disk: Map<Seq<char>, Entry>,
)
    requires
        n <= plan.len(),
        distinct_paths(plan),
    ensures
        forall|k: int|
            0 <= k < n ==> written(plan, n, disk).contains_key(step_path(#[trigger] plan[k]))
                && written(plan, n, disk)[step_path(plan[k])] == step_entry(plan[k]),
    decreases n,
{
    if n > 0 {
        lemma_written_holds_each_step(plan, (n - 1) as nat, disk);
        let before = written(plan, (n - 1) as nat, disk);
        let now = written(plan, n, disk);
        assert(now == before.insert(step_path(plan[n - 1]), step_entry(plan[n - 1])));
        assert forall|k: int| 0 <= k < n implies now.contains_key(step_path(#[trigger] plan[k]))
            && now[step_path(plan[k])] == step_entry(plan[k]) by {
            if k < n - 1 {
                assert(step_path(plan[k]) != step_path(plan[n - 1]));
            }
        }
    }
}

/// A path on which none of the first `n` steps works holds, once they are
/// done, what it held before.
pub proof fn lemma_written_keeps_the_rest(
    plan: Seq<StepView>,
    n: nat,
    disk: Map<Seq<char>, Entry>,
    path: Seq<char>,
)
    requires
        n <= plan.len(),
        forall|k: int| 0 <= k < n ==> step_path(#[trigger] plan[k]) != path,
    ensures
        written(plan, n, disk).contains_key(path) <==> disk.contains_key(path),
        disk.contains_key(path) ==> written(plan, n, disk)[path] == disk[path],
    decreases n,
{
    if n > 0 {
        lemma_written_keeps_the_rest(plan, (n - 1) as nat, disk, path);
        assert(step_path(plan[n - 1]) != path);
    }
}

/// On a disk that is free for it, a plan of distinct paths runs through from
/// any step on, once the steps before that one are done.
pub proof fn lemma_run_from_written(plan: Seq<StepView>, at: nat, disk: Map<Seq<char>, Entry>)
    requires
        at <= plan.len(),
        distinct_paths(plan),
        free_for(disk, plan),
    ensures
        run_from(plan, at as int, written(plan, at, disk)) == written(plan, plan.len(), disk),
    decreases plan.len() - at,
{
    if at < plan.len() {
        let now = written(plan, at, disk);
        let path = step_path(plan[at as int]);
        if now.contains_key(path) {
            lemma_written_keys(plan, at, disk, path);
            assert(false);
        }
        assert(succeeds(now, plan[at as int]));
        assert(step_after(plan, at as int, true) == at + 1);
        assert(disk_after(now, plan[at as int]) == written(plan, at + 1, disk));
        lemma_run_from_written(plan, at + 1, disk);
    }
}

/// Into an empty place, everything is written: on a disk that holds nothing
/// at the paths of a plan, and where these paths differ from each other,
/// running the plan does every step, and leaves each path with what its step
/// put there.
pub proof fn lemma_run_on_free_disk(plan: Seq<StepView>, disk: Map<Seq<char>, Entry>)
    requires
        distinct_paths(plan),
        free_for(disk, plan),
    ensures
        run_from(plan, 0, disk) == written(plan, plan.len(), disk),
{
    lemma_run_from_written(plan, 0, disk);
}

/// The place of the directory `name` under `parent` is the parent's path
/// with the name behind it.
pub proof fn lemma_directory_place(parent: Seq<char>, name: Seq<char>)
    ensures
        without_separator(child_path(parent, name)) == parent + name,
{
    reveal_strlit("/");
    assert(without_separator(child_path(parent, name)) =~= parent + name);
}

/// Creation is strict: where something lies already, a file or a directory,
/// at the place of the folder's own directory, running the folder's plan
/// changes nothing.
pub proof fn lemma_existing_root_is_not_merged(
    parent: Seq<char>,
    folder: FolderView,
    disk: Map<Seq<char>, Entry>,
)
    requires
        disk.contains_key(parent + folder.name),
    ensures
        run_from(folder_steps(parent, folder), 0, disk) == disk,
{
    let plan = folder_steps(parent, folder);
    lemma_directory_place(parent, folder.name);
    assert(!succeeds(disk, plan[0]));
    assert(step_after(plan, 0, false) == plan.len());
    assert(run_from(plan, plan.len() as int, disk) == disk);
}

/// A file is written whether or not a file lies at its path already: the
/// step succeeds, the path then holds the step's content, and nothing else
/// on the disk has changed.
pub proof fn lemma_file_write_replaces(
    disk: Map<Seq<char>, Entry>,
    path: Seq<char>,
    content: Seq<char>,
)
    requires
        disk.contains_key(path) ==> disk[path] is File,
    ensures
        succeeds(disk, StepView::WriteFile { path: path, content: content }),
        disk_after(disk, StepView::WriteFile { path: path, content: content })[path] == (
        Entry::File { content: content }),
        disk_after(disk, StepView::WriteFile { path: path, content: content }).remove(path)
            == disk.remove(path),
{
}

} // verus!
