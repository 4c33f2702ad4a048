//! Writing a tree back to disk, as a plan of steps.
//!
//! A plan lists, in the order in which they are to be done, the directories to
//! create and the files to write. A directory must not exist yet: where its
//! creation fails, everything inside it is passed over and the plan goes on
//! behind it. A file is written whether or not it exists. The caller does each
//! step and asks `next_step` where to go on; with `next_step_under` it can
//! also choose to give up at the first step that fails.
use crate::tree::{lemma_folders_view, FileView, FolderNode, FolderView};
use vstd::prelude::*;
use vstd::string::*;

verus! {

/// One step of a plan.
#[derive(Debug, PartialEq, Eq)]
pub enum Step {
    /// Create the directory `path`, which must not exist. The `inside` steps
    /// that follow lie in that directory.
    CreateDir { path: String, inside: usize },
    /// Write `content` as the whole of the file `path`.
    WriteFile { path: String, content: String },
}

/// What to do when a step fails.
#[derive(Debug, Clone, Copy, PartialEq, Eq, Structural)]
pub enum OnFailure {
    /// Pass over what lies inside a directory that could not be created, go
    /// on with the rest, and leave it to the caller to report at the end
    /// what failed.
    Continue,
    /// Do no further step.
    Abort,
}

impl Default for OnFailure {
    /// To go on is the default.
    fn default() -> (res: OnFailure)
        ensures
            res == OnFailure::Continue,
    {
        OnFailure::Continue
    }
}

/// What a `Step` stands for.
pub ghost enum StepView {
    CreateDir { path: Seq<char>, inside: nat },
    WriteFile { path: Seq<char>, content: Seq<char> },
}

impl View for Step {
    type V = StepView;

    open spec fn view(&self) -> StepView {
        match *self {
            Step::CreateDir { path, inside } => StepView::CreateDir {
                path: path@,
                inside: inside as nat,
            },
            Step::WriteFile { path, content } => StepView::WriteFile {
                path: path@,
                content: content@,
            },
        }
    }
}

/// The views of the steps of a plan.
pub open spec fn plan_view(steps: Seq<Step>) -> Seq<StepView> {
    steps.map_values(|s: Step| s@)
}

/// The path of the directory `name` under `parent`, with the separator that
/// ends it. `parent` ends in a separator itself, or is empty.
pub open spec fn child_path(parent: Seq<char>, name: Seq<char>) -> Seq<char> {
    parent + name + "/"@
}

/// The step that writes `file` into the directory `dir`.
pub open spec fn file_step(dir: Seq<char>, file: FileView) -> StepView {
    StepView::WriteFile { path: dir + file.name, content: file.content }
}

/// The steps that write `files` into the directory `dir`, in their order.
pub open spec fn file_steps(dir: Seq<char>, files: Seq<FileView>) -> Seq<StepView> {
    files.map_values(|f: FileView| file_step(dir, f))
}

/// The plans of the first `n` of `folders` under `dir`, one behind the other.
pub open spec fn folders_steps(dir: Seq<char>, folders: Seq<FolderView>, n: nat) -> Seq<StepView>
    decreases folders, n,
{
    if n == 0 || n > folders.len() {
        Seq::empty()
    } else {
        folders_steps(dir, folders, (n - 1) as nat) + folder_steps(dir, folders[n - 1])
    }
}

/// What lies inside `folder`, whose own path is `dir`: its files, then its
/// sub-folders.
pub open spec fn inner_steps(dir: Seq<char>, folder: FolderView) -> Seq<StepView>
    decreases folder, 0nat,
{
    file_steps(dir, folder.files) + folders_steps(dir, folder.folders, folder.folders.len())
}

/// The plan for `folder` under `parent`: create its directory, write its
/// files, then do the same for each sub-folder under the new directory.
pub open spec fn folder_steps(parent: Seq<char>, folder: FolderView) -> Seq<StepView>
    decreases folder, 1nat,
{
    let dir = child_path(parent, folder.name);
    let inner = inner_steps(dir, folder);
    seq![StepView::CreateDir { path: dir, inside: inner.len() }] + inner
}

/// Where a plan goes on after the step at `at`: behind the step, or, after a
/// directory that could not be created, behind all that lies inside it.
pub open spec fn step_after(plan: Seq<StepView>, at: int, succeeded: bool) -> int {
    if at < 0 || at >= plan.len() {
        plan.len() as int
    } else {
        match plan[at] {
            StepView::CreateDir { path, inside } => if succeeded || inside == 0 {
                at + 1
            } else if at + 1 + inside >= plan.len() {
                plan.len() as int
            } else {
                at + 1 + inside
            },
            StepView::WriteFile { .. } => at + 1,
        }
    }
}

/// Where a plan goes on after the step at `at` under the rule `on_failure`:
/// where `step_after` says, or nowhere after a failure that ends the run.
pub open spec fn step_after_under(
    plan: Seq<StepView>,
    at: int,
    succeeded: bool,
    on_failure: OnFailure,
) -> int {
    if !succeeded && on_failure == OnFailure::Abort {
        plan.len() as int
    } else {
        step_after(plan, at, succeeded)
    }
}

/// The path of the directory `name` under `parent`.
pub fn directory_path(parent: &str, name: &str) -> (path: String)
    ensures
        path@ == child_path(parent@, name@),
{
    let mut path = String::from_str(parent);
    path.append(name);
    path.append("/");
    path
}

/// The path of the file `name` in the directory `dir`.
pub fn file_path(dir: &str, name: &str) -> (path: String)
    ensures
        path@ == dir@ + name@,
{
    let mut path = String::from_str(dir);
    path.append(name);
    path
}

/// The plan that writes `folder` under the directory `path`.
pub fn dir_from_json(folder: &FolderNode, path: String) -> (steps: Vec<Step>)
    ensures
        plan_view(steps@) == folder_steps(path@, folder@),
    decreases folder,
{
    let new_path = directory_path(path.as_str(), folder.name.as_str());
    let mut inner: Vec<Step> = Vec::new();
    let mut i: usize = 0;
    while i < folder.files.len()
        invariant
            i <= folder.files.len(),
            inner.len() == i,
            forall|j: int| 0 <= j < i ==> inner[j]@ == file_step(new_path@, folder.files[j]@),
        decreases folder.files.len() - i,
    {
        let file = &folder.files[i];
        inner.push(
            Step::WriteFile {
                path: file_path(new_path.as_str(), file.name.as_str()),
                content: file.content.clone(),
            },
        );
        i += 1;
    }
    proof {
        lemma_folders_view(folder.folders, folder.folders.len() as nat);
        assert(plan_view(inner@) =~= file_steps(new_path@, folder@.files) + folders_steps(
            new_path@,
            folder@.folders,
            0,
        ));
    }
    let mut k: usize = 0;
    while k < folder.folders.len()
        invariant
            k <= folder.folders.len(),
            folder@.folders.len() == folder.folders.len(),
            forall|j: int| 0 <= j < folder.folders.len() ==> folder@.folders[j] == folder.folders[j]@,
            plan_view(inner@) == file_steps(new_path@, folder@.files) + folders_steps(
                new_path@,
                folder@.folders,
                k as nat,
            ),
        decreases folder.folders.len() - k,
    {
        let mut below = dir_from_json(&folder.folders[k], new_path.clone());
        let ghost before = inner@;
        let ghost added = below@;
        inner.append(&mut below);
        proof {
            assert(plan_view(inner@) =~= plan_view(before) + plan_view(added));
            assert(plan_view(inner@) =~= file_steps(new_path@, folder@.files) + folders_steps(
                new_path@,
                folder@.folders,
                (k + 1) as nat,
            ));
        }
        k += 1;
    }
    let mut steps: Vec<Step> = Vec::new();
    steps.push(Step::CreateDir { path: new_path, inside: inner.len() });
    let ghost first = steps@;
    let ghost rest = inner@;
    steps.append(&mut inner);
    proof {
        assert(plan_view(rest) == inner_steps(new_path@, folder@));
        assert(plan_view(steps@) =~= plan_view(first) + plan_view(rest));
        assert(plan_view(first) =~= seq![
            StepView::CreateDir { path: new_path@, inside: rest.len() },
        ]);
    }
    steps
}

/// Where to go on in `steps` after the step at `at` was done and succeeded or
/// not. The plan is finished when the result is its length.
pub fn next_step(steps: &Vec<Step>, at: usize, succeeded: bool) -> (next: usize)
    ensures
        next == step_after(plan_view(steps@), at as int, succeeded),
        at < steps.len() ==> at < next <= steps.len(),
{
    if at >= steps.len() {
        return steps.len();
    }
    proof {
        assert(plan_view(steps@)[at as int] == steps[at as int]@);
    }
    match &steps[at] {
        Step::CreateDir { path: _, inside } => {
            if succeeded || *inside == 0 {
                at + 1
            } else if *inside >= steps.len() - at - 1 {
                steps.len()
            } else {
                at + 1 + *inside
            }
        },
        Step::WriteFile { .. } => at + 1,
    }
}

/// Where to go on in `steps` after the step at `at` was done and succeeded or
/// not, under the rule `on_failure`. The plan is finished when the result is
/// its length.
pub fn next_step_under(steps: &Vec<Step>, at: usize, succeeded: bool, on_failure: OnFailure) -> (next:
    usize)
    ensures
        next == step_after_under(plan_view(steps@), at as int, succeeded, on_failure),
        at < steps.len() ==> at < next <= steps.len(),
{
    match on_failure {
        OnFailure::Abort => {
            if succeeded {
                next_step(steps, at, succeeded)
            } else {
                steps.len()
            }
        },
        OnFailure::Continue => next_step(steps, at, succeeded),
    }
}

/// Creation is strict: a plan begins with the creation of the folder's own
/// directory, everything else in the plan lies inside that directory, and
/// where that first step fails the plan is finished, with nothing written.
pub proof fn lemma_failed_root_ends_plan(parent: Seq<char>, folder: FolderView)
    ensures
        folder_steps(parent, folder).len() >= 1,
        folder_steps(parent, folder)[0] == (StepView::CreateDir {
            path: child_path(parent, folder.name),
            inside: (folder_steps(parent, folder).len() - 1) as nat,
        }),
        step_after(folder_steps(parent, folder), 0, false) == folder_steps(parent, folder).len(),
{
}

} // verus!
