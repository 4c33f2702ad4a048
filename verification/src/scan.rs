//! Directory listings, and how a listing becomes a tree.
//!
//! The caller lists a directory and reads its files; what it found is handed
//! over as `ScanEntry` values. A file that could not be read as text is
//! listed without content, and is left out of the tree.
use crate::tree::{
    clash_free, distinct_file_names, distinct_folder_names, no_shared_name, valid_name,
    well_formed, FileNode, FileView, FolderNode, FolderView,
};
use vstd::prelude::*;

verus! {

/// One entry of a directory, as it was found on disk.
#[derive(Debug, PartialEq, Eq)]
pub enum ScanEntry {
    /// A file. `content` is `None` where it could not be read as text.
    File { name: String, content: Option<String> },
    /// A sub-directory and what it lists.
    Folder { name: String, entries: Vec<ScanEntry> },
}

/// What a `ScanEntry` stands for.
pub ghost enum ScanView {
    File { name: Seq<char>, content: Option<Seq<char>> },
    Folder { name: Seq<char>, entries: Seq<ScanView> },
}

/// Whether a scanned file went into the tree.
#[derive(Debug, Clone, Copy, PartialEq, Eq, Structural)]
pub enum Disposition {
    Kept,
    Skipped,
}

/// The views of the first `n` entries of `v`.
pub open spec fn entries_view(v: Vec<ScanEntry>, n: nat) -> Seq<ScanView>
    decreases v, n,
{
    if n == 0 || n > v.len() {
        Seq::empty()
    } else {
        entries_view(v, (n - 1) as nat).push(v[n - 1]@)
    }
}

/// The view of a whole listing.
pub open spec fn listing_view(v: Vec<ScanEntry>) -> Seq<ScanView> {
    entries_view(v, v.len() as nat)
}

/// The view of a file's content, where it was read.
pub open spec fn content_view(content: Option<String>) -> Option<Seq<char>> {
    match content {
        Some(c) => Some(c@),
        None => None,
    }
}

impl View for ScanEntry {
    type V = ScanView;

    open spec fn view(&self) -> ScanView
        decreases self,
    {
        match *self {
            ScanEntry::File { name, content } => ScanView::File {
                name: name@,
                content: content_view(content),
            },
            ScanEntry::Folder { name, entries } => ScanView::Folder {
                name: name@,
                entries: entries_view(entries, entries.len() as nat),
            },
        }
    }
}

/// `entries_view` takes the view of each entry, place by place.
pub proof fn lemma_entries_view(v: Vec<ScanEntry>, n: nat)
    requires
        n <= v.len(),
    ensures
        entries_view(v, n).len() == n,
        forall|i: int| 0 <= i < n ==> entries_view(v, n)[i] == v[i]@,
    decreases n,
{
    if n > 0 {
        lemma_entries_view(v, (n - 1) as nat);
        assert(entries_view(v, n) == entries_view(v, (n - 1) as nat).push(v[n - 1]@));
    } else {
        assert(entries_view(v, n) == Seq::<ScanView>::empty());
    }
}

/// The files among the first `n` entries that were read, in their order.
pub open spec fn kept_files(entries: Seq<ScanView>, n: nat) -> Seq<FileView>
    decreases n,
{
    if n == 0 || n > entries.len() {
        Seq::empty()
    } else {
        let before = kept_files(entries, (n - 1) as nat);
        match entries[n - 1] {
            ScanView::File { name, content: Some(c) } => before.push(
                FileView { name: name, content: c },
            ),
            _ => before,
        }
    }
}

/// The trees of the sub-directories among the first `n` entries, in their order.
pub open spec fn built_folders(entries: Seq<ScanView>, n: nat) -> Seq<FolderView>
    decreases entries, n,
{
    if n == 0 || n > entries.len() {
        Seq::empty()
    } else {
        let before = built_folders(entries, (n - 1) as nat);
        match entries[n - 1] {
            ScanView::Folder { name, entries: inner } => before.push(built_tree(name, inner)),
            _ => before,
        }
    }
}

/// The tree of a directory called `name` that lists `entries`.
pub open spec fn built_tree(name: Seq<char>, entries: Seq<ScanView>) -> FolderView
    decreases entries, entries.len() + 1,
{
    FolderView {
        name: name,
        files: kept_files(entries, entries.len()),
        folders: built_folders(entries, entries.len()),
    }
}

/// Takes one scanned file into `folder`: it is added behind the folder's
/// files where its content was read, and left out where it was not.
pub fn scan_file(folder: &mut FolderNode, name: &String, content: &Option<String>) -> (res:
    Disposition)
    ensures
        content matches Some(c) ==> res == Disposition::Kept && final(folder)@ == (FolderView {
            files: old(folder)@.files.push(FileView { name: name@, content: c@ }),
            ..old(folder)@
        }),
        content is None ==> res == Disposition::Skipped && final(folder)@ == old(folder)@,
{
    match content {
        Some(c) => {
            folder.push_file(FileNode::new(name.clone(), c.clone()));
            Disposition::Kept
        },
        None => Disposition::Skipped,
    }
}

/// Fills `folder` from the listing of its directory: each file that was read
/// is added to its files, each sub-directory is built in turn and added to its
/// sub-folders, both in the order of the listing. Files that were not read
/// are passed over.
pub fn json_from_dir(folder: &mut FolderNode, entries: &Vec<ScanEntry>)
    ensures
        final(folder)@.name == old(folder)@.name,
        final(folder)@.files == old(folder)@.files + kept_files(
            listing_view(*entries),
            entries.len() as nat,
        ),
        final(folder)@.folders == old(folder)@.folders + built_folders(
            listing_view(*entries),
            entries.len() as nat,
        ),
    decreases entries,
{
    let ghost start = folder@;
    let ghost listing = listing_view(*entries);
    proof {
        lemma_entries_view(*entries, entries.len() as nat);
        assert(start.files + kept_files(listing, 0) =~= start.files);
        assert(start.folders + built_folders(listing, 0) =~= start.folders);
    }
    let mut i: usize = 0;
    while i < entries.len()
        invariant
            i <= entries.len(),
            listing == listing_view(*entries),
            listing.len() == entries.len(),
            forall|j: int| 0 <= j < entries.len() ==> listing[j] == entries[j]@,
            folder@.name == start.name,
            folder@.files == start.files + kept_files(listing, i as nat),
            folder@.folders == start.folders + built_folders(listing, i as nat),
        decreases entries.len() - i,
    {
        let ghost before = folder@;
        match &entries[i] {
            ScanEntry::File { name, content } => {
                let _ = scan_file(folder, name, content);
                proof {
                    assert(listing[i as int] == (ScanView::File {
                        name: name@,
                        content: content_view(*content),
                    }));
                    assert(folder@.files =~= start.files + kept_files(listing, (i + 1) as nat));
                    assert(built_folders(listing, (i + 1) as nat) == built_folders(
                        listing,
                        i as nat,
                    ));
                }
            },
            ScanEntry::Folder { name, entries: inner } => {
                let mut child = FolderNode::new(name.clone());
                json_from_dir(&mut child, inner);
                proof {
                    let inner_view = listing_view(*inner);
                    lemma_entries_view(*inner, inner.len() as nat);
                    assert(listing[i as int] == (ScanView::Folder {
                        name: name@,
                        entries: inner_view,
                    }));
                    assert(child@.files =~= kept_files(inner_view, inner_view.len()));
                    assert(child@.folders =~= built_folders(inner_view, inner_view.len()));
                    assert(child@ == built_tree(name@, inner_view));
                }
                folder.push_folder(child);
                proof {
                    assert(kept_files(listing, (i + 1) as nat) == kept_files(listing, i as nat));
                    assert(folder@.folders =~= start.folders + built_folders(
                        listing,
                        (i + 1) as nat,
                    ));
                }
            },
        }
        i += 1;
    }
}

/// The tree of a directory called `root_name` that lists `entries`.
pub fn build_tree(root_name: String, entries: &Vec<ScanEntry>) -> (tree: FolderNode)
    ensures
        tree@ == built_tree(root_name@, listing_view(*entries)),
{
    let mut tree = FolderNode::new(root_name);
    json_from_dir(&mut tree, entries);
    proof {
        let listing = listing_view(*entries);
        lemma_entries_view(*entries, entries.len() as nat);
        assert(tree@.files =~= kept_files(listing, listing.len()));
        assert(tree@.folders =~= built_folders(listing, listing.len()));
    }
    tree
}

/// An entry that is a file whose content could not be read.
pub open spec fn is_unread(entry: ScanView) -> bool {
    entry matches ScanView::File { content: None, .. }
}

/// The files kept from the first `n` entries depend on those entries alone.
pub proof fn lemma_kept_files_prefix(a: Seq<ScanView>, b: Seq<ScanView>, n: nat)
    requires
        n <= a.len(),
        n <= b.len(),
        forall|j: int| 0 <= j < n ==> a[j] == b[j],
    ensures
        kept_files(a, n) == kept_files(b, n),
    decreases n,
{
    if n > 0 {
        lemma_kept_files_prefix(a, b, (n - 1) as nat);
    }
}

/// The folders built from the first `n` entries depend on those entries alone.
pub proof fn lemma_built_folders_prefix(a: Seq<ScanView>, b: Seq<ScanView>, n: nat)
    requires
        n <= a.len(),
        n <= b.len(),
        forall|j: int| 0 <= j < n ==> a[j] == b[j],
    ensures
        built_folders(a, n) == built_folders(b, n),
    decreases n,
{
    if n > 0 {
        lemma_built_folders_prefix(a, b, (n - 1) as nat);
    }
}

/// Up to any place behind an unread file, the files kept are those kept
/// from the listing without that entry.
pub proof fn lemma_kept_files_without(entries: Seq<ScanView>, i: int, n: nat)
    requires
        0 <= i < n <= entries.len(),
        is_unread(entries[i]),
    ensures
        kept_files(entries, n) == kept_files(entries.remove(i), (n - 1) as nat),
    decreases n,
{
    let without = entries.remove(i);
    if n == i + 1 {
        lemma_kept_files_prefix(entries, without, i as nat);
    } else {
        lemma_kept_files_without(entries, i, (n - 1) as nat);
        assert(without[n - 2] == entries[n - 1]);
    }
}

/// Up to any place behind an unread file, the folders built are those built
/// from the listing without that entry.
pub proof fn lemma_built_folders_without(entries: Seq<ScanView>, i: int, n: nat)
    requires
        0 <= i < n <= entries.len(),
        is_unread(entries[i]),
    ensures
        built_folders(entries, n) == built_folders(entries.remove(i), (n - 1) as nat),
    decreases n,
{
    let without = entries.remove(i);
    if n == i + 1 {
        lemma_built_folders_prefix(entries, without, i as nat);
    } else {
        lemma_built_folders_without(entries, i, (n - 1) as nat);
        assert(without[n - 2] == entries[n - 1]);
    }
}

/// A file that could not be read leaves no trace: the tree built from a
/// listing that holds such a file is the tree built from the listing without
/// it. The entries before and behind it are taken as if it had not been there.
pub proof fn lemma_unread_file_leaves_no_trace(name: Seq<char>, entries: Seq<ScanView>, i: int)
    requires
        0 <= i < entries.len(),
        is_unread(entries[i]),
    ensures
        built_tree(name, entries) == built_tree(name, entries.remove(i)),
{
    lemma_kept_files_without(entries, i, entries.len());
    lemma_built_folders_without(entries, i, entries.len());
}

/// The entry under which a readable file is listed.
pub open spec fn listed_file(file: FileView) -> ScanView {
    ScanView::File { name: file.name, content: Some(file.content) }
}

/// The entries under which the first `n` of `folders` are listed.
pub open spec fn listed_folders(folders: Seq<FolderView>, n: nat) -> Seq<ScanView>
    decreases folders, n,
{
    if n == 0 || n > folders.len() {
        Seq::empty()
    } else {
        listed_folders(folders, (n - 1) as nat).push(
            ScanView::Folder { name: folders[n - 1].name, entries: listing_of(folders[n - 1]) },
        )
    }
}

/// A listing of the directory that holds exactly what `tree` holds, every
/// file readable: its files first, then its sub-directories.
pub open spec fn listing_of(tree: FolderView) -> Seq<ScanView>
    decreases tree,
{
    tree.files.map_values(|f: FileView| listed_file(f)) + listed_folders(
        tree.folders,
        tree.folders.len(),
    )
}

/// `listed_folders` lists each folder under its name, place by place.
pub proof fn lemma_listed_folders(folders: Seq<FolderView>, n: nat)
    requires
        n <= folders.len(),
    ensures
        listed_folders(folders, n).len() == n,
        forall|j: int|
            0 <= j < n ==> listed_folders(folders, n)[j] == (ScanView::Folder {
                name: folders[j].name,
                entries: listing_of(folders[j]),
            }),
    decreases n,
{
    if n > 0 {
        lemma_listed_folders(folders, (n - 1) as nat);
        assert(listed_folders(folders, n) == listed_folders(folders, (n - 1) as nat).push(
            ScanView::Folder { name: folders[n - 1].name, entries: listing_of(folders[n - 1]) },
        ));
    } else {
        assert(listed_folders(folders, n) == Seq::<ScanView>::empty());
    }
}

/// Of a listing that begins with the readable files `files`, the first `n`
/// entries give the first `n` files and no folder.
pub proof fn lemma_scan_of_listed_files(listing: Seq<ScanView>, files: Seq<FileView>, n: nat)
    requires
        n <= files.len() <= listing.len(),
        forall|j: int| 0 <= j < files.len() ==> listing[j] == listed_file(files[j]),
    ensures
        kept_files(listing, n) == files.take(n as int),
        built_folders(listing, n) == Seq::<FolderView>::empty(),
    decreases n,
{
    if n > 0 {
        lemma_scan_of_listed_files(listing, files, (n - 1) as nat);
        assert(listing[n - 1] == listed_file(files[n - 1]));
        assert(files.take(n as int) =~= files.take(n - 1).push(files[n - 1]));
    } else {
        assert(files.take(0) =~= Seq::<FileView>::empty());
    }
}

/// Of a listing that holds, from place `first` on, the folders `folders`,
/// each with a listing from which it is built again, the entries up to the
/// `n`th of them give no more files and the first `n` folders.
pub proof fn lemma_scan_of_listed_folders(
    listing: Seq<ScanView>,
    first: nat,
    folders: Seq<FolderView>,
    n: nat,
)
    requires
        n <= folders.len(),
        first + folders.len() == listing.len(),
        forall|j: int|
            0 <= j < folders.len() ==> listing[first + j] == (ScanView::Folder {
                name: folders[j].name,
                entries: listing_of(folders[j]),
            }),
        forall|j: int|
            0 <= j < folders.len() ==> built_tree(folders[j].name, listing_of(folders[j]))
                == folders[j],
    ensures
        kept_files(listing, first + n) == kept_files(listing, first),
        built_folders(listing, first + n) == built_folders(listing, first) + folders.take(
            n as int,
        ),
    decreases n,
{
    if n > 0 {
        lemma_scan_of_listed_folders(listing, first, folders, (n - 1) as nat);
        assert(listing[first + n - 1] == (ScanView::Folder {
            name: folders[n - 1].name,
            entries: listing_of(folders[n - 1]),
        }));
        assert(folders.take(n as int) =~= folders.take(n - 1).push(folders[n - 1]));
        assert(built_folders(listing, first + n) =~= built_folders(listing, first) + folders.take(
            n as int,
        ));
    } else {
        assert(built_folders(listing, first) + folders.take(0) =~= built_folders(listing, first));
    }
}

/// Scanning gives back what is on disk: the tree built from the listing of a
/// directory that holds exactly `tree`, every file readable, is `tree`.
pub proof fn lemma_scan_recovers_tree(tree: FolderView)
    ensures
        built_tree(tree.name, listing_of(tree)) == tree,
    decreases tree,
{
    let listing = listing_of(tree);
    let first = tree.files.len();
    lemma_listed_folders(tree.folders, tree.folders.len());
    assert forall|j: int| 0 <= j < tree.folders.len() implies built_tree(
        tree.folders[j].name,
        listing_of(tree.folders[j]),
    ) == tree.folders[j] by {
        lemma_scan_recovers_tree(tree.folders[j]);
    }
    assert forall|j: int| 0 <= j < tree.folders.len() implies listing[first + j] == (
    ScanView::Folder {
        name: tree.folders[j].name,
        entries: listing_of(tree.folders[j]),
    }) by {
        assert(listing[first + j] == listed_folders(tree.folders, tree.folders.len())[j]);
    }
    lemma_scan_of_listed_files(listing, tree.files, first);
    lemma_scan_of_listed_folders(listing, first, tree.folders, tree.folders.len());
    assert(tree.files.take(first as int) =~= tree.files);
    assert(tree.folders.take(tree.folders.len() as int) =~= tree.folders);
    assert(built_folders(listing, listing.len()) =~= tree.folders);
}

/// The name under which an entry is listed.
pub open spec fn entry_name(entry: ScanView) -> Seq<char> {
    match entry {
        ScanView::File { name, .. } => name,
        ScanView::Folder { name, .. } => name,
    }
}

/// The listing is one that a disk can give: every entry has a base name, no
/// two entries of a directory share a name, and the same holds in each
/// sub-directory.
pub open spec fn well_listed(entries: Seq<ScanView>) -> bool
    decreases entries,
{
    &&& forall|i: int| 0 <= i < entries.len() ==> valid_name(entry_name(#[trigger] entries[i]))
    &&& forall|i: int, j: int|
        0 <= i < j < entries.len() ==> entry_name(#[trigger] entries[i]) != entry_name(
            #[trigger] entries[j],
        )
    &&& forall|i: int|
        0 <= i < entries.len() ==> ((#[trigger] entries[i]) matches ScanView::Folder {
            entries: inner,
            ..
        } ==> well_listed(inner))
}

/// One of the first `n` entries is a file listed under `name`.
pub open spec fn file_among(entries: Seq<ScanView>, n: nat, name: Seq<char>) -> bool {
    exists|a: int|
        0 <= a < n && a < entries.len() && (#[trigger] entries[a]) is File && entry_name(
            entries[a],
        ) == name
}

/// One of the first `n` entries is a sub-directory listed under `name`.
pub open spec fn folder_among(entries: Seq<ScanView>, n: nat, name: Seq<char>) -> bool {
    exists|a: int|
        0 <= a < n && a < entries.len() && (#[trigger] entries[a]) is Folder && entry_name(
            entries[a],
        ) == name
}

/// What is built from the first `n` entries is named as one of them: a file
/// as a file, a folder as a sub-directory.
pub proof fn lemma_scan_names(entries: Seq<ScanView>, n: nat)
    requires
        n <= entries.len(),
    ensures
        forall|x: int|
            0 <= x < kept_files(entries, n).len() ==> file_among(
                entries,
                n,
                (#[trigger] kept_files(entries, n)[x]).name,
            ),
        forall|x: int|
            0 <= x < built_folders(entries, n).len() ==> folder_among(
                entries,
                n,
                (#[trigger] built_folders(entries, n)[x]).name,
            ),
    decreases n,
{
    if n > 0 {
        lemma_scan_names(entries, (n - 1) as nat);
        let files = kept_files(entries, n);
        let files_before = kept_files(entries, (n - 1) as nat);
        let folders = built_folders(entries, n);
        let folders_before = built_folders(entries, (n - 1) as nat);
        assert forall|x: int| 0 <= x < files.len() implies file_among(
            entries,
            n,
            (#[trigger] files[x]).name,
        ) by {
            if x < files_before.len() {
                assert(files[x] == files_before[x]);
                assert(file_among(entries, (n - 1) as nat, files_before[x].name));
                let a = choose|a: int|
                    0 <= a < n - 1 && a < entries.len() && (#[trigger] entries[a]) is File
                        && entry_name(entries[a]) == files_before[x].name;
                assert(entries[a] is File && entry_name(entries[a]) == files[x].name);
            } else {
                assert(entries[n - 1] is File && entry_name(entries[n - 1]) == files[x].name);
            }
        }
        assert forall|x: int| 0 <= x < folders.len() implies folder_among(
            entries,
            n,
            (#[trigger] folders[x]).name,
        ) by {
            if x < folders_before.len() {
                assert(folders[x] == folders_before[x]);
                assert(folder_among(entries, (n - 1) as nat, folders_before[x].name));
                let a = choose|a: int|
                    0 <= a < n - 1 && a < entries.len() && (#[trigger] entries[a]) is Folder
                        && entry_name(entries[a]) == folders_before[x].name;
                assert(entries[a] is Folder && entry_name(entries[a]) == folders[x].name);
            } else {
                match entries[n - 1] {
                    ScanView::Folder { name, entries: inner } => {
                        assert(folders == folders_before.push(built_tree(name, inner)));
                        assert(built_tree(name, inner).name == name);
                    },
                    _ => {},
                }
                assert(entries[n - 1] is Folder && entry_name(entries[n - 1]) == folders[x].name);
            }
        }
    }
}

/// From a listing that a disk can give, the files kept have base names that
/// differ, the folders built are such as a disk can hold and have names that
/// differ, and no file kept has the name of a folder built.
pub proof fn lemma_scan_well_formed(entries: Seq<ScanView>, n: nat)
    requires
        n <= entries.len(),
        well_listed(entries),
    ensures
        distinct_file_names(kept_files(entries, n)),
        forall|x: int|
            0 <= x < kept_files(entries, n).len() ==> valid_name(
                (#[trigger] kept_files(entries, n)[x]).name,
            ),
        distinct_folder_names(built_folders(entries, n)),
        forall|x: int|
            0 <= x < built_folders(entries, n).len() ==> well_formed(
                #[trigger] built_folders(entries, n)[x],
            ),
        forall|x: int|
            0 <= x < built_folders(entries, n).len() ==> clash_free(
                #[trigger] built_folders(entries, n)[x],
            ),
        no_shared_name(kept_files(entries, n), built_folders(entries, n)),
    decreases entries, n,
{
    let files = kept_files(entries, n);
    let folders = built_folders(entries, n);
    lemma_scan_names(entries, n);
    assert forall|x: int, y: int| 0 <= x < files.len() && 0 <= y < folders.len() implies (
    #[trigger] files[x]).name != (#[trigger] folders[y]).name by {
        assert(file_among(entries, n, files[x].name));
        assert(folder_among(entries, n, folders[y].name));
        let a = choose|a: int|
            0 <= a < n && a < entries.len() && (#[trigger] entries[a]) is File && entry_name(
                entries[a],
            ) == files[x].name;
        let b = choose|b: int|
            0 <= b < n && b < entries.len() && (#[trigger] entries[b]) is Folder && entry_name(
                entries[b],
            ) == folders[y].name;
        if a < b {
            assert(entry_name(entries[a]) != entry_name(entries[b]));
        } else {
            assert(entry_name(entries[b]) != entry_name(entries[a]));
        }
    }
    if n > 0 {
        lemma_scan_well_formed(entries, (n - 1) as nat);
        lemma_scan_names(entries, (n - 1) as nat);
        let files_before = kept_files(entries, (n - 1) as nat);
        let folders_before = built_folders(entries, (n - 1) as nat);
        let last = entries[n - 1];
        assert(valid_name(entry_name(last)));
        match last {
            ScanView::File { name, content: Some(c) } => {
                assert(files == files_before.push(FileView { name: name, content: c }));
                assert(folders == folders_before);
                assert forall|i: int, j: int| 0 <= i < j < files.len() implies (
                #[trigger] files[i]).name != (#[trigger] files[j]).name by {
                    if j == files_before.len() {
                        assert(files[i] == files_before[i]);
                        assert(file_among(entries, (n - 1) as nat, files_before[i].name));
                        let a = choose|a: int|
                            0 <= a < n - 1 && a < entries.len() && (#[trigger] entries[a]) is File
                                && entry_name(entries[a]) == files_before[i].name;
                        assert(entry_name(entries[a]) != entry_name(entries[n - 1]));
                    } else {
                        assert(files[i] == files_before[i] && files[j] == files_before[j]);
                    }
                }
                assert forall|x: int| 0 <= x < files.len() implies valid_name(
                    (#[trigger] files[x]).name,
                ) by {
                    if x < files_before.len() {
                        assert(files[x] == files_before[x]);
                    }
                }
            },
            ScanView::Folder { name, entries: inner } => {
                assert(files == files_before);
                assert(folders == folders_before.push(built_tree(name, inner)));
                assert(well_listed(inner));
                lemma_built_tree_well_formed(name, inner);
                assert forall|i: int, j: int| 0 <= i < j < folders.len() implies (
                #[trigger] folders[i]).name != (#[trigger] folders[j]).name by {
                    if j == folders_before.len() {
                        assert(folders[i] == folders_before[i]);
                        assert(folder_among(entries, (n - 1) as nat, folders_before[i].name));
                        let a = choose|a: int|
                            0 <= a < n - 1 && a < entries.len() && (
                            #[trigger] entries[a]) is Folder && entry_name(entries[a])
                                == folders_before[i].name;
                        assert(entry_name(entries[a]) != entry_name(entries[n - 1]));
                    } else {
                        assert(folders[i] == folders_before[i] && folders[j] == folders_before[j]);
                    }
                }
                assert forall|x: int| 0 <= x < folders.len() implies well_formed(
                    #[trigger] folders[x],
                ) && clash_free(folders[x]) by {
                    if x < folders_before.len() {
                        assert(folders[x] == folders_before[x]);
                    }
                }
            },
            _ => {
                assert(files == files_before);
                assert(folders == folders_before);
            },
        }
    }
}

/// A scan gives a tree that a disk can hold: the tree built under a base
/// name from a listing that a disk can give is well formed, and no file in
/// it has the name of a folder beside it.
pub proof fn lemma_built_tree_well_formed(name: Seq<char>, entries: Seq<ScanView>)
    requires
        valid_name(name),
        well_listed(entries),
    ensures
        well_formed(built_tree(name, entries)),
        clash_free(built_tree(name, entries)),
    decreases entries, entries.len() + 1,
{
    lemma_scan_well_formed(entries, entries.len());
}

} // verus!
