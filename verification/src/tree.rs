//! The tree of a directory: folders that own their files and sub-folders.
use vstd::prelude::*;
use vstd::string::*;

verus! {

/// A file: its base name and its whole text.
#[derive(Debug, PartialEq, Eq)]
pub struct FileNode {
    pub name: String,
    pub content: String,
}

/// A directory: its base name, the files in it and its sub-directories, each
/// in the order in which the directory listed them.
#[derive(Debug, PartialEq, Eq)]
pub struct FolderNode {
    pub name: String,
    pub files: Vec<FileNode>,
    pub folders: Vec<FolderNode>,
}

/// What a `FileNode` stands for.
pub ghost struct FileView {
    pub name: Seq<char>,
    pub content: Seq<char>,
}

/// What a `FolderNode` stands for.
pub ghost struct FolderView {
    pub name: Seq<char>,
    pub files: Seq<FileView>,
    pub folders: Seq<FolderView>,
}

impl View for FileNode {
    type V = FileView;

    open spec fn view(&self) -> FileView {
        FileView { name: self.name@, content: self.content@ }
    }
}

/// The views of the first `n` folders of `v`.
pub open spec fn folders_view(v: Vec<FolderNode>, n: nat) -> Seq<FolderView>
    decreases v, n,
{
    if n == 0 || n > v.len() {
        Seq::empty()
    } else {
        folders_view(v, (n - 1) as nat).push(v[n - 1]@)
    }
}

impl View for FolderNode {
    type V = FolderView;

    open spec fn view(&self) -> FolderView
        decreases self,
    {
        FolderView {
            name: self.name@,
            files: self.files@.map_values(|f: FileNode| f@),
            folders: folders_view(self.folders, self.folders.len() as nat),
        }
    }
}

/// A base name: not empty, and without a path separator.
pub open spec fn valid_name(name: Seq<char>) -> bool {
    name.len() > 0 && forall|i: int| 0 <= i < name.len() ==> name[i] != '/'
}

/// No two of `files` have the same name.
pub open spec fn distinct_file_names(files: Seq<FileView>) -> bool {
    forall|i: int, j: int|
        0 <= i < j < files.len() ==> (#[trigger] files[i]).name != (#[trigger] files[j]).name
}

/// No two of `folders` have the same name.
pub open spec fn distinct_folder_names(folders: Seq<FolderView>) -> bool {
    forall|i: int, j: int|
        0 <= i < j < folders.len() ==> (#[trigger] folders[i]).name != (
        #[trigger] folders[j]).name
}

/// The tree is well formed: every name in it is a base name, and in each
/// folder no two files and no two sub-folders have the same name.
pub open spec fn well_formed(folder: FolderView) -> bool
    decreases folder,
{
    &&& valid_name(folder.name)
    &&& forall|i: int| 0 <= i < folder.files.len() ==> valid_name((#[trigger] folder.files[i]).name)
    &&& distinct_file_names(folder.files)
    &&& distinct_folder_names(folder.folders)
    &&& forall|i: int| 0 <= i < folder.folders.len() ==> well_formed(#[trigger] folder.folders[i])
}

/// No file of `files` has the name of a folder of `folders`.
pub open spec fn no_shared_name(files: Seq<FileView>, folders: Seq<FolderView>) -> bool {
    forall|i: int, j: int|
        0 <= i < files.len() && 0 <= j < folders.len() ==> (#[trigger] files[i]).name != (
        #[trigger] folders[j]).name
}

/// Nowhere in the tree does a file have the name of a folder beside it. A
/// well-formed tree need not be so, but a disk holds no other.
pub open spec fn clash_free(folder: FolderView) -> bool
    decreases folder,
{
    &&& no_shared_name(folder.files, folder.folders)
    &&& forall|i: int| 0 <= i < folder.folders.len() ==> clash_free(#[trigger] folder.folders[i])
}

/// `folders_view` takes the view of each folder, place by place.
pub proof fn lemma_folders_view(v: Vec<FolderNode>, n: nat)
    requires
        n <= v.len(),
    ensures
        folders_view(v, n).len() == n,
        forall|i: int| 0 <= i < n ==> folders_view(v, n)[i] == v[i]@,
    decreases n,
{
    if n > 0 {
        lemma_folders_view(v, (n - 1) as nat);
        assert(folders_view(v, n) == folders_view(v, (n - 1) as nat).push(v[n - 1]@));
    } else {
        assert(folders_view(v, n) == Seq::<FolderView>::empty());
    }
}

impl FileNode {
    /// A file of the given name and text.
    pub fn new(name: String, content: String) -> (res: FileNode)
        ensures
            res@ == (FileView { name: name@, content: content@ }),
    {
        FileNode { name, content }
    }
}

impl FolderNode {
    /// An empty folder of the given name.
    pub fn new(name: String) -> (res: FolderNode)
        ensures
            res@ == (FolderView { name: name@, files: Seq::empty(), folders: Seq::empty() }),
    {
        let res = FolderNode { name, files: Vec::new(), folders: Vec::new() };
        proof {
            assert(res@.files =~= Seq::empty());
            assert(res@.folders =~= Seq::empty());
        }
        res
    }

    /// Adds `file` behind the files that the folder holds.
    pub fn push_file(&mut self, file: FileNode)
        ensures
            final(self)@ == (FolderView { files: old(self)@.files.push(file@), ..old(self)@ }),
    {
        self.files.push(file);
        proof {
            assert(final(self)@.files =~= old(self)@.files.push(file@));
        }
    }

    /// Adds `folder` behind the sub-folders that the folder holds.
    pub fn push_folder(&mut self, folder: FolderNode)
        ensures
            final(self)@ == (FolderView { folders: old(self)@.folders.push(folder@), ..old(self)@ }),
    {
        let ghost before = self.folders;
        self.folders.push(folder);
        proof {
            lemma_folders_view(before, before.len() as nat);
            lemma_folders_view(self.folders, self.folders.len() as nat);
            assert(final(self)@.folders =~= old(self)@.folders.push(folder@));
        }
    }
}

/// Whether `name` is a base name: not empty, and without a path separator.
pub fn is_valid_name(name: &str) -> (ok: bool)
    ensures
        ok == valid_name(name@),
{
    let n: usize = name.unicode_len();
    if n == 0 {
        return false;
    }
    let mut i: usize = 0;
    while i < n
        invariant
            i <= n,
            n == name@.len(),
            forall|j: int| 0 <= j < i ==> name@[j] != '/',
        decreases n - i,
    {
        if name.get_char(i) == '/' {
            return false;
        }
        i += 1;
    }
    true
}

impl FolderNode {
    /// Whether the tree is well formed.
    pub fn is_well_formed(&self) -> (ok: bool)
        ensures
            ok == well_formed(self@),
        decreases self,
    {
        proof {
            lemma_folders_view(self.folders, self.folders.len() as nat);
        }
        if !is_valid_name(self.name.as_str()) {
            return false;
        }
        let mut i: usize = 0;
        while i < self.files.len()
            invariant
                i <= self.files.len(),
                forall|x: int| 0 <= x < i ==> valid_name(self.files[x].name@),
                forall|x: int, y: int| 0 <= x < y < i ==> self.files[x].name@ != self.files[y].name@,
            decreases self.files.len() - i,
        {
            proof {
                assert(self@.files[i as int] == self.files[i as int]@);
            }
            if !is_valid_name(self.files[i].name.as_str()) {
                return false;
            }
            let mut j: usize = 0;
            while j < i
                invariant
                    j <= i,
                    i < self.files.len(),
                    forall|x: int| 0 <= x < j ==> self.files[x].name@ != self.files[i as int].name@,
                decreases i - j,
            {
                if self.files[j].name == self.files[i].name {
                    proof {
                        assert(self@.files[j as int] == self.files[j as int]@);
                        assert(self@.files[j as int].name == self@.files[i as int].name);
                    }
                    return false;
                }
                j += 1;
            }
            i += 1;
        }
        let mut k: usize = 0;
        while k < self.folders.len()
            invariant
                k <= self.folders.len(),
                self@.folders.len() == self.folders.len(),
                forall|x: int| 0 <= x < self.folders.len() ==> self@.folders[x] == self.folders[x]@,
                forall|x: int| 0 <= x < k ==> well_formed(self.folders[x]@),
                forall|x: int, y: int|
                    0 <= x < y < k ==> self.folders[x].name@ != self.folders[y].name@,
            decreases self.folders.len() - k,
        {
            if !self.folders[k].is_well_formed() {
                proof {
                    assert(!well_formed(self@.folders[k as int]));
                }
                return false;
            }
            let mut j: usize = 0;
            while j < k
                invariant
                    j <= k,
                    k < self.folders.len(),
                    self@.folders.len() == self.folders.len(),
                    forall|x: int|
                        0 <= x < self.folders.len() ==> self@.folders[x] == self.folders[x]@,
                    forall|x: int|
                        0 <= x < j ==> self.folders[x].name@ != self.folders[k as int].name@,
                decreases k - j,
            {
                if self.folders[j].name == self.folders[k].name {
                    proof {
                        assert(self@.folders[j as int].name == self@.folders[k as int].name);
                    }
                    return false;
                }
                j += 1;
            }
            k += 1;
        }
        proof {
            assert forall|x: int| 0 <= x < self@.files.len() implies valid_name(
                (#[trigger] self@.files[x]).name,
            ) by {
                assert(self@.files[x] == self.files[x]@);
            }
            assert forall|x: int, y: int| 0 <= x < y < self@.files.len() implies (
            #[trigger] self@.files[x]).name != (#[trigger] self@.files[y]).name by {
                assert(self@.files[x] == self.files[x]@);
                assert(self@.files[y] == self.files[y]@);
            }
            assert forall|x: int, y: int| 0 <= x < y < self@.folders.len() implies (
            #[trigger] self@.folders[x]).name != (#[trigger] self@.folders[y]).name by {
                assert(self@.folders[x] == self.folders[x]@);
                assert(self@.folders[y] == self.folders[y]@);
            }
            assert(well_formed(self@));
        }
        true
    }
}

} // verus!
