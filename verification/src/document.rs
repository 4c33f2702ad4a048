//! The document format: one JSON object per folder.
//!
//! A folder is written as
//! `{"name":N,"files":[F,..],"folders":[D,..]}` and a file as
//! `{"name":N,"content":C}`, without white space, where `N` and `C` are JSON
//! string literals, each `F` is a file and each `D` a folder. The literals
//! are made by `serde_json`; the framing around them is made here.
use crate::tree::{lemma_folders_view, FileNode, FileView, FolderNode, FolderView};
use vstd::prelude::*;
use vstd::string::*;

verus! {

/// What `serde_json` writes for the text `s`: the JSON string literal, that
/// is the text between double quotes with the characters escaped that JSON
/// wants escaped; or `None` where it reports an error.
pub uninterp spec fn json_string(s: Seq<char>) -> Option<Seq<char>>;

/// Calls `serde_json::to_string` on a string slice. Not proved: that what it
/// returns, a document or an error, depends on the text alone; the contract
/// says no more than that, by way of `json_string`.
#[verifier::external_body]
fn quote(s: &str) -> (res: Option<String>)
    ensures
        res matches Some(q) ==> json_string(s@) == Some(q@),
        res is None ==> json_string(s@) is None,
{
    serde_json::to_string(s).ok()
}

/// The JSON string literal of `s`, where there is one.
pub open spec fn literal(s: Seq<char>) -> Seq<char>
    recommends
        json_string(s) is Some,
{
    json_string(s).unwrap()
}

/// The name and the content of `file` both have a literal.
pub open spec fn file_has_literals(file: FileView) -> bool {
    json_string(file.name) is Some && json_string(file.content) is Some
}

/// Every name and every content in the tree has a literal.
pub open spec fn has_literals(folder: FolderView) -> bool
    decreases folder,
{
    &&& json_string(folder.name) is Some
    &&& forall|i: int| 0 <= i < folder.files.len() ==> file_has_literals(#[trigger] folder.files[i])
    &&& forall|i: int|
        0 <= i < folder.folders.len() ==> has_literals(#[trigger] folder.folders[i])
}

/// The document of a file, from the literals of its name and content.
pub open spec fn file_document(name: Seq<char>, content: Seq<char>) -> Seq<char> {
    "{\"name\":"@ + name + ",\"content\":"@ + content + "}"@
}

/// The first `n` of `parts`, with a comma between each two.
pub open spec fn joined(parts: Seq<Seq<char>>, n: nat) -> Seq<char>
    decreases n,
{
    if n == 0 || n > parts.len() {
        Seq::empty()
    } else if n == 1 {
        parts[0]
    } else {
        joined(parts, (n - 1) as nat) + ","@ + parts[n - 1]
    }
}

/// The document of a folder, from the literal of its name and the documents
/// of its files and sub-folders.
pub open spec fn folder_document(
    name: Seq<char>,
    files: Seq<Seq<char>>,
    folders: Seq<Seq<char>>,
) -> Seq<char> {
    "{\"name\":"@ + name + ",\"files\":["@ + joined(files, files.len()) + "],\"folders\":["@
        + joined(folders, folders.len()) + "]}"@
}

/// The texts that a vector of strings holds.
pub open spec fn texts(parts: Seq<String>) -> Seq<Seq<char>> {
    parts.map_values(|s: String| s@)
}

/// The document of a file.
pub open spec fn file_json(file: FileView) -> Seq<char> {
    file_document(literal(file.name), literal(file.content))
}

/// The documents of files, one for each.
pub open spec fn files_json(files: Seq<FileView>) -> Seq<Seq<char>> {
    files.map_values(|f: FileView| file_json(f))
}

/// The documents of the first `n` of `folders`.
pub open spec fn folders_json(folders: Seq<FolderView>, n: nat) -> Seq<Seq<char>>
    decreases folders, n,
{
    if n == 0 || n > folders.len() {
        Seq::empty()
    } else {
        folders_json(folders, (n - 1) as nat).push(folder_json(folders[n - 1]))
    }
}

/// The document of a folder.
pub open spec fn folder_json(folder: FolderView) -> Seq<char>
    decreases folder,
{
    folder_document(
        literal(folder.name),
        files_json(folder.files),
        folders_json(folder.folders, folder.folders.len()),
    )
}

/// `folders_json` holds the document of each folder, place by place.
pub proof fn lemma_folders_json(folders: Seq<FolderView>, n: nat)
    requires
        n <= folders.len(),
    ensures
        folders_json(folders, n).len() == n,
        forall|i: int| 0 <= i < n ==> folders_json(folders, n)[i] == folder_json(folders[i]),
    decreases n,
{
    if n > 0 {
        lemma_folders_json(folders, (n - 1) as nat);
        assert(folders_json(folders, n) == folders_json(folders, (n - 1) as nat).push(
            folder_json(folders[n - 1]),
        ));
    } else {
        assert(folders_json(folders, n) == Seq::<Seq<char>>::empty());
    }
}

/// Two folders that stand for the same tree have the same document.
pub proof fn lemma_document_of_equal_trees(a: FolderNode, b: FolderNode)
    requires
        a@ == b@,
    ensures
        folder_json(a@) == folder_json(b@),
{
}

/// Frames a file's document around the literals of its name and content.
pub fn frame_file(name: &str, content: &str) -> (doc: String)
    ensures
        doc@ == file_document(name@, content@),
{
    let mut doc = String::from_str("{\"name\":");
    doc.append(name);
    doc.append(",\"content\":");
    doc.append(content);
    doc.append("}");
    doc
}

/// Puts `parts` one behind the other, with a comma between each two.
pub fn join_documents(parts: &Vec<String>) -> (doc: String)
    ensures
        doc@ == joined(texts(parts@), parts.len() as nat),
{
    let mut doc = String::new();
    let mut i: usize = 0;
    while i < parts.len()
        invariant
            i <= parts.len(),
            doc@ == joined(texts(parts@), i as nat),
        decreases parts.len() - i,
    {
        if i > 0 {
            doc.append(",");
        }
        doc.append(parts[i].as_str());
        proof {
            assert(texts(parts@)[i as int] == parts[i as int]@);
            assert(doc@ =~= joined(texts(parts@), (i + 1) as nat));
        }
        i += 1;
    }
    doc
}

/// Frames a folder's document around the literal of its name and the
/// documents of its files and sub-folders.
pub fn frame_folder(name: &str, files: &Vec<String>, folders: &Vec<String>) -> (doc: String)
    ensures
        doc@ == folder_document(name@, texts(files@), texts(folders@)),
{
    let mut doc = String::from_str("{\"name\":");
    doc.append(name);
    doc.append(",\"files\":[");
    let inner_files = join_documents(files);
    doc.append(inner_files.as_str());
    doc.append("],\"folders\":[");
    let inner_folders = join_documents(folders);
    doc.append(inner_folders.as_str());
    doc.append("]}");
    doc
}

impl FileNode {
    /// The file's document, or `None` where the name or the content has no
    /// literal.
    pub fn to_json(&self) -> (res: Option<String>)
        ensures
            res is Some <==> file_has_literals(self@),
            res matches Some(doc) ==> doc@ == file_json(self@),
    {
        let name = match quote(self.name.as_str()) {
            Some(q) => q,
            None => {
                return None;
            },
        };
        let content = match quote(self.content.as_str()) {
            Some(q) => q,
            None => {
                return None;
            },
        };
        Some(frame_file(name.as_str(), content.as_str()))
    }
}

impl FolderNode {
    /// The folder's document, with the documents of all that it holds, or
    /// `None` where a name or a content in the tree has no literal.
    pub fn to_json(&self) -> (res: Option<String>)
        ensures
            res is Some <==> has_literals(self@),
            res matches Some(doc) ==> doc@ == folder_json(self@),
        decreases self,
    {
        proof {
            lemma_folders_view(self.folders, self.folders.len() as nat);
        }
        let name = match quote(self.name.as_str()) {
            Some(q) => q,
            None => {
                return None;
            },
        };
        let mut files: Vec<String> = Vec::new();
        let mut i: usize = 0;
        while i < self.files.len()
            invariant
                i <= self.files.len(),
                files.len() == i,
                forall|j: int| 0 <= j < i ==> files[j]@ == file_json(self.files[j]@),
                forall|j: int| 0 <= j < i ==> file_has_literals(self.files[j]@),
            decreases self.files.len() - i,
        {
            match self.files[i].to_json() {
                Some(doc) => {
                    files.push(doc);
                },
                None => {
                    proof {
                        assert(self@.files[i as int] == self.files[i as int]@);
                    }
                    return None;
                },
            }
            i += 1;
        }
        let mut folders: Vec<String> = Vec::new();
        let mut k: usize = 0;
        while k < self.folders.len()
            invariant
                k <= self.folders.len(),
                folders.len() == k,
                self@.folders.len() == self.folders.len(),
                forall|j: int|
                    0 <= j < self.folders.len() ==> self@.folders[j] == self.folders[j]@,
                forall|j: int| 0 <= j < k ==> folders[j]@ == folder_json(self.folders[j]@),
                forall|j: int| 0 <= j < k ==> has_literals(self.folders[j]@),
            decreases self.folders.len() - k,
        {
            match self.folders[k].to_json() {
                Some(doc) => {
                    folders.push(doc);
                },
                None => {
                    proof {
                        assert(self@.folders[k as int] == self.folders[k as int]@);
                    }
                    return None;
                },
            }
            k += 1;
        }
        proof {
            lemma_folders_json(self@.folders, self@.folders.len());
            assert(texts(files@) =~= files_json(self@.files));
            assert(texts(folders@) =~= folders_json(self@.folders, self@.folders.len()));
            assert forall|j: int| 0 <= j < self@.files.len() implies file_has_literals(
                #[trigger] self@.files[j],
            ) by {
                assert(self@.files[j] == self.files[j]@);
            }
            assert(has_literals(self@));
        }
        Some(frame_folder(name.as_str(), &files, &folders))
    }
}

/// The name of the file that holds the document of the tree called `root_name`.
pub fn blueprint_file_name(root_name: &str) -> (file_name: String)
    ensures
        file_name@ == root_name@ + ".json"@,
{
    let mut file_name = String::from_str(root_name);
    file_name.append(".json");
    file_name
}

} // verus!
