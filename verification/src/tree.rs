//! The in-memory archive tree: folders that own files and further folders.

use vstd::prelude::*;

verus! {

/// One file entry of an archive.
#[derive(Debug, PartialEq, Eq)]
pub struct FileNode {
    /// The file's own name, not a full path.
    pub name: String,
    /// Identifies the file's bytes to whoever holds the archive.
    pub handle: u64,
}

/// One folder of an archive, owning its files and sub-folders.
#[derive(Debug, PartialEq, Eq)]
pub struct DirectoryNode {
    /// The folder's own name, not a full path.
    pub name: String,
    /// The files directly in this folder, in archive order.
    pub files: Vec<FileNode>,
    /// The folders directly in this folder, in archive order.
    pub folders: Vec<DirectoryNode>,
}

/// What a [`FileNode`] stands for.
pub struct FileView {
    pub name: Seq<char>,
    pub handle: u64,
}

/// What a [`DirectoryNode`] stands for: a finite tree of names and handles.
pub struct DirectoryView {
    pub name: Seq<char>,
    pub files: Seq<FileView>,
    pub folders: Seq<DirectoryView>,
}

impl View for FileNode {
    type V = FileView;

    open spec fn view(&self) -> FileView {
        FileView { name: self.name@, handle: self.handle }
    }
}

/// The tree that a folder stands for, folder by folder.
pub open spec fn directory_view(folder: DirectoryNode) -> DirectoryView
    decreases folder,
{
    DirectoryView {
        name: folder.name@,
        files: Seq::new(folder.files@.len(), |i: int| folder.files@[i]@),
        folders: Seq::new(
            folder.folders@.len(),
            |i: int|
                if 0 <= i < folder.folders@.len() {
                    directory_view(folder.folders@[i])
                } else {
                    arbitrary()
                },
        ),
    }
}

impl View for DirectoryNode {
    type V = DirectoryView;

    open spec fn view(&self) -> DirectoryView {
        directory_view(*self)
    }
}

impl FileNode {
    /// A file entry with the given name and handle.
    pub fn new(name: &str, handle: u64) -> (file: FileNode)
        ensures
            file@ == (FileView { name: name@, handle }),
    {
        FileNode { name: name.to_owned(), handle }
    }
}

impl DirectoryNode {
    /// An empty folder with the given name.
    pub fn new(name: &str) -> (folder: DirectoryNode)
        ensures
            folder@ == (DirectoryView { name: name@, files: Seq::empty(), folders: Seq::empty() }),
    {
        let folder = DirectoryNode { name: name.to_owned(), files: Vec::new(), folders: Vec::new() };
        assert(folder@.files =~= Seq::empty());
        assert(folder@.folders =~= Seq::empty());
        folder
    }

    /// Appends a file after the files already in this folder.
    pub fn add_file(&mut self, file: FileNode)
        ensures
            final(self)@ == (DirectoryView {
                files: old(self)@.files.push(file@),
                ..old(self)@
            }),
    {
        self.files.push(file);
        assert(self@.files =~= old(self)@.files.push(file@));
    }

    /// Appends a sub-folder after the sub-folders already in this folder.
    pub fn add_folder(&mut self, folder: DirectoryNode)
        ensures
            final(self)@ == (DirectoryView {
                folders: old(self)@.folders.push(folder@),
                ..old(self)@
            }),
    {
        self.folders.push(folder);
        assert(self@.folders =~= old(self)@.folders.push(folder@));
    }
}

} // verus!
