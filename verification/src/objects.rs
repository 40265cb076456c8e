//! The metadata describing folders, files, and the problems met while loading them.
use vstd::prelude::*;

verus! {

/// The types of metadata that can be retrieved from the database.
#[derive(Debug)]
pub enum Metadata {
    /// The top-level directory of a folder hierarchy.
    Root(FolderMd),
    /// A folders metadata.
    Folder(FolderMd),
    /// A files metadata.
    File(FileMd),
    /// Problems encountered when adding folders to the database.
    Problem(ProblemMd),
}

/// The metadata associated with a folder.
#[derive(Debug)]
pub struct FolderMd {
    /// The folder unique identified.
    pub id: i64,
    /// The folders parent unique identifier.
    pub parent_id: i64,
    /// The pathname of the folder.
    pub pathname: String,
    /// The filename of the folder.
    pub name: String,
    /// The disk space consummed by the folder.
    pub size: u64,
    /// The timestamp of when the folder was created.
    pub created: u64,
    /// The timestamp of when the folder was last modified.
    pub modified: u64,
    /// The contents of the folder.
    pub children: Vec<Metadata>,
}

/// The metadata associated with a file.
#[derive(Debug)]
pub struct FileMd {
    /// The unique identifier of the file.
    pub id: i64,
    /// The file parent identifier.
    pub parent_id: i64,
    /// The pathname of the file.
    pub pathname: String,
    /// The filename.
    pub name: String,
    /// When `true` indicates the file is a symbolic link.
    pub is_symlink: bool,
    /// The disk space used by the file.
    pub size: u64,
    /// The timestamp of when the file was created.
    pub created: u64,
    /// The timestamp of when the file was last modified.
    pub modified: u64,
}

/// The metadata associated with a problem.
#[derive(Debug)]
pub struct ProblemMd {
    /// The unique identifier of the problem.
    pub id: i64,
    /// The problems parent identifier.
    pub parent_id: i64,
    /// The pathname of the problem.
    pub pathname: String,
    /// The problem filename.
    pub name: String,
    /// A description of the problem.
    pub description: String,
}

/// The database information metadata.
#[derive(Debug)]
pub struct DbInformation {
    /// The top-level folder pathnames.
    pub root_folders: Vec<String>,
    /// The total count of files that have been added.
    pub file_count: u64,
    /// The total count of folders that have been added.
    pub folder_count: u64,
    /// The total count of problems that were encountered.
    pub problem_count: u64,
    /// The database allocation size.
    pub database_size: u64,
}

/// The folders that hold a file of the same name, with the file's identifier in each.
#[derive(Debug)]
pub struct DuplicateIds {
    /// The filename the folders have in common.
    pub filename: String,
    /// The folder identifier and the file identifier in that folder.
    pub ids: Vec<(i64, i64)>,
}

impl DuplicateIds {
    /// The folder identifiers, in the order of the pairs.
    pub open spec fn folder_ids(&self) -> Seq<i64> {
        self.ids@.map_values(|p: (i64, i64)| p.0)
    }
}

impl Metadata {
    /// The identifier of the metadata.
    pub open spec fn spec_id(self) -> i64 {
        match self {
            Metadata::Root(f) => f.id,
            Metadata::Folder(f) => f.id,
            Metadata::File(f) => f.id,
            Metadata::Problem(p) => p.id,
        }
    }

    /// The parent identifier of the metadata.
    pub open spec fn spec_parent_id(self) -> i64 {
        match self {
            Metadata::Root(f) => f.parent_id,
            Metadata::Folder(f) => f.parent_id,
            Metadata::File(f) => f.parent_id,
            Metadata::Problem(p) => p.parent_id,
        }
    }

    /// The pathname of the metadata.
    pub open spec fn spec_pathname(self) -> Seq<char> {
        match self {
            Metadata::Root(f) => f.pathname@,
            Metadata::Folder(f) => f.pathname@,
            Metadata::File(f) => f.pathname@,
            Metadata::Problem(p) => p.pathname@,
        }
    }

    /// The filename of the metadata.
    pub open spec fn spec_name(self) -> Seq<char> {
        match self {
            Metadata::Root(f) => f.name@,
            Metadata::Folder(f) => f.name@,
            Metadata::File(f) => f.name@,
            Metadata::Problem(p) => p.name@,
        }
    }

    /// The disk size of the metadata, 0 for a problem.
    pub open spec fn spec_size(self) -> u64 {
        match self {
            Metadata::Root(f) => f.size,
            Metadata::Folder(f) => f.size,
            Metadata::File(f) => f.size,
            Metadata::Problem(_) => 0,
        }
    }

    /// The creation timestamp of the metadata, 0 for a problem.
    pub open spec fn spec_created(self) -> u64 {
        match self {
            Metadata::Root(f) => f.created,
            Metadata::Folder(f) => f.created,
            Metadata::File(f) => f.created,
            Metadata::Problem(_) => 0,
        }
    }

    /// The modification timestamp of the metadata, 0 for a problem.
    pub open spec fn spec_modified(self) -> u64 {
        match self {
            Metadata::Root(f) => f.modified,
            Metadata::Folder(f) => f.modified,
            Metadata::File(f) => f.modified,
            Metadata::Problem(_) => 0,
        }
    }

    /// Get the metadata unique identifier.
    pub fn id(&self) -> (r: i64)
        ensures
            r == self.spec_id(),
    {
        match self {
            Metadata::Root(folder_md) => folder_md.id,
            Metadata::Folder(folder_md) => folder_md.id,
            Metadata::File(file_md) => file_md.id,
            Metadata::Problem(problem_md) => problem_md.id,
        }
    }

    /// Get the metadata parent identifier.
    pub fn parent_id(&self) -> (r: i64)
        ensures
            r == self.spec_parent_id(),
    {
        match self {
            Metadata::Root(folder_md) => folder_md.parent_id,
            Metadata::Folder(folder_md) => folder_md.parent_id,
            Metadata::File(file_md) => file_md.parent_id,
            Metadata::Problem(problem_md) => problem_md.parent_id,
        }
    }

    /// Get the metadata pathname.
    pub fn pathname(&self) -> (r: &str)
        ensures
            r@ == self.spec_pathname(),
    {
        match self {
            Metadata::Root(folder_md) => folder_md.pathname.as_str(),
            Metadata::Folder(folder_md) => folder_md.pathname.as_str(),
            Metadata::File(file_md) => file_md.pathname.as_str(),
            Metadata::Problem(problem_md) => problem_md.pathname.as_str(),
        }
    }

    /// Get the metadata filename.
    pub fn name(&self) -> (r: &str)
        ensures
            r@ == self.spec_name(),
    {
        match self {
            Metadata::Root(folder_md) => folder_md.name.as_str(),
            Metadata::Folder(folder_md) => folder_md.name.as_str(),
            Metadata::File(file_md) => file_md.name.as_str(),
            Metadata::Problem(problem_md) => problem_md.name.as_str(),
        }
    }

    /// Returns `true` if the metadata is a root variant.
    pub fn is_root(&self) -> (r: bool)
        ensures
            r == (*self is Root),
    {
        match self {
            Metadata::Root(_) => true,
            _ => false,
        }
    }

    /// Returns `true` if the metadata is a folder variant.
    pub fn is_folder(&self) -> (r: bool)
        ensures
            r == (*self is Folder),
    {
        match self {
            Metadata::Folder(_) => true,
            _ => false,
        }
    }

    /// Returns `true` if the metadata is a file variant and is *not* a symbolic link.
    pub fn is_file(&self) -> (r: bool)
        ensures
            r == (*self matches Metadata::File(f) && !f.is_symlink),
    {
        match self {
            Metadata::File(file_md) => !file_md.is_symlink,
            _ => false,
        }
    }

    /// Returns `true` if the metadata is a file variant and is a symbolic link.
    pub fn is_symlink(&self) -> (r: bool)
        ensures
            r == (*self matches Metadata::File(f) && f.is_symlink),
    {
        match self {
            Metadata::File(file_md) => file_md.is_symlink,
            _ => false,
        }
    }

    /// Returns `true` if the metadata is a problem variant.
    pub fn is_problem(&self) -> (r: bool)
        ensures
            r == (*self is Problem),
    {
        match self {
            Metadata::Problem(_) => true,
            _ => false,
        }
    }

    /// Returns the disk size of the variant.
    pub fn size(&self) -> (r: u64)
        ensures
            r == self.spec_size(),
    {
        match self {
            Metadata::Root(folder_md) => folder_md.size,
            Metadata::Folder(folder_md) => folder_md.size,
            Metadata::File(file_md) => file_md.size,
            Metadata::Problem(_) => 0,
        }
    }

    /// Return the timestamp of when the metadata variant was created.
    pub fn created(&self) -> (r: u64)
        ensures
            r == self.spec_created(),
    {
        match self {
            Metadata::Root(folder_md) => folder_md.created,
            Metadata::Folder(folder_md) => folder_md.created,
            Metadata::File(file_md) => file_md.created,
            Metadata::Problem(_) => 0,
        }
    }

    /// Return the timestamp of when the metadata variant was last modified.
    pub fn modified(&self) -> (r: u64)
        ensures
            r == self.spec_modified(),
    {
        match self {
            Metadata::Root(folder_md) => folder_md.modified,
            Metadata::Folder(folder_md) => folder_md.modified,
            Metadata::File(file_md) => file_md.modified,
            Metadata::Problem(_) => 0,
        }
    }
}

impl FolderMd {
    /// Return `true` if the folder metadata is default.
    pub fn is_default(&self) -> (r: bool)
        ensures
            r == (self.id == -1 && self.parent_id == -1),
    {
        self.id == -1 && self.parent_id == -1
    }
}

/// Create an empty instance of the folder metadata.
impl Default for FolderMd {
    fn default() -> (r: Self)
        ensures
            r.id == -1,
            r.parent_id == -1,
            r.pathname@ == Seq::<char>::empty(),
            r.name@ == Seq::<char>::empty(),
            r.size == 0,
            r.created == 0,
            r.modified == 0,
            r.children@ == Seq::<Metadata>::empty(),
    {
        FolderMd {
            id: -1,
            parent_id: -1,
            pathname: String::new(),
            name: String::new(),
            size: 0,
            created: 0,
            modified: 0,
            children: Vec::new(),
        }
    }
}

/// The type shown for an entry of a folder in the text of metadata.
pub open spec fn entry_type(m: Metadata) -> Seq<char> {
    match m {
        Metadata::File(f) => if f.is_symlink {
            "SYML"@
        } else {
            "FILE"@
        },
        Metadata::Root(_) => "ROOT"@,
        Metadata::Folder(_) => "FLDR"@,
        Metadata::Problem(_) => "PROB"@,
    }
}

/// The lines of the entries of a folder, each after the preamble: its type and name.
pub open spec fn entry_lines(children: Seq<Metadata>, preamble: Seq<char>) -> Seq<char>
    decreases children.len(),
{
    if children.len() == 0 {
        Seq::empty()
    } else {
        entry_lines(children.drop_last(), preamble) + preamble + entry_type(children.last()) + " "@
            + children.last().spec_name() + "\n"@
    }
}

/// The text of metadata after a preamble: for a folder (or a root), its pathname, the lines
/// of its entries one level deeper, then the text of each child folder one level deeper; for
/// anything else, a line saying a folder was expected.
pub open spec fn metadata_text(m: Metadata, preamble: Seq<char>) -> Seq<char>
    decreases m, 1nat,
{
    match m {
        Metadata::Root(f) => preamble + f.pathname@ + "\n"@ + entry_lines(f.children@, preamble + "| "@)
            + folder_texts(f.children@, preamble + "| "@),
        Metadata::Folder(f) => preamble + f.pathname@ + "\n"@ + entry_lines(f.children@, preamble + "| "@)
            + folder_texts(f.children@, preamble + "| "@),
        _ => preamble + "Expected folder got '"@ + m.spec_pathname() + "'\n"@,
    }
}

/// The texts of the child folders (not roots, files or problems), in order.
pub open spec fn folder_texts(children: Seq<Metadata>, preamble: Seq<char>) -> Seq<char>
    decreases children, 0nat,
{
    if children.len() == 0 {
        Seq::empty()
    } else {
        folder_texts(children.drop_last(), preamble) + if children.last() is Folder {
            metadata_text(children.last(), preamble)
        } else {
            Seq::empty()
        }
    }
}

/// The type of an entry.
fn entry_type_text(m: &Metadata) -> (r: &'static str)
    ensures
        r@ == entry_type(*m),
{
    match m {
        Metadata::File(f) => if f.is_symlink {
            "SYML"
        } else {
            "FILE"
        },
        Metadata::Root(_) => "ROOT",
        Metadata::Folder(_) => "FLDR",
        Metadata::Problem(_) => "PROB",
    }
}

/// The text of metadata after a preamble, as `metadata_text` says.
fn traverse(m: &Metadata, preamble: &str) -> (r: String)
    ensures
        r@ == metadata_text(*m, preamble@),
    decreases m,
{
    match m {
        Metadata::Root(folder_md) | Metadata::Folder(folder_md) => {
            let mut content = String::from_str(preamble);
            content.append(folder_md.pathname.as_str());
            content.append("\n");
            let deeper = String::from_str(preamble).concat("| ");
            let ghost head = content@;
            let mut i: usize = 0;
            proof {
                assert(folder_md.children@.take(0) =~= Seq::<Metadata>::empty());
                assert(content@ =~= head + entry_lines(folder_md.children@.take(0), deeper@));
            }
            while i < folder_md.children.len()
                invariant
                    i <= folder_md.children@.len(),
                    content@ == head + entry_lines(folder_md.children@.take(i as int), deeper@),
                decreases folder_md.children.len() - i,
            {
                let child = &folder_md.children[i];
                content.append(deeper.as_str());
                content.append(entry_type_text(child));
                content.append(" ");
                content.append(child.name());
                content.append("\n");
                proof {
                    assert(folder_md.children@.take(i + 1).drop_last() =~= folder_md.children@.take(i as int));
                    assert(folder_md.children@.take(i + 1).last() == *child);
                }
                i = i + 1;
            }
            assert(folder_md.children@.take(i as int) =~= folder_md.children@);
            let ghost listed = content@;
            let mut j: usize = 0;
            proof {
                assert(folder_md.children@.take(0) =~= Seq::<Metadata>::empty());
                assert(content@ =~= listed + folder_texts(folder_md.children@.take(0), deeper@));
            }
            while j < folder_md.children.len()
                invariant
                    *m == Metadata::Root(*folder_md) || *m == Metadata::Folder(*folder_md),
                    j <= folder_md.children@.len(),
                    content@ == listed + folder_texts(folder_md.children@.take(j as int), deeper@),
                decreases folder_md.children.len() - j,
            {
                let child = &folder_md.children[j];
                proof {
                    assert(folder_md.children@.take(j + 1).drop_last() =~= folder_md.children@.take(j as int));
                    assert(folder_md.children@.take(j + 1).last() == *child);
                }
                if child.is_folder() {
                    proof {
                        if *m == Metadata::Root(*folder_md) {
                            assert(decreases_to!(*m => m->Root_0));
                        } else {
                            assert(decreases_to!(*m => m->Folder_0));
                        }
                        assert(decreases_to!(*folder_md => folder_md.children));
                        assert(decreases_to!(folder_md.children => folder_md.children@));
                        assert(decreases_to!(folder_md.children@ => folder_md.children@[j as int]));
                    }
                    let sub = traverse(child, deeper.as_str());
                    content.append(sub.as_str());
                }
                j = j + 1;
            }
            assert(folder_md.children@.take(j as int) =~= folder_md.children@);
            content
        },
        _ => {
            let mut content = String::from_str(preamble);
            content.append("Expected folder got '");
            content.append(m.pathname());
            content.append("'\n");
            content
        },
    }
}

impl Metadata {
    /// The text of the metadata: for a folder, its pathname, a line for each entry (`SYML`,
    /// `FILE`, `ROOT`, `FLDR` or `PROB` and its name), then the text of each child folder,
    /// each level of depth marked by `| `.
    pub fn text(&self) -> (r: String)
        ensures
            r@ == metadata_text(*self, Seq::empty()),
    {
        proof {
            reveal_strlit("");
        }
        traverse(self, "")
    }
}

} // verus!
