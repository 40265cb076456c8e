//! The rows of the metadata queries gathered into metadata: consecutive rows of one folder
//! become one folder with its files or problems, consecutive rows of one filename one set of
//! duplicate identifiers.
use crate::filesys::{as_filename, file_name_of};
use crate::hierarchy::{children_with, insert_child};
use crate::objects::{DuplicateIds, FileMd, FolderMd, Metadata, ProblemMd};
use crate::order::str_equal;
use vstd::prelude::*;

verus! {

/// The filename a folder query gives a folder that holds no file.
pub open spec fn empty_folder_filename() -> Seq<char> {
    "<?>"@
}

/// A folder/file row lists a file: its file identifiers are known (not -1) and its filename
/// is not the one of an empty folder.
pub open spec fn row_lists_file(file_id: i64, file_parent_id: i64, file_name: Seq<char>) -> bool {
    file_id != -1 && file_parent_id != -1 && file_name != empty_folder_filename()
}

/// Whether a folder/file row lists a file.
pub fn lists_file(file_id: i64, file_parent_id: i64, file_name: &str) -> (r: bool)
    ensures
        r == row_lists_file(file_id, file_parent_id, file_name@),
{
    file_id != -1 && file_parent_id != -1 && !str_equal(file_name, "<?>")
}

/// The folder is the given one with the child put among its children by name, when there is
/// one.
pub open spec fn folder_with(result: FolderMd, folder: FolderMd, child: Option<Metadata>) -> bool {
    &&& result.id == folder.id
    &&& result.parent_id == folder.parent_id
    &&& result.pathname == folder.pathname
    &&& result.name == folder.name
    &&& result.size == folder.size
    &&& result.created == folder.created
    &&& result.modified == folder.modified
    &&& result.children@ == match child {
        Some(c) => children_with(folder.children@, c),
        None => folder.children@,
    }
}

/// Gathers consecutive rows of one folder into the folder with its files.
pub struct FolderRows {
    /// The folder of the rows gathered so far.
    pub current: Option<FolderMd>,
}

impl FolderRows {
    /// Gathers no rows yet.
    pub fn new() -> (r: FolderRows)
        ensures
            r.current is None,
    {
        FolderRows { current: None }
    }

    /// A row of the folder starts a new folder: there is none yet, or it has another identifier.
    pub fn starts_folder(&self, folder_id: i64) -> (r: bool)
        ensures
            r == match self.current {
                Some(folder) => folder.id != folder_id,
                None => true,
            },
    {
        match &self.current {
            Some(folder) => folder.id != folder_id,
            None => true,
        }
    }

    /// Starts the folder of a row, with the row's file if it lists one, and gives back the
    /// folder gathered before.
    pub fn start_folder(&mut self, folder: FolderMd, file: Option<FileMd>) -> (r: Option<FolderMd>)
        ensures
            r == old(self).current,
            final(self).current matches Some(f) && folder_with(
                f,
                folder,
                match file {
                    Some(fm) => Some(Metadata::File(fm)),
                    None => None,
                },
            ),
    {
        let mut folder = folder;
        match file {
            Some(file_md) => insert_child(&mut folder, Metadata::File(file_md)),
            None => {},
        }
        let previous = self.current.take();
        self.current = Some(folder);
        previous
    }

    /// Adds the file of a row of the folder being gathered.
    pub fn add_file(&mut self, file: FileMd)
        requires
            old(self).current is Some,
        ensures
            final(self).current matches Some(f) && folder_with(
                f,
                old(self).current->0,
                Some(Metadata::File(file)),
            ),
    {
        let mut folder = self.current.take().unwrap();
        insert_child(&mut folder, Metadata::File(file));
        self.current = Some(folder);
    }

    /// The folder gathered last, if any.
    pub fn finish(self) -> (r: Option<FolderMd>)
        ensures
            r == self.current,
    {
        self.current
    }
}

/// The problem of a problems row: its name is the pathname's final component, which the
/// pathname must have.
pub fn problem_of(id: i64, parent_id: i64, pathname: String, description: String) -> (r: ProblemMd)
    requires
        file_name_of(pathname@).len() > 0,
    ensures
        r.id == id,
        r.parent_id == parent_id,
        r.pathname == pathname,
        r.name@ == file_name_of(pathname@),
        r.description == description,
{
    let name = as_filename(pathname.as_str());
    ProblemMd { id, parent_id, pathname, name, description }
}

/// The folder of a problems row: the folder's identifiers and pathname, an empty name, no
/// size or timestamps, and the problem as its one child.
pub fn problem_folder(id: i64, parent_id: i64, pathname: String, problem: ProblemMd) -> (r: FolderMd)
    ensures
        r.id == id,
        r.parent_id == parent_id,
        r.pathname == pathname,
        r.name@.len() == 0,
        r.size == 0,
        r.created == 0,
        r.modified == 0,
        r.children@ == seq![Metadata::Problem(problem)],
{
    let mut folder = FolderMd {
        id,
        parent_id,
        pathname,
        name: String::new(),
        size: 0,
        created: 0,
        modified: 0,
        children: Vec::new(),
    };
    folder.children.push(Metadata::Problem(problem));
    folder
}

/// Gathers consecutive rows of one folder into the folder with its problems, and keeps the
/// folders gathered before.
pub struct ProblemRows {
    /// The folder of the rows gathered so far.
    pub current: Option<FolderMd>,
    /// The folders gathered before, in order.
    pub folders: Vec<Metadata>,
}

impl ProblemRows {
    /// Gathers no rows yet.
    pub fn new() -> (r: ProblemRows)
        ensures
            r.current is None,
            r.folders@.len() == 0,
    {
        ProblemRows { current: None, folders: Vec::new() }
    }

    /// A row of the folder starts a new folder: there is none yet, or it has another identifier.
    pub fn starts_folder(&self, folder_id: i64) -> (r: bool)
        ensures
            r == match self.current {
                Some(folder) => folder.id != folder_id,
                None => true,
            },
    {
        match &self.current {
            Some(folder) => folder.id != folder_id,
            None => true,
        }
    }

    /// Starts the folder of a row; the folder gathered before joins the folders.
    pub fn start_folder(&mut self, folder: FolderMd)
        ensures
            final(self).current == Some(folder),
            final(self).folders@ == match old(self).current {
                Some(previous) => old(self).folders@.push(Metadata::Folder(previous)),
                None => old(self).folders@,
            },
    {
        match self.current.take() {
            Some(previous) => self.folders.push(Metadata::Folder(previous)),
            None => {},
        }
        self.current = Some(folder);
    }

    /// Adds the problem of a row of the folder being gathered.
    pub fn add_problem(&mut self, problem: ProblemMd)
        requires
            old(self).current is Some,
        ensures
            final(self).folders == old(self).folders,
            final(self).current matches Some(f) && folder_with(
                f,
                old(self).current->0,
                Some(Metadata::Problem(problem)),
            ),
    {
        let mut folder = self.current.take().unwrap();
        insert_child(&mut folder, Metadata::Problem(problem));
        self.current = Some(folder);
    }

    /// The folders gathered, the last one included.
    pub fn finish(self) -> (r: Vec<Metadata>)
        ensures
            r@ == match self.current {
                Some(last) => self.folders@.push(Metadata::Folder(last)),
                None => self.folders@,
            },
    {
        let mut folders = self.folders;
        match self.current {
            Some(last) => folders.push(Metadata::Folder(last)),
            None => {},
        }
        folders
    }
}

/// Gathers consecutive rows of one filename into the duplicate identifiers of the filename.
pub struct DuplicateIdRows {
    /// The identifiers of the rows gathered so far.
    pub current: Option<DuplicateIds>,
}

impl DuplicateIdRows {
    /// Gathers no rows yet.
    pub fn new() -> (r: DuplicateIdRows)
        ensures
            r.current is None,
    {
        DuplicateIdRows { current: None }
    }

    /// Adds the identifiers of a row; a row of another filename than the one gathered starts
    /// a new set of identifiers, and the set gathered before is given back.
    pub fn add_row(&mut self, filename: String, parent_id: i64, file_id: i64) -> (r: Option<DuplicateIds>)
        ensures
            match old(self).current {
                Some(ids) if ids.filename@ == filename@ => {
                    &&& r is None
                    &&& final(self).current matches Some(now) && now.filename == ids.filename
                        && now.ids@ == ids.ids@.push((parent_id, file_id))
                },
                _ => {
                    &&& r == old(self).current
                    &&& final(self).current matches Some(now) && now.filename == filename && now.ids@
                        == seq![(parent_id, file_id)]
                },
            },
    {
        let same = match &self.current {
            Some(ids) => str_equal(ids.filename.as_str(), filename.as_str()),
            None => false,
        };
        if same {
            let mut ids = self.current.take().unwrap();
            ids.ids.push((parent_id, file_id));
            self.current = Some(ids);
            None
        } else {
            let mut pairs: Vec<(i64, i64)> = Vec::new();
            pairs.push((parent_id, file_id));
            let previous = self.current.take();
            self.current = Some(DuplicateIds { filename, ids: pairs });
            previous
        }
    }

    /// The identifiers gathered last, if any.
    pub fn finish(self) -> (r: Option<DuplicateIds>)
        ensures
            r == self.current,
    {
        self.current
    }
}

} // verus!
