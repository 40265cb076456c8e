//! Loading filesystem metadata into the database: the inserts it takes, in order, each with
//! the folder row it belongs to, and the counts of what was inserted.
use crate::decimal::{decimal, unsigned_text};
use crate::filesys::{as_filename, file_name_of, FileMetadata, FolderMetadata, FsMetadata, ProblemMetadata};
use vstd::prelude::*;

verus! {

/// The parent identifier of the top-level folder of a loaded hierarchy.
pub const ROOT_FOLDER_PARENT_ID: i64 = 0;

/// The filename of the file recorded for a folder that holds no file.
pub open spec fn empty_folder_filename() -> Seq<char> {
    "<?>"@
}

/// The pathname with a name appended as `PathBuf::push` appends a relative name: after a
/// `/` separator unless the pathname is empty or already ends with one.
pub open spec fn pushed_path(pathname: Seq<char>, name: Seq<char>) -> Seq<char> {
    if pathname.len() == 0 || pathname.last() == '/' {
        pathname + name
    } else {
        pathname + seq!['/'] + name
    }
}

/// The file recorded for a folder that holds no file, so the folder shows when folders and
/// files are joined: named `<?>` inside the folder, no link, no size, no timestamps.
pub fn empty_folder_file(folder_pathname: &str) -> (r: FileMetadata)
    ensures
        r.path@ == pushed_path(folder_pathname@, empty_folder_filename()),
        !r.is_symlink,
        r.size == 0,
        r.created == 0,
        r.modified == 0,
{
    proof {
        reveal_strlit("<?>");
        reveal_strlit("/<?>");
        assert("/<?>"@ =~= seq!['/'] + "<?>"@);
    }
    let n = folder_pathname.unicode_len();
    let path = if n == 0 || folder_pathname.get_char(n - 1) == '/' {
        String::from_str(folder_pathname).concat("<?>")
    } else {
        let text = String::from_str(folder_pathname).concat("/<?>");
        assert(text@ =~= folder_pathname@ + seq!['/'] + "<?>"@);
        text
    };
    FileMetadata { path, is_symlink: false, size: 0, created: 0, modified: 0 }
}

/// What an insert records.
#[derive(Debug, Clone, Copy, PartialEq, Eq, Structural)]
pub enum InsertKind {
    /// A folder row.
    Folder,
    /// A file row.
    File,
    /// The file row recorded for a folder that holds no file.
    EmptyFolderFile,
    /// A problem row.
    Problem,
}

/// One insert of the load: the row and the folder row it belongs to.
#[derive(Debug)]
pub struct InsertRow {
    /// What the row records.
    pub kind: InsertKind,
    /// The index, among the inserts, of the folder the row belongs to; none for the
    /// top-level item, whose parent is the root parent identifier.
    pub parent: Option<usize>,
    /// The pathname of the folder, file or problem.
    pub pathname: String,
    /// The filename of a folder or file.
    pub name: String,
    /// The file is a symbolic link.
    pub is_symlink: bool,
    /// The disk space used.
    pub size: u64,
    /// The creation timestamp.
    pub created: u64,
    /// The last modification timestamp.
    pub modified: u64,
    /// The description of a problem.
    pub description: String,
}

/// The content of an insert.
pub struct PlannedInsert {
    /// What the row records.
    pub kind: InsertKind,
    /// The index of the folder row the row belongs to.
    pub parent: Option<int>,
    /// The pathname.
    pub pathname: Seq<char>,
    /// The filename.
    pub name: Seq<char>,
    /// The file is a symbolic link.
    pub is_symlink: bool,
    /// The disk space used.
    pub size: u64,
    /// The creation timestamp.
    pub created: u64,
    /// The last modification timestamp.
    pub modified: u64,
    /// The description of a problem.
    pub description: Seq<char>,
}

/// The content of an insert row.
pub open spec fn planned(row: InsertRow) -> PlannedInsert {
    PlannedInsert {
        kind: row.kind,
        parent: match row.parent {
            Some(p) => Some(p as int),
            None => None,
        },
        pathname: row.pathname@,
        name: row.name@,
        is_symlink: row.is_symlink,
        size: row.size,
        created: row.created,
        modified: row.modified,
        description: row.description@,
    }
}

/// The contents of insert rows.
pub open spec fn planned_all(rows: Seq<InsertRow>) -> Seq<PlannedInsert> {
    rows.map_values(|row: InsertRow| planned(row))
}

/// The insert of a file.
pub open spec fn file_insert(file: FileMetadata, kind: InsertKind, parent: Option<int>) -> PlannedInsert {
    PlannedInsert {
        kind,
        parent,
        pathname: file.path@,
        name: file_name_of(file.path@),
        is_symlink: file.is_symlink,
        size: file.size,
        created: file.created,
        modified: file.modified,
        description: Seq::empty(),
    }
}

/// The insert of a folder.
pub open spec fn folder_insert(folder: FolderMetadata, parent: Option<int>) -> PlannedInsert {
    PlannedInsert {
        kind: InsertKind::Folder,
        parent,
        pathname: folder.path@,
        name: file_name_of(folder.path@),
        is_symlink: false,
        size: folder.size,
        created: folder.created,
        modified: folder.modified,
        description: Seq::empty(),
    }
}

/// The insert of a problem.
pub open spec fn problem_insert(problem: ProblemMetadata, parent: Option<int>) -> PlannedInsert {
    PlannedInsert {
        kind: InsertKind::Problem,
        parent,
        pathname: problem.path@,
        name: Seq::empty(),
        is_symlink: false,
        size: 0,
        created: 0,
        modified: 0,
        description: problem.description@,
    }
}

/// The insert of the file recorded for a folder that holds no file.
pub open spec fn empty_file_insert(folder: FolderMetadata, parent: Option<int>) -> PlannedInsert {
    let path = pushed_path(folder.path@, empty_folder_filename());
    PlannedInsert {
        kind: InsertKind::EmptyFolderFile,
        parent,
        pathname: path,
        name: file_name_of(path),
        is_symlink: false,
        size: 0,
        created: 0,
        modified: 0,
        description: Seq::empty(),
    }
}

/// Some of the items is a file.
pub open spec fn holds_file(items: Seq<FsMetadata>) -> bool {
    exists|j: int| 0 <= j < items.len() && (#[trigger] items[j]) is File
}

/// The inserts of an item, the first of them at index `base`: a file or a problem is one
/// row; a folder is its row, then the inserts of its contents, each belonging to it, then,
/// when none of its contents is a file, the file recorded for a folder without files.
pub open spec fn plan_of(m: FsMetadata, parent: Option<int>, base: int) -> Seq<PlannedInsert>
    decreases m, 1nat,
{
    match m {
        FsMetadata::File(f) => seq![file_insert(f, InsertKind::File, parent)],
        FsMetadata::Problem(p) => seq![problem_insert(p, parent)],
        FsMetadata::Folder(f) => {
            let contents = children_plan(f.children@, Some(base), base + 1);
            let closing = if holds_file(f.children@) {
                Seq::empty()
            } else {
                seq![empty_file_insert(f, Some(base))]
            };
            seq![folder_insert(f, parent)] + contents + closing
        },
    }
}

/// The inserts of items in order, the first of them at index `base`.
pub open spec fn children_plan(items: Seq<FsMetadata>, parent: Option<int>, base: int) -> Seq<PlannedInsert>
    decreases items, items.len(),
{
    if items.len() == 0 {
        Seq::empty()
    } else {
        let front = children_plan(items.drop_last(), parent, base);
        front + plan_of(items.last(), parent, base + front.len())
    }
}

/// The row of a file insert.
fn file_row(file: &FileMetadata, kind: InsertKind, parent: Option<usize>) -> (r: InsertRow)
    ensures
        planned(r) == file_insert(
            *file,
            kind,
            match parent {
                Some(p) => Some(p as int),
                None => None,
            },
        ),
{
    InsertRow {
        kind,
        parent,
        pathname: file.pathname(),
        name: file.filename(),
        is_symlink: file.is_symlink,
        size: file.size,
        created: file.created,
        modified: file.modified,
        description: String::new(),
    }
}

/// Appends the inserts of an item.
fn plan_into(m: &FsMetadata, parent: Option<usize>, plan: &mut Vec<InsertRow>)
    ensures
        planned_all(final(plan)@) == planned_all(old(plan)@) + plan_of(
            *m,
            match parent {
                Some(p) => Some(p as int),
                None => None,
            },
            old(plan)@.len() as int,
        ),
    decreases m,
{
    let ghost start = planned_all(plan@);
    let ghost parent_int = match parent {
        Some(p) => Some(p as int),
        None => None,
    };
    match m {
        FsMetadata::File(file) => {
            plan.push(file_row(file, InsertKind::File, parent));
            assert(planned_all(plan@) =~= start + plan_of(*m, parent_int, start.len() as int));
        },
        FsMetadata::Problem(problem) => {
            plan.push(
                InsertRow {
                    kind: InsertKind::Problem,
                    parent,
                    pathname: problem.pathname(),
                    name: String::new(),
                    is_symlink: false,
                    size: 0,
                    created: 0,
                    modified: 0,
                    description: problem.description.clone(),
                },
            );
            assert(planned_all(plan@) =~= start + plan_of(*m, parent_int, start.len() as int));
        },
        FsMetadata::Folder(folder) => {
            let base = plan.len();
            plan.push(
                InsertRow {
                    kind: InsertKind::Folder,
                    parent,
                    pathname: folder.pathname(),
                    name: folder.filename(),
                    is_symlink: false,
                    size: folder.size,
                    created: folder.created,
                    modified: folder.modified,
                    description: String::new(),
                },
            );
            let ghost items = folder.children@;
            let ghost head = start + seq![folder_insert(*folder, parent_int)];
            assert(planned_all(plan@) =~= head);
            assert(items.take(0) =~= Seq::<FsMetadata>::empty());
            let mut has_file = false;
            let mut i: usize = 0;
            while i < folder.children.len()
                invariant
                    *m == FsMetadata::Folder(*folder),
                    items == folder.children@,
                    base == start.len(),
                    head.len() == base + 1,
                    i <= items.len(),
                    planned_all(plan@) == head + children_plan(items.take(i as int), Some(base as int), base + 1),
                    has_file == holds_file(items.take(i as int)),
                decreases folder.children.len() - i,
            {
                proof {
                    assert(decreases_to!(*m => m->Folder_0));
                    assert(m->Folder_0 == *folder);
                    assert(decreases_to!(*folder => folder.children));
                    assert(decreases_to!(folder.children => folder.children@));
                    assert(decreases_to!(folder.children@ => folder.children@[i as int]));
                }
                if folder.children[i].is_file() {
                    has_file = true;
                }
                let ghost before = planned_all(plan@);
                plan_into(&folder.children[i], Some(base), plan);
                proof {
                    let front = children_plan(items.take(i as int), Some(base as int), base + 1);
                    assert(items.take(i + 1).drop_last() =~= items.take(i as int));
                    assert(items.take(i + 1).last() == items[i as int]);
                    assert(before.len() == base + 1 + front.len());
                    assert(planned_all(plan@) =~= head + children_plan(items.take(i + 1), Some(base as int), base + 1));
                    if has_file {
                        if !(items[i as int] is File) {
                            let j = choose|j: int| 0 <= j < i && (#[trigger] items.take(i as int)[j]) is File;
                            assert(items.take(i + 1)[j] is File);
                        } else {
                            assert(items.take(i + 1)[i as int] is File);
                        }
                    } else {
                        assert forall|j: int| 0 <= j < i + 1 implies !((#[trigger] items.take(i + 1)[j]) is File) by {
                            if j < i {
                                assert(items.take(i + 1)[j] == items.take(i as int)[j]);
                            }
                        }
                    }
                }
                i = i + 1;
            }
            assert(items.take(i as int) =~= items);
            let ghost contents = children_plan(items, Some(base as int), base + 1);
            let ghost middle = planned_all(plan@);
            assert(middle == head + contents);
            if !has_file {
                let empty_file = empty_folder_file(folder.path.as_str());
                let row = file_row(&empty_file, InsertKind::EmptyFolderFile, Some(base));
                assert(planned(row) == empty_file_insert(*folder, Some(base as int)));
                plan.push(row);
                assert(planned_all(plan@) =~= middle.push(empty_file_insert(*folder, Some(base as int))));
                assert(planned_all(plan@) =~= start + (seq![folder_insert(*folder, parent_int)] + contents + seq![
                    empty_file_insert(*folder, Some(base as int)),
                ]));
            } else {
                assert(planned_all(plan@) =~= start + (seq![folder_insert(*folder, parent_int)] + contents + Seq::<
                    PlannedInsert,
                >::empty()));
            }
        },
    }
}

/// The inserts that load the metadata, in order; the first row is the top-level item, whose
/// parent is the root parent identifier.
pub fn insert_plan(fs_metadata: &FsMetadata) -> (r: Vec<InsertRow>)
    ensures
        planned_all(r@) == plan_of(*fs_metadata, None, 0),
        forall|i: int|
            0 <= i < r@.len() && item_row(planned(#[trigger] r@[i])) ==> exists|n: FsMetadata| #[trigger]
                item_in(*fs_metadata, n) && records_item(planned(r@[i]), n),
        forall|n: FsMetadata| #[trigger]
            item_in(*fs_metadata, n) ==> exists|i: int| 0 <= i < r@.len() && records_item(planned(#[trigger] r@[i]), n),
{
    let mut plan: Vec<InsertRow> = Vec::new();
    plan_into(fs_metadata, None, &mut plan);
    assert(planned_all(Seq::<InsertRow>::empty()) =~= Seq::<PlannedInsert>::empty());
    proof {
        let all = plan_of(*fs_metadata, None, 0);
        lemma_plan_items(*fs_metadata, None, 0);
        assert forall|i: int| 0 <= i < plan@.len() && item_row(planned(#[trigger] plan@[i])) implies exists|
            n: FsMetadata,
        | #[trigger] item_in(*fs_metadata, n) && records_item(planned(plan@[i]), n) by {
            assert(all[i] == planned(plan@[i]));
        }
        assert forall|n: FsMetadata| #[trigger] item_in(*fs_metadata, n) implies exists|i: int|
            0 <= i < plan@.len() && records_item(planned(#[trigger] plan@[i]), n) by {
            let i = choose|i: int| 0 <= i < all.len() && records_item(#[trigger] all[i], n);
            assert(all[i] == planned(plan@[i]));
        }
    }
    plan
}

/// The number of inserts of a kind.
pub open spec fn kind_count(inserts: Seq<PlannedInsert>, kind: InsertKind) -> nat
    decreases inserts.len(),
{
    if inserts.len() == 0 {
        0
    } else {
        kind_count(inserts.drop_last(), kind) + if inserts.last().kind == kind {
            1nat
        } else {
            0nat
        }
    }
}

/// The number of items of a hierarchy that a kind of insert records: its folders, its
/// files, its problems, or (for the file recorded for a folder without files) its folders
/// that hold no file.
pub open spec fn tree_count(m: FsMetadata, kind: InsertKind) -> nat
    decreases m, 1nat,
{
    match m {
        FsMetadata::File(_) => if kind == InsertKind::File {
            1
        } else {
            0
        },
        FsMetadata::Problem(_) => if kind == InsertKind::Problem {
            1
        } else {
            0
        },
        FsMetadata::Folder(f) => {
            let own: nat = if kind == InsertKind::Folder {
                1
            } else if kind == InsertKind::EmptyFolderFile && !holds_file(f.children@) {
                1
            } else {
                0
            };
            own + forest_count(f.children@, kind)
        },
    }
}

/// The number of items of hierarchies that a kind of insert records.
pub open spec fn forest_count(items: Seq<FsMetadata>, kind: InsertKind) -> nat
    decreases items, items.len(),
{
    if items.len() == 0 {
        0
    } else {
        forest_count(items.drop_last(), kind) + tree_count(items.last(), kind)
    }
}

proof fn lemma_kind_count_concat(a: Seq<PlannedInsert>, b: Seq<PlannedInsert>, kind: InsertKind)
    ensures
        kind_count(a + b, kind) == kind_count(a, kind) + kind_count(b, kind),
    decreases b.len(),
{
    if b.len() > 0 {
        assert((a + b).drop_last() =~= a + b.drop_last());
        lemma_kind_count_concat(a, b.drop_last(), kind);
    } else {
        assert(a + b =~= a);
    }
}

proof fn lemma_kind_count_le(inserts: Seq<PlannedInsert>, kind: InsertKind)
    ensures
        kind_count(inserts, kind) <= inserts.len(),
    decreases inserts.len(),
{
    if inserts.len() > 0 {
        lemma_kind_count_le(inserts.drop_last(), kind);
    }
}

proof fn lemma_children_plan_counts(items: Seq<FsMetadata>, parent: Option<int>, base: int, kind: InsertKind)
    ensures
        kind_count(children_plan(items, parent, base), kind) == forest_count(items, kind),
    decreases items, items.len(),
{
    if items.len() > 0 {
        let front = children_plan(items.drop_last(), parent, base);
        lemma_children_plan_counts(items.drop_last(), parent, base, kind);
        lemma_plan_counts(items.last(), parent, base + front.len(), kind);
        lemma_kind_count_concat(front, plan_of(items.last(), parent, base + front.len()), kind);
    }
}

/// The inserts of a hierarchy record each of its items once: as many folder rows as it has
/// folders, file rows as files, problem rows as problems, and rows for a folder without
/// files as it has folders that hold no file.
pub proof fn lemma_plan_counts(m: FsMetadata, parent: Option<int>, base: int, kind: InsertKind)
    ensures
        kind_count(plan_of(m, parent, base), kind) == tree_count(m, kind),
    decreases m, 1nat,
{
    if m is Folder {
        let f = m->Folder_0;
        {
            let contents = children_plan(f.children@, Some(base), base + 1);
            let closing = if holds_file(f.children@) {
                Seq::<PlannedInsert>::empty()
            } else {
                seq![empty_file_insert(f, Some(base))]
            };
            let head = seq![folder_insert(f, parent)];
            lemma_children_plan_counts(f.children@, Some(base), base + 1, kind);
            lemma_kind_count_concat(head, contents, kind);
            lemma_kind_count_concat(head + contents, closing, kind);
            assert(kind_count(Seq::<PlannedInsert>::empty(), kind) == 0);
            assert(head.drop_last() =~= Seq::<PlannedInsert>::empty());
            assert(head.last() == folder_insert(f, parent));
            assert(kind_count(head, kind) == if kind == InsertKind::Folder {
                1nat
            } else {
                0nat
            });
            if closing.len() > 0 {
                assert(closing.drop_last() =~= Seq::<PlannedInsert>::empty());
                assert(kind_count(closing, kind) == if kind == InsertKind::EmptyFolderFile {
                    1nat
                } else {
                    0nat
                });
            } else {
                assert(kind_count(closing, kind) == 0);
            }
            assert(plan_of(m, parent, base) == head + contents + closing);
            assert(kind_count(head + contents + closing, kind) == kind_count(head, kind) + kind_count(contents, kind)
                + kind_count(closing, kind));
            assert(kind_count(contents, kind) == forest_count(f.children@, kind));
            let own: nat = if kind == InsertKind::Folder {
                1
            } else if kind == InsertKind::EmptyFolderFile && !holds_file(f.children@) {
                1
            } else {
                0
            };
            assert(tree_count(m, kind) == own + forest_count(f.children@, kind));
            assert(kind_count(closing, kind) + kind_count(head, kind) == own);
            assert(kind_count(plan_of(m, parent, base), kind) == tree_count(m, kind));
        }
    } else {
        assert(kind_count(Seq::<PlannedInsert>::empty(), kind) == 0);
        assert(plan_of(m, parent, base).drop_last() =~= Seq::<PlannedInsert>::empty());
    }
}

/// Each insert belongs to `outer`, or to a folder row that comes before it; the inserts are
/// numbered from `base`.
pub open spec fn parents_precede(inserts: Seq<PlannedInsert>, base: int, outer: Option<int>) -> bool {
    forall|i: int|
        0 <= i < inserts.len() ==> (#[trigger] inserts[i]).parent == outer || (inserts[i].parent matches Some(q)
            && base <= q < base + i && inserts[q - base].kind == InsertKind::Folder)
}

#[verifier::spinoff_prover]
#[verifier::rlimit(40)]
proof fn lemma_children_plan_parents(items: Seq<FsMetadata>, parent: Option<int>, base: int)
    ensures
        parents_precede(children_plan(items, parent, base), base, parent),
    decreases items, items.len(),
{
    if items.len() > 0 {
        let front = children_plan(items.drop_last(), parent, base);
        let last_base = base + front.len();
        let tail = plan_of(items.last(), parent, last_base);
        lemma_children_plan_parents(items.drop_last(), parent, base);
        lemma_plan_parents(items.last(), parent, last_base);
        let all = front + tail;
        assert(children_plan(items, parent, base) == all);
        assert forall|i: int| 0 <= i < all.len() implies (#[trigger] all[i]).parent == parent || (
        all[i].parent matches Some(q) && base <= q < base + i && all[q - base].kind == InsertKind::Folder) by {
            if i < front.len() {
                assert(all[i] == front[i]);
                if front[i].parent != parent {
                    let q = front[i].parent->0;
                    assert(all[q - base] == front[q - base]);
                }
            } else {
                let t = i - front.len();
                assert(all[i] == tail[t]);
                if t > 0 {
                    let q = tail[t].parent->0;
                    assert(all[q - base] == tail[q - last_base]);
                }
            }
        }
    }
}

/// The load inserts each item after the folder it belongs to: the first insert of an item
/// belongs to the item's parent, and every later one to a folder row inserted before it.
pub proof fn lemma_plan_parents(m: FsMetadata, parent: Option<int>, base: int)
    ensures
        plan_of(m, parent, base).len() > 0,
        plan_of(m, parent, base)[0].parent == parent,
        forall|i: int|
            1 <= i < plan_of(m, parent, base).len() ==> ((#[trigger] plan_of(m, parent, base)[i]).parent matches Some(q)
                && base <= q < base + i && plan_of(m, parent, base)[q - base].kind == InsertKind::Folder),
    decreases m, 1nat,
{
    if m is Folder {
        let f = m->Folder_0;
        let contents = children_plan(f.children@, Some(base), base + 1);
        let closing = if holds_file(f.children@) {
            Seq::<PlannedInsert>::empty()
        } else {
            seq![empty_file_insert(f, Some(base))]
        };
        let head = seq![folder_insert(f, parent)];
        let all = head + contents + closing;
        assert(plan_of(m, parent, base) == all);
        lemma_children_plan_parents(f.children@, Some(base), base + 1);
        assert(all[0] == folder_insert(f, parent));
        assert forall|i: int| 1 <= i < all.len() implies ((#[trigger] all[i]).parent matches Some(q) && base <= q
            < base + i && all[q - base].kind == InsertKind::Folder) by {
            if i < 1 + contents.len() {
                let j = i - 1;
                assert(all[i] == contents[j]);
                if contents[j].parent == Some(base) {
                    assert(all[base - base] == folder_insert(f, parent));
                } else {
                    let q = contents[j].parent->0;
                    assert(all[q - base] == contents[q - (base + 1)]);
                }
            } else {
                assert(all[i] == closing[i - 1 - contents.len()]);
                assert(all[base - base] == folder_insert(f, parent));
            }
        }
    }
}

/// The item `n` is in the hierarchy `m`: `m` is `n`, or a folder that holds `n` at some
/// depth.
pub open spec fn item_in(m: FsMetadata, n: FsMetadata) -> bool
    decreases m, 1nat,
{
    m == n || match m {
        FsMetadata::Folder(d) => item_in_any(d.children@, n),
        _ => false,
    }
}

/// The item `n` is in one of the hierarchies `items`.
pub open spec fn item_in_any(items: Seq<FsMetadata>, n: FsMetadata) -> bool
    decreases items, items.len(),
{
    if items.len() == 0 {
        false
    } else {
        item_in_any(items.drop_last(), n) || item_in(items.last(), n)
    }
}

/// The insert records the item `n`: a file row records a file's pathname, whether it is a
/// symbolic link, its size and its creation and modification timestamps; a folder row a
/// folder's pathname, size and timestamps; a problem row a problem's pathname and
/// description.
pub open spec fn records_item(row: PlannedInsert, n: FsMetadata) -> bool {
    match n {
        FsMetadata::File(f) => {
            &&& row.kind == InsertKind::File
            &&& row.pathname == f.path@
            &&& row.is_symlink == f.is_symlink
            &&& row.size == f.size
            &&& row.created == f.created
            &&& row.modified == f.modified
        },
        FsMetadata::Folder(d) => {
            &&& row.kind == InsertKind::Folder
            &&& row.pathname == d.path@
            &&& row.size == d.size
            &&& row.created == d.created
            &&& row.modified == d.modified
        },
        FsMetadata::Problem(p) => {
            &&& row.kind == InsertKind::Problem
            &&& row.pathname == p.path@
            &&& row.description == p.description@
        },
    }
}

/// The insert records an item of the hierarchy itself, not the file recorded for a folder
/// without files.
pub open spec fn item_row(row: PlannedInsert) -> bool {
    row.kind != InsertKind::EmptyFolderFile
}

proof fn lemma_children_plan_items(items: Seq<FsMetadata>, parent: Option<int>, base: int)
    ensures
        forall|i: int|
            0 <= i < children_plan(items, parent, base).len() && item_row(
                #[trigger] children_plan(items, parent, base)[i],
            ) ==> exists|n: FsMetadata| #[trigger]
                item_in_any(items, n) && records_item(children_plan(items, parent, base)[i], n),
        forall|n: FsMetadata| #[trigger]
            item_in_any(items, n) ==> exists|i: int|
                0 <= i < children_plan(items, parent, base).len() && records_item(
                    #[trigger] children_plan(items, parent, base)[i],
                    n,
                ),
    decreases items, items.len(),
{
    if items.len() > 0 {
        let rest = items.drop_last();
        let front = children_plan(rest, parent, base);
        let last = plan_of(items.last(), parent, base + front.len());
        let all = children_plan(items, parent, base);
        assert(all == front + last);
        lemma_children_plan_items(rest, parent, base);
        lemma_plan_items(items.last(), parent, base + front.len());
        assert forall|i: int| 0 <= i < all.len() && item_row(#[trigger] all[i]) implies exists|n: FsMetadata| #[trigger]
            item_in_any(items, n) && records_item(all[i], n) by {
            if i < front.len() {
                assert(all[i] == front[i]);
                let n = choose|n: FsMetadata| #[trigger] item_in_any(rest, n) && records_item(front[i], n);
                assert(item_in_any(items, n));
            } else {
                assert(all[i] == last[i - front.len()]);
                let n = choose|n: FsMetadata| #[trigger] item_in(items.last(), n) && records_item(last[i - front.len()], n);
                assert(item_in_any(items, n));
            }
        }
        assert forall|n: FsMetadata| #[trigger] item_in_any(items, n) implies exists|i: int|
            0 <= i < all.len() && records_item(#[trigger] all[i], n) by {
            if item_in_any(rest, n) {
                let i = choose|i: int| 0 <= i < front.len() && records_item(#[trigger] front[i], n);
                assert(all[i] == front[i]);
            } else {
                assert(item_in(items.last(), n));
                let j = choose|j: int| 0 <= j < last.len() && records_item(#[trigger] last[j], n);
                assert(all[front.len() + j] == last[j]);
            }
        }
    }
}

/// The rows of a load record the items of the hierarchy, each with its own values: every row
/// but those recorded for folders without files records a file, folder or problem of the
/// hierarchy (a file with its pathname, symbolic link flag, size and timestamps; a folder
/// with its pathname, size and timestamps; a problem with its pathname and description), and
/// every item of the hierarchy has a row that records it.
pub proof fn lemma_plan_items(m: FsMetadata, parent: Option<int>, base: int)
    ensures
        forall|i: int|
            0 <= i < plan_of(m, parent, base).len() && item_row(#[trigger] plan_of(m, parent, base)[i])
                ==> exists|n: FsMetadata| #[trigger] item_in(m, n) && records_item(plan_of(m, parent, base)[i], n),
        forall|n: FsMetadata| #[trigger]
            item_in(m, n) ==> exists|i: int|
                0 <= i < plan_of(m, parent, base).len() && records_item(#[trigger] plan_of(m, parent, base)[i], n),
    decreases m, 1nat,
{
    let all = plan_of(m, parent, base);
    assert(records_item(all[0], m));
    assert(item_in(m, m));
    match m {
        FsMetadata::Folder(d) => {
            let contents = children_plan(d.children@, Some(base), base + 1);
            let closing = if holds_file(d.children@) {
                Seq::<PlannedInsert>::empty()
            } else {
                seq![empty_file_insert(d, Some(base))]
            };
            let head = seq![folder_insert(d, parent)];
            assert(all == head + contents + closing);
            lemma_children_plan_items(d.children@, Some(base), base + 1);
            assert forall|i: int| 0 <= i < all.len() && item_row(#[trigger] all[i]) implies exists|n: FsMetadata| #[trigger]
                item_in(m, n) && records_item(all[i], n) by {
                if i == 0 {
                } else if i < 1 + contents.len() {
                    assert(all[i] == contents[i - 1]);
                    let n = choose|n: FsMetadata| #[trigger] item_in_any(d.children@, n) && records_item(contents[i - 1], n);
                    assert(item_in(m, n));
                } else {
                    assert(all[i] == closing[i - 1 - contents.len()]);
                }
            }
            assert forall|n: FsMetadata| #[trigger] item_in(m, n) implies exists|i: int|
                0 <= i < all.len() && records_item(#[trigger] all[i], n) by {
                if n != m {
                    assert(item_in_any(d.children@, n));
                    let j = choose|j: int| 0 <= j < contents.len() && records_item(#[trigger] contents[j], n);
                    assert(all[1 + j] == contents[j]);
                }
            }
        },
        _ => {
            assert forall|n: FsMetadata| #[trigger] item_in(m, n) implies exists|i: int|
                0 <= i < all.len() && records_item(#[trigger] all[i], n) by {
                assert(n == m);
            }
        },
    }
}

/// The counts of what a load inserted.
#[derive(Debug, Default)]
pub struct InsertCount {
    /// The folders inserted.
    pub folders: usize,
    /// The files inserted.
    pub files: usize,
    /// The problems inserted.
    pub problems: usize,
    /// The files recorded for folders without files.
    pub empty_files: usize,
}

/// Counts the inserts of each kind.
pub fn insert_counts(plan: &Vec<InsertRow>) -> (r: InsertCount)
    ensures
        r.folders == kind_count(planned_all(plan@), InsertKind::Folder),
        r.files == kind_count(planned_all(plan@), InsertKind::File),
        r.problems == kind_count(planned_all(plan@), InsertKind::Problem),
        r.empty_files == kind_count(planned_all(plan@), InsertKind::EmptyFolderFile),
{
    let mut count = InsertCount { folders: 0, files: 0, problems: 0, empty_files: 0 };
    let mut i: usize = 0;
    proof {
        assert(planned_all(plan@.take(0)) =~= Seq::<PlannedInsert>::empty());
    }
    while i < plan.len()
        invariant
            i <= plan@.len(),
            count.folders == kind_count(planned_all(plan@.take(i as int)), InsertKind::Folder),
            count.files == kind_count(planned_all(plan@.take(i as int)), InsertKind::File),
            count.problems == kind_count(planned_all(plan@.take(i as int)), InsertKind::Problem),
            count.empty_files == kind_count(planned_all(plan@.take(i as int)), InsertKind::EmptyFolderFile),
        decreases plan.len() - i,
    {
        let ghost done = planned_all(plan@.take(i as int));
        proof {
            assert(planned_all(plan@.take(i + 1)).drop_last() =~= done);
            assert(planned_all(plan@.take(i + 1)).last() == planned(plan@[i as int]));
            lemma_kind_count_le(done, InsertKind::Folder);
            lemma_kind_count_le(done, InsertKind::File);
            lemma_kind_count_le(done, InsertKind::Problem);
            lemma_kind_count_le(done, InsertKind::EmptyFolderFile);
        }
        match plan[i].kind {
            InsertKind::Folder => count.folders = count.folders + 1,
            InsertKind::File => count.files = count.files + 1,
            InsertKind::Problem => count.problems = count.problems + 1,
            InsertKind::EmptyFolderFile => count.empty_files = count.empty_files + 1,
        }
        i = i + 1;
    }
    assert(plan@.take(i as int) =~= plan@);
    count
}

/// The text of insert counts.
pub open spec fn insert_count_text(folders: nat, files: nat, problems: nat, empty_files: nat) -> Seq<char> {
    "Insert Counts\n  folders: "@ + decimal(folders) + "\n  files: "@ + decimal(files) + "\n  problems: "@
        + decimal(problems) + "\n  entries: "@ + decimal(folders + files + problems) + "\n  empty files: "@
        + decimal(empty_files) + "\n  Total: "@ + decimal(folders + files + problems + empty_files)
}

impl InsertCount {
    /// Adds the counts of another load to these, kind by kind.
    pub fn add_assign(&mut self, rhs: InsertCount)
        requires
            old(self).folders + rhs.folders <= usize::MAX,
            old(self).files + rhs.files <= usize::MAX,
            old(self).problems + rhs.problems <= usize::MAX,
            old(self).empty_files + rhs.empty_files <= usize::MAX,
        ensures
            final(self).folders == old(self).folders + rhs.folders,
            final(self).files == old(self).files + rhs.files,
            final(self).problems == old(self).problems + rhs.problems,
            final(self).empty_files == old(self).empty_files + rhs.empty_files,
    {
        self.folders = self.folders + rhs.folders;
        self.files = self.files + rhs.files;
        self.problems = self.problems + rhs.problems;
        self.empty_files = self.empty_files + rhs.empty_files;
    }

    /// The counts as text: each count, the entries (folders, files and problems), and the total.
    pub fn text(&self) -> (r: String)
        requires
            self.folders + self.files + self.problems + self.empty_files <= u64::MAX,
        ensures
            r@ == insert_count_text(
                self.folders as nat,
                self.files as nat,
                self.problems as nat,
                self.empty_files as nat,
            ),
    {
        let folders = self.folders as u64;
        let files = self.files as u64;
        let problems = self.problems as u64;
        let empty_files = self.empty_files as u64;
        let text = String::from_str("Insert Counts\n  folders: ");
        let text = text.concat(unsigned_text(folders).as_str());
        let text = text.concat("\n  files: ");
        let text = text.concat(unsigned_text(files).as_str());
        let text = text.concat("\n  problems: ");
        let text = text.concat(unsigned_text(problems).as_str());
        let text = text.concat("\n  entries: ");
        let text = text.concat(unsigned_text(folders + files + problems).as_str());
        let text = text.concat("\n  empty files: ");
        let text = text.concat(unsigned_text(empty_files).as_str());
        let text = text.concat("\n  Total: ");
        text.concat(unsigned_text(folders + files + problems + empty_files).as_str())
    }
}

} // verus!
