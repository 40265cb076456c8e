//! The content of the folder reports: an `ls -l` style listing of folder hierarchies, the
//! details of each folder with its files, and the summary of each folder; the rows are
//! computed here and formatted by the caller.
use crate::listing::{add3, direct_counts, fits, le3, summary_view, zero3, FolderSummary};
use crate::objects::Metadata;
use vstd::prelude::*;

verus! {

/// The type shown for an entry of a folder listing.
#[derive(Debug, Clone, Copy, PartialEq, Eq, Structural)]
pub enum EntryKind {
    /// A folder.
    Dir,
    /// A symbolic link.
    Sym,
    /// Anything else.
    File,
}

/// The metadata is a folder with children.
pub open spec fn has_children(m: Metadata) -> bool {
    m matches Metadata::Folder(f) && f.children@.len() > 0
}

/// A folder with children.
pub fn folder_has_children(metadata: &Metadata) -> (r: bool)
    ensures
        r == has_children(*metadata),
{
    match metadata {
        Metadata::Folder(folder_md) => folder_md.children.len() > 0,
        _ => false,
    }
}

/// The type shown for a child of a folder: a folder is a `DIR`; anything else is a `SYM`
/// when the listed metadata itself is a symbolic link, otherwise a `FILE`.
pub open spec fn entry_kind(listed: Metadata, child: Metadata) -> EntryKind {
    if child is Folder {
        EntryKind::Dir
    } else if listed matches Metadata::File(f) && f.is_symlink {
        EntryKind::Sym
    } else {
        EntryKind::File
    }
}

/// A line of a folder listing: a folder's pathname, or one of its entries.
pub enum InfoLine {
    /// The pathname of a listed folder.
    Folder(Seq<char>),
    /// An entry: its type, size, modification timestamp and name.
    Entry(EntryKind, u64, u64, Seq<char>),
}

/// A row of a folder listing.
#[derive(Debug)]
pub enum InformationRow {
    /// The pathname of a listed folder.
    Folder {
        /// The folder pathname.
        pathname: String,
    },
    /// An entry of the folder.
    Entry {
        /// The type shown.
        kind: EntryKind,
        /// The disk size.
        size: u64,
        /// The modification timestamp.
        modified: u64,
        /// The name.
        name: String,
    },
}

/// The line of a listing row.
pub open spec fn info_line(row: InformationRow) -> InfoLine {
    match row {
        InformationRow::Folder { pathname } => InfoLine::Folder(pathname@),
        InformationRow::Entry { kind, size, modified, name } => InfoLine::Entry(kind, size, modified, name@),
    }
}

/// The lines of listing rows.
pub open spec fn info_lines_of(rows: Seq<InformationRow>) -> Seq<InfoLine> {
    rows.map_values(|row: InformationRow| info_line(row))
}

/// The entries of a listed folder's children, in order.
pub open spec fn entry_lines(listed: Metadata, children: Seq<Metadata>) -> Seq<InfoLine> {
    children.map_values(
        |c: Metadata| InfoLine::Entry(entry_kind(listed, c), c.spec_size(), c.spec_modified(), c.spec_name()),
    )
}

/// The listing of a folder hierarchy: the folder's pathname, an entry for each child, then
/// the listing of each child that is a folder with children; nothing for what is not a
/// folder.
pub open spec fn info_lines(m: Metadata) -> Seq<InfoLine>
    decreases m, 1nat,
{
    match m {
        Metadata::Folder(f) => seq![InfoLine::Folder(f.pathname@)] + entry_lines(m, f.children@) + forest_info_lines(
            f.children@,
        ),
        _ => Seq::empty(),
    }
}

/// The listings of the folders with children of a sequence of metadata, in order.
pub open spec fn forest_info_lines(s: Seq<Metadata>) -> Seq<InfoLine>
    decreases s, 0nat,
{
    if s.len() == 0 {
        Seq::empty()
    } else {
        forest_info_lines(s.drop_last()) + if has_children(s.last()) {
            info_lines(s.last())
        } else {
            Seq::empty()
        }
    }
}

/// Adds the `ls -l` style listing of a folder hierarchy to the rows.
pub fn folder_information(metadata: &Metadata, rows: &mut Vec<InformationRow>)
    ensures
        info_lines_of(final(rows)@) == info_lines_of(old(rows)@) + info_lines(*metadata),
    decreases metadata,
{
    let ghost start = info_lines_of(rows@);
    match metadata {
        Metadata::Folder(folder_md) => {
            let ghost children = folder_md.children@;
            rows.push(InformationRow::Folder { pathname: folder_md.pathname.clone() });
            let mut i: usize = 0;
            proof {
                assert(info_lines_of(rows@) =~= start + seq![InfoLine::Folder(folder_md.pathname@)]);
                assert(children.take(0) =~= Seq::<Metadata>::empty());
            }
            let ghost head = start + seq![InfoLine::Folder(folder_md.pathname@)];
            while i < folder_md.children.len()
                invariant
                    *metadata == Metadata::Folder(*folder_md),
                    children == folder_md.children@,
                    i <= children.len(),
                    info_lines_of(rows@) == head + entry_lines(*metadata, children.take(i as int)),
                decreases folder_md.children.len() - i,
            {
                let child = &folder_md.children[i];
                let kind = if child.is_folder() {
                    EntryKind::Dir
                } else if metadata.is_symlink() {
                    EntryKind::Sym
                } else {
                    EntryKind::File
                };
                let name = String::from_str(child.name());
                let ghost before = rows@;
                let row = InformationRow::Entry { kind, size: child.size(), modified: child.modified(), name };
                assert(info_line(row) == InfoLine::Entry(
                    entry_kind(*metadata, children[i as int]),
                    children[i as int].spec_size(),
                    children[i as int].spec_modified(),
                    children[i as int].spec_name(),
                ));
                rows.push(row);
                proof {
                    assert(info_lines_of(rows@) =~= info_lines_of(before).push(info_line(row)));
                    assert(entry_lines(*metadata, children.take(i + 1)) =~= entry_lines(*metadata, children.take(i as int)).push(
                        InfoLine::Entry(
                            entry_kind(*metadata, children[i as int]),
                            children[i as int].spec_size(),
                            children[i as int].spec_modified(),
                            children[i as int].spec_name(),
                        ),
                    ));
                    assert(info_lines_of(rows@) =~= head + entry_lines(*metadata, children.take(i + 1)));
                }
                i = i + 1;
            }
            assert(children.take(i as int) =~= children);
            let ghost middle = head + entry_lines(*metadata, children);
            let mut k: usize = 0;
            proof {
                assert(forest_info_lines(children.take(0)) =~= Seq::<InfoLine>::empty());
                assert(info_lines_of(rows@) =~= middle + forest_info_lines(children.take(0)));
            }
            while k < folder_md.children.len()
                invariant
                    *metadata == Metadata::Folder(*folder_md),
                    children == folder_md.children@,
                    k <= children.len(),
                    info_lines_of(rows@) == middle + forest_info_lines(children.take(k as int)),
                decreases folder_md.children.len() - k,
            {
                let child = &folder_md.children[k];
                proof {
                    assert(children.take(k + 1).drop_last() =~= children.take(k as int));
                    assert(children.take(k + 1).last() == children[k as int]);
                    assert(decreases_to!(*metadata => metadata->Folder_0));
                    assert(metadata->Folder_0 == *folder_md);
                    assert(decreases_to!(*folder_md => folder_md.children));
                    assert(decreases_to!(folder_md.children => folder_md.children@));
                    assert(decreases_to!(folder_md.children@ => folder_md.children@[k as int]));
                }
                if folder_has_children(child) {
                    folder_information(child, rows);
                }
                assert(info_lines_of(rows@) =~= middle + forest_info_lines(children.take(k + 1)));
                k = k + 1;
            }
            assert(children.take(k as int) =~= children);
            assert(info_lines_of(rows@) =~= start + info_lines(*metadata));
        },
        _ => {
            assert(info_lines_of(rows@) =~= start + info_lines(*metadata));
        },
    }
}

/// The listing of each metadata, in order.
pub open spec fn all_info_lines(s: Seq<Metadata>) -> Seq<InfoLine>
    decreases s.len(),
{
    if s.len() == 0 {
        Seq::empty()
    } else {
        all_info_lines(s.drop_last()) + info_lines(s.last())
    }
}

/// The `ls -l` style listing of folder hierarchies, one after the other.
pub fn folders_information(folder_mds: &Vec<Metadata>) -> (r: Vec<InformationRow>)
    ensures
        info_lines_of(r@) == all_info_lines(folder_mds@),
{
    let mut rows: Vec<InformationRow> = Vec::new();
    let mut i: usize = 0;
    proof {
        assert(info_lines_of(rows@) =~= Seq::<InfoLine>::empty());
        assert(folder_mds@.take(0) =~= Seq::<Metadata>::empty());
    }
    while i < folder_mds.len()
        invariant
            i <= folder_mds@.len(),
            info_lines_of(rows@) == all_info_lines(folder_mds@.take(i as int)),
        decreases folder_mds.len() - i,
    {
        proof {
            assert(folder_mds@.take(i + 1).drop_last() =~= folder_mds@.take(i as int));
            assert(folder_mds@.take(i + 1).last() == folder_mds@[i as int]);
        }
        folder_information(&folder_mds[i], &mut rows);
        i = i + 1;
    }
    assert(folder_mds@.take(i as int) =~= folder_mds@);
    rows
}

/// The counts a folder's detail line shows of its children by themselves: its files
/// (symbolic links included), its folders, and the disk size of its files.
pub open spec fn detail_direct(children: Seq<Metadata>) -> (nat, nat, nat)
    decreases children.len(),
{
    if children.len() == 0 {
        zero3()
    } else {
        let c = children.last();
        add3(
            detail_direct(children.drop_last()),
            match c {
                Metadata::File(f) => (1nat, 0nat, f.size as nat),
                Metadata::Folder(_) => (0nat, 1nat, 0nat),
                _ => zero3(),
            },
        )
    }
}

/// The totals of a folder's details: its files and folders, and its own size with the size
/// of its files, added to the totals of its child folders; for what is not a folder, its
/// size alone.
pub open spec fn detail_totals(m: Metadata) -> (nat, nat, nat)
    decreases m, 1nat,
{
    match m {
        Metadata::Folder(f) => {
            let d = detail_direct(f.children@);
            add3((d.0, d.1, f.size as nat + d.2), forest_detail_totals(f.children@))
        },
        _ => (0nat, 0nat, m.spec_size() as nat),
    }
}

/// The detail totals of the folders of a sequence of metadata, added up.
pub open spec fn forest_detail_totals(s: Seq<Metadata>) -> (nat, nat, nat)
    decreases s, 0nat,
{
    if s.len() == 0 {
        zero3()
    } else {
        add3(
            forest_detail_totals(s.drop_last()),
            if s.last() is Folder {
                detail_totals(s.last())
            } else {
                zero3()
            },
        )
    }
}

/// A line of the details report.
pub enum DetailLine {
    /// A folder: the counts of its files and folders, its own size, and its pathname.
    Folder(nat, nat, nat, Seq<char>),
    /// A file of the folder above: its size and name.
    File(nat, Seq<char>),
}

/// A row of the details report.
#[derive(Debug)]
pub enum DetailRow {
    /// A folder.
    Folder {
        /// The number of its files, symbolic links included.
        files: u64,
        /// The number of its folders.
        folders: u64,
        /// Its own size.
        size: u64,
        /// Its pathname.
        pathname: String,
    },
    /// A file of the folder above.
    File {
        /// The file size.
        size: u64,
        /// The filename.
        name: String,
    },
}

/// The line of a details row.
pub open spec fn detail_line(row: DetailRow) -> DetailLine {
    match row {
        DetailRow::Folder { files, folders, size, pathname } => DetailLine::Folder(
            files as nat,
            folders as nat,
            size as nat,
            pathname@,
        ),
        DetailRow::File { size, name } => DetailLine::File(size as nat, name@),
    }
}

/// The lines of details rows.
pub open spec fn detail_lines_of(rows: Seq<DetailRow>) -> Seq<DetailLine> {
    rows.map_values(|row: DetailRow| detail_line(row))
}

/// The lines of the files among a folder's children, in order.
pub open spec fn file_lines(children: Seq<Metadata>) -> Seq<DetailLine>
    decreases children.len(),
{
    if children.len() == 0 {
        Seq::empty()
    } else {
        file_lines(children.drop_last()) + match children.last() {
            Metadata::File(f) => seq![DetailLine::File(f.size as nat, f.name@)],
            _ => Seq::empty(),
        }
    }
}

/// The details of a folder hierarchy: the folder's line, a line per file, then the details
/// of each child folder; nothing for what is not a folder.
pub open spec fn detail_lines(m: Metadata) -> Seq<DetailLine>
    decreases m, 1nat,
{
    match m {
        Metadata::Folder(f) => {
            let d = detail_direct(f.children@);
            seq![DetailLine::Folder(d.0, d.1, f.size as nat, f.pathname@)] + file_lines(f.children@)
                + forest_detail_lines(f.children@)
        },
        _ => Seq::empty(),
    }
}

/// The details of the folders of a sequence of metadata, in order.
pub open spec fn forest_detail_lines(s: Seq<Metadata>) -> Seq<DetailLine>
    decreases s, 0nat,
{
    if s.len() == 0 {
        Seq::empty()
    } else {
        forest_detail_lines(s.drop_last()) + if s.last() is Folder {
            detail_lines(s.last())
        } else {
            Seq::empty()
        }
    }
}

proof fn lemma_detail_direct_prefix(s: Seq<Metadata>, i: int)
    requires
        0 <= i <= s.len(),
    ensures
        le3(detail_direct(s.take(i)), detail_direct(s)),
    decreases s.len(),
{
    if i < s.len() {
        assert(s.drop_last().take(i) =~= s.take(i));
        lemma_detail_direct_prefix(s.drop_last(), i);
    } else {
        assert(s.take(i) =~= s);
    }
}

proof fn lemma_forest_detail_prefix(s: Seq<Metadata>, i: int)
    requires
        0 <= i <= s.len(),
    ensures
        le3(forest_detail_totals(s.take(i)), forest_detail_totals(s)),
    decreases s.len(),
{
    if i < s.len() {
        assert(s.drop_last().take(i) =~= s.take(i));
        lemma_forest_detail_prefix(s.drop_last(), i);
    } else {
        assert(s.take(i) =~= s);
    }
}

/// Adds the details of a folder hierarchy to the rows and gives its totals: the files and
/// folders it holds, and its size with the size of all it holds.
pub fn folder_detail(metadata: &Metadata, rows: &mut Vec<DetailRow>) -> (r: (u64, u64, u64))
    requires
        fits(detail_totals(*metadata)),
    ensures
        (r.0 as nat, r.1 as nat, r.2 as nat) == detail_totals(*metadata),
        detail_lines_of(final(rows)@) == detail_lines_of(old(rows)@) + detail_lines(*metadata),
    decreases metadata,
{
    let ghost start = detail_lines_of(rows@);
    match metadata {
        Metadata::Folder(folder_md) => {
            let ghost children = folder_md.children@;
            let ghost d = detail_direct(children);
            let ghost whole = detail_totals(*metadata);
            let mut files: u64 = 0;
            let mut folders: u64 = 0;
            let mut file_size: u64 = 0;
            let mut i: usize = 0;
            proof {
                assert(children.take(0) =~= Seq::<Metadata>::empty());
            }
            while i < folder_md.children.len()
                invariant
                    *metadata == Metadata::Folder(*folder_md),
                    children == folder_md.children@,
                    d == detail_direct(children),
                    whole == add3((d.0, d.1, folder_md.size as nat + d.2), forest_detail_totals(children)),
                    fits(whole),
                    i <= children.len(),
                    (files as nat, folders as nat, file_size as nat) == detail_direct(children.take(i as int)),
                decreases folder_md.children.len() - i,
            {
                proof {
                    assert(children.take(i + 1).drop_last() =~= children.take(i as int));
                    assert(children.take(i + 1).last() == children[i as int]);
                    lemma_detail_direct_prefix(children, i + 1);
                }
                match &folder_md.children[i] {
                    Metadata::File(file_md) => {
                        files = files + 1;
                        file_size = file_size + file_md.size;
                    },
                    Metadata::Folder(_) => {
                        folders = folders + 1;
                    },
                    _ => {},
                }
                i = i + 1;
            }
            assert(children.take(i as int) =~= children);
            rows.push(DetailRow::Folder { files, folders, size: folder_md.size, pathname: folder_md.pathname.clone() });
            let ghost head = start + seq![DetailLine::Folder(d.0, d.1, folder_md.size as nat, folder_md.pathname@)];
            proof {
                assert(detail_lines_of(rows@) =~= head);
                assert(file_lines(children.take(0)) =~= Seq::<DetailLine>::empty());
                assert(head + file_lines(children.take(0)) =~= head);
            }
            let mut size: u64 = folder_md.size;
            let mut k: usize = 0;
            while k < folder_md.children.len()
                invariant
                    *metadata == Metadata::Folder(*folder_md),
                    children == folder_md.children@,
                    d == detail_direct(children),
                    fits(whole),
                    whole == add3((d.0, d.1, folder_md.size as nat + d.2), forest_detail_totals(children)),
                    k <= children.len(),
                    size == folder_md.size + detail_direct(children.take(k as int)).2,
                    detail_lines_of(rows@) == head + file_lines(children.take(k as int)),
                decreases folder_md.children.len() - k,
            {
                proof {
                    assert(children.take(k + 1).drop_last() =~= children.take(k as int));
                    assert(children.take(k + 1).last() == children[k as int]);
                    lemma_detail_direct_prefix(children, k + 1);
                }
                match &folder_md.children[k] {
                    Metadata::File(file_md) => {
                        size = size + file_md.size;
                        let ghost before = rows@;
                        rows.push(DetailRow::File { size: file_md.size, name: file_md.name.clone() });
                        assert(detail_lines_of(rows@) =~= detail_lines_of(before).push(
                            DetailLine::File(file_md.size as nat, file_md.name@),
                        ));
                    },
                    _ => {},
                }
                assert(detail_lines_of(rows@) =~= head + file_lines(children.take(k + 1)));
                k = k + 1;
            }
            assert(children.take(k as int) =~= children);
            let ghost middle = head + file_lines(children);
            let mut j: usize = 0;
            proof {
                assert(children.take(0) =~= Seq::<Metadata>::empty());
                assert(middle + forest_detail_lines(children.take(0)) =~= middle);
            }
            while j < folder_md.children.len()
                invariant
                    *metadata == Metadata::Folder(*folder_md),
                    children == folder_md.children@,
                    d == detail_direct(children),
                    fits(whole),
                    whole == add3((d.0, d.1, folder_md.size as nat + d.2), forest_detail_totals(children)),
                    j <= children.len(),
                    (files as nat, folders as nat, size as nat) == add3(
                        (d.0, d.1, folder_md.size as nat + d.2),
                        forest_detail_totals(children.take(j as int)),
                    ),
                    detail_lines_of(rows@) == middle + forest_detail_lines(children.take(j as int)),
                decreases folder_md.children.len() - j,
            {
                let child = &folder_md.children[j];
                proof {
                    assert(children.take(j + 1).drop_last() =~= children.take(j as int));
                    assert(children.take(j + 1).last() == children[j as int]);
                    lemma_forest_detail_prefix(children, j + 1);
                    assert(decreases_to!(*metadata => metadata->Folder_0));
                    assert(metadata->Folder_0 == *folder_md);
                    assert(decreases_to!(*folder_md => folder_md.children));
                    assert(decreases_to!(folder_md.children => folder_md.children@));
                    assert(decreases_to!(folder_md.children@ => folder_md.children@[j as int]));
                }
                if child.is_folder() {
                    let (child_files, child_folders, child_size) = folder_detail(child, rows);
                    files = files + child_files;
                    folders = folders + child_folders;
                    size = size + child_size;
                }
                assert(detail_lines_of(rows@) =~= middle + forest_detail_lines(children.take(j + 1)));
                j = j + 1;
            }
            assert(children.take(j as int) =~= children);
            assert(detail_lines_of(rows@) =~= start + detail_lines(*metadata));
            (files, folders, size)
        },
        _ => {
            assert(detail_lines_of(rows@) =~= start + detail_lines(*metadata));
            (0, 0, metadata.size())
        },
    }
}

/// The details of each metadata, in order.
pub open spec fn all_detail_lines(s: Seq<Metadata>) -> Seq<DetailLine>
    decreases s.len(),
{
    if s.len() == 0 {
        Seq::empty()
    } else {
        all_detail_lines(s.drop_last()) + detail_lines(s.last())
    }
}

/// The detail totals of each metadata, added up.
pub open spec fn all_detail_totals(s: Seq<Metadata>) -> (nat, nat, nat)
    decreases s.len(),
{
    if s.len() == 0 {
        zero3()
    } else {
        add3(all_detail_totals(s.drop_last()), detail_totals(s.last()))
    }
}

proof fn lemma_all_detail_prefix(s: Seq<Metadata>, i: int)
    requires
        0 <= i <= s.len(),
    ensures
        le3(all_detail_totals(s.take(i)), all_detail_totals(s)),
    decreases s.len(),
{
    if i < s.len() {
        assert(s.drop_last().take(i) =~= s.take(i));
        lemma_all_detail_prefix(s.drop_last(), i);
    } else {
        assert(s.take(i) =~= s);
    }
}

/// The three numbers of a summary as natural numbers.
pub open spec fn nat3(t: (u64, u64, u64)) -> (nat, nat, nat) {
    (t.0 as nat, t.1 as nat, t.2 as nat)
}

/// Numbers that do not fit do not fit once more is added to them.
proof fn lemma_not_fits_le(a: (nat, nat, nat), b: (nat, nat, nat))
    requires
        le3(a, b),
        !fits(a),
    ensures
        !fits(b),
{
}

/// Adds two summaries, `None` when a part of the sum does not fit in a `u64`.
fn add_checked(a: (u64, u64, u64), b: (u64, u64, u64)) -> (r: Option<(u64, u64, u64)>)
    ensures
        r matches Some(t) ==> nat3(t) == add3(nat3(a), nat3(b)),
        r is None ==> !fits(add3(nat3(a), nat3(b))),
{
    match (a.0.checked_add(b.0), a.1.checked_add(b.1), a.2.checked_add(b.2)) {
        (Some(x), Some(y), Some(z)) => Some((x, y, z)),
        _ => None,
    }
}

proof fn lemma_detail_prefix(s: Seq<Metadata>, i: int)
    requires
        0 <= i <= s.len(),
    ensures
        le3(detail_direct(s.take(i)), detail_direct(s)),
        le3(forest_detail_totals(s.take(i)), forest_detail_totals(s)),
    decreases s.len(),
{
    if i < s.len() {
        assert(s.drop_last().take(i) =~= s.take(i));
        lemma_detail_prefix(s.drop_last(), i);
    } else {
        assert(s.take(i) =~= s);
    }
}

/// The detail totals of metadata, `None` when they do not fit in `u64` values.
fn checked_detail_totals(m: &Metadata) -> (r: Option<(u64, u64, u64)>)
    ensures
        r matches Some(t) ==> nat3(t) == detail_totals(*m),
        r is None ==> !fits(detail_totals(*m)),
    decreases m,
{
    match m {
        Metadata::Folder(folder_md) => {
            let ghost children = folder_md.children@;
            let mut direct: (u64, u64, u64) = (0, 0, 0);
            let mut i: usize = 0;
            proof {
                assert(children.take(0) =~= Seq::<Metadata>::empty());
            }
            while i < folder_md.children.len()
                invariant
                    *m == Metadata::Folder(*folder_md),
                    children == folder_md.children@,
                    i <= children.len(),
                    nat3(direct) == detail_direct(children.take(i as int)),
                decreases folder_md.children.len() - i,
            {
                let part: (u64, u64, u64) = match &folder_md.children[i] {
                    Metadata::File(f) => (1, 0, f.size),
                    Metadata::Folder(_) => (0, 1, 0),
                    _ => (0, 0, 0),
                };
                proof {
                    assert(children.take(i + 1).drop_last() =~= children.take(i as int));
                    assert(children.take(i + 1).last() == children[i as int]);
                }
                match add_checked(direct, part) {
                    Some(t) => direct = t,
                    None => {
                        proof {
                            lemma_detail_prefix(children, i + 1);
                            lemma_not_fits_le(detail_direct(children.take(i + 1)), detail_totals(*m));
                        }
                        return None;
                    },
                }
                i = i + 1;
            }
            proof {
                assert(children.take(i as int) =~= children);
            }
            let own = match direct.2.checked_add(folder_md.size) {
                Some(z) => (direct.0, direct.1, z),
                None => {
                    return None;
                },
            };
            let mut nested: (u64, u64, u64) = (0, 0, 0);
            let mut j: usize = 0;
            proof {
                assert(children.take(0) =~= Seq::<Metadata>::empty());
            }
            while j < folder_md.children.len()
                invariant
                    *m == Metadata::Folder(*folder_md),
                    children == folder_md.children@,
                    j <= children.len(),
                    nat3(own) == (detail_direct(children).0, detail_direct(children).1, folder_md.size as nat
                        + detail_direct(children).2),
                    nat3(nested) == forest_detail_totals(children.take(j as int)),
                decreases folder_md.children.len() - j,
            {
                let child = &folder_md.children[j];
                proof {
                    assert(children.take(j + 1).drop_last() =~= children.take(j as int));
                    assert(children.take(j + 1).last() == children[j as int]);
                }
                if child.is_folder() {
                    proof {
                        assert(decreases_to!(*m => m->Folder_0));
                        assert(decreases_to!(*folder_md => folder_md.children));
                        assert(decreases_to!(folder_md.children => folder_md.children@));
                        assert(decreases_to!(folder_md.children@ => folder_md.children@[j as int]));
                    }
                    let sum = match checked_detail_totals(child) {
                        Some(t) => add_checked(nested, t),
                        None => None,
                    };
                    match sum {
                        Some(t) => nested = t,
                        None => {
                            proof {
                                lemma_detail_prefix(children, j + 1);
                                let whole = forest_detail_totals(children);
                                if !fits(detail_totals(*child)) {
                                    lemma_not_fits_le(detail_totals(*child), forest_detail_totals(children.take(j + 1)));
                                }
                                lemma_not_fits_le(forest_detail_totals(children.take(j + 1)), whole);
                                lemma_not_fits_le(whole, detail_totals(*m));
                            }
                            return None;
                        },
                    }
                }
                j = j + 1;
            }
            proof {
                assert(children.take(j as int) =~= children);
            }
            add_checked(own, nested)
        },
        _ => Some((0, 0, m.size())),
    }
}

/// Whether the grand totals of the details report of folder hierarchies fit in `u64`
/// values, as building the report requires.
pub fn details_fit(folder_mds: &Vec<Metadata>) -> (r: bool)
    ensures
        r == fits(all_detail_totals(folder_mds@)),
{
    let ghost s = folder_mds@;
    let mut total: (u64, u64, u64) = (0, 0, 0);
    let mut i: usize = 0;
    proof {
        assert(s.take(0) =~= Seq::<Metadata>::empty());
    }
    while i < folder_mds.len()
        invariant
            s == folder_mds@,
            i <= s.len(),
            nat3(total) == all_detail_totals(s.take(i as int)),
        decreases folder_mds.len() - i,
    {
        proof {
            assert(s.take(i + 1).drop_last() =~= s.take(i as int));
            assert(s.take(i + 1).last() == s[i as int]);
            lemma_all_detail_prefix(s, i + 1);
        }
        let sum = match checked_detail_totals(&folder_mds[i]) {
            Some(t) => add_checked(total, t),
            None => None,
        };
        match sum {
            Some(t) => total = t,
            None => {
                proof {
                    if !fits(detail_totals(s[i as int])) {
                        lemma_not_fits_le(detail_totals(s[i as int]), all_detail_totals(s.take(i + 1)));
                    }
                    lemma_not_fits_le(all_detail_totals(s.take(i + 1)), all_detail_totals(s));
                }
                return false;
            },
        }
        i = i + 1;
    }
    proof {
        assert(s.take(i as int) =~= s);
    }
    true
}

/// The details report of folder hierarchies: the rows of each, and the grand totals of
/// files, folders and size.
pub struct DetailsReport {
    /// The rows of each hierarchy, one after the other.
    pub rows: Vec<DetailRow>,
    /// The files of all the hierarchies.
    pub files: u64,
    /// The folders of all the hierarchies.
    pub folders: u64,
    /// The size of all the hierarchies.
    pub size: u64,
}

/// The details of folder hierarchies with their grand totals.
pub fn folders_details(folder_mds: &Vec<Metadata>) -> (r: DetailsReport)
    requires
        fits(all_detail_totals(folder_mds@)),
    ensures
        detail_lines_of(r.rows@) == all_detail_lines(folder_mds@),
        (r.files as nat, r.folders as nat, r.size as nat) == all_detail_totals(folder_mds@),
{
    let mut rows: Vec<DetailRow> = Vec::new();
    let mut files: u64 = 0;
    let mut folders: u64 = 0;
    let mut size: u64 = 0;
    let mut i: usize = 0;
    proof {
        assert(detail_lines_of(rows@) =~= Seq::<DetailLine>::empty());
        assert(folder_mds@.take(0) =~= Seq::<Metadata>::empty());
    }
    while i < folder_mds.len()
        invariant
            i <= folder_mds@.len(),
            fits(all_detail_totals(folder_mds@)),
            detail_lines_of(rows@) == all_detail_lines(folder_mds@.take(i as int)),
            (files as nat, folders as nat, size as nat) == all_detail_totals(folder_mds@.take(i as int)),
        decreases folder_mds.len() - i,
    {
        proof {
            assert(folder_mds@.take(i + 1).drop_last() =~= folder_mds@.take(i as int));
            assert(folder_mds@.take(i + 1).last() == folder_mds@[i as int]);
            lemma_all_detail_prefix(folder_mds@, i + 1);
        }
        let (f, d, s) = folder_detail(&folder_mds[i], &mut rows);
        files = files + f;
        folders = folders + d;
        size = size + s;
        i = i + 1;
    }
    assert(folder_mds@.take(i as int) =~= folder_mds@);
    DetailsReport { rows, files, folders, size }
}

/// The totals of a folder's summary: its files (anything that is not a folder), its
/// folders, and its own size with the size of its children, added to the totals of its
/// child folders; nothing for what is not a folder.
pub open spec fn summary_totals(m: Metadata) -> (nat, nat, nat)
    decreases m, 1nat,
{
    match m {
        Metadata::Folder(f) => {
            let d = direct_counts(f.children@);
            add3((d.0, d.1, f.size as nat + d.2), forest_summary_totals(f.children@))
        },
        _ => zero3(),
    }
}

/// The summary totals of the folders of a sequence of metadata, added up.
pub open spec fn forest_summary_totals(s: Seq<Metadata>) -> (nat, nat, nat)
    decreases s, 0nat,
{
    if s.len() == 0 {
        zero3()
    } else {
        add3(
            forest_summary_totals(s.drop_last()),
            if s.last() is Folder {
                summary_totals(s.last())
            } else {
                zero3()
            },
        )
    }
}

/// The summary lines of a folder hierarchy: the folder's line (the counts of its children,
/// its own size with theirs, its pathname), then the lines of each child folder.
pub open spec fn summary_report_lines(m: Metadata) -> Seq<(nat, nat, nat, Seq<char>)>
    decreases m, 1nat,
{
    match m {
        Metadata::Folder(f) => {
            let d = direct_counts(f.children@);
            seq![(d.0, d.1, f.size as nat + d.2, f.pathname@)] + forest_summary_report_lines(f.children@)
        },
        _ => Seq::empty(),
    }
}

/// The summary lines of the folders of a sequence of metadata, in order.
pub open spec fn forest_summary_report_lines(s: Seq<Metadata>) -> Seq<(nat, nat, nat, Seq<char>)>
    decreases s, 0nat,
{
    if s.len() == 0 {
        Seq::empty()
    } else {
        forest_summary_report_lines(s.drop_last()) + if s.last() is Folder {
            summary_report_lines(s.last())
        } else {
            Seq::empty()
        }
    }
}

/// The views of summary lines.
pub open spec fn summary_views(rows: Seq<FolderSummary>) -> Seq<(nat, nat, nat, Seq<char>)> {
    rows.map_values(|row: FolderSummary| summary_view(row))
}

proof fn lemma_direct_counts_prefix(s: Seq<Metadata>, i: int)
    requires
        0 <= i <= s.len(),
    ensures
        le3(direct_counts(s.take(i)), direct_counts(s)),
    decreases s.len(),
{
    if i < s.len() {
        assert(s.drop_last().take(i) =~= s.take(i));
        lemma_direct_counts_prefix(s.drop_last(), i);
    } else {
        assert(s.take(i) =~= s);
    }
}

proof fn lemma_forest_summary_prefix(s: Seq<Metadata>, i: int)
    requires
        0 <= i <= s.len(),
    ensures
        le3(forest_summary_totals(s.take(i)), forest_summary_totals(s)),
    decreases s.len(),
{
    if i < s.len() {
        assert(s.drop_last().take(i) =~= s.take(i));
        lemma_forest_summary_prefix(s.drop_last(), i);
    } else {
        assert(s.take(i) =~= s);
    }
}

/// Adds the summary lines of a folder hierarchy to the rows and gives its totals.
pub fn folder_summary(metadata: &Metadata, rows: &mut Vec<FolderSummary>) -> (r: (u64, u64, u64))
    requires
        fits(summary_totals(*metadata)),
    ensures
        (r.0 as nat, r.1 as nat, r.2 as nat) == summary_totals(*metadata),
        summary_views(final(rows)@) == summary_views(old(rows)@) + summary_report_lines(*metadata),
    decreases metadata,
{
    let ghost start = summary_views(rows@);
    match metadata {
        Metadata::Folder(folder_md) => {
            let ghost children = folder_md.children@;
            let ghost d = direct_counts(children);
            let ghost whole = summary_totals(*metadata);
            let mut files: u64 = 0;
            let mut folders: u64 = 0;
            let mut size: u64 = folder_md.size;
            let mut i: usize = 0;
            proof {
                assert(children.take(0) =~= Seq::<Metadata>::empty());
            }
            while i < folder_md.children.len()
                invariant
                    *metadata == Metadata::Folder(*folder_md),
                    children == folder_md.children@,
                    d == direct_counts(children),
                    whole == add3((d.0, d.1, folder_md.size as nat + d.2), forest_summary_totals(children)),
                    fits(whole),
                    i <= children.len(),
                    (files as nat, folders as nat, size as nat) == add3(
                        (0nat, 0nat, folder_md.size as nat),
                        direct_counts(children.take(i as int)),
                    ),
                decreases folder_md.children.len() - i,
            {
                proof {
                    assert(children.take(i + 1).drop_last() =~= children.take(i as int));
                    assert(children.take(i + 1).last() == children[i as int]);
                    lemma_direct_counts_prefix(children, i + 1);
                }
                let child = &folder_md.children[i];
                if child.is_folder() {
                    folders = folders + 1;
                } else {
                    files = files + 1;
                }
                size = size + child.size();
                i = i + 1;
            }
            assert(children.take(i as int) =~= children);
            rows.push(FolderSummary { files, folders, size, pathname: folder_md.pathname.clone() });
            let ghost head = start + seq![(d.0, d.1, folder_md.size as nat + d.2, folder_md.pathname@)];
            proof {
                assert(summary_views(rows@) =~= head);
                assert(head + forest_summary_report_lines(children.take(0)) =~= head);
            }
            let mut j: usize = 0;
            while j < folder_md.children.len()
                invariant
                    *metadata == Metadata::Folder(*folder_md),
                    children == folder_md.children@,
                    d == direct_counts(children),
                    fits(whole),
                    whole == add3((d.0, d.1, folder_md.size as nat + d.2), forest_summary_totals(children)),
                    j <= children.len(),
                    (files as nat, folders as nat, size as nat) == add3(
                        (d.0, d.1, folder_md.size as nat + d.2),
                        forest_summary_totals(children.take(j as int)),
                    ),
                    summary_views(rows@) == head + forest_summary_report_lines(children.take(j as int)),
                decreases folder_md.children.len() - j,
            {
                let child = &folder_md.children[j];
                proof {
                    assert(children.take(j + 1).drop_last() =~= children.take(j as int));
                    assert(children.take(j + 1).last() == children[j as int]);
                    lemma_forest_summary_prefix(children, j + 1);
                    assert(decreases_to!(*metadata => metadata->Folder_0));
                    assert(metadata->Folder_0 == *folder_md);
                    assert(decreases_to!(*folder_md => folder_md.children));
                    assert(decreases_to!(folder_md.children => folder_md.children@));
                    assert(decreases_to!(folder_md.children@ => folder_md.children@[j as int]));
                }
                if child.is_folder() {
                    let (child_files, child_folders, child_size) = folder_summary(child, rows);
                    files = files + child_files;
                    folders = folders + child_folders;
                    size = size + child_size;
                }
                assert(summary_views(rows@) =~= head + forest_summary_report_lines(children.take(j + 1)));
                j = j + 1;
            }
            assert(children.take(j as int) =~= children);
            assert(summary_views(rows@) =~= start + summary_report_lines(*metadata));
            (files, folders, size)
        },
        _ => {
            assert(summary_views(rows@) =~= start + summary_report_lines(*metadata));
            (0, 0, 0)
        },
    }
}

/// The summary lines of each metadata, in order.
pub open spec fn all_summary_lines(s: Seq<Metadata>) -> Seq<(nat, nat, nat, Seq<char>)>
    decreases s.len(),
{
    if s.len() == 0 {
        Seq::empty()
    } else {
        all_summary_lines(s.drop_last()) + summary_report_lines(s.last())
    }
}

/// The summary totals of each metadata, added up.
pub open spec fn all_summary_totals(s: Seq<Metadata>) -> (nat, nat, nat)
    decreases s.len(),
{
    if s.len() == 0 {
        zero3()
    } else {
        add3(all_summary_totals(s.drop_last()), summary_totals(s.last()))
    }
}

proof fn lemma_all_summary_prefix(s: Seq<Metadata>, i: int)
    requires
        0 <= i <= s.len(),
    ensures
        le3(all_summary_totals(s.take(i)), all_summary_totals(s)),
    decreases s.len(),
{
    if i < s.len() {
        assert(s.drop_last().take(i) =~= s.take(i));
        lemma_all_summary_prefix(s.drop_last(), i);
    } else {
        assert(s.take(i) =~= s);
    }
}

proof fn lemma_summary_prefix(s: Seq<Metadata>, i: int)
    requires
        0 <= i <= s.len(),
    ensures
        le3(direct_counts(s.take(i)), direct_counts(s)),
        le3(forest_summary_totals(s.take(i)), forest_summary_totals(s)),
    decreases s.len(),
{
    if i < s.len() {
        assert(s.drop_last().take(i) =~= s.take(i));
        lemma_summary_prefix(s.drop_last(), i);
    } else {
        assert(s.take(i) =~= s);
    }
}

/// The summary totals of metadata, `None` when they do not fit in `u64` values.
fn checked_summary_totals(m: &Metadata) -> (r: Option<(u64, u64, u64)>)
    ensures
        r matches Some(t) ==> nat3(t) == summary_totals(*m),
        r is None ==> !fits(summary_totals(*m)),
    decreases m,
{
    match m {
        Metadata::Folder(folder_md) => {
            let ghost children = folder_md.children@;
            let mut direct: (u64, u64, u64) = (0, 0, 0);
            let mut i: usize = 0;
            proof {
                assert(children.take(0) =~= Seq::<Metadata>::empty());
            }
            while i < folder_md.children.len()
                invariant
                    *m == Metadata::Folder(*folder_md),
                    children == folder_md.children@,
                    i <= children.len(),
                    nat3(direct) == direct_counts(children.take(i as int)),
                decreases folder_md.children.len() - i,
            {
                let child = &folder_md.children[i];
                let part: (u64, u64, u64) = if child.is_folder() {
                    (0, 1, child.size())
                } else {
                    (1, 0, child.size())
                };
                proof {
                    assert(children.take(i + 1).drop_last() =~= children.take(i as int));
                    assert(children.take(i + 1).last() == children[i as int]);
                }
                match add_checked(direct, part) {
                    Some(t) => direct = t,
                    None => {
                        proof {
                            lemma_summary_prefix(children, i + 1);
                            lemma_not_fits_le(direct_counts(children.take(i + 1)), summary_totals(*m));
                        }
                        return None;
                    },
                }
                i = i + 1;
            }
            proof {
                assert(children.take(i as int) =~= children);
            }
            let own = match direct.2.checked_add(folder_md.size) {
                Some(z) => (direct.0, direct.1, z),
                None => {
                    return None;
                },
            };
            let mut nested: (u64, u64, u64) = (0, 0, 0);
            let mut j: usize = 0;
            proof {
                assert(children.take(0) =~= Seq::<Metadata>::empty());
            }
            while j < folder_md.children.len()
                invariant
                    *m == Metadata::Folder(*folder_md),
                    children == folder_md.children@,
                    j <= children.len(),
                    nat3(own) == (direct_counts(children).0, direct_counts(children).1, folder_md.size as nat
                        + direct_counts(children).2),
                    nat3(nested) == forest_summary_totals(children.take(j as int)),
                decreases folder_md.children.len() - j,
            {
                let child = &folder_md.children[j];
                proof {
                    assert(children.take(j + 1).drop_last() =~= children.take(j as int));
                    assert(children.take(j + 1).last() == children[j as int]);
                }
                if child.is_folder() {
                    proof {
                        assert(decreases_to!(*m => m->Folder_0));
                        assert(decreases_to!(*folder_md => folder_md.children));
                        assert(decreases_to!(folder_md.children => folder_md.children@));
                        assert(decreases_to!(folder_md.children@ => folder_md.children@[j as int]));
                    }
                    let sum = match checked_summary_totals(child) {
                        Some(t) => add_checked(nested, t),
                        None => None,
                    };
                    match sum {
                        Some(t) => nested = t,
                        None => {
                            proof {
                                lemma_summary_prefix(children, j + 1);
                                let whole = forest_summary_totals(children);
                                if !fits(summary_totals(*child)) {
                                    lemma_not_fits_le(summary_totals(*child), forest_summary_totals(children.take(j + 1)));
                                }
                                lemma_not_fits_le(forest_summary_totals(children.take(j + 1)), whole);
                                lemma_not_fits_le(whole, summary_totals(*m));
                            }
                            return None;
                        },
                    }
                }
                j = j + 1;
            }
            proof {
                assert(children.take(j as int) =~= children);
            }
            add_checked(own, nested)
        },
        _ => Some((0, 0, 0)),
    }
}

/// Whether the grand totals of the summary report of folder hierarchies fit in `u64`
/// values, as building the report requires.
pub fn summary_fits(folder_mds: &Vec<Metadata>) -> (r: bool)
    ensures
        r == fits(all_summary_totals(folder_mds@)),
{
    let ghost s = folder_mds@;
    let mut total: (u64, u64, u64) = (0, 0, 0);
    let mut i: usize = 0;
    proof {
        assert(s.take(0) =~= Seq::<Metadata>::empty());
    }
    while i < folder_mds.len()
        invariant
            s == folder_mds@,
            i <= s.len(),
            nat3(total) == all_summary_totals(s.take(i as int)),
        decreases folder_mds.len() - i,
    {
        proof {
            assert(s.take(i + 1).drop_last() =~= s.take(i as int));
            assert(s.take(i + 1).last() == s[i as int]);
            lemma_all_summary_prefix(s, i + 1);
        }
        let sum = match checked_summary_totals(&folder_mds[i]) {
            Some(t) => add_checked(total, t),
            None => None,
        };
        match sum {
            Some(t) => total = t,
            None => {
                proof {
                    if !fits(summary_totals(s[i as int])) {
                        lemma_not_fits_le(summary_totals(s[i as int]), all_summary_totals(s.take(i + 1)));
                    }
                    lemma_not_fits_le(all_summary_totals(s.take(i + 1)), all_summary_totals(s));
                }
                return false;
            },
        }
        i = i + 1;
    }
    proof {
        assert(s.take(i as int) =~= s);
    }
    true
}

/// The summary report of folder hierarchies: the lines of each, the grand totals, and
/// whether the grand totals are shown (for more than one hierarchy).
pub struct SummaryReport {
    /// The lines of each hierarchy, one after the other.
    pub rows: Vec<FolderSummary>,
    /// The files of all the hierarchies.
    pub files: u64,
    /// The folders of all the hierarchies.
    pub folders: u64,
    /// The size of all the hierarchies.
    pub size: u64,
    /// The grand totals are shown.
    pub show_totals: bool,
}

/// The summary of folder hierarchies with their grand totals.
pub fn folders_summary(folder_mds: &Vec<Metadata>) -> (r: SummaryReport)
    requires
        fits(all_summary_totals(folder_mds@)),
    ensures
        summary_views(r.rows@) == all_summary_lines(folder_mds@),
        (r.files as nat, r.folders as nat, r.size as nat) == all_summary_totals(folder_mds@),
        r.show_totals == (folder_mds@.len() > 1),
{
    let mut rows: Vec<FolderSummary> = Vec::new();
    let mut files: u64 = 0;
    let mut folders: u64 = 0;
    let mut size: u64 = 0;
    let mut i: usize = 0;
    proof {
        assert(summary_views(rows@) =~= Seq::<(nat, nat, nat, Seq<char>)>::empty());
        assert(folder_mds@.take(0) =~= Seq::<Metadata>::empty());
    }
    while i < folder_mds.len()
        invariant
            i <= folder_mds@.len(),
            fits(all_summary_totals(folder_mds@)),
            summary_views(rows@) == all_summary_lines(folder_mds@.take(i as int)),
            (files as nat, folders as nat, size as nat) == all_summary_totals(folder_mds@.take(i as int)),
        decreases folder_mds.len() - i,
    {
        proof {
            assert(folder_mds@.take(i + 1).drop_last() =~= folder_mds@.take(i as int));
            assert(folder_mds@.take(i + 1).last() == folder_mds@[i as int]);
            lemma_all_summary_prefix(folder_mds@, i + 1);
        }
        let (f, d, s) = folder_summary(&folder_mds[i], &mut rows);
        files = files + f;
        folders = folders + d;
        size = size + s;
        i = i + 1;
    }
    assert(folder_mds@.take(i as int) =~= folder_mds@);
    SummaryReport { rows, files, folders, size, show_totals: folder_mds.len() > 1 }
}

/// A line of the problems report.
pub enum ProblemLine {
    /// The pathname of a folder with problems.
    Folder(Seq<char>),
    /// A problem of the folder above: its name and description.
    Problem(Seq<char>, Seq<char>),
}

/// A row of the problems report.
#[derive(Debug)]
pub enum ProblemRow {
    /// A folder with problems.
    Folder {
        /// The folder pathname.
        pathname: String,
    },
    /// A problem of the folder above.
    Problem {
        /// The problem name.
        name: String,
        /// The problem description.
        description: String,
    },
}

/// The line of a problems row.
pub open spec fn problem_line(row: ProblemRow) -> ProblemLine {
    match row {
        ProblemRow::Folder { pathname } => ProblemLine::Folder(pathname@),
        ProblemRow::Problem { name, description } => ProblemLine::Problem(name@, description@),
    }
}

/// The lines of problems rows.
pub open spec fn problem_lines_of(rows: Seq<ProblemRow>) -> Seq<ProblemLine> {
    rows.map_values(|row: ProblemRow| problem_line(row))
}

/// The lines of the problem children of a folder, in order; other children show nothing.
pub open spec fn child_problem_lines(children: Seq<Metadata>) -> Seq<ProblemLine>
    decreases children.len(),
{
    if children.len() == 0 {
        Seq::empty()
    } else {
        child_problem_lines(children.drop_last()) + match children.last() {
            Metadata::Problem(p) => seq![ProblemLine::Problem(p.name@, p.description@)],
            _ => Seq::empty(),
        }
    }
}

/// The problems report: for each folder, its pathname then its problems; what is not a
/// folder shows nothing.
pub open spec fn problem_report_lines(problems: Seq<Metadata>) -> Seq<ProblemLine>
    decreases problems.len(),
{
    if problems.len() == 0 {
        Seq::empty()
    } else {
        problem_report_lines(problems.drop_last()) + match problems.last() {
            Metadata::Folder(f) => seq![ProblemLine::Folder(f.pathname@)] + child_problem_lines(f.children@),
            _ => Seq::empty(),
        }
    }
}

/// The rows of the problems report of the folders that hold problems.
pub fn problems_rows(problems: &Vec<Metadata>) -> (r: Vec<ProblemRow>)
    ensures
        problem_lines_of(r@) == problem_report_lines(problems@),
{
    let mut rows: Vec<ProblemRow> = Vec::new();
    let mut i: usize = 0;
    proof {
        assert(problem_lines_of(rows@) =~= Seq::<ProblemLine>::empty());
        assert(problems@.take(0) =~= Seq::<Metadata>::empty());
    }
    while i < problems.len()
        invariant
            i <= problems@.len(),
            problem_lines_of(rows@) == problem_report_lines(problems@.take(i as int)),
        decreases problems.len() - i,
    {
        proof {
            assert(problems@.take(i + 1).drop_last() =~= problems@.take(i as int));
            assert(problems@.take(i + 1).last() == problems@[i as int]);
        }
        match &problems[i] {
            Metadata::Folder(folder_md) => {
                let ghost before = problem_lines_of(rows@);
                let ghost children = folder_md.children@;
                rows.push(ProblemRow::Folder { pathname: folder_md.pathname.clone() });
                let ghost head = before + seq![ProblemLine::Folder(folder_md.pathname@)];
                proof {
                    assert(problem_lines_of(rows@) =~= head);
                    assert(children.take(0) =~= Seq::<Metadata>::empty());
                    assert(head + child_problem_lines(children.take(0)) =~= head);
                }
                let mut k: usize = 0;
                while k < folder_md.children.len()
                    invariant
                        children == folder_md.children@,
                        k <= children.len(),
                        problem_lines_of(rows@) == head + child_problem_lines(children.take(k as int)),
                    decreases folder_md.children.len() - k,
                {
                    proof {
                        assert(children.take(k + 1).drop_last() =~= children.take(k as int));
                        assert(children.take(k + 1).last() == children[k as int]);
                    }
                    match &folder_md.children[k] {
                        Metadata::Problem(problem_md) => {
                            let ghost b2 = rows@;
                            rows.push(
                                ProblemRow::Problem {
                                    name: problem_md.name.clone(),
                                    description: problem_md.description.clone(),
                                },
                            );
                            assert(problem_lines_of(rows@) =~= problem_lines_of(b2).push(
                                ProblemLine::Problem(problem_md.name@, problem_md.description@),
                            ));
                        },
                        _ => {},
                    }
                    assert(problem_lines_of(rows@) =~= head + child_problem_lines(children.take(k + 1)));
                    k = k + 1;
                }
                assert(children.take(k as int) =~= children);
                assert(problem_lines_of(rows@) =~= problem_report_lines(problems@.take(i + 1)));
            },
            _ => {
                assert(problem_report_lines(problems@.take(i + 1)) =~= problem_report_lines(problems@.take(i as int)));
            },
        }
        i = i + 1;
    }
    assert(problems@.take(i as int) =~= problems@);
    rows
}

} // verus!
