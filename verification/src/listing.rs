//! Folder listings: the summary of a folder hierarchy and the text of the problems met
//! loading folders.
use crate::decimal::decimal;
use crate::objects::{DbInformation, FolderMd, Metadata};
use crate::report::{align_text, aligned, Alignment};
use thousands::Separable;
use vstd::prelude::*;

verus! {

/// The numbers of a folder summary: files, folders and disk size.
pub open spec fn zero3() -> (nat, nat, nat) {
    (0nat, 0nat, 0nat)
}

/// The sum of two folder summaries.
pub open spec fn add3(a: (nat, nat, nat), b: (nat, nat, nat)) -> (nat, nat, nat) {
    (a.0 + b.0, a.1 + b.1, a.2 + b.2)
}

/// The summary of the children of a folder by themselves: the files (symbolic links and
/// anything else that is not a folder included), the folders, and the disk size they use.
pub open spec fn direct_counts(children: Seq<Metadata>) -> (nat, nat, nat)
    decreases children.len(),
{
    if children.len() == 0 {
        zero3()
    } else {
        let c = children.last();
        add3(
            direct_counts(children.drop_last()),
            if c is Folder {
                (0nat, 1nat, c.spec_size() as nat)
            } else {
                (1nat, 0nat, c.spec_size() as nat)
            },
        )
    }
}

/// The summary of a folder hierarchy: the counts of the folder's children and, for each of
/// its child folders, of their hierarchies; nothing for what is not a folder.
pub open spec fn totals(m: Metadata) -> (nat, nat, nat)
    decreases m, 1nat,
{
    match m {
        Metadata::Folder(f) => add3(direct_counts(f.children@), forest_totals(f.children@)),
        _ => zero3(),
    }
}

/// The summaries of the hierarchies of a sequence of metadata, added up.
pub open spec fn forest_totals(s: Seq<Metadata>) -> (nat, nat, nat)
    decreases s, 0nat,
{
    if s.len() == 0 {
        zero3()
    } else {
        add3(forest_totals(s.drop_last()), totals(s.last()))
    }
}

/// A summary fits in three `u64` values.
pub open spec fn fits(t: (nat, nat, nat)) -> bool {
    t.0 <= u64::MAX && t.1 <= u64::MAX && t.2 <= u64::MAX
}

/// Every part of `a` is at most the part of `b`.
pub open spec fn le3(a: (nat, nat, nat), b: (nat, nat, nat)) -> bool {
    a.0 <= b.0 && a.1 <= b.1 && a.2 <= b.2
}

/// The summary line of one folder: its children's counts and its pathname.
pub struct FolderSummary {
    /// The number of files among the children.
    pub files: u64,
    /// The number of folders among the children.
    pub folders: u64,
    /// The disk size of the children.
    pub size: u64,
    /// The folder pathname.
    pub pathname: String,
}

/// The view of a summary line.
pub open spec fn summary_view(s: FolderSummary) -> (nat, nat, nat, Seq<char>) {
    (s.files as nat, s.folders as nat, s.size as nat, s.pathname@)
}

/// The summary lines of a folder hierarchy: one per folder, each folder before its child
/// folders, each with the counts of its own children.
pub open spec fn summary_lines(m: Metadata) -> Seq<(nat, nat, nat, Seq<char>)>
    decreases m, 1nat,
{
    match m {
        Metadata::Folder(f) => {
            let d = direct_counts(f.children@);
            seq![(d.0, d.1, d.2, f.pathname@)] + forest_lines(f.children@)
        },
        _ => Seq::empty(),
    }
}

/// The summary lines of the hierarchies of a sequence of metadata, in order.
pub open spec fn forest_lines(s: Seq<Metadata>) -> Seq<(nat, nat, nat, Seq<char>)>
    decreases s, 0nat,
{
    if s.len() == 0 {
        Seq::empty()
    } else {
        forest_lines(s.drop_last()) + summary_lines(s.last())
    }
}

proof fn lemma_direct_prefix(s: Seq<Metadata>, i: int)
    requires
        0 <= i <= s.len(),
    ensures
        le3(direct_counts(s.take(i)), direct_counts(s)),
    decreases s.len(),
{
    if i < s.len() {
        assert(s.drop_last().take(i) =~= s.take(i));
        lemma_direct_prefix(s.drop_last(), i);
    } else {
        assert(s.take(i) =~= s);
    }
}

proof fn lemma_forest_prefix(s: Seq<Metadata>, i: int)
    requires
        0 <= i <= s.len(),
    ensures
        le3(forest_totals(s.take(i)), forest_totals(s)),
    decreases s.len(),
{
    if i < s.len() {
        assert(s.drop_last().take(i) =~= s.take(i));
        lemma_forest_prefix(s.drop_last(), i);
    } else {
        assert(s.take(i) =~= s);
    }
}

/// Counts the children of a folder by themselves.
fn count_children(folder_md: &FolderMd) -> (r: (u64, u64, u64))
    requires
        fits(direct_counts(folder_md.children@)),
    ensures
        (r.0 as nat, r.1 as nat, r.2 as nat) == direct_counts(folder_md.children@),
{
    let mut files: u64 = 0;
    let mut folders: u64 = 0;
    let mut size: u64 = 0;
    let mut i: usize = 0;
    proof {
        assert(folder_md.children@.take(0) =~= Seq::<Metadata>::empty());
    }
    while i < folder_md.children.len()
        invariant
            i <= folder_md.children@.len(),
            fits(direct_counts(folder_md.children@)),
            (files as nat, folders as nat, size as nat) == direct_counts(folder_md.children@.take(i as int)),
        decreases folder_md.children.len() - i,
    {
        let metadata = &folder_md.children[i];
        proof {
            assert(folder_md.children@.take(i + 1).drop_last() =~= folder_md.children@.take(i as int));
            assert(folder_md.children@.take(i + 1).last() == folder_md.children@[i as int]);
            lemma_direct_prefix(folder_md.children@, i + 1);
        }
        if metadata.is_folder() {
            folders = folders + 1;
        } else {
            files = files + 1;
        }
        size = size + metadata.size();
        i = i + 1;
    }
    assert(folder_md.children@.take(i as int) =~= folder_md.children@);
    (files, folders, size)
}

/// Summarises a folder hierarchy: the summary line of each folder is added to `lines`,
/// each folder before its child folders, and the totals of the hierarchy are returned.
pub fn write_summary_folder(metadata: &Metadata, lines: &mut Vec<FolderSummary>) -> (r: (u64, u64, u64))
    requires
        fits(totals(*metadata)),
    ensures
        (r.0 as nat, r.1 as nat, r.2 as nat) == totals(*metadata),
        final(lines)@.map_values(|s: FolderSummary| summary_view(s)) == old(lines)@.map_values(|s: FolderSummary| summary_view(s)) + summary_lines(*metadata),
    decreases metadata,
{
    let ghost start = lines@.map_values(|s: FolderSummary| summary_view(s));
    match metadata {
        Metadata::Folder(folder_md) => {
            let ghost d = direct_counts(folder_md.children@);
            let (files0, folders0, size0) = count_children(folder_md);
            let mut files = files0;
            let mut folders = folders0;
            let mut size = size0;
            lines.push(FolderSummary { files, folders, size, pathname: folder_md.pathname.clone() });
            let ghost head = start.push((d.0, d.1, d.2, folder_md.pathname@));
            proof {
                assert(lines@.map_values(|s: FolderSummary| summary_view(s)) =~= head);
                assert(folder_md.children@.take(0) =~= Seq::<Metadata>::empty());
                assert(head + forest_lines(folder_md.children@.take(0)) =~= head);
            }
            let mut i: usize = 0;
            while i < folder_md.children.len()
                invariant
                    *metadata == Metadata::Folder(*folder_md),
                    d == direct_counts(folder_md.children@),
                    fits(add3(d, forest_totals(folder_md.children@))),
                    i <= folder_md.children@.len(),
                    (files as nat, folders as nat, size as nat) == add3(d, forest_totals(folder_md.children@.take(i as int))),
                    lines@.map_values(|s: FolderSummary| summary_view(s)) == head + forest_lines(folder_md.children@.take(i as int)),
                decreases folder_md.children.len() - i,
            {
                let child = &folder_md.children[i];
                proof {
                    assert(folder_md.children@.take(i + 1).drop_last() =~= folder_md.children@.take(i as int));
                    assert(folder_md.children@.take(i + 1).last() == folder_md.children@[i as int]);
                    lemma_forest_prefix(folder_md.children@, i + 1);
                    assert(decreases_to!(*metadata => metadata->Folder_0));
                    assert(metadata->Folder_0 == *folder_md);
                    assert(decreases_to!(*folder_md => folder_md.children));
                    assert(decreases_to!(folder_md.children => folder_md.children@));
                    assert(decreases_to!(folder_md.children@ => folder_md.children@[i as int]));
                }
                let ghost before = lines@.map_values(|s: FolderSummary| summary_view(s));
                if child.is_folder() {
                    let (f, d2, s2) = write_summary_folder(child, lines);
                    files = files + f;
                    folders = folders + d2;
                    size = size + s2;
                } else {
                    assert(totals(*child) == zero3());
                    assert(summary_lines(*child) =~= Seq::<(nat, nat, nat, Seq<char>)>::empty());
                }
                proof {
                    assert(head + forest_lines(folder_md.children@.take(i as int)) + summary_lines(folder_md.children@[i as int])
                        =~= head + (forest_lines(folder_md.children@.take(i as int)) + summary_lines(folder_md.children@[i as int])));
                }
                i = i + 1;
            }
            assert(folder_md.children@.take(i as int) =~= folder_md.children@);
            (files, folders, size)
        },
        _ => {
            assert(start + summary_lines(*metadata) =~= start);
            (0, 0, 0)
        },
    }
}


/// The summary of one folder hierarchy: its summary lines and its totals.
pub struct HierarchySummary {
    /// The summary line of each folder, each folder before its child folders.
    pub lines: Vec<FolderSummary>,
    /// The number of files in the hierarchy.
    pub files: u64,
    /// The number of folders in the hierarchy, the top folder excepted.
    pub folders: u64,
    /// The disk size of the hierarchy.
    pub size: u64,
}

/// Summarises a folder hierarchy; metadata that is not a folder is an error naming it.
pub fn write_summary_metadata(metadata: &Metadata) -> (r: Result<HierarchySummary, String>)
    requires
        fits(totals(*metadata)),
    ensures
        r is Ok <==> metadata is Folder,
        r matches Err(e) ==> e@ == "'"@ + metadata.spec_pathname() + "' is not a folder!!!"@,
        r matches Ok(s) ==> {
            &&& (s.files as nat, s.folders as nat, s.size as nat) == totals(*metadata)
            &&& s.lines@.map_values(|l: FolderSummary| summary_view(l)) == summary_lines(*metadata)
        },
{
    if metadata.is_folder() {
        let mut lines: Vec<FolderSummary> = Vec::new();
        let (files, folders, size) = write_summary_folder(metadata, &mut lines);
        assert(Seq::<FolderSummary>::empty().map_values(|l: FolderSummary| summary_view(l)) + summary_lines(*metadata) =~= summary_lines(*metadata));
        Ok(HierarchySummary { lines, files, folders, size })
    } else {
        let text = String::from_str("'");
        let text = text.concat(metadata.pathname());
        Err(text.concat("' is not a folder!!!"))
    }
}

/// The position of the first metadata that is not a folder, the number of items when all are
/// folders.
pub open spec fn first_non_folder(s: Seq<Metadata>) -> int
    decreases s.len(),
{
    if s.len() == 0 {
        0
    } else if !(s[0] is Folder) {
        0
    } else {
        1 + first_non_folder(s.drop_first())
    }
}

proof fn lemma_first_non_folder(s: Seq<Metadata>)
    ensures
        0 <= first_non_folder(s) <= s.len(),
        forall|j: int| 0 <= j < first_non_folder(s) ==> #[trigger] s[j] is Folder,
        first_non_folder(s) < s.len() ==> !(s[first_non_folder(s)] is Folder),
    decreases s.len(),
{
    if s.len() > 0 && s[0] is Folder {
        let rest = s.drop_first();
        lemma_first_non_folder(rest);
        assert forall|j: int| 0 <= j < first_non_folder(s) implies #[trigger] s[j] is Folder by {
            if j > 0 {
                assert(s[j] == rest[j - 1]);
            }
        }
        if first_non_folder(s) < s.len() {
            assert(s[first_non_folder(s)] == rest[first_non_folder(rest)]);
        }
    }
}

proof fn lemma_forest_totals_prefix(s: Seq<Metadata>, i: int, k: int)
    requires
        0 <= i <= k <= s.len(),
    ensures
        le3(forest_totals(s.take(i)), forest_totals(s.take(k))),
    decreases k - i,
{
    if i < k {
        lemma_forest_totals_prefix(s, i, k - 1);
        assert(s.take(k).drop_last() =~= s.take(k - 1));
    }
}

/// The summary listing of folder hierarchies: the summary of each one, up to the first
/// metadata that is not a folder, and then either the error naming that metadata or, when
/// more than one hierarchy is listed, their grand total.
pub struct SummaryListing {
    /// The summaries of the hierarchies, in order.
    pub summaries: Vec<HierarchySummary>,
    /// The error, or the grand total when more than one hierarchy is listed.
    pub outcome: Result<Option<(u64, u64, u64)>, String>,
}

/// Summarises folder hierarchies in order, stopping at the first metadata that is not a
/// folder; the totals of the hierarchies summarised must fit in a `u64`.
pub fn write_summary(folder_metadata: &Vec<Metadata>) -> (r: SummaryListing)
    requires
        fits(forest_totals(folder_metadata@.take(first_non_folder(folder_metadata@)))),
    ensures
        r.summaries@.len() == first_non_folder(folder_metadata@),
        forall|j: int|
            0 <= j < r.summaries@.len() ==> {
                &&& (#[trigger] r.summaries@[j]).files as nat == totals(folder_metadata@[j]).0
                &&& r.summaries@[j].folders as nat == totals(folder_metadata@[j]).1
                &&& r.summaries@[j].size as nat == totals(folder_metadata@[j]).2
                &&& r.summaries@[j].lines@.map_values(|l: FolderSummary| summary_view(l)) == summary_lines(folder_metadata@[j])
            },
        first_non_folder(folder_metadata@) < folder_metadata@.len() ==> (r.outcome matches Err(e) && e@ == "'"@
            + folder_metadata@[first_non_folder(folder_metadata@)].spec_pathname() + "' is not a folder!!!"@),
        first_non_folder(folder_metadata@) == folder_metadata@.len() ==> (r.outcome matches Ok(total) && (
        folder_metadata@.len() > 1 <==> total is Some) && (total matches Some(t) ==> (t.0 as nat, t.1 as nat, t.2 as nat)
            == forest_totals(folder_metadata@))),
{
    let ghost s = folder_metadata@;
    let ghost k = first_non_folder(s);
    proof {
        lemma_first_non_folder(s);
        assert(s.take(0) =~= Seq::<Metadata>::empty());
    }
    let mut summaries: Vec<HierarchySummary> = Vec::new();
    let mut files: u64 = 0;
    let mut folders: u64 = 0;
    let mut size: u64 = 0;
    let mut i: usize = 0;
    while i < folder_metadata.len()
        invariant
            s == folder_metadata@,
            k == first_non_folder(s),
            0 <= k <= s.len(),
            forall|j: int| 0 <= j < k ==> #[trigger] s[j] is Folder,
            k < s.len() ==> !(s[k] is Folder),
            fits(forest_totals(s.take(k))),
            i <= k,
            summaries@.len() == i,
            (files as nat, folders as nat, size as nat) == forest_totals(s.take(i as int)),
            forall|j: int|
                0 <= j < i ==> {
                    &&& (#[trigger] summaries@[j]).files as nat == totals(s[j]).0
                    &&& summaries@[j].folders as nat == totals(s[j]).1
                    &&& summaries@[j].size as nat == totals(s[j]).2
                    &&& summaries@[j].lines@.map_values(|l: FolderSummary| summary_view(l)) == summary_lines(s[j])
                },
        decreases folder_metadata.len() - i,
    {
        proof {
            if i < k {
                lemma_forest_totals_prefix(s, i + 1, k);
                assert(s.take(i + 1).drop_last() =~= s.take(i as int));
                assert(s.take(i + 1).last() == s[i as int]);
            }
        }
        match write_summary_metadata(&folder_metadata[i]) {
            Ok(summary) => {
                files = files + summary.files;
                folders = folders + summary.folders;
                size = size + summary.size;
                summaries.push(summary);
                i = i + 1;
            },
            Err(e) => {
                return SummaryListing { summaries, outcome: Err(e) };
            },
        }
    }
    proof {
        assert(s.take(i as int) =~= s);
    }
    let total = if folder_metadata.len() > 1 {
        Some((files, folders, size))
    } else {
        None
    };
    SummaryListing { summaries, outcome: Ok(total) }
}

/// The totals of the hierarchy summaries, added up.
pub open spec fn grand_totals(s: Seq<HierarchySummary>) -> (nat, nat, nat)
    decreases s.len(),
{
    if s.len() == 0 {
        zero3()
    } else {
        add3(grand_totals(s.drop_last()), (s.last().files as nat, s.last().folders as nat, s.last().size as nat))
    }
}

proof fn lemma_grand_prefix(s: Seq<HierarchySummary>, i: int)
    requires
        0 <= i <= s.len(),
    ensures
        le3(grand_totals(s.take(i)), grand_totals(s)),
    decreases s.len(),
{
    if i < s.len() {
        assert(s.drop_last().take(i) =~= s.take(i));
        lemma_grand_prefix(s.drop_last(), i);
    } else {
        assert(s.take(i) =~= s);
    }
}

/// Adds up the totals of hierarchy summaries.
pub fn grand_total(summaries: &Vec<HierarchySummary>) -> (r: (u64, u64, u64))
    requires
        fits(grand_totals(summaries@)),
    ensures
        (r.0 as nat, r.1 as nat, r.2 as nat) == grand_totals(summaries@),
{
    let mut files: u64 = 0;
    let mut folders: u64 = 0;
    let mut size: u64 = 0;
    let mut i: usize = 0;
    proof {
        assert(summaries@.take(0) =~= Seq::<HierarchySummary>::empty());
    }
    while i < summaries.len()
        invariant
            i <= summaries@.len(),
            fits(grand_totals(summaries@)),
            (files as nat, folders as nat, size as nat) == grand_totals(summaries@.take(i as int)),
        decreases summaries.len() - i,
    {
        proof {
            assert(summaries@.take(i + 1).drop_last() =~= summaries@.take(i as int));
            assert(summaries@.take(i + 1).last() == summaries@[i as int]);
            lemma_grand_prefix(summaries@, i + 1);
        }
        files = files + summaries[i].files;
        folders = folders + summaries[i].folders;
        size = size + summaries[i].size;
        i = i + 1;
    }
    assert(summaries@.take(i as int) =~= summaries@);
    (files, folders, size)
}

/// The text of the problems of a folder: a line per problem child, its name quoted and its
/// description.
pub open spec fn problem_lines(children: Seq<Metadata>) -> Seq<char>
    decreases children.len(),
{
    if children.len() == 0 {
        Seq::empty()
    } else {
        problem_lines(children.drop_last()) + match children.last() {
            Metadata::Problem(p) => "    '"@ + p.name@ + "' "@ + p.description@ + "\n"@,
            _ => Seq::empty(),
        }
    }
}

/// The text of the problems of the folders that hold them: each folder's pathname after a
/// blank line, then its problems.
pub open spec fn problems_text(problems: Seq<Metadata>) -> Seq<char>
    decreases problems.len(),
{
    if problems.len() == 0 {
        Seq::empty()
    } else {
        problems_text(problems.drop_last()) + match problems.last() {
            Metadata::Folder(f) => "\n"@ + f.pathname@ + "\n"@ + problem_lines(f.children@),
            _ => Seq::empty(),
        }
    }
}

/// Describes the problems met loading folders, or says there are none.
pub fn problems_report(problems: &Vec<Metadata>) -> (r: String)
    ensures
        problems@.len() == 0 ==> r@ == "There are no problems\n"@,
        problems@.len() > 0 ==> r@ == problems_text(problems@),
{
    if problems.len() == 0 {
        return String::from_str("There are no problems\n");
    }
    let mut output = String::new();
    let mut i: usize = 0;
    proof {
        assert(problems@.take(0) =~= Seq::<Metadata>::empty());
    }
    while i < problems.len()
        invariant
            i <= problems@.len(),
            output@ == problems_text(problems@.take(i as int)),
        decreases problems.len() - i,
    {
        proof {
            assert(problems@.take(i + 1).drop_last() =~= problems@.take(i as int));
            assert(problems@.take(i + 1).last() == problems@[i as int]);
        }
        match &problems[i] {
            Metadata::Folder(folder_md) => {
                let ghost before = output@;
                output.append("\n");
                output.append(folder_md.pathname.as_str());
                output.append("\n");
                let mut k: usize = 0;
                proof {
                    assert(folder_md.children@.take(0) =~= Seq::<Metadata>::empty());
                    assert(output@ =~= before + ("\n"@ + folder_md.pathname@ + "\n"@ + problem_lines(folder_md.children@.take(0))));
                }
                while k < folder_md.children.len()
                    invariant
                        k <= folder_md.children@.len(),
                        output@ == before + ("\n"@ + folder_md.pathname@ + "\n"@ + problem_lines(folder_md.children@.take(k as int))),
                    decreases folder_md.children.len() - k,
                {
                    proof {
                        assert(folder_md.children@.take(k + 1).drop_last() =~= folder_md.children@.take(k as int));
                        assert(folder_md.children@.take(k + 1).last() == folder_md.children@[k as int]);
                    }
                    match &folder_md.children[k] {
                        Metadata::Problem(problem_md) => {
                            let ghost b2 = output@;
                            output.append("    '");
                            output.append(problem_md.name.as_str());
                            output.append("' ");
                            output.append(problem_md.description.as_str());
                            output.append("\n");
                            assert(output@ =~= b2 + ("    '"@ + problem_md.name@ + "' "@ + problem_md.description@ + "\n"@));
                        },
                        _ => {
                            assert(problem_lines(folder_md.children@.take(k + 1)) =~= problem_lines(folder_md.children@.take(k as int)));
                        },
                    }
                    k = k + 1;
                }
                assert(folder_md.children@.take(k as int) =~= folder_md.children@);
            },
            _ => {
                assert(problems_text(problems@.take(i + 1)) =~= problems_text(problems@.take(i as int)));
            },
        }
        i = i + 1;
    }
    assert(problems@.take(i as int) =~= problems@);
    output
}

/// Digits with a comma every three digits from the right.
pub open spec fn with_commas(digits: Seq<char>) -> Seq<char>
    decreases digits.len(),
{
    if digits.len() <= 3 {
        digits
    } else {
        with_commas(digits.subrange(0, digits.len() - 3)) + seq![','] + digits.subrange(
            digits.len() - 3,
            digits.len() as int,
        )
    }
}

/// The decimal text of a count with a comma every three digits from the right
/// (`thousands::Separable::separate_with_commas` of `u64`, whose documentation says it
/// inserts a comma every three digits from the right).
#[verifier::external_body]
fn commas_text(n: u64) -> (r: String)
    ensures
        r@ == with_commas(decimal(n as nat)),
{
    n.separate_with_commas()
}

/// A row count line of the database information: the label right-aligned to 8 columns and
/// the count, with commas, right-aligned to 7.
pub open spec fn count_line(label: Seq<char>, count: u64) -> Seq<char> {
    "  "@ + aligned(label, 8, Alignment::Right) + ": "@ + aligned(with_commas(decimal(count as nat)), 7, Alignment::Right)
        + "\n"@
}

/// The lines of the root folder pathnames, each indented by two spaces.
pub open spec fn root_lines(root_folders: Seq<String>) -> Seq<char>
    decreases root_folders.len(),
{
    if root_folders.len() == 0 {
        Seq::empty()
    } else {
        root_lines(root_folders.drop_last()) + "  "@ + root_folders.last()@ + "\n"@
    }
}

/// The text describing the database: its pathname and size, its root folders, and the row
/// counts of folders, files and problems.
pub open spec fn db_information_lines(db_pathname: Seq<char>, size_text: Seq<char>, info: DbInformation) -> Seq<char> {
    "Database: "@ + db_pathname + "\n"@ + "  Size: "@ + size_text + "\n"@ + "Root Folders:\n"@ + root_lines(
        info.root_folders@,
    ) + "Row Counts:\n"@ + count_line("Folders"@, info.folder_count) + count_line("Files"@, info.file_count)
        + count_line("Problems"@, info.problem_count)
}

/// Appends a row count line.
fn push_count_line(output: &mut String, label: &str, count: u64)
    ensures
        final(output)@ == old(output)@ + count_line(label@, count),
{
    let ghost start = output@;
    output.append("  ");
    output.append(align_text(label, 8, Alignment::Right).as_str());
    output.append(": ");
    output.append(align_text(commas_text(count).as_str(), 7, Alignment::Right).as_str());
    output.append("\n");
    assert(output@ =~= start + count_line(label@, count));
}

/// Describes the database: its pathname, its size as already formatted, its root folders,
/// and its row counts.
pub fn db_information_text(db_pathname: &str, size_text: &str, info: &DbInformation) -> (r: String)
    ensures
        r@ == db_information_lines(db_pathname@, size_text@, *info),
{
    let mut output = String::from_str("Database: ");
    output.append(db_pathname);
    output.append("\n");
    output.append("  Size: ");
    output.append(size_text);
    output.append("\n");
    output.append("Root Folders:\n");
    let ghost head = "Database: "@ + db_pathname@ + "\n"@ + "  Size: "@ + size_text@ + "\n"@ + "Root Folders:\n"@;
    assert(output@ =~= head);
    let mut i: usize = 0;
    assert(info.root_folders@.take(0) =~= Seq::<String>::empty());
    while i < info.root_folders.len()
        invariant
            i <= info.root_folders@.len(),
            output@ == head + root_lines(info.root_folders@.take(i as int)),
        decreases info.root_folders.len() - i,
    {
        proof {
            assert(info.root_folders@.take(i + 1).drop_last() =~= info.root_folders@.take(i as int));
            assert(info.root_folders@.take(i + 1).last() == info.root_folders@[i as int]);
        }
        let ghost before = output@;
        output.append("  ");
        output.append(info.root_folders[i].as_str());
        output.append("\n");
        assert(output@ =~= head + root_lines(info.root_folders@.take(i + 1)));
        i = i + 1;
    }
    assert(info.root_folders@.take(i as int) =~= info.root_folders@);
    output.append("Row Counts:\n");
    push_count_line(&mut output, "Folders", info.folder_count);
    push_count_line(&mut output, "Files", info.file_count);
    push_count_line(&mut output, "Problems", info.problem_count);
    assert(output@ =~= db_information_lines(db_pathname@, size_text@, *info));
    output
}

} // verus!
