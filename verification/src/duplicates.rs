//! Folders with filenames in common: the builder that gathers their metadata, validates
//! it, and produces the analysed folder groups.
use crate::analysis::{
    add_group_name, analyze_folders_files, distinct_keys, file_named, find_child, first_named, folder_files,
    folders_hold_file, has_file_named,
    has_id, has_key, lemma_id_from_name, lemma_key_from_name, lemma_match_key_parents, lemma_names_of_key_at,
    lemma_no_match_parents, matches_of, names_of_key, names_sorted, no_matches_of, sort_names, FolderAnalysis,
};
use crate::decimal::signed_text;
use crate::filematch::distinct_file_ids;
use crate::foldersmd::{
    all_known, entry_folders, filed_by_id, folders_of, group_folders, lemma_permuted_hold_file, pathname_ordered,
    sort_by_folder_pathname, entry_pathname_greater, FoldersMd,
};
use crate::groupid::{id_le, lemma_i64_ord_total, sorted_ids, FolderGroupId};
use crate::objects::{DuplicateIds, FolderMd, Metadata};
use crate::order::{ids_order, lemma_ids_order, path_order, str_equal};
use crate::sorting::{
    lemma_stable_sorted_map, stable_sorted,
    answered_le, lemma_adjacent_to_sorted, lemma_map_multiset, lemma_permuted_distinct, never_greater, vsort_by,
};
use std::cmp::Ordering;
use vstd::prelude::*;

verus! {

/// The error of the duplicate folders domain: a message.
pub struct Error {
    message: String,
}

impl View for Error {
    type V = Seq<char>;

    closed spec fn view(&self) -> Seq<char> {
        self.message@
    }
}

impl Error {
    /// Creates the error, its message prefixed by `domain: `.
    pub fn from_message(message: &str) -> (r: Error)
        ensures
            r@ == "domain: "@ + message@,
    {
        let text = String::from_str("domain: ");
        Error { message: text.concat(message) }
    }

    /// The text of the error.
    pub fn message(&self) -> (r: &str)
        ensures
            r@ == self@,
    {
        self.message.as_str()
    }
}

/// The lines joined into one text, separated by line feeds.
pub open spec fn joined_lines(lines: Seq<String>) -> Seq<char>
    decreases lines.len(),
{
    if lines.len() == 0 {
        Seq::empty()
    } else if lines.len() == 1 {
        lines[0]@
    } else {
        joined_lines(lines.drop_last()) + seq!['\n'] + lines.last()@
    }
}

/// Joins lines into one text, separated by line feeds.
pub fn join_lines(lines: &Vec<String>) -> (r: String)
    ensures
        r@ == joined_lines(lines@),
{
    let mut out = String::new();
    let mut i: usize = 0;
    proof {
        reveal_strlit("\n");
        assert(lines@.take(0) =~= Seq::<String>::empty());
    }
    while i < lines.len()
        invariant
            i <= lines@.len(),
            out@ == joined_lines(lines@.take(i as int)),
        decreases lines.len() - i,
    {
        proof {
            reveal_strlit("\n");
            assert(lines@.take(i + 1).drop_last() =~= lines@.take(i as int));
        }
        if i > 0 {
            out.append("\n");
        }
        out.append(lines[i].as_str());
        i = i + 1;
    }
    assert(lines@.take(i as int) =~= lines@);
    out
}

/// The `{:?}` text of folder metadata, as the derived `std::fmt::Debug` writes it.
pub uninterp spec fn folder_md_shown(folder_md: FolderMd) -> Seq<char>;

/// The `{:?}` text of duplicate ids, as the derived `std::fmt::Debug` writes it.
pub uninterp spec fn duplicate_ids_shown(duplicate_ids: DuplicateIds) -> Seq<char>;

/// The `{:?}` text of a list of filenames, as `std::fmt::Debug` of `Vec<String>` writes it.
pub uninterp spec fn filenames_shown(filenames: Seq<String>) -> Seq<char>;

/// The `{:?}` text of folder metadata (`format!` with the derived `std::fmt::Debug`): a
/// function of the metadata alone, named `folder_md_shown`.
#[verifier::external_body]
fn folder_md_text(folder_md: &FolderMd) -> (r: String)
    ensures
        r@ == folder_md_shown(*folder_md),
{
    format!("{:?}", folder_md)
}

/// The `{:?}` text of duplicate ids (`format!` with the derived `std::fmt::Debug`): a
/// function of the ids alone, named `duplicate_ids_shown`.
#[verifier::external_body]
fn duplicate_ids_text(duplicate_ids: &DuplicateIds) -> (r: String)
    ensures
        r@ == duplicate_ids_shown(*duplicate_ids),
{
    format!("{:?}", duplicate_ids)
}

/// The `{:?}` text of a list of filenames (`format!` with `std::fmt::Debug` of
/// `Vec<String>`): a function of the filenames alone, named `filenames_shown`.
#[verifier::external_body]
fn filenames_text(filenames: &Vec<String>) -> (r: String)
    ensures
        r@ == filenames_shown(filenames@),
{
    format!("{:?}", filenames)
}

/// The message for metadata that was added twice.
pub open spec fn already_added_text(folder_md: FolderMd) -> Seq<char> {
    "Yikes... "@ + folder_md_shown(folder_md) + " was already added!"@
}

/// The message for metadata that was added twice: `Yikes... `, the `{:?}` text of the
/// metadata, and ` was already added!`.
fn already_added_message(folder_md: &FolderMd) -> (r: String)
    ensures
        r@ == already_added_text(*folder_md),
{
    let shown = folder_md_text(folder_md);
    let text = String::from_str("Yikes... ");
    let text = text.concat(shown.as_str());
    let r = text.concat(" was already added!");
    assert(r@ == "Yikes... "@ + shown@ + " was already added!"@);
    r
}

/// The message for duplicate ids that the loaded metadata does not confirm: `Yikes... `,
/// the `{:?}` text of the ids, a space, the detail, and `!`.
fn validation_message(duplicate_ids: &DuplicateIds, detail: &str) -> (r: String)
    ensures
        r@ == "Yikes... "@ + duplicate_ids_shown(*duplicate_ids) + " "@ + detail@ + "!"@,
{
    let shown = duplicate_ids_text(duplicate_ids);
    let text = String::from_str("Yikes... ");
    let text = text.concat(shown.as_str());
    let text = text.concat(" ");
    let text = text.concat(detail);
    let r = text.concat("!");
    assert(r@ == "Yikes... "@ + shown@ + " "@ + detail@ + "!"@);
    r
}

/// The folder has a child named `name`.
pub open spec fn has_child_named(folder: FolderMd, name: Seq<char>) -> bool {
    first_named(folder.children@, name) < folder.children@.len()
}

/// The first child of the folder named `name`.
pub open spec fn child_named(folder: FolderMd, name: Seq<char>) -> Metadata {
    folder.children@[first_named(folder.children@, name)]
}

/// The loaded folders do not confirm a folder and file identifier pair: the folder is not
/// loaded, has no child by the name, or its child by the name has another identifier.
pub open spec fn pair_error(m: Map<i64, FolderMd>, name: Seq<char>, pair: (i64, i64)) -> bool {
    ||| !m.contains_key(pair.0)
    ||| !has_child_named(m[pair.0], name)
    ||| child_named(m[pair.0], name).spec_id() != pair.1
}

/// The number of pairs that the loaded folders do not confirm.
pub open spec fn pair_errors(m: Map<i64, FolderMd>, name: Seq<char>, pairs: Seq<(i64, i64)>) -> nat
    decreases pairs.len(),
{
    if pairs.len() == 0 {
        0
    } else {
        pair_errors(m, name, pairs.drop_last()) + if pair_error(m, name, pairs.last()) {
            1nat
        } else {
            0nat
        }
    }
}

/// The filename is already recorded for the folder group `key`.
pub open spec fn name_recorded(groups: Seq<(FolderGroupId, Vec<String>)>, key: Seq<i64>, name: Seq<char>) -> bool {
    exists|i: int| 0 <= i < names_of_key(groups, key).len() && (#[trigger] names_of_key(groups, key)[i])@ == name
}

/// The number of problems validation finds in duplicate ids: one per pair the loaded
/// folders do not confirm, and one when the filename is already recorded for the group.
pub open spec fn validation_errors(
    m: Map<i64, FolderMd>,
    groups: Seq<(FolderGroupId, Vec<String>)>,
    d: DuplicateIds,
) -> nat {
    pair_errors(m, d.filename@, d.ids@) + if name_recorded(groups, sorted_ids(d.folder_ids()), d.filename@) {
        1nat
    } else {
        0nat
    }
}

/// The filenames recorded for a folder group.
pub fn group_names<'a>(entries: &'a Vec<(FolderGroupId, Vec<String>)>, fgid: &FolderGroupId) -> (r: Option<&'a Vec<String>>)
    requires
        distinct_keys(entries@),
    ensures
        match r {
            Some(names) => has_key(entries@, fgid@) && names@ == names_of_key(entries@, fgid@),
            None => !has_key(entries@, fgid@),
        },
{
    let mut i: usize = 0;
    while i < entries.len()
        invariant
            i <= entries@.len(),
            distinct_keys(entries@),
            forall|j: int| 0 <= j < i ==> (#[trigger] entries@[j]).0@ != fgid@,
        decreases entries.len() - i,
    {
        if entries[i].0.same_as(fgid) {
            proof {
                lemma_names_of_key_at(entries@, i as int);
            }
            return Some(&entries[i].1);
        }
        i = i + 1;
    }
    None
}

/// Whether a filename is among the filenames.
pub fn contains_name(names: &Vec<String>, name: &str) -> (r: bool)
    ensures
        r == exists|i: int| 0 <= i < names@.len() && (#[trigger] names@[i])@ == name@,
{
    let mut i: usize = 0;
    while i < names.len()
        invariant
            i <= names@.len(),
            forall|j: int| 0 <= j < i ==> (#[trigger] names@[j])@ != name@,
        decreases names.len() - i,
    {
        if str_equal(names[i].as_str(), name) {
            return true;
        }
        i = i + 1;
    }
    false
}

/// The builder that gathers the metadata of folders with duplicate filenames.
///
/// Folder metadata is added first, then the duplicate ids that tie a filename to the
/// folders holding it; problems found along the way are recorded as errors.
pub struct DuplicateFoldersBuilder {
    /// The folders added, by identifier.
    pub folders_md: FoldersMd,
    /// The filenames recorded for each folder group.
    pub folder_group_filenames: Vec<(FolderGroupId, Vec<String>)>,
    /// The problems found while adding metadata.
    pub errors: Vec<String>,
}

impl DuplicateFoldersBuilder {
    /// The folders added, by identifier.
    pub open spec fn folders(&self) -> Map<i64, FolderMd> {
        self.folders_md@
    }

    /// The folder groups recorded, each with its filenames.
    pub open spec fn groups(&self) -> Seq<(FolderGroupId, Vec<String>)> {
        self.folder_group_filenames@
    }

    /// The builder's invariant: folders filed under their identifiers, one entry per folder
    /// group, and every folder of a group loaded.
    pub open spec fn wf(&self) -> bool {
        &&& self.folders_md.wf()
        &&& distinct_keys(self.groups())
        &&& forall|i: int| 0 <= i < self.groups().len() ==> all_known(self.folders(), (#[trigger] self.groups()[i]).0@)
    }

    proof fn lemma_wf(&self)
        requires
            self.folders_md.wf(),
            distinct_keys(self.folder_group_filenames@),
            forall|i: int| 0 <= i < self.folder_group_filenames@.len() ==> all_known(self.folders_md@, (#[trigger] self.folder_group_filenames@[i]).0@),
        ensures
            self.wf(),
    {
    }

    /// Creates an empty builder.
    pub fn new() -> (r: Self)
        ensures
            r.wf(),
            r.folders() == Map::<i64, FolderMd>::empty(),
            r.groups() == Seq::<(FolderGroupId, Vec<String>)>::empty(),
            r.errors@ == Seq::<String>::empty(),
    {
        let r = DuplicateFoldersBuilder { folders_md: FoldersMd::new(), folder_group_filenames: Vec::new(), errors: Vec::new() };
        proof {
            r.lemma_wf();
        }
        r
    }

    /// Adds folder metadata; an error is recorded when a folder with its identifier was
    /// already added, and the new metadata replaces the old.
    pub fn add_folder_md(&mut self, folder_md: FolderMd) -> (r: &mut Self)
        requires
            old(self).wf(),
        ensures
            r.wf(),
            r.folders() == old(self).folders().insert(folder_md.id, folder_md),
            r.groups() == old(self).groups(),
            r.errors@.len() == old(self).errors@.len() + if old(self).folders().contains_key(folder_md.id) {
                1int
            } else {
                0int
            },
            r.errors@.subrange(0, old(self).errors@.len() as int) == old(self).errors@,
            old(self).folders().contains_key(folder_md.id) ==> r.errors@.last()@ == already_added_text(
                old(self).folders()[folder_md.id],
            ),
            *final(self) == *final(r),
    {
        let ghost before = self.folders_md@;
        match self.folders_md.add(folder_md) {
            Some(replaced) => {
                let message = already_added_message(&replaced);
                self.errors.push(message);
            },
            None => {},
        }
        proof {
            assert forall|i: int| 0 <= i < self.folder_group_filenames@.len() implies all_known(self.folders_md@, (#[trigger] self.folder_group_filenames@[i]).0@) by {
                assert(all_known(before, self.folder_group_filenames@[i].0@));
            }
            self.lemma_wf();
        }
        self
    }
}


/// Duplicate ids without a problem pair: every folder of a pair is loaded.
pub proof fn lemma_no_pair_errors(m: Map<i64, FolderMd>, name: Seq<char>, pairs: Seq<(i64, i64)>)
    requires
        pair_errors(m, name, pairs) == 0,
    ensures
        forall|i: int| 0 <= i < pairs.len() ==> !pair_error(m, name, #[trigger] pairs[i]),
    decreases pairs.len(),
{
    if pairs.len() > 0 {
        lemma_no_pair_errors(m, name, pairs.drop_last());
        assert forall|i: int| 0 <= i < pairs.len() implies !pair_error(m, name, #[trigger] pairs[i]) by {
            if i < pairs.len() - 1 {
                assert(pairs[i] == pairs.drop_last()[i]);
            }
        }
    }
}

/// Duplicate ids whose pairs the loaded folders all confirm have no problem pair.
proof fn lemma_pair_errors_none(m: Map<i64, FolderMd>, name: Seq<char>, pairs: Seq<(i64, i64)>)
    requires
        forall|i: int| 0 <= i < pairs.len() ==> !pair_error(m, name, #[trigger] pairs[i]),
    ensures
        pair_errors(m, name, pairs) == 0,
    decreases pairs.len(),
{
    if pairs.len() > 0 {
        assert forall|i: int| 0 <= i < pairs.len() - 1 implies !pair_error(m, name, #[trigger] pairs.drop_last()[i]) by {
            assert(pairs.drop_last()[i] == pairs[i]);
        }
        lemma_pair_errors_none(m, name, pairs.drop_last());
        assert(!pair_error(m, name, pairs[pairs.len() - 1]));
    }
}

/// Identifiers that are a permutation of each other sort the same.
proof fn lemma_sorted_ids_permutation(a: Seq<i64>, b: Seq<i64>)
    requires
        a.to_multiset() == b.to_multiset(),
    ensures
        sorted_ids(a) == sorted_ids(b),
{
    lemma_i64_ord_total();
    a.lemma_sort_by_ensures(id_le());
    b.lemma_sort_by_ensures(id_le());
    vstd::seq_lib::lemma_sorted_unique(sorted_ids(a), sorted_ids(b), id_le());
}

/// Adding the same duplicate ids twice: once `d` was accepted (no validation error) and its
/// filename recorded for its folder group, duplicate ids `d2` with the same filename and the
/// same pairs, in any order, find exactly one problem (the filename is already recorded), so
/// they add one error and no filename, and the group lists the filename exactly once.
pub proof fn lemma_same_ids_twice(
    m: Map<i64, FolderMd>,
    groups: Seq<(FolderGroupId, Vec<String>)>,
    after: Seq<(FolderGroupId, Vec<String>)>,
    d: DuplicateIds,
    d2: DuplicateIds,
)
    requires
        validation_errors(m, groups, d) == 0,
        forall|key: Seq<i64>| #[trigger]
            has_key(after, key) <==> has_key(groups, key) || key == sorted_ids(d.folder_ids()),
        forall|key: Seq<i64>| #[trigger]
            names_of_key(after, key) == if key == sorted_ids(d.folder_ids()) {
                names_of_key(groups, key).push(d.filename)
            } else {
                names_of_key(groups, key)
            },
        d2.filename@ == d.filename@,
        d2.ids@.to_multiset() == d.ids@.to_multiset(),
    ensures
        sorted_ids(d2.folder_ids()) == sorted_ids(d.folder_ids()),
        validation_errors(m, after, d2) == 1,
        name_recorded(after, sorted_ids(d.folder_ids()), d.filename@),
        forall|i: int, j: int|
            0 <= i < j < names_of_key(after, sorted_ids(d.folder_ids())).len() ==> !(
            (#[trigger] names_of_key(after, sorted_ids(d.folder_ids()))[i])@ == d.filename@
                && (#[trigger] names_of_key(after, sorted_ids(d.folder_ids()))[j])@ == d.filename@),
{
    broadcast use vstd::seq_lib::group_to_multiset_ensures;

    let name = d.filename@;
    let key = sorted_ids(d.folder_ids());
    let first = |p: (i64, i64)| p.0;
    assert(d.folder_ids() =~= d.ids@.map_values(first));
    assert(d2.folder_ids() =~= d2.ids@.map_values(first));
    lemma_map_multiset(d2.ids@, d.ids@, first);
    lemma_sorted_ids_permutation(d2.folder_ids(), d.folder_ids());
    lemma_no_pair_errors(m, name, d.ids@);
    assert forall|i: int| 0 <= i < d2.ids@.len() implies !pair_error(m, name, #[trigger] d2.ids@[i]) by {
        assert(d2.ids@.to_multiset().count(d2.ids@[i]) > 0);
        assert(d.ids@.contains(d2.ids@[i]));
    }
    lemma_pair_errors_none(m, name, d2.ids@);
    let names = names_of_key(after, key);
    let prior = names_of_key(groups, key);
    assert(names == prior.push(d.filename));
    assert(names[prior.len() as int] == d.filename);
    assert(name_recorded(after, key, name));
    assert(!name_recorded(groups, key, name));
    assert forall|i: int, j: int| 0 <= i < j < names.len() implies !((#[trigger] names[i])@ == name && (#[trigger] names[j])@ == name) by {
        assert(names[i] == prior[i]);
        if j < prior.len() {
            assert(names[j] == prior[j]);
        }
    }
}

/// Duplicate ids without a problem pair name loaded folders only.
proof fn lemma_known_group(m: Map<i64, FolderMd>, d: DuplicateIds)
    requires
        pair_errors(m, d.filename@, d.ids@) == 0,
    ensures
        all_known(m, sorted_ids(d.folder_ids())),
{
    broadcast use vstd::seq_lib::group_to_multiset_ensures;

    lemma_no_pair_errors(m, d.filename@, d.ids@);
    let ids = d.folder_ids();
    ids.lemma_sort_by_ensures(crate::groupid::id_le());
    let sorted = sorted_ids(ids);
    assert forall|i: int| 0 <= i < sorted.len() implies m.contains_key(#[trigger] sorted[i]) by {
        assert(sorted.to_multiset().count(sorted[i]) > 0);
        assert(ids.contains(sorted[i]));
        let j = choose|j: int| 0 <= j < ids.len() && ids[j] == sorted[i];
        assert(!pair_error(m, d.filename@, d.ids@[j]));
    }
}

impl DuplicateFoldersBuilder {
    /// Checks duplicate ids against the loaded metadata, recording an error for each folder
    /// and file pair that the loaded folders do not confirm, and one when the filename is
    /// already recorded for the folder group; `true` when nothing was recorded.
    pub fn validate_duplicate_ids(&mut self, duplicate_ids: &DuplicateIds) -> (r: bool)
        requires
            old(self).wf(),
        ensures
            final(self).wf(),
            final(self).folders() == old(self).folders(),
            final(self).groups() == old(self).groups(),
            final(self).errors@.len() == old(self).errors@.len() + validation_errors(
                old(self).folders(),
                old(self).groups(),
                *duplicate_ids,
            ),
            final(self).errors@.subrange(0, old(self).errors@.len() as int) == old(self).errors@,
            r == (validation_errors(old(self).folders(), old(self).groups(), *duplicate_ids) == 0),
    {
        let starting_errors_cnt = self.errors.len();
        let ghost m = self.folders();
        let ghost g0 = self.groups();
        let ghost e0 = self.errors@;
        let ghost name = duplicate_ids.filename@;
        let ghost pairs = duplicate_ids.ids@;
        let mut k: usize = 0;
        proof {
            assert(pairs.take(0) =~= Seq::<(i64, i64)>::empty());
            assert(self.errors@.subrange(0, starting_errors_cnt as int) =~= e0);
        }
        while k < duplicate_ids.ids.len()
            invariant
                self.wf(),
                m == self.folders(),
                g0 == self.groups(),
                pairs == duplicate_ids.ids@,
                name == duplicate_ids.filename@,
                starting_errors_cnt == e0.len(),
                k <= pairs.len(),
                self.errors@.len() == starting_errors_cnt + pair_errors(m, name, pairs.take(k as int)),
                self.errors@.subrange(0, starting_errors_cnt as int) == e0,
            decreases pairs.len() - k,
        {
            let (folder_id, child_id) = duplicate_ids.ids[k];
            let detail: Option<String> = match self.folders_md.get(&folder_id) {
                Some(folder_md) => match find_child(folder_md, duplicate_ids.filename.as_str()) {
                    Some(i) => {
                        if folder_md.children[i].id() != child_id {
                            Some(folder_md_text(folder_md).concat(" duplicate file id mismatch"))
                        } else {
                            None
                        }
                    },
                    None => Some(folder_md_text(folder_md).concat(" filename not found")),
                },
                None => {
                    let text = String::from_str("FolderMd id ");
                    let text = text.concat(signed_text(folder_id).as_str());
                    Some(text.concat(" not found"))
                },
            };
            proof {
                assert(pairs.take(k + 1).drop_last() =~= pairs.take(k as int));
                assert(pairs.take(k + 1).last() == pairs[k as int]);
                assert(detail.is_some() == pair_error(m, name, pairs[k as int]));
            }
            let ghost before = self.errors@;
            match detail {
                Some(d) => {
                    let message = validation_message(duplicate_ids, d.as_str());
                    self.errors.push(message);
                    assert(self.errors@.subrange(0, starting_errors_cnt as int) =~= before.subrange(0, starting_errors_cnt as int));
                },
                None => {},
            }
            k = k + 1;
        }
        assert(pairs.take(k as int) =~= pairs);
        let fgid = FolderGroupId::from_duplicate_ids(duplicate_ids);
        let detail: Option<String> = match group_names(&self.folder_group_filenames, &fgid) {
            Some(filenames) => {
                if contains_name(filenames, duplicate_ids.filename.as_str()) {
                    let text = duplicate_ids.filename.clone();
                    let text = text.concat(" already exists in ");
                    Some(text.concat(filenames_text(filenames).as_str()))
                } else {
                    None
                }
            },
            None => None,
        };
        assert(detail.is_some() == name_recorded(g0, sorted_ids(duplicate_ids.folder_ids()), name));
        let ghost before = self.errors@;
        match detail {
            Some(d) => {
                let message = validation_message(duplicate_ids, d.as_str());
                self.errors.push(message);
                assert(self.errors@.subrange(0, starting_errors_cnt as int) =~= before.subrange(0, starting_errors_cnt as int));
            },
            None => {},
        }
        self.errors.len() == starting_errors_cnt
    }

    /// Records the filename of duplicate ids for the group of folders holding it, once the
    /// ids pass validation; otherwise only the errors grow.
    pub fn add_duplicate_ids(&mut self, duplicate_ids: DuplicateIds) -> (r: &mut Self)
        requires
            old(self).wf(),
        ensures
            r.wf(),
            r.folders() == old(self).folders(),
            r.errors@.len() == old(self).errors@.len() + validation_errors(
                old(self).folders(),
                old(self).groups(),
                duplicate_ids,
            ),
            r.errors@.subrange(0, old(self).errors@.len() as int) == old(self).errors@,
            validation_errors(old(self).folders(), old(self).groups(), duplicate_ids) > 0 ==> r.groups()
                == old(self).groups(),
            validation_errors(old(self).folders(), old(self).groups(), duplicate_ids) == 0 ==> {
                &&& forall|key: Seq<i64>| #[trigger]
                    has_key(r.groups(), key) <==> has_key(old(self).groups(), key) || key == sorted_ids(
                        duplicate_ids.folder_ids(),
                    )
                &&& forall|key: Seq<i64>| #[trigger]
                    names_of_key(r.groups(), key) == if key == sorted_ids(duplicate_ids.folder_ids()) {
                        names_of_key(old(self).groups(), key).push(duplicate_ids.filename)
                    } else {
                        names_of_key(old(self).groups(), key)
                    }
            },
            *final(self) == *final(r),
    {
        if self.validate_duplicate_ids(&duplicate_ids) {
            let fgid = FolderGroupId::from_duplicate_ids(&duplicate_ids);
            let ghost g1 = self.folder_group_filenames@;
            proof {
                lemma_known_group(self.folders(), duplicate_ids);
            }
            add_group_name(&mut self.folder_group_filenames, fgid, duplicate_ids.filename);
            proof {
                assert forall|i: int| 0 <= i < self.folder_group_filenames@.len() implies all_known(
                    self.folders_md@,
                    (#[trigger] self.folder_group_filenames@[i]).0@,
                ) by {
                    let key = self.folder_group_filenames@[i].0@;
                    assert(has_key(self.folder_group_filenames@, key));
                    if key != sorted_ids(duplicate_ids.folder_ids()) {
                        assert(has_key(g1, key));
                        let j = choose|j: int| 0 <= j < g1.len() && (#[trigger] g1[j]).0@ == key;
                        assert(all_known(self.folders_md@, g1[j].0@));
                    }
                }
            }
        }
        self
    }
}


/// The views of string slices.
pub open spec fn str_views(s: Seq<&str>) -> Seq<Seq<char>> {
    s.map_values(|x: &str| x@)
}

/// The views of strings.
pub open spec fn string_views(s: Seq<String>) -> Seq<Seq<char>> {
    s.map_values(|x: String| x@)
}

/// Borrows each string as a string slice.
pub fn str_refs(strings: &Vec<String>) -> (r: Vec<&str>)
    ensures
        str_views(r@) == string_views(strings@),
{
    let mut out: Vec<&str> = Vec::new();
    let mut i: usize = 0;
    while i < strings.len()
        invariant
            i <= strings@.len(),
            str_views(out@) == string_views(strings@.take(i as int)),
        decreases strings.len() - i,
    {
        let ghost before = out@;
        let text = strings[i].as_str();
        out.push(text);
        assert(str_views(out@) =~= str_views(before).push(strings@[i as int]@));
        assert(strings@.take(i + 1) =~= strings@.take(i as int).push(strings@[i as int]));
        assert(string_views(strings@.take(i + 1)) =~= string_views(strings@.take(i as int)).push(strings@[i as int]@));
        i = i + 1;
    }
    assert(strings@.take(i as int) =~= strings@);
    out
}

/// The collection of folders that have filenames in common.
pub struct FolderGroup {
    /// The folder ids that have filenames in common.
    pub fgid: FolderGroupId,
    /// The filenames that are common to each of the folders.
    pub filenames: Vec<String>,
    /// The analysis of which folders have matching files and those that do not.
    pub analysis: FolderAnalysis,
}

impl FolderGroup {
    /// Creates a folder group, its filenames sorted into ascending order.
    pub fn new(fgid: FolderGroupId, filenames: Vec<String>, analysis: FolderAnalysis) -> (r: Self)
        ensures
            r.fgid == fgid,
            r.analysis == analysis,
            names_sorted(r.filenames@),
            r.filenames@.to_multiset() == filenames@.to_multiset(),
    {
        let mut filenames = filenames;
        sort_names(&mut filenames);
        FolderGroup { fgid, filenames, analysis }
    }
}

/// The analysis of a folder group is that of its folders, ordered by pathname, for its
/// filenames taken in some order.
pub open spec fn analyzed(m: Map<i64, FolderMd>, g: FolderGroup) -> bool {
    exists|folders: Seq<&FolderMd>, names: Seq<String>|
        #![trigger matches_of(g.analysis.matches@, folders, names)]
        group_folders(folders, m, g.fgid@) && names.to_multiset() == g.filenames@.to_multiset() && matches_of(
            g.analysis.matches@,
            folders,
            names,
        ) && no_matches_of(g.analysis.no_matches@, folders, names)
}

/// A folder group of the duplicate folders metadata: its folders are loaded, its filenames
/// sorted, and its analysis is that of its folders.
pub open spec fn group_ok(m: Map<i64, FolderMd>, g: FolderGroup) -> bool {
    &&& all_known(m, g.fgid@)
    &&& names_sorted(g.filenames@)
    &&& analyzed(m, g)
    &&& analysis_known(m, g.analysis)
}

/// Every folder that the analysis names is loaded.
pub open spec fn analysis_known(m: Map<i64, FolderMd>, a: FolderAnalysis) -> bool {
    &&& forall|i: int| 0 <= i < a.matches@.len() ==> all_known(m, (#[trigger] a.matches@[i]).0@)
    &&& forall|i: int| 0 <= i < a.no_matches@.len() ==> m.contains_key((#[trigger] a.no_matches@[i]).0)
}

/// The file named `name` of each folder has the folder as its parent.
pub open spec fn parents_match(folders: Seq<&FolderMd>, name: Seq<char>) -> bool {
    forall|k: int| 0 <= k < folders.len() ==> (#[trigger] file_named(*folders[k], name)).parent_id == folders[k].id
}

/// Reordering folders keeps their files' parents matching.
proof fn lemma_permuted_parents(s: Seq<&FolderMd>, t: Seq<&FolderMd>, name: Seq<char>)
    requires
        s.to_multiset() == t.to_multiset(),
        parents_match(t, name),
    ensures
        parents_match(s, name),
{
    broadcast use vstd::seq_lib::group_to_multiset_ensures;

    assert forall|k: int| 0 <= k < s.len() implies (#[trigger] file_named(*s[k], name)).parent_id == s[k].id by {
        assert(s.to_multiset().count(s[k]) > 0);
        assert(t.contains(s[k]));
        let i = choose|i: int| 0 <= i < t.len() && t[i] == s[k];
        assert(file_named(*t[i], name).parent_id == t[i].id);
    }
}

/// A folder of a group is the loaded folder filed under its identifier.
proof fn lemma_group_member(m: Map<i64, FolderMd>, ids: Seq<i64>, folders: Seq<&FolderMd>, k: int)
    requires
        filed_by_id(m),
        all_known(m, ids),
        folders.to_multiset() == folders_of(&m, ids).to_multiset(),
        0 <= k < folders.len(),
    ensures
        m.contains_key(folders[k].id),
        m[folders[k].id] == *folders[k],
{
    broadcast use vstd::seq_lib::group_to_multiset_ensures;

    assert(folders.to_multiset().count(folders[k]) > 0);
    assert(folders_of(&m, ids).contains(folders[k]));
    let j = choose|j: int| 0 <= j < ids.len() && folders_of(&m, ids)[j] == folders[k];
    assert(m.contains_key(ids[j]));
}

/// The analysis of folders whose files have them as parents names loaded folders only.
proof fn lemma_analysis_known(
    m: Map<i64, FolderMd>,
    ids: Seq<i64>,
    folders: Seq<&FolderMd>,
    names: Seq<String>,
    a: FolderAnalysis,
)
    requires
        filed_by_id(m),
        all_known(m, ids),
        folders.to_multiset() == folders_of(&m, ids).to_multiset(),
        forall|t: int| 0 <= t < names.len() ==> parents_match(folders, (#[trigger] names[t])@),
        matches_of(a.matches@, folders, names),
        no_matches_of(a.no_matches@, folders, names),
    ensures
        analysis_known(m, a),
{
    assert forall|i: int| 0 <= i < a.matches@.len() implies all_known(m, (#[trigger] a.matches@[i]).0@) by {
        let key = a.matches@[i].0@;
        assert(has_key(a.matches@, key));
        lemma_key_from_name(folders, names, key);
        let t = choose|t: int| 0 <= t < names.len() && file_match_keys_contains(folders, names[t]@, key);
        lemma_match_key_parents(folders, names[t]@, key);
        assert forall|p: int| 0 <= p < key.len() implies m.contains_key(#[trigger] key[p]) by {
            assert(key.contains(key[p]));
            let k = choose|k: int| 0 <= k < folders.len() && (#[trigger] file_named(*folders[k], names[t]@)).parent_id == key[p];
            assert(parents_match(folders, names[t]@));
            lemma_group_member(m, ids, folders, k);
        }
    }
    assert forall|i: int| 0 <= i < a.no_matches@.len() implies m.contains_key((#[trigger] a.no_matches@[i]).0) by {
        let id = a.no_matches@[i].0;
        assert(has_id(a.no_matches@, id));
        lemma_id_from_name(folders, names, id);
        let t = choose|t: int| 0 <= t < names.len() && file_no_match_ids_contains(folders, names[t]@, id);
        lemma_no_match_parents(folders, names[t]@, id);
        let k = choose|k: int| 0 <= k < folders.len() && (#[trigger] file_named(*folders[k], names[t]@)).parent_id == id;
        assert(parents_match(folders, names[t]@));
        lemma_group_member(m, ids, folders, k);
    }
}

spec fn file_match_keys_contains(folders: Seq<&FolderMd>, name: Seq<char>, key: Seq<i64>) -> bool {
    crate::analysis::file_match_keys(folders, name).contains(key)
}

spec fn file_no_match_ids_contains(folders: Seq<&FolderMd>, name: Seq<char>, id: i64) -> bool {
    crate::analysis::file_no_match_ids(folders, name).contains(id)
}

/// The folder groups are in strictly ascending order of their identifiers.
pub open spec fn groups_ascending(groups: Seq<FolderGroup>) -> bool {
    forall|i: int, j: int|
        0 <= i < j < groups.len() ==> ids_order((#[trigger] groups[i]).fgid@, (#[trigger] groups[j]).fgid@)
            == Ordering::Less
}

/// Orders folder groups with distinct identifiers by their identifiers.
fn sort_groups(groups: &mut Vec<FolderGroup>)
    requires
        forall|i: int, j: int| 0 <= i < j < old(groups)@.len() ==> (#[trigger] old(groups)@[i]).fgid@ != (#[trigger] old(groups)@[j]).fgid@,
    ensures
        final(groups)@.to_multiset() == old(groups)@.to_multiset(),
        groups_ascending(final(groups)@),
{
    let ghost orig = groups@;
    let f = |a: &FolderGroup, b: &FolderGroup| -> (r: Ordering)
        ensures
            r == ids_order(a.fgid@, b.fgid@),
        { a.fgid.compare(&b.fgid) };
    proof {
        assert forall|a: FolderGroup, b: FolderGroup| #[trigger] never_greater(f, a, b) || #[trigger] never_greater(f, b, a) by {
            lemma_ids_order(a.fgid@, b.fgid@, a.fgid@);
            if ids_order(a.fgid@, b.fgid@) != Ordering::Greater {
                assert(never_greater(f, a, b));
            } else {
                assert(never_greater(f, b, a));
            }
        }
    }
    vsort_by(groups, f);
    proof {
        let key = |g: FolderGroup| g.fgid@;
        assert forall|i: int, j: int| 0 <= i < j < orig.len() implies key(#[trigger] orig[i]) != key(#[trigger] orig[j]) by {
            assert(orig[i].fgid@ != orig[j].fgid@);
        }
        lemma_permuted_distinct(orig, groups@, key);
        let lt = |a: FolderGroup, b: FolderGroup| ids_order(a.fgid@, b.fgid@) == Ordering::Less;
        assert forall|i: int, j: int| 0 <= i && j == i + 1 && j < groups@.len() implies #[trigger] lt(groups@[i], groups@[j]) by {
            assert(answered_le(f, groups@[i], groups@[j]));
            lemma_ids_order(groups@[i].fgid@, groups@[j].fgid@, groups@[i].fgid@);
            assert(key(groups@[i]) != key(groups@[j]));
        }
        assert(vstd::relations::transitive(lt)) by {
            assert forall|x: FolderGroup, y: FolderGroup, z: FolderGroup| #[trigger] lt(x, y) && #[trigger] lt(y, z) implies lt(x, z) by {
                lemma_ids_order(x.fgid@, y.fgid@, z.fgid@);
            }
        }
        lemma_adjacent_to_sorted(groups@, lt);
        assert forall|i: int, j: int| 0 <= i < j < groups@.len() implies ids_order((#[trigger] groups@[i]).fgid@, (#[trigger] groups@[j]).fgid@) == Ordering::Less by {
            assert(lt(groups@[i], groups@[j]));
        }
    }
}

/// The metadata of folders that have duplicate filenames: the folders by identifier and
/// the analysed folder groups, in ascending order of their identifiers.
pub struct DuplicateFolders {
    folders_md: FoldersMd,
    folder_groups: Vec<FolderGroup>,
}

impl DuplicateFolders {
    /// The folders, by identifier.
    pub closed spec fn folders(&self) -> Map<i64, FolderMd> {
        self.folders_md@
    }

    /// The folder groups.
    pub closed spec fn groups(&self) -> Seq<FolderGroup> {
        self.folder_groups@
    }

    /// The invariant: folders filed by identifier, every folder group valid, and the
    /// groups in strictly ascending order of their identifiers.
    pub open spec fn wf(&self) -> bool {
        &&& filed_by_id(self.folders())
        &&& forall|i: int| 0 <= i < self.groups().len() ==> group_ok(self.folders(), #[trigger] self.groups()[i])
        &&& groups_ascending(self.groups())
    }

    /// Creates the metadata, the folder groups ordered by their identifiers.
    pub fn new(folders_md: FoldersMd, folder_groups: Vec<FolderGroup>) -> (r: Self)
        requires
            folders_md.wf(),
            forall|i: int| 0 <= i < folder_groups@.len() ==> group_ok(folders_md@, #[trigger] folder_groups@[i]),
            forall|i: int, j: int| 0 <= i < j < folder_groups@.len() ==> (#[trigger] folder_groups@[i]).fgid@ != (#[trigger] folder_groups@[j]).fgid@,
        ensures
            r.wf(),
            r.folders() == folders_md@,
            r.groups().to_multiset() == folder_groups@.to_multiset(),
    {
        broadcast use vstd::seq_lib::group_to_multiset_ensures;

        let ghost orig = folder_groups@;
        let mut folder_groups = folder_groups;
        sort_groups(&mut folder_groups);
        proof {
            assert forall|i: int| 0 <= i < folder_groups@.len() implies group_ok(folders_md@, #[trigger] folder_groups@[i]) by {
                assert(folder_groups@.to_multiset().count(folder_groups@[i]) > 0);
                assert(orig.contains(folder_groups@[i]));
            }
        }
        DuplicateFolders { folders_md, folder_groups }
    }

    /// The number of folder groups.
    pub fn len(&self) -> (r: usize)
        ensures
            r == self.groups().len(),
    {
        self.folder_groups.len()
    }

    /// Takes the metadata apart into its folders and its folder groups.
    pub fn into_parts(self) -> (r: (FoldersMd, Vec<FolderGroup>))
        ensures
            r.0@ == self.folders(),
            r.1@ == self.groups(),
    {
        (self.folders_md, self.folder_groups)
    }
}

/// Whether each folder holds a file named `name` whose parent is the folder, no two of those
/// files sharing an identifier.
fn files_ready(folders: &Vec<&FolderMd>, name: &str) -> (r: bool)
    ensures
        r == (folders_hold_file(folders@, name@) && parents_match(folders@, name@)),
{
    let ghost fs = folders@;
    let mut ids: Vec<i64> = Vec::new();
    let mut k: usize = 0;
    while k < folders.len()
        invariant
            fs == folders@,
            k <= fs.len(),
            ids@.len() == k,
            forall|j: int|
                0 <= j < k ==> has_file_named(*#[trigger] fs[j], name@) && file_named(*fs[j], name@).parent_id
                    == fs[j].id && ids@[j] == file_named(*fs[j], name@).id,
        decreases folders.len() - k,
    {
        let folder = folders[k];
        match find_child(folder, name) {
            Some(i) => match &folder.children[i] {
                Metadata::File(file_md) => {
                    if file_md.parent_id != folder.id {
                        assert(file_named(*fs[k as int], name@).parent_id != fs[k as int].id);
                        return false;
                    }
                    ids.push(file_md.id);
                },
                _ => {
                    assert(!has_file_named(*fs[k as int], name@));
                    return false;
                },
            },
            None => {
                assert(!has_file_named(*fs[k as int], name@));
                return false;
            },
        }
        k = k + 1;
    }
    let ghost files = folder_files(fs, name@);
    assert forall|j: int| 0 <= j < fs.len() implies (#[trigger] files[j]).id == ids@[j] by {}
    let mut a: usize = 0;
    while a < ids.len()
        invariant
            a <= ids@.len(),
            files == folder_files(folders@, name@),
            ids@.len() == files.len(),
            forall|j: int| 0 <= j < files.len() ==> (#[trigger] files[j]).id == ids@[j],
            forall|x: int, y: int| 0 <= x < a && x < y < ids@.len() ==> ids@[x] != ids@[y],
        decreases ids.len() - a,
    {
        let mut b: usize = a + 1;
        while b < ids.len()
            invariant
                a < b <= ids@.len(),
                a < ids@.len(),
                files == folder_files(folders@, name@),
                ids@.len() == files.len(),
                forall|j: int| 0 <= j < files.len() ==> (#[trigger] files[j]).id == ids@[j],
                forall|y: int| a < y < b ==> ids@[a as int] != ids@[y],
            decreases ids.len() - b,
        {
            if ids[a] == ids[b] {
                assert(files[a as int].id == files[b as int].id);
                assert(!distinct_file_ids(folder_files(folders@, name@)));
                return false;
            }
            b = b + 1;
        }
        a = a + 1;
    }
    assert forall|x: int, y: int| 0 <= x < y < files.len() implies (#[trigger] files[x]).id != (#[trigger] files[y]).id by {
        assert(ids@[x] != ids@[y]);
    }
    true
}

impl DuplicateFoldersBuilder {
    /// Every folder group's folders hold a file by each of its filenames, and no two of
    /// those files share an identifier.
    pub open spec fn ready(&self) -> bool {
        forall|key: Seq<i64>, t: int|
            has_key(self.groups(), key) && 0 <= t < names_of_key(self.groups(), key).len() ==> {
                &&& folders_hold_file(folders_of(&self.folders(), key), (#[trigger] names_of_key(self.groups(), key)[t])@)
                &&& parents_match(folders_of(&self.folders(), key), names_of_key(self.groups(), key)[t]@)
            }
    }

    /// Whether the builder is ready to build, as `ready` says.
    pub fn is_ready(&self) -> (r: bool)
        requires
            self.wf(),
        ensures
            r == self.ready(),
    {
        let ghost m = self.folders();
        let ghost entries = self.groups();
        let mut q: usize = 0;
        while q < self.folder_group_filenames.len()
            invariant
                self.wf(),
                m == self.folders(),
                entries == self.groups(),
                q <= entries.len(),
                forall|p: int, t: int|
                    0 <= p < q && 0 <= t < entries[p].1@.len() ==> {
                        &&& folders_hold_file(folders_of(&m, entries[p].0@), (#[trigger] entries[p].1@[t])@)
                        &&& parents_match(folders_of(&m, entries[p].0@), entries[p].1@[t]@)
                    },
            decreases self.folder_group_filenames.len() - q,
        {
            let fgid = &self.folder_group_filenames[q].0;
            let filenames = &self.folder_group_filenames[q].1;
            assert(all_known(m, entries[q as int].0@));
            let folders = self.folders_md.folders_by_ids(fgid.ids());
            let mut t: usize = 0;
            while t < filenames.len()
                invariant
                    self.wf(),
                    m == self.folders(),
                    entries == self.groups(),
                    q < entries.len(),
                    folders@ == folders_of(&m, entries[q as int].0@),
                    filenames@ == entries[q as int].1@,
                    t <= filenames@.len(),
                    forall|u: int|
                        0 <= u < t ==> {
                            &&& folders_hold_file(folders@, (#[trigger] filenames@[u])@)
                            &&& parents_match(folders@, filenames@[u]@)
                        },
                decreases filenames.len() - t,
            {
                if !files_ready(&folders, filenames[t].as_str()) {
                    proof {
                        lemma_names_of_key_at(entries, q as int);
                        let key = entries[q as int].0@;
                        assert(names_of_key(entries, key)[t as int] == filenames@[t as int]);
                        assert(!({
                            &&& folders_hold_file(folders_of(&m, key), (names_of_key(entries, key)[t as int])@)
                            &&& parents_match(folders_of(&m, key), names_of_key(entries, key)[t as int]@)
                        }));
                    }
                    return false;
                }
                t = t + 1;
            }
            q = q + 1;
        }
        assert forall|key: Seq<i64>, t: int|
            has_key(entries, key) && 0 <= t < names_of_key(entries, key).len() implies {
                &&& folders_hold_file(folders_of(&m, key), (#[trigger] names_of_key(entries, key)[t])@)
                &&& parents_match(folders_of(&m, key), names_of_key(entries, key)[t]@)
            } by {
            let p = choose|p: int| 0 <= p < entries.len() && (#[trigger] entries[p]).0@ == key;
            lemma_names_of_key_at(entries, p);
            assert(entries[p].1@[t] == names_of_key(entries, key)[t]);
        }
        true
    }

    /// Consumes the builder: with errors recorded, the error holds them one per line;
    /// otherwise each folder group is analysed and the duplicate folders metadata created.
    pub fn build(self) -> (r: Result<DuplicateFolders, Error>)
        requires
            self.wf(),
            self.errors@.len() == 0 ==> self.ready(),
        ensures
            self.errors@.len() > 0 <==> r is Err,
            r matches Err(e) ==> e@ == "domain: "@ + joined_lines(self.errors@),
            r matches Ok(df) ==> {
                &&& df.wf()
                &&& df.folders() == self.folders()
                &&& forall|key: Seq<i64>| #[trigger] has_key(self.groups(), key) <==> exists|i: int| 0 <= i < df.groups().len() && (#[trigger] df.groups()[i]).fgid@ == key
                &&& forall|i: int| 0 <= i < df.groups().len() ==> (#[trigger] df.groups()[i]).filenames@.to_multiset() == names_of_key(self.groups(), df.groups()[i].fgid@).to_multiset()
            },
    {
        if self.errors.len() == 0 {
            let ghost m = self.folders();
            let ghost entries = self.groups();
            let folders_md = self.folders_md;
            let mut rest = self.folder_group_filenames;
            let mut folder_groups: Vec<FolderGroup> = Vec::new();
            let ghost total = entries.len();
            while rest.len() > 0
                invariant
                    folders_md@ == m,
                    folders_md.wf(),
                    distinct_keys(entries),
                    forall|i: int| 0 <= i < entries.len() ==> all_known(m, (#[trigger] entries[i]).0@),
                    forall|key: Seq<i64>, t: int|
                        has_key(entries, key) && 0 <= t < names_of_key(entries, key).len() ==> {
                            &&& folders_hold_file(folders_of(&m, key), (#[trigger] names_of_key(entries, key)[t])@)
                            &&& parents_match(folders_of(&m, key), names_of_key(entries, key)[t]@)
                        },
                    folder_groups.len() + rest.len() == total,
                    total == entries.len(),
                    forall|q: int| 0 <= q < rest.len() ==> #[trigger] rest@[q] == entries[folder_groups.len() + q],
                    forall|q: int| 0 <= q < folder_groups.len() ==> (#[trigger] folder_groups@[q]).fgid@ == entries[q].0@,
                    forall|q: int| 0 <= q < folder_groups.len() ==> group_ok(m, #[trigger] folder_groups@[q]),
                    forall|q: int| 0 <= q < folder_groups.len() ==> (#[trigger] folder_groups@[q]).filenames@.to_multiset() == entries[q].1@.to_multiset(),
                decreases rest.len(),
            {
                let ghost old_rest = rest@;
                let ghost q = folder_groups.len() as int;
                let (fgid, filenames) = rest.remove(0);
                assert(old_rest[0] == entries[q]);
                assert forall|p: int| 0 <= p < rest.len() implies #[trigger] rest@[p] == entries[q + 1 + p] by {
                    assert(rest@[p] == old_rest[p + 1]);
                }
                assert(all_known(m, entries[q].0@));
                let folders = folders_md.get_group(&fgid);
                proof {
                    lemma_names_of_key_at(entries, q);
                    assert forall|t: int| 0 <= t < filenames@.len() implies folders_hold_file(folders@, (#[trigger] filenames@[t])@) && parents_match(folders@, filenames@[t]@) by {
                        assert(names_of_key(entries, fgid@)[t] == filenames@[t]);
                        lemma_permuted_hold_file(folders@, folders_of(&m, fgid@), filenames@[t]@);
                        lemma_permuted_parents(folders@, folders_of(&m, fgid@), filenames@[t]@);
                    }
                }
                let ghost folders_seq = folders@;
                let ghost names_seq = filenames@;
                let analysis = analyze_folders_files(folders, &filenames);
                proof {
                    lemma_analysis_known(m, fgid@, folders_seq, names_seq, analysis);
                }
                let group = FolderGroup::new(fgid, filenames, analysis);
                assert(analyzed(m, group)) by {
                    assert(matches_of(group.analysis.matches@, folders_seq, names_seq));
                }
                folder_groups.push(group);
            }
            proof {
                assert forall|i: int, j: int| 0 <= i < j < folder_groups@.len() implies (#[trigger] folder_groups@[i]).fgid@ != (#[trigger] folder_groups@[j]).fgid@ by {
                    assert(entries[i].0@ != entries[j].0@);
                }
            }
            let ghost built = folder_groups@;
            let df = DuplicateFolders::new(folders_md, folder_groups);
            proof {
                broadcast use vstd::seq_lib::group_to_multiset_ensures;
                assert forall|key: Seq<i64>| #[trigger] has_key(entries, key) <==> exists|i: int| 0 <= i < df.groups().len() && (#[trigger] df.groups()[i]).fgid@ == key by {
                    if has_key(entries, key) {
                        let q = choose|q: int| 0 <= q < entries.len() && (#[trigger] entries[q]).0@ == key;
                        assert(built[q].fgid@ == key);
                        assert(built.to_multiset().count(built[q]) > 0);
                        assert(df.groups().contains(built[q]));
                    }
                    if exists|i: int| 0 <= i < df.groups().len() && (#[trigger] df.groups()[i]).fgid@ == key {
                        let i = choose|i: int| 0 <= i < df.groups().len() && (#[trigger] df.groups()[i]).fgid@ == key;
                        assert(df.groups().to_multiset().count(df.groups()[i]) > 0);
                        assert(built.contains(df.groups()[i]));
                        let q = choose|q: int| 0 <= q < built.len() && built[q] == df.groups()[i];
                        assert(entries[q].0@ == key);
                    }
                }
                assert forall|i: int| 0 <= i < df.groups().len() implies (#[trigger] df.groups()[i]).filenames@.to_multiset() == names_of_key(entries, df.groups()[i].fgid@).to_multiset() by {
                    assert(df.groups().to_multiset().count(df.groups()[i]) > 0);
                    assert(built.contains(df.groups()[i]));
                    let q = choose|q: int| 0 <= q < built.len() && built[q] == df.groups()[i];
                    lemma_names_of_key_at(entries, q);
                }
            }
            Ok(df)
        } else {
            let text = join_lines(&self.errors);
            Err(Error::from_message(text.as_str()))
        }
    }
}


/// The metadata of a folder group, borrowed from the duplicate folders metadata.
pub struct FolderGroupMd<'df> {
    /// The folder group id.
    pub fgid: FolderGroupId,
    /// The folders of the group, ordered by pathname.
    pub folders_md: Vec<&'df FolderMd>,
    /// The duplicate filenames that were analysed for the group.
    pub filenames: Vec<&'df str>,
    /// The analysis of the group.
    pub folder_analysis: FolderAnalysisMd<'df>,
}

/// The analysis of the files of a folder group, borrowed from the duplicate folders metadata.
pub struct FolderAnalysisMd<'fa> {
    /// The folder group id.
    pub fgid: FolderGroupId,
    /// The folders of the group, ordered by pathname.
    pub folders_md: Vec<&'fa FolderMd>,
    /// The filenames analysed.
    pub filenames: Vec<&'fa str>,
    /// The folders with matching files, with the filenames that matched.
    pub file_matches: Vec<(Vec<&'fa FolderMd>, Vec<&'fa str>)>,
    /// The folders with files that did not match, ordered by pathname, with those filenames.
    pub files_without_match: Vec<(&'fa FolderMd, Vec<&'fa str>)>,
}

/// A folder without matches as a folder and the views of its filenames.
pub open spec fn no_match_view<'a>(e: (&'a FolderMd, Vec<&'a str>)) -> (FolderMd, Seq<Seq<char>>) {
    (*e.0, str_views(e.1@))
}

/// The folder, looked up by identifier, and the views of the filenames of an entry of the
/// folders without matches.
pub open spec fn no_match_entry(m: Map<i64, FolderMd>, e: (i64, Vec<String>)) -> (FolderMd, Seq<Seq<char>>) {
    (m[e.0], string_views(e.1@))
}

/// The analysis metadata describes the analysis of the folder group `g`.
pub open spec fn describes_analysis(a: FolderAnalysisMd, m: Map<i64, FolderMd>, g: FolderGroup) -> bool {
    &&& a.fgid@ == g.fgid@
    &&& group_folders(a.folders_md@, m, g.fgid@)
    &&& str_views(a.filenames@) == string_views(g.filenames@)
    &&& a.file_matches@.len() == g.analysis.matches@.len()
    &&& forall|i: int|
        0 <= i < a.file_matches@.len() ==> group_folders((#[trigger] a.file_matches@[i]).0@, m, g.analysis.matches@[i].0@)
            && str_views(a.file_matches@[i].1@) == string_views(g.analysis.matches@[i].1@)
    &&& pathname_ordered(entry_folders(a.files_without_match@))
    &&& a.files_without_match@.map_values(|e: (&FolderMd, Vec<&str>)| no_match_view(e)).to_multiset()
        == g.analysis.no_matches@.map_values(|e: (i64, Vec<String>)| no_match_entry(m, e)).to_multiset()
    &&& a.files_without_match@.map_values(|e: (&FolderMd, Vec<&str>)| no_match_view(e)) == stable_sorted(
        g.analysis.no_matches@.map_values(|e: (i64, Vec<String>)| no_match_entry(m, e)),
        no_match_view_greater(),
    )
}

/// The first folder's pathname orders after the second's, of two folders without matches.
pub open spec fn no_match_view_greater() -> spec_fn((FolderMd, Seq<Seq<char>>), (FolderMd, Seq<Seq<char>>)) -> bool {
    |x: (FolderMd, Seq<Seq<char>>), y: (FolderMd, Seq<Seq<char>>)| path_order(x.0.pathname@, y.0.pathname@)
        == Ordering::Greater
}

/// The folder group metadata describes the folder group `g`.
pub open spec fn describes_group(md: FolderGroupMd, m: Map<i64, FolderMd>, g: FolderGroup) -> bool {
    &&& md.fgid@ == g.fgid@
    &&& group_folders(md.folders_md@, m, g.fgid@)
    &&& str_views(md.filenames@) == string_views(g.filenames@)
    &&& describes_analysis(md.folder_analysis, m, g)
}

impl DuplicateFolders {
    /// The metadata of the folder group at `index`, `None` past the last group.
    pub fn get_folder_group_md(&self, index: usize) -> (r: Option<FolderGroupMd<'_>>)
        requires
            self.wf(),
        ensures
            self.groups().len() <= usize::MAX,
            r is Some <==> index < self.groups().len(),
            r matches Some(md) ==> describes_group(md, self.folders(), self.groups()[index as int]),
    {
        if index < self.folder_groups.len() {
            let ghost m = self.folders();
            let folder_group = &self.folder_groups[index];
            assert(group_ok(m, self.groups()[index as int]));
            let mut matches: Vec<(Vec<&FolderMd>, Vec<&str>)> = Vec::new();
            let mut i: usize = 0;
            while i < folder_group.analysis.matches.len()
                invariant
                    m == self.folders_md@,
                    group_ok(m, *folder_group),
                    i <= folder_group.analysis.matches@.len(),
                    matches@.len() == i,
                    forall|q: int| 0 <= q < i ==> group_folders((#[trigger] matches@[q]).0@, m, folder_group.analysis.matches@[q].0@)
                        && str_views(matches@[q].1@) == string_views(folder_group.analysis.matches@[q].1@),
                decreases folder_group.analysis.matches.len() - i,
            {
                let entry = &folder_group.analysis.matches[i];
                let group = self.folders_md.get_group(&entry.0);
                let names = str_refs(&entry.1);
                matches.push((group, names));
                i = i + 1;
            }
            let mut no_matches: Vec<(&FolderMd, Vec<&str>)> = Vec::new();
            let mut j: usize = 0;
            while j < folder_group.analysis.no_matches.len()
                invariant
                    m == self.folders_md@,
                    group_ok(m, *folder_group),
                    j <= folder_group.analysis.no_matches@.len(),
                    no_matches@.map_values(|e: (&FolderMd, Vec<&str>)| no_match_view(e))
                        == folder_group.analysis.no_matches@.take(j as int).map_values(|e: (i64, Vec<String>)| no_match_entry(m, e)),
                decreases folder_group.analysis.no_matches.len() - j,
            {
                let ghost before = no_matches@;
                let entry = &folder_group.analysis.no_matches[j];
                let folder_md = self.folders_md.folder(entry.0);
                let names = str_refs(&entry.1);
                no_matches.push((folder_md, names));
                assert(no_matches@.map_values(|e: (&FolderMd, Vec<&str>)| no_match_view(e)) =~= before.map_values(|e: (&FolderMd, Vec<&str>)| no_match_view(e)).push(no_match_entry(m, folder_group.analysis.no_matches@[j as int])));
                assert(folder_group.analysis.no_matches@.take(j + 1) =~= folder_group.analysis.no_matches@.take(j as int).push(folder_group.analysis.no_matches@[j as int]));
                j = j + 1;
            }
            assert(folder_group.analysis.no_matches@.take(j as int) =~= folder_group.analysis.no_matches@);
            let ghost unsorted = no_matches@;
            sort_by_folder_pathname(&mut no_matches);
            proof {
                lemma_map_multiset(no_matches@, unsorted, |e: (&FolderMd, Vec<&str>)| no_match_view(e));
                lemma_stable_sorted_map(
                    unsorted,
                    |e: (&FolderMd, Vec<&str>)| no_match_view(e),
                    entry_pathname_greater::<Vec<&str>>(),
                    no_match_view_greater(),
                );
            }
            let folder_analysis = FolderAnalysisMd {
                fgid: folder_group.fgid.duplicate(),
                folders_md: self.folders_md.get_group(&folder_group.fgid),
                filenames: str_refs(&folder_group.filenames),
                file_matches: matches,
                files_without_match: no_matches,
            };
            Some(
                FolderGroupMd {
                    fgid: folder_group.fgid.duplicate(),
                    folders_md: self.folders_md.get_group(&folder_group.fgid),
                    filenames: str_refs(&folder_group.filenames),
                    folder_analysis,
                },
            )
        } else {
            None
        }
    }

    /// An iterator over the metadata of the folder groups, in order.
    pub fn iter(&self) -> (r: DuplicateFolderIterator<'_>)
        ensures
            r.duplicate_folders == self,
            r.index == 0,
    {
        DuplicateFolderIterator { duplicate_folders: self, index: 0 }
    }
}

/// The traversal of the folder groups of the duplicate folders metadata.
pub struct DuplicateFolderIterator<'df> {
    /// The duplicate folders metadata traversed.
    pub duplicate_folders: &'df DuplicateFolders,
    /// The index of the next folder group.
    pub index: usize,
}

impl<'df> DuplicateFolderIterator<'df> {
    /// The metadata of the next folder group, `None` once all were given.
    pub fn next(&mut self) -> (r: Option<FolderGroupMd<'df>>)
        requires
            old(self).duplicate_folders.wf(),
        ensures
            final(self).duplicate_folders == old(self).duplicate_folders,
            r is Some <==> old(self).index < old(self).duplicate_folders.groups().len(),
            r is Some ==> final(self).index == old(self).index + 1,
            r is None ==> final(self).index == old(self).index,
            r matches Some(md) ==> describes_group(
                md,
                old(self).duplicate_folders.folders(),
                old(self).duplicate_folders.groups()[old(self).index as int],
            ),
    {
        let next_group = self.duplicate_folders.get_folder_group_md(self.index);
        if next_group.is_some() {
            self.index = self.index + 1;
        }
        next_group
    }
}

} // verus!
