//! The analysis of folders that share filenames: which folders hold matching copies of a
//! file and which folders hold a file that matches no other.
use crate::filematch::{distinct_file_ids, files_of_size, folder_file_matches, match_groups, unmatched_files};
use crate::groupid::{sorted_ids, FolderGroupId};
use crate::objects::{FileMd, FolderMd, Metadata};
use crate::order::{compare_str, ids_order, lemma_ids_order, lemma_str_order, str_equal, str_order};
use crate::sorting::{answered_le, lemma_adjacent_to_sorted, never_greater, vsort_by};
use std::cmp::Ordering;
use vstd::relations::sorted_by;
use vstd::prelude::*;

verus! {

/// The position of the first child named `name`, or the number of children if none is.
pub open spec fn first_named(children: Seq<Metadata>, name: Seq<char>) -> int
    decreases children.len(),
{
    if children.len() == 0 {
        0
    } else if children[0].spec_name() == name {
        0
    } else {
        1 + first_named(children.drop_first(), name)
    }
}

/// The first child named `name` is a file.
pub open spec fn has_file_named(folder: FolderMd, name: Seq<char>) -> bool {
    let i = first_named(folder.children@, name);
    i < folder.children@.len() && folder.children@[i] is File
}

/// The file of a folder named `name`.
pub open spec fn file_named(folder: FolderMd, name: Seq<char>) -> FileMd {
    folder.children@[first_named(folder.children@, name)]->File_0
}

/// The files named `name` in each of the folders.
pub open spec fn folder_files(folders: Seq<&FolderMd>, name: Seq<char>) -> Seq<&FileMd> {
    folders.map_values(|f: &FolderMd| &file_named(*f, name))
}

/// The identifier of the folders that hold a group of files.
pub open spec fn group_key(group: Seq<&FileMd>) -> Seq<i64> {
    sorted_ids(group.map_values(|f: &FileMd| f.parent_id))
}

/// The folder groups whose files named `name` match.
pub open spec fn file_match_keys(folders: Seq<&FolderMd>, name: Seq<char>) -> Seq<Seq<i64>> {
    let files = folder_files(folders, name);
    match_groups(files, files.len() as int).map_values(|g: Seq<&FileMd>| group_key(g))
}

/// The folders whose file named `name` matches no other.
pub open spec fn file_no_match_ids(folders: Seq<&FolderMd>, name: Seq<char>) -> Seq<i64> {
    unmatched_files(folder_files(folders, name)).map_values(|f: &FileMd| f.parent_id)
}

/// Each folder holds a file named `name`, and no two of these files share an identifier.
pub open spec fn folders_hold_file(folders: Seq<&FolderMd>, name: Seq<char>) -> bool {
    &&& forall|k: int| 0 <= k < folders.len() ==> has_file_named(*#[trigger] folders[k], name)
    &&& distinct_file_ids(folder_files(folders, name))
}

proof fn lemma_first_named_step(children: Seq<Metadata>, name: Seq<char>, i: int)
    requires
        0 <= i <= children.len(),
        forall|j: int| 0 <= j < i ==> (#[trigger] children[j]).spec_name() != name,
    ensures
        first_named(children, name) == i + first_named(children.skip(i), name),
    decreases i,
{
    if i > 0 {
        assert(children[0].spec_name() != name);
        let rest = children.drop_first();
        assert forall|j: int| 0 <= j < i - 1 implies (#[trigger] rest[j]).spec_name() != name by {
            assert(rest[j] == children[j + 1]);
        }
        lemma_first_named_step(rest, name, i - 1);
        assert(rest.skip(i - 1) =~= children.skip(i));
    } else {
        assert(children.skip(0) =~= children);
    }
}

/// Finds the first child named `name`.
pub fn find_child(folder: &FolderMd, name: &str) -> (r: Option<usize>)
    ensures
        match r {
            Some(i) => i == first_named(folder.children@, name@) && i < folder.children@.len(),
            None => first_named(folder.children@, name@) == folder.children@.len(),
        },
{
    let mut i: usize = 0;
    while i < folder.children.len()
        invariant
            i <= folder.children@.len(),
            forall|j: int| 0 <= j < i ==> (#[trigger] folder.children@[j]).spec_name() != name@,
        decreases folder.children.len() - i,
    {
        let child_name = folder.children[i].name();
        if str_equal(child_name, name) {
            proof {
                lemma_first_named_step(folder.children@, name@, i as int);
            }
            return Some(i);
        }
        i = i + 1;
    }
    proof {
        lemma_first_named_step(folder.children@, name@, i as int);
    }
    None
}

/// The file named `name` in a folder that holds one.
pub fn get_file_named<'a>(folder: &'a FolderMd, name: &str) -> (r: &'a FileMd)
    requires
        has_file_named(*folder, name@),
    ensures
        *r == file_named(*folder, name@),
{
    let i = find_child(folder, name);
    match i {
        Some(i) => match &folder.children[i] {
            Metadata::File(file_md) => file_md,
            _ => vstd::pervasive::unreached(),
        },
        None => vstd::pervasive::unreached(),
    }
}

/// Analyzes the files with a common filename held by a collection of folders.
///
/// The first collection identifies the groups of folders whose files match, the second
/// the folders whose file matched no other. The caller guarantees every folder holds a
/// file by that name.
pub fn analyze_folders_file(folders_md: &Vec<&FolderMd>, filename: &str) -> (r: (Vec<FolderGroupId>, Vec<i64>))
    requires
        folders_hold_file(folders_md@, filename@),
    ensures
        r.0@.map_values(|g: FolderGroupId| g@) == file_match_keys(folders_md@, filename@),
        r.1@ == file_no_match_ids(folders_md@, filename@),
{
    let ghost folders = folders_md@;
    let mut files_md: Vec<&FileMd> = Vec::new();
    let mut k: usize = 0;
    while k < folders_md.len()
        invariant
            folders == folders_md@,
            k <= folders.len(),
            folders_hold_file(folders, filename@),
            files_md@ == folder_files(folders, filename@).subrange(0, k as int),
        decreases folders.len() - k,
    {
        let file_md = get_file_named(folders_md[k], filename);
        files_md.push(file_md);
        k = k + 1;
        assert(files_md@ =~= folder_files(folders, filename@).subrange(0, k as int));
    }
    assert(files_md@ =~= folder_files(folders, filename@));
    let (mut matches, no_matches) = folder_file_matches(files_md);
    let ghost groups = matches@.map_values(|g: Vec<&FileMd>| g@);
    let mut fgids: Vec<FolderGroupId> = Vec::new();
    let mut g: usize = 0;
    let ghost total = matches.len();
    while matches.len() > 0
        invariant
            g + matches.len() == total,
            groups.len() == total,
            forall|q: int| 0 <= q < matches.len() ==> (#[trigger] matches@[q])@ == groups[g + q],
            fgids@.map_values(|f: FolderGroupId| f@) == groups.subrange(0, g as int).map_values(
                |x: Seq<&FileMd>| group_key(x),
            ),
        decreases matches.len(),
    {
        let ghost old_matches = matches@;
        let group = matches.remove(0);
        assert(old_matches[0]@ == groups[g as int]);
        assert forall|q: int| 0 <= q < matches.len() implies (#[trigger] matches@[q])@ == groups[g + 1 + q] by {
            assert(matches@[q] == old_matches[q + 1]);
        }
        let fgid = FolderGroupId::from_files(group);
        assert(fgid@ == group_key(groups[g as int]));
        let ghost before = fgids@;
        fgids.push(fgid);
        assert(fgids@.map_values(|f: FolderGroupId| f@) =~= before.map_values(|f: FolderGroupId| f@).push(group_key(groups[g as int])));
        g = g + 1;
        assert(fgids@.map_values(|f: FolderGroupId| f@) =~= groups.subrange(0, g as int).map_values(
            |x: Seq<&FileMd>| group_key(x),
        ));
    }
    assert(groups.subrange(0, g as int) =~= groups);
    let mut ids: Vec<i64> = Vec::new();
    let mut n: usize = 0;
    while n < no_matches.len()
        invariant
            n <= no_matches.len(),
            ids@ == no_matches@.subrange(0, n as int).map_values(|f: &FileMd| f.parent_id),
        decreases no_matches.len() - n,
    {
        ids.push(no_matches[n].parent_id);
        n = n + 1;
        assert(ids@ =~= no_matches@.subrange(0, n as int).map_values(|f: &FileMd| f.parent_id));
    }
    assert(no_matches@.subrange(0, n as int) =~= no_matches@);
    (fgids, ids)
}

/// `n` copies of a filename.
pub open spec fn repeat_name(name: String, n: nat) -> Seq<String> {
    Seq::new(n, |_i: int| name)
}

/// The filenames, one per occurrence, whose files match in the folder group `key`.
pub open spec fn names_for_key(folders: Seq<&FolderMd>, names: Seq<String>, key: Seq<i64>) -> Seq<String>
    decreases names.len(),
{
    if names.len() == 0 {
        Seq::empty()
    } else {
        names_for_key(folders, names.drop_last(), key) + repeat_name(
            names.last(),
            file_match_keys(folders, names.last()@).to_multiset().count(key),
        )
    }
}

/// The filenames, one per occurrence, whose file in folder `id` matches no other.
pub open spec fn names_for_id(folders: Seq<&FolderMd>, names: Seq<String>, id: i64) -> Seq<String>
    decreases names.len(),
{
    if names.len() == 0 {
        Seq::empty()
    } else {
        names_for_id(folders, names.drop_last(), id) + repeat_name(
            names.last(),
            file_no_match_ids(folders, names.last()@).to_multiset().count(id),
        )
    }
}

/// An entry of the folder group list has the identifier `key`.
pub open spec fn has_key(s: Seq<(FolderGroupId, Vec<String>)>, key: Seq<i64>) -> bool {
    exists|i: int| 0 <= i < s.len() && (#[trigger] s[i]).0@ == key
}

/// The filenames listed for the folder group `key`, empty when no entry has that key.
pub open spec fn names_of_key(s: Seq<(FolderGroupId, Vec<String>)>, key: Seq<i64>) -> Seq<String> {
    if has_key(s, key) {
        s[choose|i: int| 0 <= i < s.len() && (#[trigger] s[i]).0@ == key].1@
    } else {
        Seq::empty()
    }
}

/// No two entries of the folder group list have the same key.
pub open spec fn distinct_keys(s: Seq<(FolderGroupId, Vec<String>)>) -> bool {
    forall|i: int, j: int| 0 <= i < j < s.len() ==> (#[trigger] s[i]).0@ != (#[trigger] s[j]).0@
}

/// An entry of the folder list has the identifier `id`.
pub open spec fn has_id(s: Seq<(i64, Vec<String>)>, id: i64) -> bool {
    exists|i: int| 0 <= i < s.len() && (#[trigger] s[i]).0 == id
}

/// The filenames listed for the folder `id`, empty when no entry has that id.
pub open spec fn names_of_id(s: Seq<(i64, Vec<String>)>, id: i64) -> Seq<String> {
    if has_id(s, id) {
        s[choose|i: int| 0 <= i < s.len() && (#[trigger] s[i]).0 == id].1@
    } else {
        Seq::empty()
    }
}

/// No two entries of the folder list have the same id.
pub open spec fn distinct_ids(s: Seq<(i64, Vec<String>)>) -> bool {
    forall|i: int, j: int| 0 <= i < j < s.len() ==> (#[trigger] s[i]).0 != (#[trigger] s[j]).0
}

pub proof fn lemma_names_of_key_at(s: Seq<(FolderGroupId, Vec<String>)>, i: int)
    requires
        distinct_keys(s),
        0 <= i < s.len(),
    ensures
        has_key(s, s[i].0@),
        names_of_key(s, s[i].0@) == s[i].1@,
{
    assert(has_key(s, s[i].0@));
    let j = choose|j: int| 0 <= j < s.len() && (#[trigger] s[j]).0@ == s[i].0@;
    if j != i {
        if j < i {
            assert(s[j].0@ != s[i].0@);
        } else {
            assert(s[i].0@ != s[j].0@);
        }
    }
}

pub proof fn lemma_names_of_id_at(s: Seq<(i64, Vec<String>)>, i: int)
    requires
        distinct_ids(s),
        0 <= i < s.len(),
    ensures
        has_id(s, s[i].0),
        names_of_id(s, s[i].0) == s[i].1@,
{
    assert(has_id(s, s[i].0));
    let j = choose|j: int| 0 <= j < s.len() && (#[trigger] s[j]).0 == s[i].0;
    if j != i {
        if j < i {
            assert(s[j].0 != s[i].0);
        } else {
            assert(s[i].0 != s[j].0);
        }
    }
}

/// Records a filename for a folder group, creating the entry if needed.
pub fn add_group_name(entries: &mut Vec<(FolderGroupId, Vec<String>)>, fgid: FolderGroupId, name: String)
    requires
        distinct_keys(old(entries)@),
    ensures
        distinct_keys(final(entries)@),
        forall|key: Seq<i64>| #[trigger] has_key(final(entries)@, key) <==> has_key(old(entries)@, key) || key == fgid@,
        forall|key: Seq<i64>| #[trigger] names_of_key(final(entries)@, key) == if key == fgid@ {
            names_of_key(old(entries)@, key).push(name)
        } else {
            names_of_key(old(entries)@, key)
        },
{
    let ghost old_entries = entries@;
    let mut i: usize = 0;
    let mut found = false;
    while i < entries.len()
        invariant
            entries@ == old_entries,
            distinct_keys(old_entries),
            i <= entries.len(),
            forall|j: int| 0 <= j < i ==> (#[trigger] entries@[j]).0@ != fgid@,
            found ==> i < entries.len() && entries@[i as int].0@ == fgid@,
        ensures
            !found ==> i == entries.len(),
        decreases entries.len() - i + (if found { 0int } else { 1int }),
    {
        if entries[i].0.same_as(&fgid) {
            found = true;
            break;
        }
        i = i + 1;
    }
    if found {
        proof {
            lemma_names_of_key_at(old_entries, i as int);
        }
        let mut entry = entries.remove(i);
        entry.1.push(name);
        entries.insert(i, entry);
        proof {
            assert(entries@ =~= old_entries.update(i as int, entry));
            assert forall|a: int, b: int| 0 <= a < b < entries@.len() implies (#[trigger] entries@[a]).0@ != (#[trigger] entries@[b]).0@ by {
                assert(old_entries[a].0@ != old_entries[b].0@);
            }
            lemma_names_of_key_at(entries@, i as int);
            assert forall|key: Seq<i64>| #[trigger] has_key(entries@, key) <==> has_key(old_entries, key) || key == fgid@ by {
                if has_key(old_entries, key) {
                    let j = choose|j: int| 0 <= j < old_entries.len() && (#[trigger] old_entries[j]).0@ == key;
                    assert(entries@[j].0@ == key);
                }
                if has_key(entries@, key) {
                    let j = choose|j: int| 0 <= j < entries@.len() && (#[trigger] entries@[j]).0@ == key;
                    assert(old_entries[j].0@ == key);
                }
            }
            assert forall|key: Seq<i64>| #[trigger] names_of_key(entries@, key) == if key == fgid@ {
                names_of_key(old_entries, key).push(name)
            } else {
                names_of_key(old_entries, key)
            } by {
                if key != fgid@ && has_key(old_entries, key) {
                    let j = choose|j: int| 0 <= j < old_entries.len() && (#[trigger] old_entries[j]).0@ == key;
                    lemma_names_of_key_at(old_entries, j);
                    lemma_names_of_key_at(entries@, j);
                }
            }
        }
    } else {
        proof {
            if has_key(entries@, fgid@) {
                let j = choose|j: int| 0 <= j < entries@.len() && (#[trigger] entries@[j]).0@ == fgid@;
                assert(entries@[j].0@ != fgid@);
            }
        }
        add_new_group(entries, fgid, name);
    }
}

/// Appends an entry for a folder group that has none yet.
fn add_new_group(entries: &mut Vec<(FolderGroupId, Vec<String>)>, fgid: FolderGroupId, name: String)
    requires
        distinct_keys(old(entries)@),
        !has_key(old(entries)@, fgid@),
    ensures
        distinct_keys(final(entries)@),
        forall|key: Seq<i64>| #[trigger] has_key(final(entries)@, key) <==> has_key(old(entries)@, key) || key == fgid@,
        forall|key: Seq<i64>| #[trigger] names_of_key(final(entries)@, key) == if key == fgid@ {
            names_of_key(old(entries)@, key).push(name)
        } else {
            names_of_key(old(entries)@, key)
        },
{
    let ghost old_entries = entries@;
    let ghost key0 = fgid@;
    let v = vec![name];
    assert(v@ =~= seq![name]);
    entries.push((fgid, v));
    proof {
        assert forall|a: int, b: int| 0 <= a < b < entries@.len() implies (#[trigger] entries@[a]).0@ != (#[trigger] entries@[b]).0@ by {
            if b == old_entries.len() {
                assert(!(old_entries[a].0@ == key0));
            } else {
                assert(old_entries[a].0@ != old_entries[b].0@);
            }
        }
        let n = old_entries.len() as int;
        lemma_names_of_key_at(entries@, n);
        assert(seq![name] =~= Seq::<String>::empty().push(name));
        assert forall|key: Seq<i64>| #[trigger] has_key(entries@, key) <==> has_key(old_entries, key) || key == key0 by {
            if has_key(old_entries, key) {
                let j = choose|j: int| 0 <= j < old_entries.len() && (#[trigger] old_entries[j]).0@ == key;
                assert(entries@[j].0@ == key);
            }
            if has_key(entries@, key) && key != key0 {
                let j = choose|j: int| 0 <= j < entries@.len() && (#[trigger] entries@[j]).0@ == key;
                assert(old_entries[j].0@ == key);
            }
        }
        assert forall|key: Seq<i64>| #[trigger] names_of_key(entries@, key) == if key == key0 {
            names_of_key(old_entries, key).push(name)
        } else {
            names_of_key(old_entries, key)
        } by {
            if key != key0 && has_key(old_entries, key) {
                let j = choose|j: int| 0 <= j < old_entries.len() && (#[trigger] old_entries[j]).0@ == key;
                lemma_names_of_key_at(old_entries, j);
                lemma_names_of_key_at(entries@, j);
            }
        }
    }
}

/// Records a filename for a folder, creating the entry if needed.
pub fn add_folder_name(entries: &mut Vec<(i64, Vec<String>)>, id: i64, name: String)
    requires
        distinct_ids(old(entries)@),
    ensures
        distinct_ids(final(entries)@),
        forall|k: i64| #[trigger] has_id(final(entries)@, k) <==> has_id(old(entries)@, k) || k == id,
        forall|k: i64| #[trigger] names_of_id(final(entries)@, k) == if k == id {
            names_of_id(old(entries)@, k).push(name)
        } else {
            names_of_id(old(entries)@, k)
        },
{
    let ghost old_entries = entries@;
    let mut i: usize = 0;
    let mut found = false;
    while i < entries.len()
        invariant
            entries@ == old_entries,
            distinct_ids(old_entries),
            i <= entries.len(),
            forall|j: int| 0 <= j < i ==> (#[trigger] entries@[j]).0 != id,
            found ==> i < entries.len() && entries@[i as int].0 == id,
        ensures
            !found ==> i == entries.len(),
        decreases entries.len() - i + (if found { 0int } else { 1int }),
    {
        if entries[i].0 == id {
            found = true;
            break;
        }
        i = i + 1;
    }
    if found {
        proof {
            lemma_names_of_id_at(old_entries, i as int);
        }
        let mut entry = entries.remove(i);
        entry.1.push(name);
        entries.insert(i, entry);
        proof {
            assert(entries@ =~= old_entries.update(i as int, entry));
            assert forall|a: int, b: int| 0 <= a < b < entries@.len() implies (#[trigger] entries@[a]).0 != (#[trigger] entries@[b]).0 by {
                assert(old_entries[a].0 != old_entries[b].0);
            }
            lemma_names_of_id_at(entries@, i as int);
            assert forall|k: i64| #[trigger] has_id(entries@, k) <==> has_id(old_entries, k) || k == id by {
                if has_id(old_entries, k) {
                    let j = choose|j: int| 0 <= j < old_entries.len() && (#[trigger] old_entries[j]).0 == k;
                    assert(entries@[j].0 == k);
                }
                if has_id(entries@, k) {
                    let j = choose|j: int| 0 <= j < entries@.len() && (#[trigger] entries@[j]).0 == k;
                    assert(old_entries[j].0 == k);
                }
            }
            assert forall|k: i64| #[trigger] names_of_id(entries@, k) == if k == id {
                names_of_id(old_entries, k).push(name)
            } else {
                names_of_id(old_entries, k)
            } by {
                if k != id && has_id(old_entries, k) {
                    let j = choose|j: int| 0 <= j < old_entries.len() && (#[trigger] old_entries[j]).0 == k;
                    lemma_names_of_id_at(old_entries, j);
                    lemma_names_of_id_at(entries@, j);
                }
            }
        }
        return;
    }
    let v = vec![name];
    assert(v@ =~= seq![name]);
    entries.push((id, v));
    proof {
        assert(!has_id(old_entries, id));
        assert forall|a: int, b: int| 0 <= a < b < entries@.len() implies (#[trigger] entries@[a]).0 != (#[trigger] entries@[b]).0 by {
            if b == old_entries.len() {
                assert(old_entries[a].0 != id);
            } else {
                assert(old_entries[a].0 != old_entries[b].0);
            }
        }
        let n = old_entries.len() as int;
        lemma_names_of_id_at(entries@, n);
        assert(seq![name] =~= Seq::<String>::empty().push(name));
        assert forall|k: i64| #[trigger] has_id(entries@, k) <==> has_id(old_entries, k) || k == id by {
            if has_id(old_entries, k) {
                let j = choose|j: int| 0 <= j < old_entries.len() && (#[trigger] old_entries[j]).0 == k;
                assert(entries@[j].0 == k);
            }
            if has_id(entries@, k) && k != id {
                let j = choose|j: int| 0 <= j < entries@.len() && (#[trigger] entries@[j]).0 == k;
                assert(old_entries[j].0 == k);
            }
        }
        assert forall|k: i64| #[trigger] names_of_id(entries@, k) == if k == id {
            names_of_id(old_entries, k).push(name)
        } else {
            names_of_id(old_entries, k)
        } by {
            if k != id && has_id(old_entries, k) {
                let j = choose|j: int| 0 <= j < old_entries.len() && (#[trigger] old_entries[j]).0 == k;
                lemma_names_of_id_at(old_entries, j);
                lemma_names_of_id_at(entries@, j);
            }
        }
    }
}

/// The string order as a "not greater" relation.
pub open spec fn name_le() -> spec_fn(String, String) -> bool {
    |a: String, b: String| str_order(a@, b@) != Ordering::Greater
}

/// The filenames are in ascending order.
pub open spec fn names_sorted(s: Seq<String>) -> bool {
    sorted_by(s, name_le())
}

pub proof fn lemma_name_le_transitive()
    ensures
        vstd::relations::transitive(name_le()),
{
    assert forall|x: String, y: String, z: String| #[trigger] name_le()(x, y) && #[trigger] name_le()(y, z) implies name_le()(x, z) by {
        lemma_str_order(x@, y@, z@);
        lemma_str_order(y@, z@, x@);
        lemma_str_order(x@, z@, y@);
        lemma_str_order(z@, x@, y@);
        lemma_str_order(y@, x@, z@);
    }
}

/// Sorts filenames into ascending order.
pub fn sort_names(names: &mut Vec<String>)
    ensures
        names_sorted(final(names)@),
        final(names)@.to_multiset() == old(names)@.to_multiset(),
{
    let f = |a: &String, b: &String| -> (r: Ordering)
        ensures
            r == str_order(a@, b@),
        { compare_str(a.as_str(), b.as_str()) };
    proof {
        assert forall|a: String, b: String| #[trigger] never_greater(f, a, b) || #[trigger] never_greater(f, b, a) by {
            lemma_str_order(a@, b@, a@);
            if str_order(a@, b@) != Ordering::Greater {
                assert(never_greater(f, a, b));
            } else {
                assert(never_greater(f, b, a));
            }
        }
    }
    vsort_by(names, f);
    proof {
        assert forall|i: int, j: int| 0 <= i && j == i + 1 && j < names@.len() implies #[trigger] name_le()(names@[i], names@[j]) by {
            assert(answered_le(f, names@[i], names@[j]));
        }
        lemma_name_le_transitive();
        lemma_adjacent_to_sorted(names@, name_le());
    }
}

/// Reordering a folder group list with distinct keys keeps its keys and filenames.
pub proof fn lemma_group_list_permutation(s1: Seq<(FolderGroupId, Vec<String>)>, s2: Seq<(FolderGroupId, Vec<String>)>)
    requires
        distinct_keys(s1),
        s1.to_multiset() == s2.to_multiset(),
    ensures
        distinct_keys(s2),
        forall|k: Seq<i64>| #[trigger] has_key(s2, k) == has_key(s1, k),
        forall|k: Seq<i64>| #[trigger] names_of_key(s2, k) == names_of_key(s1, k),
{
    broadcast use vstd::seq_lib::group_to_multiset_ensures;
    assert(s1.no_duplicates()) by {
        assert forall|i: int, j: int| 0 <= i < s1.len() && 0 <= j < s1.len() && i != j implies s1[i] != s1[j] by {
            if i < j {
                assert(s1[i].0@ != s1[j].0@);
            } else {
                assert(s1[j].0@ != s1[i].0@);
            }
        }
    }
    s1.lemma_multiset_has_no_duplicates();
    s2.lemma_multiset_has_no_duplicates_conv();
    assert forall|a: int, b: int| 0 <= a < b < s2.len() implies (#[trigger] s2[a]).0@ != (#[trigger] s2[b]).0@ by {
        assert(s2.to_multiset().count(s2[a]) > 0);
        assert(s2.to_multiset().count(s2[b]) > 0);
        assert(s1.contains(s2[a]));
        assert(s1.contains(s2[b]));
        let i = choose|i: int| 0 <= i < s1.len() && s1[i] == s2[a];
        let j = choose|j: int| 0 <= j < s1.len() && s1[j] == s2[b];
        assert(s2[a] != s2[b]);
        if i < j {
            assert(s1[i].0@ != s1[j].0@);
        } else if j < i {
            assert(s1[j].0@ != s1[i].0@);
        }
    }
    assert forall|k: Seq<i64>| #[trigger] has_key(s2, k) == has_key(s1, k) && names_of_key(s2, k) == names_of_key(s1, k) by {
        if has_key(s1, k) {
            let i = choose|i: int| 0 <= i < s1.len() && (#[trigger] s1[i]).0@ == k;
            assert(s1.to_multiset().count(s1[i]) > 0);
            assert(s2.contains(s1[i]));
            let j = choose|j: int| 0 <= j < s2.len() && s2[j] == s1[i];
            assert(s2[j].0@ == k);
            lemma_names_of_key_at(s1, i);
            lemma_names_of_key_at(s2, j);
        }
        if has_key(s2, k) {
            let j = choose|j: int| 0 <= j < s2.len() && (#[trigger] s2[j]).0@ == k;
            assert(s2.to_multiset().count(s2[j]) > 0);
            assert(s1.contains(s2[j]));
            let i = choose|i: int| 0 <= i < s1.len() && s1[i] == s2[j];
            assert(s1[i].0@ == k);
        }
    }
}

/// Reordering a folder list with distinct ids keeps its ids and filenames.
pub proof fn lemma_id_list_permutation(s1: Seq<(i64, Vec<String>)>, s2: Seq<(i64, Vec<String>)>)
    requires
        distinct_ids(s1),
        s1.to_multiset() == s2.to_multiset(),
    ensures
        distinct_ids(s2),
        forall|k: i64| #[trigger] has_id(s2, k) == has_id(s1, k),
        forall|k: i64| #[trigger] names_of_id(s2, k) == names_of_id(s1, k),
{
    broadcast use vstd::seq_lib::group_to_multiset_ensures;
    assert(s1.no_duplicates()) by {
        assert forall|i: int, j: int| 0 <= i < s1.len() && 0 <= j < s1.len() && i != j implies s1[i] != s1[j] by {
            if i < j {
                assert(s1[i].0 != s1[j].0);
            } else {
                assert(s1[j].0 != s1[i].0);
            }
        }
    }
    s1.lemma_multiset_has_no_duplicates();
    s2.lemma_multiset_has_no_duplicates_conv();
    assert forall|a: int, b: int| 0 <= a < b < s2.len() implies (#[trigger] s2[a]).0 != (#[trigger] s2[b]).0 by {
        assert(s2.to_multiset().count(s2[a]) > 0);
        assert(s2.to_multiset().count(s2[b]) > 0);
        assert(s1.contains(s2[a]));
        assert(s1.contains(s2[b]));
        let i = choose|i: int| 0 <= i < s1.len() && s1[i] == s2[a];
        let j = choose|j: int| 0 <= j < s1.len() && s1[j] == s2[b];
        assert(s2[a] != s2[b]);
        if i < j {
            assert(s1[i].0 != s1[j].0);
        } else if j < i {
            assert(s1[j].0 != s1[i].0);
        }
    }
    assert forall|k: i64| #[trigger] has_id(s2, k) == has_id(s1, k) && names_of_id(s2, k) == names_of_id(s1, k) by {
        if has_id(s1, k) {
            let i = choose|i: int| 0 <= i < s1.len() && (#[trigger] s1[i]).0 == k;
            assert(s1.to_multiset().count(s1[i]) > 0);
            assert(s2.contains(s1[i]));
            let j = choose|j: int| 0 <= j < s2.len() && s2[j] == s1[i];
            assert(s2[j].0 == k);
            lemma_names_of_id_at(s1, i);
            lemma_names_of_id_at(s2, j);
        }
        if has_id(s2, k) {
            let j = choose|j: int| 0 <= j < s2.len() && (#[trigger] s2[j]).0 == k;
            assert(s2.to_multiset().count(s2[j]) > 0);
            assert(s1.contains(s2[j]));
            let i = choose|i: int| 0 <= i < s1.len() && s1[i] == s2[j];
            assert(s1[i].0 == k);
        }
    }
}

/// `new` holds the folder groups of `old`, each with its filenames sorted, in ascending
/// order of the folder group identifiers.
pub open spec fn arranged_groups(new: Seq<(FolderGroupId, Vec<String>)>, old: Seq<(FolderGroupId, Vec<String>)>) -> bool {
    &&& distinct_keys(new)
    &&& forall|k: Seq<i64>| #[trigger] has_key(new, k) == has_key(old, k)
    &&& forall|k: Seq<i64>| names_sorted(#[trigger] names_of_key(new, k))
    &&& forall|k: Seq<i64>| (#[trigger] names_of_key(new, k)).to_multiset() == names_of_key(old, k).to_multiset()
    &&& forall|i: int, j: int| 0 <= i < j < new.len() ==> ids_order((#[trigger] new[i]).0@, (#[trigger] new[j]).0@) == Ordering::Less
}

/// `new` holds the folders of `old`, each with its filenames sorted, in ascending order of
/// the folder identifiers.
pub open spec fn arranged_ids(new: Seq<(i64, Vec<String>)>, old: Seq<(i64, Vec<String>)>) -> bool {
    &&& distinct_ids(new)
    &&& forall|k: i64| #[trigger] has_id(new, k) == has_id(old, k)
    &&& forall|k: i64| names_sorted(#[trigger] names_of_id(new, k))
    &&& forall|k: i64| (#[trigger] names_of_id(new, k)).to_multiset() == names_of_id(old, k).to_multiset()
    &&& forall|i: int, j: int| 0 <= i < j < new.len() ==> (#[trigger] new[i]).0 < (#[trigger] new[j]).0
}

/// Sorts the filenames of each folder group.
fn sort_group_names(entries: Vec<(FolderGroupId, Vec<String>)>) -> (r: Vec<(FolderGroupId, Vec<String>)>)
    requires
        distinct_keys(entries@),
    ensures
        distinct_keys(r@),
        forall|k: Seq<i64>| #[trigger] has_key(r@, k) == has_key(entries@, k),
        forall|k: Seq<i64>| names_sorted(#[trigger] names_of_key(r@, k)),
        forall|k: Seq<i64>| (#[trigger] names_of_key(r@, k)).to_multiset() == names_of_key(entries@, k).to_multiset(),
{
    let ghost orig = entries@;
    let mut rest = entries;
    let mut out: Vec<(FolderGroupId, Vec<String>)> = Vec::new();
    while rest.len() > 0
        invariant
            distinct_keys(orig),
            out.len() + rest.len() == orig.len(),
            forall|q: int| 0 <= q < rest.len() ==> #[trigger] rest@[q] == orig[out.len() + q],
            forall|q: int| 0 <= q < out.len() ==> (#[trigger] out@[q]).0@ == orig[q].0@,
            forall|q: int| 0 <= q < out.len() ==> names_sorted((#[trigger] out@[q]).1@),
            forall|q: int| 0 <= q < out.len() ==> (#[trigger] out@[q]).1@.to_multiset() == orig[q].1@.to_multiset(),
        decreases rest.len(),
    {
        let ghost old_rest = rest@;
        let (fgid, mut names) = rest.remove(0);
        assert(old_rest[0] == orig[out.len() as int]);
        assert forall|q: int| 0 <= q < rest.len() implies #[trigger] rest@[q] == orig[out.len() + 1 + q] by {
            assert(rest@[q] == old_rest[q + 1]);
        }
        sort_names(&mut names);
        out.push((fgid, names));
    }
    proof {
        assert forall|a: int, b: int| 0 <= a < b < out@.len() implies (#[trigger] out@[a]).0@ != (#[trigger] out@[b]).0@ by {
            assert(orig[a].0@ != orig[b].0@);
        }
        assert forall|k: Seq<i64>| #[trigger] has_key(out@, k) == has_key(orig, k) by {
            if has_key(orig, k) {
                let i = choose|i: int| 0 <= i < orig.len() && (#[trigger] orig[i]).0@ == k;
                assert(out@[i].0@ == k);
            }
            if has_key(out@, k) {
                let i = choose|i: int| 0 <= i < out@.len() && (#[trigger] out@[i]).0@ == k;
                assert(orig[i].0@ == k);
            }
        }
        assert forall|k: Seq<i64>| names_sorted(#[trigger] names_of_key(out@, k)) && names_of_key(out@, k).to_multiset() == names_of_key(orig, k).to_multiset() by {
            if has_key(out@, k) {
                let i = choose|i: int| 0 <= i < out@.len() && (#[trigger] out@[i]).0@ == k;
                lemma_names_of_key_at(out@, i);
                lemma_names_of_key_at(orig, i);
            } else {
                assert(names_of_key(out@, k) =~= Seq::<String>::empty());
                assert(!has_key(orig, k));
            }
        }
    }
    out
}

/// Sorts the filenames of each folder.
fn sort_id_names(entries: Vec<(i64, Vec<String>)>) -> (r: Vec<(i64, Vec<String>)>)
    requires
        distinct_ids(entries@),
    ensures
        distinct_ids(r@),
        forall|k: i64| #[trigger] has_id(r@, k) == has_id(entries@, k),
        forall|k: i64| names_sorted(#[trigger] names_of_id(r@, k)),
        forall|k: i64| (#[trigger] names_of_id(r@, k)).to_multiset() == names_of_id(entries@, k).to_multiset(),
{
    let ghost orig = entries@;
    let mut rest = entries;
    let mut out: Vec<(i64, Vec<String>)> = Vec::new();
    while rest.len() > 0
        invariant
            distinct_ids(orig),
            out.len() + rest.len() == orig.len(),
            forall|q: int| 0 <= q < rest.len() ==> #[trigger] rest@[q] == orig[out.len() + q],
            forall|q: int| 0 <= q < out.len() ==> (#[trigger] out@[q]).0 == orig[q].0,
            forall|q: int| 0 <= q < out.len() ==> names_sorted((#[trigger] out@[q]).1@),
            forall|q: int| 0 <= q < out.len() ==> (#[trigger] out@[q]).1@.to_multiset() == orig[q].1@.to_multiset(),
        decreases rest.len(),
    {
        let ghost old_rest = rest@;
        let (id, mut names) = rest.remove(0);
        assert(old_rest[0] == orig[out.len() as int]);
        assert forall|q: int| 0 <= q < rest.len() implies #[trigger] rest@[q] == orig[out.len() + 1 + q] by {
            assert(rest@[q] == old_rest[q + 1]);
        }
        sort_names(&mut names);
        out.push((id, names));
    }
    proof {
        assert forall|a: int, b: int| 0 <= a < b < out@.len() implies (#[trigger] out@[a]).0 != (#[trigger] out@[b]).0 by {
            assert(orig[a].0 != orig[b].0);
        }
        assert forall|k: i64| #[trigger] has_id(out@, k) == has_id(orig, k) by {
            if has_id(orig, k) {
                let i = choose|i: int| 0 <= i < orig.len() && (#[trigger] orig[i]).0 == k;
                assert(out@[i].0 == k);
            }
            if has_id(out@, k) {
                let i = choose|i: int| 0 <= i < out@.len() && (#[trigger] out@[i]).0 == k;
                assert(orig[i].0 == k);
            }
        }
        assert forall|k: i64| names_sorted(#[trigger] names_of_id(out@, k)) && names_of_id(out@, k).to_multiset() == names_of_id(orig, k).to_multiset() by {
            if has_id(out@, k) {
                let i = choose|i: int| 0 <= i < out@.len() && (#[trigger] out@[i]).0 == k;
                lemma_names_of_id_at(out@, i);
                lemma_names_of_id_at(orig, i);
            } else {
                assert(names_of_id(out@, k) =~= Seq::<String>::empty());
                assert(!has_id(orig, k));
            }
        }
    }
    out
}

/// Sorts folder group entries by their identifiers.
fn sort_groups_by_key(entries: &mut Vec<(FolderGroupId, Vec<String>)>)
    requires
        distinct_keys(old(entries)@),
    ensures
        final(entries)@.to_multiset() == old(entries)@.to_multiset(),
        forall|i: int, j: int| 0 <= i < j < final(entries)@.len() ==> ids_order((#[trigger] final(entries)@[i]).0@, (#[trigger] final(entries)@[j]).0@) == Ordering::Less,
{
    let ghost orig = entries@;
    let f = |a: &(FolderGroupId, Vec<String>), b: &(FolderGroupId, Vec<String>)| -> (r: Ordering)
        ensures
            r == ids_order(a.0@, b.0@),
        { a.0.compare(&b.0) };
    proof {
        assert forall|a: (FolderGroupId, Vec<String>), b: (FolderGroupId, Vec<String>)| #[trigger] never_greater(f, a, b) || #[trigger] never_greater(f, b, a) by {
            lemma_ids_order(a.0@, b.0@, a.0@);
            if ids_order(a.0@, b.0@) != Ordering::Greater {
                assert(never_greater(f, a, b));
            } else {
                assert(never_greater(f, b, a));
            }
        }
    }
    vsort_by(entries, f);
    proof {
        lemma_group_list_permutation(orig, entries@);
        let lt = |a: (FolderGroupId, Vec<String>), b: (FolderGroupId, Vec<String>)| ids_order(a.0@, b.0@) == Ordering::Less;
        assert forall|i: int, j: int| 0 <= i && j == i + 1 && j < entries@.len() implies #[trigger] lt(entries@[i], entries@[j]) by {
            assert(answered_le(f, entries@[i], entries@[j]));
            lemma_ids_order(entries@[i].0@, entries@[j].0@, entries@[i].0@);
            assert(entries@[i].0@ != entries@[j].0@);
        }
        assert(vstd::relations::transitive(lt)) by {
            assert forall|x: (FolderGroupId, Vec<String>), y: (FolderGroupId, Vec<String>), z: (FolderGroupId, Vec<String>)| #[trigger] lt(x, y) && #[trigger] lt(y, z) implies lt(x, z) by {
                lemma_ids_order(x.0@, y.0@, z.0@);
            }
        }
        lemma_adjacent_to_sorted(entries@, lt);
        assert forall|i: int, j: int| 0 <= i < j < entries@.len() implies ids_order((#[trigger] entries@[i]).0@, (#[trigger] entries@[j]).0@) == Ordering::Less by {
            assert(lt(entries@[i], entries@[j]));
        }
    }
}

/// Sorts folder entries by their identifiers.
fn sort_ids_by_key(entries: &mut Vec<(i64, Vec<String>)>)
    requires
        distinct_ids(old(entries)@),
    ensures
        final(entries)@.to_multiset() == old(entries)@.to_multiset(),
        forall|i: int, j: int| 0 <= i < j < final(entries)@.len() ==> (#[trigger] final(entries)@[i]).0 < (#[trigger] final(entries)@[j]).0,
{
    let ghost orig = entries@;
    let f = |a: &(i64, Vec<String>), b: &(i64, Vec<String>)| -> (r: Ordering)
        ensures
            r == (if a.0 < b.0 { Ordering::Less } else if a.0 > b.0 { Ordering::Greater } else { Ordering::Equal }),
        {
            if a.0 < b.0 {
                Ordering::Less
            } else if a.0 > b.0 {
                Ordering::Greater
            } else {
                Ordering::Equal
            }
        };
    proof {
        assert forall|a: (i64, Vec<String>), b: (i64, Vec<String>)| #[trigger] never_greater(f, a, b) || #[trigger] never_greater(f, b, a) by {
            if a.0 <= b.0 {
                assert(never_greater(f, a, b));
            } else {
                assert(never_greater(f, b, a));
            }
        }
    }
    vsort_by(entries, f);
    proof {
        lemma_id_list_permutation(orig, entries@);
        let lt = |a: (i64, Vec<String>), b: (i64, Vec<String>)| a.0 < b.0;
        assert forall|i: int, j: int| 0 <= i && j == i + 1 && j < entries@.len() implies #[trigger] lt(entries@[i], entries@[j]) by {
            assert(answered_le(f, entries@[i], entries@[j]));
            assert(entries@[i].0 != entries@[j].0);
        }
        lemma_adjacent_to_sorted(entries@, lt);
        assert forall|i: int, j: int| 0 <= i < j < entries@.len() implies (#[trigger] entries@[i]).0 < (#[trigger] entries@[j]).0 by {
            assert(lt(entries@[i], entries@[j]));
        }
    }
}

/// The analysis of folders that have filenames in common.
pub struct FolderAnalysis {
    /// The folder groups that have files that match, with the filenames that matched.
    pub matches: Vec<(FolderGroupId, Vec<String>)>,
    /// The folders with files that did not match, with those filenames.
    pub no_matches: Vec<(i64, Vec<String>)>,
}

impl FolderAnalysis {
    /// Creates the analysis: the filenames of each entry are sorted, the matches ordered by
    /// folder group id and the folders without matches by folder id.
    pub fn new(matches: Vec<(FolderGroupId, Vec<String>)>, no_matches: Vec<(i64, Vec<String>)>) -> (r: Self)
        requires
            distinct_keys(matches@),
            distinct_ids(no_matches@),
        ensures
            arranged_groups(r.matches@, matches@),
            arranged_ids(r.no_matches@, no_matches@),
    {
        let mut matches2 = sort_group_names(matches);
        let ghost m1 = matches2@;
        sort_groups_by_key(&mut matches2);
        proof {
            lemma_group_list_permutation(m1, matches2@);
        }
        let mut no_matches2 = sort_id_names(no_matches);
        let ghost n1 = no_matches2@;
        sort_ids_by_key(&mut no_matches2);
        proof {
            lemma_id_list_permutation(n1, no_matches2@);
        }
        FolderAnalysis { matches: matches2, no_matches: no_matches2 }
    }
}

/// The folder group entries record, for each folder group, the filenames whose files match
/// in it: exactly the groups with such filenames, ascending, each with its filenames sorted.
pub open spec fn matches_of(entries: Seq<(FolderGroupId, Vec<String>)>, folders: Seq<&FolderMd>, names: Seq<String>) -> bool {
    &&& distinct_keys(entries)
    &&& forall|k: Seq<i64>| #[trigger] has_key(entries, k) == (names_for_key(folders, names, k).len() > 0)
    &&& forall|k: Seq<i64>| names_sorted(#[trigger] names_of_key(entries, k))
    &&& forall|k: Seq<i64>| (#[trigger] names_of_key(entries, k)).to_multiset() == names_for_key(folders, names, k).to_multiset()
    &&& forall|i: int, j: int| 0 <= i < j < entries.len() ==> ids_order((#[trigger] entries[i]).0@, (#[trigger] entries[j]).0@) == Ordering::Less
}

/// The folder entries record, for each folder, the filenames whose file in it matches no
/// other: exactly the folders with such filenames, ascending, each with its filenames sorted.
pub open spec fn no_matches_of(entries: Seq<(i64, Vec<String>)>, folders: Seq<&FolderMd>, names: Seq<String>) -> bool {
    &&& distinct_ids(entries)
    &&& forall|k: i64| #[trigger] has_id(entries, k) == (names_for_id(folders, names, k).len() > 0)
    &&& forall|k: i64| names_sorted(#[trigger] names_of_id(entries, k))
    &&& forall|k: i64| (#[trigger] names_of_id(entries, k)).to_multiset() == names_for_id(folders, names, k).to_multiset()
    &&& forall|i: int, j: int| 0 <= i < j < entries.len() ==> (#[trigger] entries[i]).0 < (#[trigger] entries[j]).0
}

/// Every folder holds a file named after each of the filenames.
pub open spec fn folders_hold_files(folders: Seq<&FolderMd>, names: Seq<String>) -> bool {
    forall|t: int| 0 <= t < names.len() ==> folders_hold_file(folders, (#[trigger] names[t])@)
}

proof fn lemma_repeat_push(name: String, n: nat)
    ensures
        repeat_name(name, n + 1) == repeat_name(name, n).push(name),
{
    assert(repeat_name(name, n + 1) =~= repeat_name(name, n).push(name));
}

proof fn lemma_names_for_step(folders: Seq<&FolderMd>, names: Seq<String>, t: int)
    requires
        0 <= t < names.len(),
    ensures
        forall|k: Seq<i64>| #[trigger] names_for_key(folders, names.take(t + 1), k) == names_for_key(folders, names.take(t), k) + repeat_name(names[t], file_match_keys(folders, names[t]@).to_multiset().count(k)),
        forall|k: i64| #[trigger] names_for_id(folders, names.take(t + 1), k) == names_for_id(folders, names.take(t), k) + repeat_name(names[t], file_no_match_ids(folders, names[t]@).to_multiset().count(k)),
{
    assert(names.take(t + 1).drop_last() =~= names.take(t));
    assert(names.take(t + 1).last() == names[t]);
}

proof fn lemma_count_step<A>(s: Seq<A>, u: int, x: A)
    requires
        0 <= u < s.len(),
    ensures
        s.take(u + 1).to_multiset().count(x) == s.take(u).to_multiset().count(x) + (if s[u] == x { 1nat } else { 0nat }),
{
    broadcast use vstd::seq_lib::group_to_multiset_ensures;
    assert(s.take(u + 1) =~= s.take(u).push(s[u]));
}

/// Analyzes the folders that hold a group of common filenames.
///
/// For each filename the files of the folders are matched; the analysis collects, for
/// each group of folders with matching files and for each folder without a match, the
/// filenames involved. The caller guarantees every folder holds a file by each name.
pub fn analyze_folders_files(folders_md: Vec<&FolderMd>, filenames: &Vec<String>) -> (r: FolderAnalysis)
    requires
        folders_hold_files(folders_md@, filenames@),
    ensures
        matches_of(r.matches@, folders_md@, filenames@),
        no_matches_of(r.no_matches@, folders_md@, filenames@),
{
    let ghost folders = folders_md@;
    let ghost names = filenames@;
    let mut folder_matches: Vec<(FolderGroupId, Vec<String>)> = Vec::new();
    let mut no_file_matches: Vec<(i64, Vec<String>)> = Vec::new();
    let mut t: usize = 0;
    proof {
        assert(names.take(0) =~= Seq::<String>::empty());
    }
    while t < filenames.len()
        invariant
            folders == folders_md@,
            names == filenames@,
            t <= names.len(),
            folders_hold_files(folders, names),
            distinct_keys(folder_matches@),
            distinct_ids(no_file_matches@),
            forall|k: Seq<i64>| #[trigger] has_key(folder_matches@, k) == (names_for_key(folders, names.take(t as int), k).len() > 0),
            forall|k: Seq<i64>| #[trigger] names_of_key(folder_matches@, k) == names_for_key(folders, names.take(t as int), k),
            forall|k: i64| #[trigger] has_id(no_file_matches@, k) == (names_for_id(folders, names.take(t as int), k).len() > 0),
            forall|k: i64| #[trigger] names_of_id(no_file_matches@, k) == names_for_id(folders, names.take(t as int), k),
        decreases names.len() - t,
    {
        let filename = &filenames[t];
        assert(folders_hold_file(folders, names[t as int]@));
        let (mut matches, no_matches) = analyze_folders_file(&folders_md, filename.as_str());
        let ghost keys = file_match_keys(folders, names[t as int]@);
        let ghost ids = file_no_match_ids(folders, names[t as int]@);
        let ghost total = matches.len();
        let mut u: usize = 0;
        proof {
            broadcast use vstd::seq_lib::group_to_multiset_ensures;
            assert(keys.take(0) =~= Seq::<Seq<i64>>::empty());
            assert(keys.take(0).to_multiset() =~= vstd::multiset::Multiset::empty());
            assert forall|k: Seq<i64>| #[trigger] names_of_key(folder_matches@, k) == names_for_key(folders, names.take(t as int), k) + repeat_name(names[t as int], keys.take(0).to_multiset().count(k)) by {
                assert(repeat_name(names[t as int], 0) =~= Seq::<String>::empty());
                assert(names_for_key(folders, names.take(t as int), k) + Seq::<String>::empty() =~= names_for_key(folders, names.take(t as int), k));
            }
        }
        while matches.len() > 0
            invariant
                names == filenames@,
                t < names.len(),
                u + matches.len() == total,
                keys.len() == total,
                forall|q: int| 0 <= q < matches.len() ==> (#[trigger] matches@[q])@ == keys[u + q],
                distinct_keys(folder_matches@),
                forall|k: Seq<i64>| #[trigger] has_key(folder_matches@, k) == ((names_for_key(folders, names.take(t as int), k) + repeat_name(names[t as int], keys.take(u as int).to_multiset().count(k))).len() > 0),
                forall|k: Seq<i64>| #[trigger] names_of_key(folder_matches@, k) == names_for_key(folders, names.take(t as int), k) + repeat_name(names[t as int], keys.take(u as int).to_multiset().count(k)),
            decreases matches.len(),
        {
            let ghost old_matches = matches@;
            let fgid = matches.remove(0);
            assert(fgid@ == keys[u as int]);
            assert forall|q: int| 0 <= q < matches.len() implies (#[trigger] matches@[q])@ == keys[u + 1 + q] by {
                assert(matches@[q] == old_matches[q + 1]);
            }
            let ghost prev = folder_matches@;
            let name_copy = filenames[t].clone();
            assert(name_copy == names[t as int]);
            add_group_name(&mut folder_matches, fgid, name_copy);
            proof {
                assert forall|k: Seq<i64>| #[trigger] names_of_key(folder_matches@, k) == names_for_key(folders, names.take(t as int), k) + repeat_name(names[t as int], keys.take(u + 1).to_multiset().count(k)) by {
                    lemma_count_step(keys, u as int, k);
                    lemma_repeat_push(names[t as int], keys.take(u as int).to_multiset().count(k));
                    if k == keys[u as int] {
                        assert(names_of_key(folder_matches@, k) == names_of_key(prev, k).push(names[t as int]));
                    }
                }
                assert forall|k: Seq<i64>| #[trigger] has_key(folder_matches@, k) == ((names_for_key(folders, names.take(t as int), k) + repeat_name(names[t as int], keys.take(u + 1).to_multiset().count(k))).len() > 0) by {
                    lemma_count_step(keys, u as int, k);
                    assert(has_key(prev, k) == ((names_for_key(folders, names.take(t as int), k) + repeat_name(names[t as int], keys.take(u as int).to_multiset().count(k))).len() > 0));
                }
            }
            u = u + 1;
        }
        let mut v: usize = 0;
        proof {
            broadcast use vstd::seq_lib::group_to_multiset_ensures;
            assert(ids.take(0) =~= Seq::<i64>::empty());
            assert(ids.take(0).to_multiset() =~= vstd::multiset::Multiset::empty());
            assert forall|k: i64| #[trigger] names_of_id(no_file_matches@, k) == names_for_id(folders, names.take(t as int), k) + repeat_name(names[t as int], ids.take(0).to_multiset().count(k)) by {
                assert(repeat_name(names[t as int], 0) =~= Seq::<String>::empty());
                assert(names_for_id(folders, names.take(t as int), k) + Seq::<String>::empty() =~= names_for_id(folders, names.take(t as int), k));
            }
        }
        while v < no_matches.len()
            invariant
                names == filenames@,
                t < names.len(),
                v <= no_matches.len(),
                no_matches@ == ids,
                distinct_ids(no_file_matches@),
                forall|k: i64| #[trigger] has_id(no_file_matches@, k) == ((names_for_id(folders, names.take(t as int), k) + repeat_name(names[t as int], ids.take(v as int).to_multiset().count(k))).len() > 0),
                forall|k: i64| #[trigger] names_of_id(no_file_matches@, k) == names_for_id(folders, names.take(t as int), k) + repeat_name(names[t as int], ids.take(v as int).to_multiset().count(k)),
            decreases no_matches.len() - v,
        {
            let ghost prev = no_file_matches@;
            let name_copy = filenames[t].clone();
            assert(name_copy == names[t as int]);
            add_folder_name(&mut no_file_matches, no_matches[v], name_copy);
            proof {
                assert forall|k: i64| #[trigger] names_of_id(no_file_matches@, k) == names_for_id(folders, names.take(t as int), k) + repeat_name(names[t as int], ids.take(v + 1).to_multiset().count(k)) by {
                    lemma_count_step(ids, v as int, k);
                    lemma_repeat_push(names[t as int], ids.take(v as int).to_multiset().count(k));
                }
                assert forall|k: i64| #[trigger] has_id(no_file_matches@, k) == ((names_for_id(folders, names.take(t as int), k) + repeat_name(names[t as int], ids.take(v + 1).to_multiset().count(k))).len() > 0) by {
                    lemma_count_step(ids, v as int, k);
                    assert(has_id(prev, k) == ((names_for_id(folders, names.take(t as int), k) + repeat_name(names[t as int], ids.take(v as int).to_multiset().count(k))).len() > 0));
                }
            }
            v = v + 1;
        }
        proof {
            assert(keys.take(u as int) =~= keys);
            assert(ids.take(v as int) =~= ids);
            lemma_names_for_step(folders, names, t as int);
        }
        t = t + 1;
    }
    proof {
        assert(names.take(names.len() as int) =~= names);
    }
    FolderAnalysis::new(folder_matches, no_file_matches)
}


/// Every element of a filtered sequence is an element of the sequence.
pub proof fn lemma_filter_within<A>(s: Seq<A>, p: spec_fn(A) -> bool)
    ensures
        forall|i: int| 0 <= i < s.filter(p).len() ==> s.contains(#[trigger] s.filter(p)[i]),
    decreases s.len(),
{
    reveal(Seq::filter);
    if s.len() > 0 {
        lemma_filter_within(s.drop_last(), p);
        let rest = s.drop_last();
        assert forall|i: int| 0 <= i < s.filter(p).len() implies s.contains(#[trigger] s.filter(p)[i]) by {
            if i < rest.filter(p).len() {
                assert(s.filter(p)[i] == rest.filter(p)[i]);
                let j = choose|j: int| 0 <= j < rest.len() && rest[j] == rest.filter(p)[i];
                assert(s[j] == rest[j]);
            } else {
                assert(s.filter(p)[i] == s.last());
                assert(s[s.len() - 1] == s.last());
            }
        }
    }
}

/// Every file of a group of matching files is one of the files.
pub proof fn lemma_match_groups_within(files: Seq<&FileMd>, n: int)
    requires
        n <= files.len(),
    ensures
        forall|j: int, i: int| 0 <= j < match_groups(files, n).len() && 0 <= i < match_groups(files, n)[j].len() ==> files.contains(#[trigger] match_groups(files, n)[j][i]),
    decreases n,
{
    if n > 0 {
        lemma_match_groups_within(files, n - 1);
        let size = files[n - 1].size;
        lemma_filter_within(files, |f: &FileMd| f.size == size);
        let prev = match_groups(files, n - 1);
        assert forall|j: int, i: int| 0 <= j < match_groups(files, n).len() && 0 <= i < match_groups(files, n)[j].len() implies files.contains(#[trigger] match_groups(files, n)[j][i]) by {
            if j < prev.len() {
                assert(match_groups(files, n)[j] == prev[j]);
            } else {
                assert(match_groups(files, n)[j] == files_of_size(files, size));
            }
        }
    }
}

/// Each identifier of a folder group of matching files named `name` is the parent
/// identifier of the file of one of the folders.
pub proof fn lemma_match_key_parents(folders: Seq<&FolderMd>, name: Seq<char>, key: Seq<i64>)
    requires
        file_match_keys(folders, name).contains(key),
    ensures
        forall|x: i64| #[trigger] key.contains(x) ==> exists|k: int| 0 <= k < folders.len() && (#[trigger] file_named(*folders[k], name)).parent_id == x,
{
    broadcast use vstd::seq_lib::group_to_multiset_ensures;

    let files = folder_files(folders, name);
    let groups = match_groups(files, files.len() as int);
    lemma_match_groups_within(files, files.len() as int);
    let j = choose|j: int| 0 <= j < file_match_keys(folders, name).len() && file_match_keys(folders, name)[j] == key;
    let g = groups[j];
    let parents = g.map_values(|f: &FileMd| f.parent_id);
    parents.lemma_sort_by_ensures(crate::groupid::id_le());
    assert forall|x: i64| #[trigger] key.contains(x) implies exists|k: int| 0 <= k < folders.len() && (#[trigger] file_named(*folders[k], name)).parent_id == x by {
        let a = choose|a: int| 0 <= a < key.len() && key[a] == x;
        assert(key.to_multiset().count(x) > 0);
        assert(parents.contains(x));
        let b = choose|b: int| 0 <= b < parents.len() && parents[b] == x;
        assert(files.contains(groups[j][b]));
        let k = choose|k: int| 0 <= k < files.len() && files[k] == g[b];
        assert(file_named(*folders[k], name).parent_id == x);
    }
}

/// Each folder identifier without a match for `name` is the parent identifier of the file
/// of one of the folders.
pub proof fn lemma_no_match_parents(folders: Seq<&FolderMd>, name: Seq<char>, id: i64)
    requires
        file_no_match_ids(folders, name).contains(id),
    ensures
        exists|k: int| 0 <= k < folders.len() && (#[trigger] file_named(*folders[k], name)).parent_id == id,
{
    let files = folder_files(folders, name);
    let p = |f: &FileMd| files_of_size(files, f.size).len() == 1;
    lemma_filter_within(files, p);
    let j = choose|j: int| 0 <= j < file_no_match_ids(folders, name).len() && file_no_match_ids(folders, name)[j] == id;
    let f = unmatched_files(files)[j];
    assert(files.contains(f));
    let k = choose|k: int| 0 <= k < files.len() && files[k] == f;
    assert(file_named(*folders[k], name).parent_id == id);
}

/// A folder group with filenames recorded has files matching for one of the filenames.
pub proof fn lemma_key_from_name(folders: Seq<&FolderMd>, names: Seq<String>, key: Seq<i64>)
    requires
        names_for_key(folders, names, key).len() > 0,
    ensures
        exists|t: int| 0 <= t < names.len() && file_match_keys(folders, (#[trigger] names[t])@).contains(key),
    decreases names.len(),
{
    broadcast use vstd::seq_lib::group_to_multiset_ensures;

    let rest = names.drop_last();
    if names_for_key(folders, rest, key).len() > 0 {
        lemma_key_from_name(folders, rest, key);
        let t = choose|t: int| 0 <= t < rest.len() && file_match_keys(folders, (#[trigger] rest[t])@).contains(key);
        assert(names[t] == rest[t]);
    } else {
        let t = names.len() - 1;
        assert(names[t] == names.last());
        assert(file_match_keys(folders, names.last()@).to_multiset().count(key) > 0);
    }
}

/// A folder with filenames recorded has a file without a match for one of the filenames.
pub proof fn lemma_id_from_name(folders: Seq<&FolderMd>, names: Seq<String>, id: i64)
    requires
        names_for_id(folders, names, id).len() > 0,
    ensures
        exists|t: int| 0 <= t < names.len() && file_no_match_ids(folders, (#[trigger] names[t])@).contains(id),
    decreases names.len(),
{
    broadcast use vstd::seq_lib::group_to_multiset_ensures;

    let rest = names.drop_last();
    if names_for_id(folders, rest, id).len() > 0 {
        lemma_id_from_name(folders, rest, id);
        let t = choose|t: int| 0 <= t < rest.len() && file_no_match_ids(folders, (#[trigger] rest[t])@).contains(id);
        assert(names[t] == rest[t]);
    } else {
        let t = names.len() - 1;
        assert(names[t] == names.last());
        assert(file_no_match_ids(folders, names.last()@).to_multiset().count(id) > 0);
    }
}

} // verus!
