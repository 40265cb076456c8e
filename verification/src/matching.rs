//! Folder groups whose files match: the builder that collects them from the analysed
//! folder groups, and the metadata it produces.
use crate::analysis::{has_id, has_key, names_of_id, names_of_key, distinct_ids, distinct_keys, lemma_names_of_id_at, lemma_names_of_key_at};
use crate::analysis::FolderAnalysis;
use crate::duplicates::FolderGroup;
use crate::analysis::{names_sorted, sort_names};
use crate::duplicates::{analysis_known, analyzed, contains_name, group_ok, DuplicateFolders};
use crate::foldersmd::{all_known, entry_folders, entry_pathname_greater, filed_by_id, folders_of, group_folders, pathname_ordered, sort_by_folder_pathname, FoldersMd};
use crate::duplicates::{str_refs, str_views, string_views};
use crate::objects::{FolderMd, Metadata};
use crate::analysis::{find_child, first_named};
use crate::analysis::{matches_of, no_matches_of};
use crate::groupid::FolderGroupId;
use crate::order::{ids_order, lemma_ids_order, path_order};
use crate::sorting::{answered_le, lemma_adjacent_to_sorted, lemma_map_multiset, lemma_permuted_distinct, lemma_stable_sorted_map, never_greater, stable_sorted, vsort_by};
use std::cmp::Ordering;
use std::collections::HashMap;
use vstd::multiset::Multiset;
use vstd::prelude::*;

verus! {

broadcast use vstd::std_specs::hash::group_hash_axioms;

/// Copies filenames.
pub fn copy_names(names: &Vec<String>) -> (r: Vec<String>)
    ensures
        r@ == names@,
{
    let mut out: Vec<String> = Vec::new();
    let mut i: usize = 0;
    while i < names.len()
        invariant
            i <= names@.len(),
            out@ == names@.take(i as int),
        decreases names.len() - i,
    {
        out.push(names[i].clone());
        i = i + 1;
        assert(out@ =~= names@.take(i as int));
    }
    assert(names@.take(i as int) =~= names@);
    out
}

/// The identifiers of folder group identifiers.
pub open spec fn fgid_views(v: Seq<FolderGroupId>) -> Seq<Seq<i64>> {
    v.map_values(|g: FolderGroupId| g@)
}

/// The folder group identifiers other than `fgid`.
pub open spec fn other_groups(groups: Seq<Seq<i64>>, fgid: Seq<i64>) -> Seq<Seq<i64>> {
    groups.filter(|g: Seq<i64>| g != fgid)
}

/// Removes a folder group identifier from a collection of folder group identifiers.
pub fn filter_fgid(fgid: &FolderGroupId, fgids: &Vec<FolderGroupId>) -> (r: Vec<FolderGroupId>)
    ensures
        fgid_views(r@) == other_groups(fgid_views(fgids@), fgid@),
{
    let mut out: Vec<FolderGroupId> = Vec::new();
    let mut i: usize = 0;
    let ghost p = |g: Seq<i64>| g != fgid@;
    proof {
        reveal(Seq::filter);
        assert(fgid_views(fgids@).take(0) =~= Seq::<Seq<i64>>::empty());
        assert(fgid_views(out@) =~= fgid_views(fgids@).take(0).filter(p));
    }
    while i < fgids.len()
        invariant
            i <= fgids@.len(),
            p == (|g: Seq<i64>| g != fgid@),
            fgid_views(out@) == fgid_views(fgids@).take(i as int).filter(p),
        decreases fgids.len() - i,
    {
        let ghost before = out@;
        proof {
            reveal(Seq::filter);
            assert(fgid_views(fgids@).take(i + 1).drop_last() =~= fgid_views(fgids@).take(i as int));
            assert(fgid_views(fgids@).take(i + 1).last() == fgids@[i as int]@);
        }
        if !fgids[i].same_as(fgid) {
            out.push(fgids[i].duplicate());
            assert(fgid_views(out@) =~= fgid_views(before).push(fgids@[i as int]@));
        }
        i = i + 1;
    }
    assert(fgid_views(fgids@).take(i as int) =~= fgid_views(fgids@));
    out
}

/// Whether the folder group identifiers include `fgid`.
pub fn contains_group(fgids: &Vec<FolderGroupId>, fgid: &FolderGroupId) -> (r: bool)
    ensures
        r == fgid_views(fgids@).contains(fgid@),
{
    let mut k: usize = 0;
    while k < fgids.len()
        invariant
            k <= fgids@.len(),
            forall|q: int| 0 <= q < k ==> (#[trigger] fgids@[q])@ != fgid@,
        decreases fgids.len() - k,
    {
        if fgids[k].same_as(fgid) {
            assert(fgid_views(fgids@)[k as int] == fgid@);
            return true;
        }
        k = k + 1;
    }
    assert forall|q: int| 0 <= q < fgid_views(fgids@).len() implies fgid_views(fgids@)[q] != fgid@ by {
        assert(fgid_views(fgids@)[q] == fgids@[q]@);
    }
    false
}

/// An entry of the match builder has the folder group `key`.
pub open spec fn has_group(s: Seq<(FolderGroupId, (Vec<String>, Vec<String>))>, key: Seq<i64>) -> bool {
    exists|i: int| 0 <= i < s.len() && (#[trigger] s[i]).0@ == key
}

/// The position of the entry of the match builder for the folder group `key`.
pub open spec fn group_at(s: Seq<(FolderGroupId, (Vec<String>, Vec<String>))>, key: Seq<i64>) -> int {
    choose|i: int| 0 <= i < s.len() && (#[trigger] s[i]).0@ == key
}

/// The filenames examined for the folder group `key`, empty when it has no entry.
pub open spec fn examined_of(s: Seq<(FolderGroupId, (Vec<String>, Vec<String>))>, key: Seq<i64>) -> Seq<String> {
    if has_group(s, key) {
        s[group_at(s, key)].1.0@
    } else {
        Seq::empty()
    }
}

/// The filenames matched for the folder group `key`, empty when it has no entry.
pub open spec fn matched_of(s: Seq<(FolderGroupId, (Vec<String>, Vec<String>))>, key: Seq<i64>) -> Seq<String> {
    if has_group(s, key) {
        s[group_at(s, key)].1.1@
    } else {
        Seq::empty()
    }
}

/// No two entries of the match builder have the same folder group.
pub open spec fn distinct_groups(s: Seq<(FolderGroupId, (Vec<String>, Vec<String>))>) -> bool {
    forall|i: int, j: int| 0 <= i < j < s.len() ==> (#[trigger] s[i]).0@ != (#[trigger] s[j]).0@
}

pub proof fn lemma_group_at(s: Seq<(FolderGroupId, (Vec<String>, Vec<String>))>, i: int)
    requires
        distinct_groups(s),
        0 <= i < s.len(),
    ensures
        has_group(s, s[i].0@),
        group_at(s, s[i].0@) == i,
{
    assert(has_group(s, s[i].0@));
    let j = group_at(s, s[i].0@);
    if j != i {
        if j < i {
            assert(s[j].0@ != s[i].0@);
        } else {
            assert(s[i].0@ != s[j].0@);
        }
    }
}

/// The folder groups recorded for a folder.
pub open spec fn groups_of_folder(m: Map<i64, Vec<FolderGroupId>>, id: i64) -> Seq<Seq<i64>> {
    if m.contains_key(id) {
        fgid_views(m[id]@)
    } else {
        Seq::empty()
    }
}

/// The filenames recorded for a folder.
pub open spec fn names_in(m: Map<i64, Vec<String>>, id: i64) -> Seq<String> {
    if m.contains_key(id) {
        m[id]@
    } else {
        Seq::empty()
    }
}

/// The list with the item added when it is not already there.
pub open spec fn push_unique(list: Seq<Seq<i64>>, item: Seq<i64>) -> Seq<Seq<i64>> {
    if list.contains(item) {
        list
    } else {
        list.push(item)
    }
}

/// The builder that collects the folder groups with matching files.
pub struct FoldersMatchBuilder {
    /// For each folder group with matching files, the filenames examined and matched.
    pub matches: Vec<(FolderGroupId, (Vec<String>, Vec<String>))>,
    /// The filenames that were not matched, by folder.
    pub no_matches: HashMap<i64, Vec<String>>,
    /// The folder groups with matching files, by folder.
    pub matches_to_fgids: HashMap<i64, Vec<FolderGroupId>>,
}

impl FoldersMatchBuilder {
    /// The builder's invariant: one entry per folder group, and each folder of a folder
    /// group has that group recorded, no group twice.
    pub open spec fn wf(&self) -> bool {
        &&& distinct_groups(self.matches@)
        &&& forall|key: Seq<i64>, id: i64| #[trigger] has_group(self.matches@, key) && #[trigger] key.contains(id) ==> groups_of_folder(self.matches_to_fgids@, id).contains(key)
        &&& forall|id: i64| #[trigger] groups_of_folder(self.matches_to_fgids@, id).no_duplicates()
    }

    /// Creates an empty builder.
    pub fn new() -> (r: Self)
        ensures
            r.wf(),
            r.matches@ == Seq::<(FolderGroupId, (Vec<String>, Vec<String>))>::empty(),
            r.no_matches@ == Map::<i64, Vec<String>>::empty(),
            r.matches_to_fgids@ == Map::<i64, Vec<FolderGroupId>>::empty(),
    {
        FoldersMatchBuilder { matches: Vec::new(), no_matches: HashMap::new(), matches_to_fgids: HashMap::new() }
    }

    /// Records a folder group for a folder, unless it is already recorded.
    fn add_folder_group(&mut self, id: i64, fgid: &FolderGroupId)
        requires
            groups_of_folder(old(self).matches_to_fgids@, id).no_duplicates(),
        ensures
            final(self).matches@ == old(self).matches@,
            final(self).no_matches@ == old(self).no_matches@,
            groups_of_folder(final(self).matches_to_fgids@, id) == push_unique(groups_of_folder(old(self).matches_to_fgids@, id), fgid@),
            groups_of_folder(final(self).matches_to_fgids@, id).no_duplicates(),
            forall|other: i64| other != id ==> #[trigger] groups_of_folder(final(self).matches_to_fgids@, other) == groups_of_folder(old(self).matches_to_fgids@, other),
    {
        let ghost before = groups_of_folder(self.matches_to_fgids@, id);
        match self.matches_to_fgids.remove(&id) {
            Some(mut folder_groups) => {
                let found = contains_group(&folder_groups, fgid);
                if !found {
                    let ghost fg = folder_groups@;
                    folder_groups.push(fgid.duplicate());
                    assert(fgid_views(folder_groups@) =~= before.push(fgid@));
                }
                self.matches_to_fgids.insert(id, folder_groups);
            },
            None => {
                let mut folder_groups: Vec<FolderGroupId> = Vec::new();
                folder_groups.push(fgid.duplicate());
                assert(before =~= Seq::<Seq<i64>>::empty());
                assert(fgid_views(folder_groups@) =~= before.push(fgid@));
                self.matches_to_fgids.insert(id, folder_groups);
            },
        }
    }
}


/// The position of the entry for a folder group.
pub fn group_position(entries: &Vec<(FolderGroupId, (Vec<String>, Vec<String>))>, fgid: &FolderGroupId) -> (r: Option<usize>)
    ensures
        match r {
            Some(i) => i < entries@.len() && entries@[i as int].0@ == fgid@,
            None => !has_group(entries@, fgid@),
        },
{
    let mut i: usize = 0;
    while i < entries.len()
        invariant
            i <= entries@.len(),
            forall|q: int| 0 <= q < i ==> (#[trigger] entries@[q]).0@ != fgid@,
        decreases entries.len() - i,
    {
        if entries[i].0.same_as(fgid) {
            return Some(i);
        }
        i = i + 1;
    }
    None
}

/// Replacing the entry of a folder group by one with the same folder group keeps the
/// other entries as they were.
proof fn lemma_update_group(
    s: Seq<(FolderGroupId, (Vec<String>, Vec<String>))>,
    i: int,
    e: (FolderGroupId, (Vec<String>, Vec<String>)),
)
    requires
        distinct_groups(s),
        0 <= i < s.len(),
        e.0@ == s[i].0@,
    ensures
        distinct_groups(s.update(i, e)),
        forall|key: Seq<i64>| #[trigger] has_group(s.update(i, e), key) == has_group(s, key),
        examined_of(s.update(i, e), e.0@) == e.1.0@,
        matched_of(s.update(i, e), e.0@) == e.1.1@,
        forall|key: Seq<i64>| key != e.0@ ==> #[trigger] examined_of(s.update(i, e), key) == examined_of(s, key),
        forall|key: Seq<i64>| key != e.0@ ==> #[trigger] matched_of(s.update(i, e), key) == matched_of(s, key),
{
    let t = s.update(i, e);
    assert forall|a: int, b: int| 0 <= a < b < t.len() implies (#[trigger] t[a]).0@ != (#[trigger] t[b]).0@ by {
        assert(s[a].0@ != s[b].0@);
    }
    assert forall|key: Seq<i64>| #[trigger] has_group(t, key) == has_group(s, key) by {
        if has_group(s, key) {
            let j = choose|j: int| 0 <= j < s.len() && (#[trigger] s[j]).0@ == key;
            assert(t[j].0@ == key);
        }
        if has_group(t, key) {
            let j = choose|j: int| 0 <= j < t.len() && (#[trigger] t[j]).0@ == key;
            assert(s[j].0@ == key);
        }
    }
    lemma_group_at(t, i);
    assert forall|key: Seq<i64>| key != e.0@ implies #[trigger] examined_of(t, key) == examined_of(s, key) && matched_of(t, key) == matched_of(s, key) by {
        if has_group(s, key) {
            let j = choose|j: int| 0 <= j < s.len() && (#[trigger] s[j]).0@ == key;
            lemma_group_at(s, j);
            lemma_group_at(t, j);
        }
    }
}

/// Adding the entry of a new folder group keeps the other entries as they were.
proof fn lemma_push_group(s: Seq<(FolderGroupId, (Vec<String>, Vec<String>))>, e: (FolderGroupId, (Vec<String>, Vec<String>)))
    requires
        distinct_groups(s),
        !has_group(s, e.0@),
    ensures
        distinct_groups(s.push(e)),
        forall|key: Seq<i64>| #[trigger] has_group(s.push(e), key) == (has_group(s, key) || key == e.0@),
        examined_of(s.push(e), e.0@) == e.1.0@,
        matched_of(s.push(e), e.0@) == e.1.1@,
        forall|key: Seq<i64>| key != e.0@ ==> #[trigger] examined_of(s.push(e), key) == examined_of(s, key),
        forall|key: Seq<i64>| key != e.0@ ==> #[trigger] matched_of(s.push(e), key) == matched_of(s, key),
{
    let t = s.push(e);
    assert forall|a: int, b: int| 0 <= a < b < t.len() implies (#[trigger] t[a]).0@ != (#[trigger] t[b]).0@ by {
        if b < s.len() {
            assert(s[a].0@ != s[b].0@);
        } else {
            assert(t[a] == s[a]);
        }
    }
    assert forall|key: Seq<i64>| #[trigger] has_group(t, key) == (has_group(s, key) || key == e.0@) by {
        if has_group(s, key) {
            let j = choose|j: int| 0 <= j < s.len() && (#[trigger] s[j]).0@ == key;
            assert(t[j].0@ == key);
        }
        if key == e.0@ {
            assert(t[s.len() as int].0@ == key);
        }
        if has_group(t, key) && key != e.0@ {
            let j = choose|j: int| 0 <= j < t.len() && (#[trigger] t[j]).0@ == key;
            assert(s[j].0@ == key);
        }
    }
    lemma_group_at(t, s.len() as int);
    assert forall|key: Seq<i64>| key != e.0@ implies #[trigger] examined_of(t, key) == examined_of(s, key) && matched_of(t, key) == matched_of(s, key) by {
        if has_group(s, key) {
            let j = choose|j: int| 0 <= j < s.len() && (#[trigger] s[j]).0@ == key;
            lemma_group_at(s, j);
            lemma_group_at(t, j);
        }
    }
}

impl FoldersMatchBuilder {
    /// Records the filenames examined and matched for a folder group, and the folder group
    /// for each of its folders.
    pub fn add_matches(&mut self, fgid: &FolderGroupId, filenames: &Vec<String>, matches: Vec<String>)
        requires
            old(self).wf(),
        ensures
            final(self).wf(),
            final(self).no_matches@ == old(self).no_matches@,
            forall|key: Seq<i64>| #[trigger] has_group(final(self).matches@, key) == (has_group(old(self).matches@, key) || key == fgid@),
            forall|key: Seq<i64>| #[trigger] examined_of(final(self).matches@, key) == if key == fgid@ {
                examined_of(old(self).matches@, key) + filenames@
            } else {
                examined_of(old(self).matches@, key)
            },
            forall|key: Seq<i64>| #[trigger] matched_of(final(self).matches@, key) == if key == fgid@ {
                matched_of(old(self).matches@, key) + matches@
            } else {
                matched_of(old(self).matches@, key)
            },
            forall|id: i64| #[trigger] groups_of_folder(final(self).matches_to_fgids@, id) == if fgid@.contains(id) {
                push_unique(groups_of_folder(old(self).matches_to_fgids@, id), fgid@)
            } else {
                groups_of_folder(old(self).matches_to_fgids@, id)
            },
    {
        let ghost s0 = self.matches@;
        let ghost g0 = self.matches_to_fgids@;
        let mut names = copy_names(filenames);
        let mut matches = matches;
        match group_position(&self.matches, fgid) {
            Some(i) => {
                let (key, (mut group_filenames, mut group_matches)) = self.matches.remove(i);
                let ghost examined0 = group_filenames@;
                let ghost matched0 = group_matches@;
                group_filenames.append(&mut names);
                group_matches.append(&mut matches);
                self.matches.insert(i, (key, (group_filenames, group_matches)));
                proof {
                    let e = self.matches@[i as int];
                    assert(self.matches@ =~= s0.update(i as int, e));
                    lemma_group_at(s0, i as int);
                    lemma_update_group(s0, i as int, e);
                }
            },
            None => {
                let entry = (fgid.duplicate(), (names, matches));
                self.matches.push(entry);
                proof {
                    lemma_push_group(s0, entry);
                    assert(examined_of(s0, fgid@) =~= Seq::<String>::empty());
                    assert(matched_of(s0, fgid@) =~= Seq::<String>::empty());
                }
            },
        }
        let ghost s1 = self.matches@;
        let ids = fgid.ids();
        let mut k: usize = 0;
        while k < ids.len()
            invariant
                ids@ == fgid@,
                k <= ids@.len(),
                self.matches@ == s1,
                self.no_matches@ == old(self).no_matches@,
                forall|id: i64| #[trigger] groups_of_folder(g0, id).no_duplicates(),
                forall|id: i64| #[trigger] groups_of_folder(self.matches_to_fgids@, id).no_duplicates(),
                forall|id: i64| #[trigger] groups_of_folder(self.matches_to_fgids@, id) == if ids@.take(k as int).contains(id) {
                    push_unique(groups_of_folder(g0, id), fgid@)
                } else {
                    groups_of_folder(g0, id)
                },
            decreases ids.len() - k,
        {
            let ghost before = self.matches_to_fgids@;
            self.add_folder_group(ids[k], fgid);
            proof {
                assert forall|id: i64| #[trigger] groups_of_folder(self.matches_to_fgids@, id) == if ids@.take(k + 1).contains(id) {
                    push_unique(groups_of_folder(g0, id), fgid@)
                } else {
                    groups_of_folder(g0, id)
                } by {
                    assert(ids@.take(k + 1) =~= ids@.take(k as int).push(ids@[k as int]));
                    if id == ids@[k as int] {
                        assert(ids@.take(k + 1)[k as int] == id);
                        if ids@.take(k as int).contains(id) {
                            assert(push_unique(groups_of_folder(g0, id), fgid@).contains(fgid@)) by {
                                if !groups_of_folder(g0, id).contains(fgid@) {
                                    assert(push_unique(groups_of_folder(g0, id), fgid@).last() == fgid@);
                                }
                            }
                        }
                    } else {
                        if ids@.take(k + 1).contains(id) {
                            let t1 = ids@.take(k + 1);
                            let q = choose|q: int| 0 <= q < t1.len() && #[trigger] t1[q] == id;
                            assert(ids@.take(k as int)[q] == id);
                        }
                    }
                }
            }
            k = k + 1;
        }
        proof {
            assert(ids@.take(k as int) =~= ids@);
            assert forall|key: Seq<i64>, id: i64| #[trigger] has_group(self.matches@, key) && #[trigger] key.contains(id) implies groups_of_folder(self.matches_to_fgids@, id).contains(key) by {
                if key == fgid@ {
                    if !groups_of_folder(g0, id).contains(fgid@) {
                        assert(push_unique(groups_of_folder(g0, id), fgid@).last() == fgid@);
                    }
                } else {
                    assert(has_group(s0, key));
                    assert(groups_of_folder(g0, id).contains(key));
                    if fgid@.contains(id) && !groups_of_folder(g0, id).contains(fgid@) {
                        let q = choose|q: int| 0 <= q < groups_of_folder(g0, id).len() && groups_of_folder(g0, id)[q] == key;
                        assert(push_unique(groups_of_folder(g0, id), fgid@)[q] == key);
                    }
                }
            }
        }
    }

    /// Records filenames that were not matched for a folder.
    pub fn add_no_matches(&mut self, folder_id: i64, no_matches: Vec<String>)
        ensures
            final(self).matches@ == old(self).matches@,
            final(self).matches_to_fgids@ == old(self).matches_to_fgids@,
            final(self).no_matches@.dom() == old(self).no_matches@.dom().insert(folder_id),
            names_in(final(self).no_matches@, folder_id) == names_in(old(self).no_matches@, folder_id) + no_matches@,
            forall|other: i64| other != folder_id ==> #[trigger] names_in(final(self).no_matches@, other) == names_in(old(self).no_matches@, other),
    {
        let mut no_matches = no_matches;
        match self.no_matches.remove(&folder_id) {
            Some(mut folder_filenames) => {
                folder_filenames.append(&mut no_matches);
                self.no_matches.insert(folder_id, folder_filenames);
            },
            None => {
                assert(names_in(old(self).no_matches@, folder_id) + no_matches@ =~= no_matches@);
                self.no_matches.insert(folder_id, no_matches);
            },
        }
        assert(self.no_matches@.dom() =~= old(self).no_matches@.dom().insert(folder_id));
    }
}


/// The folder groups of analysis entries that include the folder `id`, in order.
pub open spec fn keys_with(entries: Seq<(FolderGroupId, Vec<String>)>, id: i64) -> Seq<Seq<i64>> {
    entry_keys(entries).filter(|k: Seq<i64>| k.contains(id))
}

/// The folder groups of analysis entries, in order.
pub open spec fn entry_keys(entries: Seq<(FolderGroupId, Vec<String>)>) -> Seq<Seq<i64>> {
    entries.map_values(|e: (FolderGroupId, Vec<String>)| e.0@)
}

/// The list with each item added, in order, when not already there.
pub open spec fn push_each_unique(list: Seq<Seq<i64>>, items: Seq<Seq<i64>>) -> Seq<Seq<i64>>
    decreases items.len(),
{
    if items.len() == 0 {
        list
    } else {
        push_unique(push_each_unique(list, items.drop_last()), items.last())
    }
}

/// Taking one more entry of a folder group list with distinct keys adds that entry.
proof fn lemma_take_group(e: Seq<(FolderGroupId, Vec<String>)>, u: int)
    requires
        distinct_keys(e),
        0 <= u < e.len(),
    ensures
        !has_key(e.take(u), e[u].0@),
        forall|k: Seq<i64>| #[trigger] has_key(e.take(u + 1), k) == (has_key(e.take(u), k) || k == e[u].0@),
        forall|k: Seq<i64>| #[trigger] names_of_key(e.take(u + 1), k) == if k == e[u].0@ {
            e[u].1@
        } else {
            names_of_key(e.take(u), k)
        },
        forall|id: i64| #[trigger] keys_with(e.take(u + 1), id) == if e[u].0@.contains(id) {
            keys_with(e.take(u), id).push(e[u].0@)
        } else {
            keys_with(e.take(u), id)
        },
{
    let a = e.take(u);
    let b = e.take(u + 1);
    assert(b =~= a.push(e[u]));
    assert(distinct_keys(a)) by {
        assert forall|i: int, j: int| 0 <= i < j < a.len() implies (#[trigger] a[i]).0@ != (#[trigger] a[j]).0@ by {
            assert(e[i].0@ != e[j].0@);
        }
    }
    assert(distinct_keys(b)) by {
        assert forall|i: int, j: int| 0 <= i < j < b.len() implies (#[trigger] b[i]).0@ != (#[trigger] b[j]).0@ by {
            assert(e[i].0@ != e[j].0@);
        }
    }
    assert(!has_key(a, e[u].0@)) by {
        if has_key(a, e[u].0@) {
            let j = choose|j: int| 0 <= j < a.len() && (#[trigger] a[j]).0@ == e[u].0@;
            assert(e[j].0@ != e[u].0@);
        }
    }
    assert forall|k: Seq<i64>| #[trigger] has_key(b, k) == (has_key(a, k) || k == e[u].0@) by {
        if has_key(a, k) {
            let j = choose|j: int| 0 <= j < a.len() && (#[trigger] a[j]).0@ == k;
            assert(b[j].0@ == k);
        }
        if k == e[u].0@ {
            assert(b[u].0@ == k);
        }
        if has_key(b, k) && k != e[u].0@ {
            let j = choose|j: int| 0 <= j < b.len() && (#[trigger] b[j]).0@ == k;
            assert(a[j].0@ == k);
        }
    }
    assert forall|k: Seq<i64>| #[trigger] names_of_key(b, k) == if k == e[u].0@ {
        e[u].1@
    } else {
        names_of_key(a, k)
    } by {
        if k == e[u].0@ {
            lemma_names_of_key_at(b, u);
        } else if has_key(a, k) {
            let j = choose|j: int| 0 <= j < a.len() && (#[trigger] a[j]).0@ == k;
            lemma_names_of_key_at(a, j);
            lemma_names_of_key_at(b, j);
        } else {
            assert(!has_key(b, k));
        }
    }
    assert(entry_keys(b) =~= entry_keys(a).push(e[u].0@));
    assert forall|id: i64| #[trigger] keys_with(b, id) == if e[u].0@.contains(id) {
        keys_with(a, id).push(e[u].0@)
    } else {
        keys_with(a, id)
    } by {
        crate::filematch::lemma_filter_push(entry_keys(a), e[u].0@, |k: Seq<i64>| k.contains(id));
    }
}

/// Taking one more entry of a folder list with distinct ids adds that entry.
proof fn lemma_take_folder(e: Seq<(i64, Vec<String>)>, v: int)
    requires
        distinct_ids(e),
        0 <= v < e.len(),
    ensures
        forall|k: i64| #[trigger] names_of_id(e.take(v + 1), k) == if k == e[v].0 {
            names_of_id(e.take(v), k) + e[v].1@
        } else {
            names_of_id(e.take(v), k)
        },
{
    let a = e.take(v);
    let b = e.take(v + 1);
    assert(b =~= a.push(e[v]));
    assert(distinct_ids(a)) by {
        assert forall|i: int, j: int| 0 <= i < j < a.len() implies (#[trigger] a[i]).0 != (#[trigger] a[j]).0 by {
            assert(e[i].0 != e[j].0);
        }
    }
    assert(distinct_ids(b)) by {
        assert forall|i: int, j: int| 0 <= i < j < b.len() implies (#[trigger] b[i]).0 != (#[trigger] b[j]).0 by {
            assert(e[i].0 != e[j].0);
        }
    }
    assert(!has_id(a, e[v].0)) by {
        if has_id(a, e[v].0) {
            let j = choose|j: int| 0 <= j < a.len() && (#[trigger] a[j]).0 == e[v].0;
            assert(e[j].0 != e[v].0);
        }
    }
    assert forall|k: i64| #[trigger] names_of_id(b, k) == if k == e[v].0 {
        names_of_id(a, k) + e[v].1@
    } else {
        names_of_id(a, k)
    } by {
        if k == e[v].0 {
            lemma_names_of_id_at(b, v);
            assert(names_of_id(a, k) + e[v].1@ =~= e[v].1@);
        } else if has_id(a, k) {
            let j = choose|j: int| 0 <= j < a.len() && (#[trigger] a[j]).0 == k;
            lemma_names_of_id_at(a, j);
            lemma_names_of_id_at(b, j);
        } else {
            assert(!has_id(b, k)) by {
                if has_id(b, k) {
                    let j = choose|j: int| 0 <= j < b.len() && (#[trigger] b[j]).0 == k;
                    assert(a[j].0 == k);
                }
            }
        }
    }
}

impl FoldersMatchBuilder {
    /// Adds the analysis of a folder group: each folder group with matching files records
    /// the filenames of the folder group as examined and its own as matched; each folder
    /// without a match records its filenames.
    pub fn add(&mut self, folder_group: FolderGroup)
        requires
            old(self).wf(),
            distinct_keys(folder_group.analysis.matches@),
            distinct_ids(folder_group.analysis.no_matches@),
        ensures
            final(self).wf(),
            forall|key: Seq<i64>| #[trigger] has_group(final(self).matches@, key) == (has_group(old(self).matches@, key) || has_key(folder_group.analysis.matches@, key)),
            forall|key: Seq<i64>| #[trigger] examined_of(final(self).matches@, key) == examined_of(old(self).matches@, key) + if has_key(folder_group.analysis.matches@, key) {
                folder_group.filenames@
            } else {
                Seq::<String>::empty()
            },
            forall|key: Seq<i64>| #[trigger] matched_of(final(self).matches@, key) == matched_of(old(self).matches@, key) + names_of_key(folder_group.analysis.matches@, key),
            forall|id: i64| #[trigger] groups_of_folder(final(self).matches_to_fgids@, id) == push_each_unique(groups_of_folder(old(self).matches_to_fgids@, id), keys_with(folder_group.analysis.matches@, id)),
            forall|id: i64| #[trigger] names_in(final(self).no_matches@, id) == names_in(old(self).no_matches@, id) + names_of_id(folder_group.analysis.no_matches@, id),
    {
        let ghost e = folder_group.analysis.matches@;
        let ghost n = folder_group.analysis.no_matches@;
        let ghost s0 = self.matches@;
        let ghost g0 = self.matches_to_fgids@;
        let ghost m0 = self.no_matches@;
        let FolderGroup { fgid: _, filenames, analysis } = folder_group;
        let FolderAnalysis { matches, no_matches } = analysis;
        let mut rest = matches;
        let total_matches = rest.len();
        let mut u: usize = 0;
        proof {
            assert(e.take(0) =~= Seq::<(FolderGroupId, Vec<String>)>::empty());
            assert forall|key: Seq<i64>| #[trigger] examined_of(self.matches@, key) == examined_of(s0, key) + if has_key(e.take(0), key) {
                filenames@
            } else {
                Seq::<String>::empty()
            } by {
                assert(examined_of(s0, key) + Seq::<String>::empty() =~= examined_of(s0, key));
            }
            assert forall|key: Seq<i64>| #[trigger] matched_of(self.matches@, key) == matched_of(s0, key) + names_of_key(e.take(0), key) by {
                assert(names_of_key(e.take(0), key) =~= Seq::<String>::empty());
                assert(matched_of(s0, key) + Seq::<String>::empty() =~= matched_of(s0, key));
            }
            assert forall|id: i64| #[trigger] groups_of_folder(self.matches_to_fgids@, id) == push_each_unique(groups_of_folder(g0, id), keys_with(e.take(0), id)) by {
                reveal(Seq::filter);
                assert(keys_with(e.take(0), id) =~= Seq::<Seq<i64>>::empty());
            }
        }
        while rest.len() > 0
            invariant
                self.wf(),
                distinct_keys(e),
                e.len() <= usize::MAX,
                u + rest.len() == e.len(),
                forall|q: int| 0 <= q < rest.len() ==> #[trigger] rest@[q] == e[u + q],
                self.no_matches@ == m0,
                forall|key: Seq<i64>| #[trigger] has_group(self.matches@, key) == (has_group(s0, key) || has_key(e.take(u as int), key)),
                forall|key: Seq<i64>| #[trigger] examined_of(self.matches@, key) == examined_of(s0, key) + if has_key(e.take(u as int), key) {
                    filenames@
                } else {
                    Seq::<String>::empty()
                },
                forall|key: Seq<i64>| #[trigger] matched_of(self.matches@, key) == matched_of(s0, key) + names_of_key(e.take(u as int), key),
                forall|id: i64| #[trigger] groups_of_folder(self.matches_to_fgids@, id) == push_each_unique(groups_of_folder(g0, id), keys_with(e.take(u as int), id)),
            decreases rest.len(),
        {
            let ghost old_rest = rest@;
            let (fgid, match_filenames) = rest.remove(0);
            assert(old_rest[0] == e[u as int]);
            assert forall|q: int| 0 <= q < rest.len() implies #[trigger] rest@[q] == e[u + 1 + q] by {
                assert(rest@[q] == old_rest[q + 1]);
            }
            let ghost before = self.matches@;
            let ghost gbefore = self.matches_to_fgids@;
            self.add_matches(&fgid, &filenames, match_filenames);
            proof {
                lemma_take_group(e, u as int);
                assert forall|key: Seq<i64>| #[trigger] examined_of(self.matches@, key) == examined_of(s0, key) + if has_key(e.take(u + 1), key) {
                    filenames@
                } else {
                    Seq::<String>::empty()
                } by {
                    if key == e[u as int].0@ {
                        assert(examined_of(s0, key) + Seq::<String>::empty() =~= examined_of(s0, key));
                    }
                }
                assert forall|key: Seq<i64>| #[trigger] matched_of(self.matches@, key) == matched_of(s0, key) + names_of_key(e.take(u + 1), key) by {
                    if key == e[u as int].0@ {
                        assert(names_of_key(e.take(u as int), key) =~= Seq::<String>::empty());
                        assert(matched_of(s0, key) + Seq::<String>::empty() =~= matched_of(s0, key));
                    }
                }
                assert forall|id: i64| #[trigger] groups_of_folder(self.matches_to_fgids@, id) == push_each_unique(groups_of_folder(g0, id), keys_with(e.take(u + 1), id)) by {
                    if e[u as int].0@.contains(id) {
                        let items = keys_with(e.take(u as int), id).push(e[u as int].0@);
                        assert(items.drop_last() =~= keys_with(e.take(u as int), id));
                    }
                }
            }
            u = u + 1;
        }
        proof {
            assert(e.take(u as int) =~= e);
        }
        let mut rest = no_matches;
        let total_no_matches = rest.len();
        let mut v: usize = 0;
        proof {
            assert(n.take(0) =~= Seq::<(i64, Vec<String>)>::empty());
            assert forall|id: i64| #[trigger] names_in(self.no_matches@, id) == names_in(m0, id) + names_of_id(n.take(0), id) by {
                assert(names_of_id(n.take(0), id) =~= Seq::<String>::empty());
                assert(names_in(m0, id) + Seq::<String>::empty() =~= names_in(m0, id));
            }
        }
        let ghost s1 = self.matches@;
        let ghost g1 = self.matches_to_fgids@;
        while rest.len() > 0
            invariant
                self.wf(),
                self.matches@ == s1,
                self.matches_to_fgids@ == g1,
                distinct_ids(n),
                n.len() <= usize::MAX,
                v + rest.len() == n.len(),
                forall|q: int| 0 <= q < rest.len() ==> #[trigger] rest@[q] == n[v + q],
                forall|id: i64| #[trigger] names_in(self.no_matches@, id) == names_in(m0, id) + names_of_id(n.take(v as int), id),
            decreases rest.len(),
        {
            let ghost old_rest = rest@;
            let (folder_id, names) = rest.remove(0);
            assert(old_rest[0] == n[v as int]);
            assert forall|q: int| 0 <= q < rest.len() implies #[trigger] rest@[q] == n[v + 1 + q] by {
                assert(rest@[q] == old_rest[q + 1]);
            }
            self.add_no_matches(folder_id, names);
            proof {
                lemma_take_folder(n, v as int);
                assert forall|id: i64| #[trigger] names_in(self.no_matches@, id) == names_in(m0, id) + names_of_id(n.take(v + 1), id) by {
                    if id == folder_id {
                        assert(names_in(m0, id) + names_of_id(n.take(v as int), id) + n[v as int].1@ =~= names_in(m0, id) + (names_of_id(n.take(v as int), id) + n[v as int].1@));
                    }
                }
            }
            v = v + 1;
        }
        proof {
            assert(n.take(v as int) =~= n);
        }
    }
}


/// The view of an entry of other folder group matches: the folder and its folder groups.
pub open spec fn other_view(e: (i64, Vec<FolderGroupId>)) -> (i64, Multiset<Seq<i64>>) {
    (e.0, fgid_views(e.1@).to_multiset())
}

/// No folder group identifier orders after the one that follows it.
pub open spec fn fgids_sorted(v: Seq<FolderGroupId>) -> bool {
    forall|i: int, j: int| 0 <= i && j == i + 1 && j < v.len() ==> ids_order((#[trigger] v[i])@, (#[trigger] v[j])@) != Ordering::Greater
}

/// The filenames of `a` that are not among the filenames of `b`.
pub open spec fn excepts(a: Seq<String>, b: Seq<String>) -> Seq<String> {
    a.filter(|f: String| !(exists|j: int| 0 <= j < b.len() && (#[trigger] b[j])@ == f@))
}

/// For each folder of `ids` in order, the folder groups other than `fgid` that `groups_of`
/// gives for it, when there are any.
pub open spec fn other_entries(groups_of: spec_fn(i64) -> Seq<Seq<i64>>, fgid: Seq<i64>, ids: Seq<i64>) -> Seq<(i64, Multiset<Seq<i64>>)>
    decreases ids.len(),
{
    if ids.len() == 0 {
        Seq::empty()
    } else {
        let rest = other_entries(groups_of, fgid, ids.drop_last());
        let others = other_groups(groups_of(ids.last()), fgid);
        if others.len() > 0 {
            rest.push((ids.last(), others.to_multiset()))
        } else {
            rest
        }
    }
}

/// The folder groups recorded for each folder.
pub open spec fn folder_groups_of(m2f: Map<i64, Vec<FolderGroupId>>) -> spec_fn(i64) -> Seq<Seq<i64>> {
    |id: i64| groups_of_folder(m2f, id)
}

/// Sorts folder group identifiers into ascending order.
pub fn sort_fgids(fgids: &mut Vec<FolderGroupId>)
    ensures
        final(fgids)@.to_multiset() == old(fgids)@.to_multiset(),
        fgids_sorted(final(fgids)@),
{
    let f = |a: &FolderGroupId, b: &FolderGroupId| -> (r: Ordering)
        ensures
            r == ids_order(a@, b@),
        { a.compare(b) };
    proof {
        assert forall|a: FolderGroupId, b: FolderGroupId| #[trigger] never_greater(f, a, b) || #[trigger] never_greater(f, b, a) by {
            lemma_ids_order(a@, b@, a@);
            if ids_order(a@, b@) != Ordering::Greater {
                assert(never_greater(f, a, b));
            } else {
                assert(never_greater(f, b, a));
            }
        }
    }
    vsort_by(fgids, f);
    proof {
        assert forall|i: int, j: int| 0 <= i && j == i + 1 && j < fgids@.len() implies ids_order((#[trigger] fgids@[i])@, (#[trigger] fgids@[j])@) != Ordering::Greater by {
            assert(answered_le(f, fgids@[i], fgids@[j]));
        }
    }
}

/// Sorts entries of other folder group matches by folder identifier.
fn sort_other_matches(entries: &mut Vec<(i64, Vec<FolderGroupId>)>)
    ensures
        final(entries)@.to_multiset() == old(entries)@.to_multiset(),
        forall|i: int, j: int| 0 <= i && j == i + 1 && j < final(entries)@.len() ==> (#[trigger] final(entries)@[i]).0 <= (#[trigger] final(entries)@[j]).0,
{
    let f = |a: &(i64, Vec<FolderGroupId>), b: &(i64, Vec<FolderGroupId>)| -> (r: Ordering)
        ensures
            r == (if a.0 < b.0 { Ordering::Less } else if a.0 > b.0 { Ordering::Greater } else { Ordering::Equal }),
        {
            if a.0 < b.0 {
                Ordering::Less
            } else if a.0 > b.0 {
                Ordering::Greater
            } else {
                Ordering::Equal
            }
        };
    proof {
        assert forall|a: (i64, Vec<FolderGroupId>), b: (i64, Vec<FolderGroupId>)| #[trigger] never_greater(f, a, b) || #[trigger] never_greater(f, b, a) by {
            if a.0 <= b.0 {
                assert(never_greater(f, a, b));
            } else {
                assert(never_greater(f, b, a));
            }
        }
    }
    vsort_by(entries, f);
    proof {
        assert forall|i: int, j: int| 0 <= i && j == i + 1 && j < entries@.len() implies (#[trigger] entries@[i]).0 <= (#[trigger] entries@[j]).0 by {
            assert(answered_le(f, entries@[i], entries@[j]));
        }
    }
}

/// The metadata of a folder group whose files match.
pub struct FoldersMatch {
    /// The folder group id.
    pub fgid: FolderGroupId,
    /// The filenames these folders have in common, sorted.
    pub matches: Vec<String>,
    /// The filenames whose files did not match, sorted.
    pub except: Vec<String>,
    /// For folders of the group, the other folder groups with matching files they belong to.
    pub other_matches: Vec<(i64, Vec<FolderGroupId>)>,
}

impl FoldersMatch {
    /// Creates the metadata; the filenames, the other folder groups of each folder, and the
    /// folders are sorted into ascending order.
    pub fn new(
        fgid: FolderGroupId,
        matches: Vec<String>,
        except: Vec<String>,
        other_matches: Vec<(i64, Vec<FolderGroupId>)>,
    ) -> (r: Self)
        ensures
            r.fgid == fgid,
            names_sorted(r.matches@),
            r.matches@.to_multiset() == matches@.to_multiset(),
            names_sorted(r.except@),
            r.except@.to_multiset() == except@.to_multiset(),
            forall|i: int| 0 <= i < r.other_matches@.len() ==> fgids_sorted((#[trigger] r.other_matches@[i]).1@),
            forall|i: int, j: int| 0 <= i && j == i + 1 && j < r.other_matches@.len() ==> (#[trigger] r.other_matches@[i]).0 <= (#[trigger] r.other_matches@[j]).0,
            r.other_matches@.map_values(|e: (i64, Vec<FolderGroupId>)| other_view(e)).to_multiset()
                == other_matches@.map_values(|e: (i64, Vec<FolderGroupId>)| other_view(e)).to_multiset(),
    {
        let mut matches = matches;
        let mut except = except;
        sort_names(&mut matches);
        sort_names(&mut except);
        let ghost orig = other_matches@;
        let mut rest = other_matches;
        let mut sorted: Vec<(i64, Vec<FolderGroupId>)> = Vec::new();
        while rest.len() > 0
            invariant
                sorted.len() + rest.len() == orig.len(),
                forall|q: int| 0 <= q < rest.len() ==> #[trigger] rest@[q] == orig[sorted.len() + q],
                forall|q: int| 0 <= q < sorted.len() ==> other_view(#[trigger] sorted@[q]) == other_view(orig[q]),
                forall|q: int| 0 <= q < sorted.len() ==> fgids_sorted((#[trigger] sorted@[q]).1@),
            decreases rest.len(),
        {
            let ghost old_rest = rest@;
            let (id, mut fgids) = rest.remove(0);
            assert(old_rest[0] == orig[sorted.len() as int]);
            assert forall|q: int| 0 <= q < rest.len() implies #[trigger] rest@[q] == orig[sorted.len() + 1 + q] by {
                assert(rest@[q] == old_rest[q + 1]);
            }
            let ghost before = fgids@;
            sort_fgids(&mut fgids);
            proof {
                lemma_map_multiset(fgids@, before, |g: FolderGroupId| g@);
            }
            sorted.push((id, fgids));
        }
        proof {
            assert(sorted@.map_values(|e: (i64, Vec<FolderGroupId>)| other_view(e)) =~= orig.map_values(|e: (i64, Vec<FolderGroupId>)| other_view(e)));
        }
        let ghost unsorted = sorted@;
        sort_other_matches(&mut sorted);
        proof {
            lemma_map_multiset(sorted@, unsorted, |e: (i64, Vec<FolderGroupId>)| other_view(e));
            assert forall|i: int| 0 <= i < sorted@.len() implies fgids_sorted((#[trigger] sorted@[i]).1@) by {
                broadcast use vstd::seq_lib::group_to_multiset_ensures;
                assert(sorted@.to_multiset().count(sorted@[i]) > 0);
                assert(unsorted.contains(sorted@[i]));
            }
        }
        FoldersMatch { fgid, matches, except, other_matches: sorted }
    }
}

/// The filenames of `a` that are not among the filenames of `b`, in order.
pub fn names_except(a: &Vec<String>, b: &Vec<String>) -> (r: Vec<String>)
    ensures
        r@ == excepts(a@, b@),
{
    let ghost p = |f: String| !(exists|j: int| 0 <= j < b@.len() && (#[trigger] b@[j])@ == f@);
    let mut out: Vec<String> = Vec::new();
    let mut i: usize = 0;
    proof {
        reveal(Seq::filter);
        assert(a@.take(0) =~= Seq::<String>::empty());
    }
    while i < a.len()
        invariant
            i <= a@.len(),
            p == (|f: String| !(exists|j: int| 0 <= j < b@.len() && (#[trigger] b@[j])@ == f@)),
            out@ == a@.take(i as int).filter(p),
        decreases a.len() - i,
    {
        proof {
            reveal(Seq::filter);
            assert(a@.take(i + 1).drop_last() =~= a@.take(i as int));
            assert(a@.take(i + 1).last() == a@[i as int]);
        }
        if !contains_name(b, a[i].as_str()) {
            out.push(a[i].clone());
        }
        i = i + 1;
    }
    assert(a@.take(i as int) =~= a@);
    out
}

/// The folder group metadata holds the filenames `examined` sorted, those of them not among
/// `matched` sorted, and for its folders the other folder groups that `groups_of` gives.
pub open spec fn built_from_parts(
    fm: FoldersMatch,
    examined: Seq<String>,
    matched: Seq<String>,
    groups_of: spec_fn(i64) -> Seq<Seq<i64>>,
) -> bool {
    &&& names_sorted(fm.matches@)
    &&& fm.matches@.to_multiset() == examined.to_multiset()
    &&& names_sorted(fm.except@)
    &&& fm.except@.to_multiset() == excepts(examined, matched).to_multiset()
    &&& forall|i: int| 0 <= i < fm.other_matches@.len() ==> fgids_sorted((#[trigger] fm.other_matches@[i]).1@)
    &&& forall|i: int, j: int| 0 <= i && j == i + 1 && j < fm.other_matches@.len() ==> (#[trigger] fm.other_matches@[i]).0 <= (#[trigger] fm.other_matches@[j]).0
    &&& fm.other_matches@.map_values(|e: (i64, Vec<FolderGroupId>)| other_view(e)).to_multiset()
        == other_entries(groups_of, fm.fgid@, fm.fgid@).to_multiset()
}

/// The folder group metadata was built from the entry of the folder group `fm.fgid` in the
/// match builder whose entries are `s` and whose folder groups by folder are `m2f`.
pub open spec fn built_from(
    fm: FoldersMatch,
    s: Seq<(FolderGroupId, (Vec<String>, Vec<String>))>,
    m2f: Map<i64, Vec<FolderGroupId>>,
) -> bool {
    built_from_parts(fm, examined_of(s, fm.fgid@), matched_of(s, fm.fgid@), folder_groups_of(m2f))
}

/// The folder group metadata are in strictly ascending order of their identifiers.
pub open spec fn matches_ascending(v: Seq<FoldersMatch>) -> bool {
    forall|i: int, j: int| 0 <= i < j < v.len() ==> ids_order((#[trigger] v[i]).fgid@, (#[trigger] v[j]).fgid@) == Ordering::Less
}

/// Orders folder group metadata with distinct identifiers by their identifiers.
fn sort_folders_match(v: &mut Vec<FoldersMatch>)
    requires
        forall|i: int, j: int| 0 <= i < j < old(v)@.len() ==> (#[trigger] old(v)@[i]).fgid@ != (#[trigger] old(v)@[j]).fgid@,
    ensures
        final(v)@.to_multiset() == old(v)@.to_multiset(),
        matches_ascending(final(v)@),
{
    let ghost orig = v@;
    let f = |a: &FoldersMatch, b: &FoldersMatch| -> (r: Ordering)
        ensures
            r == ids_order(a.fgid@, b.fgid@),
        { a.fgid.compare(&b.fgid) };
    proof {
        assert forall|a: FoldersMatch, b: FoldersMatch| #[trigger] never_greater(f, a, b) || #[trigger] never_greater(f, b, a) by {
            lemma_ids_order(a.fgid@, b.fgid@, a.fgid@);
            if ids_order(a.fgid@, b.fgid@) != Ordering::Greater {
                assert(never_greater(f, a, b));
            } else {
                assert(never_greater(f, b, a));
            }
        }
    }
    vsort_by(v, f);
    proof {
        let key = |g: FoldersMatch| g.fgid@;
        assert forall|i: int, j: int| 0 <= i < j < orig.len() implies key(#[trigger] orig[i]) != key(#[trigger] orig[j]) by {
            assert(orig[i].fgid@ != orig[j].fgid@);
        }
        lemma_permuted_distinct(orig, v@, key);
        let lt = |a: FoldersMatch, b: FoldersMatch| ids_order(a.fgid@, b.fgid@) == Ordering::Less;
        assert forall|i: int, j: int| 0 <= i && j == i + 1 && j < v@.len() implies #[trigger] lt(v@[i], v@[j]) by {
            assert(answered_le(f, v@[i], v@[j]));
            lemma_ids_order(v@[i].fgid@, v@[j].fgid@, v@[i].fgid@);
            assert(key(v@[i]) != key(v@[j]));
        }
        assert(vstd::relations::transitive(lt)) by {
            assert forall|x: FoldersMatch, y: FoldersMatch, z: FoldersMatch| #[trigger] lt(x, y) && #[trigger] lt(y, z) implies lt(x, z) by {
                lemma_ids_order(x.fgid@, y.fgid@, z.fgid@);
            }
        }
        lemma_adjacent_to_sorted(v@, lt);
        assert forall|i: int, j: int| 0 <= i < j < v@.len() implies ids_order((#[trigger] v@[i]).fgid@, (#[trigger] v@[j]).fgid@) == Ordering::Less by {
            assert(lt(v@[i], v@[j]));
        }
    }
}


impl FoldersMatchBuilder {
    /// Creates the metadata of each folder group with matching files, ordered by folder
    /// group identifier: the filenames examined, those that did not match, and for each of
    /// its folders the other folder groups with matching files it belongs to.
    pub fn build(self) -> (r: Vec<FoldersMatch>)
        requires
            self.wf(),
        ensures
            matches_ascending(r@),
            forall|key: Seq<i64>| #[trigger] has_group(self.matches@, key) <==> exists|i: int| 0 <= i < r@.len() && (#[trigger] r@[i]).fgid@ == key,
            forall|i: int| 0 <= i < r@.len() ==> built_from(#[trigger] r@[i], self.matches@, self.matches_to_fgids@),
    {
        let ghost s = self.matches@;
        let ghost m2f = self.matches_to_fgids@;
        let FoldersMatchBuilder { matches, no_matches: _, matches_to_fgids } = self;
        let mut rest = matches;
        let total = rest.len();
        let mut folders_match: Vec<FoldersMatch> = Vec::new();
        while rest.len() > 0
            invariant
                distinct_groups(s),
                forall|key: Seq<i64>, id: i64| #[trigger] has_group(s, key) && #[trigger] key.contains(id) ==> groups_of_folder(m2f, id).contains(key),
                matches_to_fgids@ == m2f,
                s.len() == total,
                folders_match.len() + rest.len() == s.len(),
                forall|q: int| 0 <= q < rest.len() ==> #[trigger] rest@[q] == s[folders_match.len() + q],
                forall|q: int| 0 <= q < folders_match.len() ==> (#[trigger] folders_match@[q]).fgid@ == s[q].0@,
                forall|q: int| 0 <= q < folders_match.len() ==> built_from(#[trigger] folders_match@[q], s, m2f),
            decreases rest.len(),
        {
            let ghost old_rest = rest@;
            let ghost q = folders_match.len() as int;
            let (fgid, (group_filenames, group_matches)) = rest.remove(0);
            assert(old_rest[0] == s[q]);
            assert forall|p: int| 0 <= p < rest.len() implies #[trigger] rest@[p] == s[q + 1 + p] by {
                assert(rest@[p] == old_rest[p + 1]);
            }
            proof {
                lemma_group_at(s, q);
            }
            let excepts = names_except(&group_filenames, &group_matches);
            let mut other_matches: Vec<(i64, Vec<FolderGroupId>)> = Vec::new();
            let ids = fgid.ids();
            let mut k: usize = 0;
            proof {
                assert(ids@.take(0) =~= Seq::<i64>::empty());
                assert(other_matches@.map_values(|e: (i64, Vec<FolderGroupId>)| other_view(e)) =~= other_entries(folder_groups_of(m2f), fgid@, ids@.take(0)));
            }
            while k < ids.len()
                invariant
                    ids@ == fgid@,
                    has_group(s, fgid@),
                    forall|key: Seq<i64>, id: i64| #[trigger] has_group(s, key) && #[trigger] key.contains(id) ==> groups_of_folder(m2f, id).contains(key),
                    matches_to_fgids@ == m2f,
                    k <= ids@.len(),
                    other_matches@.map_values(|e: (i64, Vec<FolderGroupId>)| other_view(e)) == other_entries(folder_groups_of(m2f), fgid@, ids@.take(k as int)),
                decreases ids.len() - k,
            {
                let id = ids[k];
                proof {
                    assert(fgid@.contains(id));
                    assert(groups_of_folder(m2f, id).contains(fgid@));
                }
                let fgids = match matches_to_fgids.get(&id) {
                    Some(v) => v,
                    None => vstd::pervasive::unreached(),
                };
                let others = filter_fgid(&fgid, fgids);
                let ghost before = other_matches@;
                proof {
                    assert(ids@.take(k + 1).drop_last() =~= ids@.take(k as int));
                    assert(ids@.take(k + 1).last() == id);
                }
                if others.len() > 0 {
                    other_matches.push((id, others));
                    assert(other_matches@.map_values(|e: (i64, Vec<FolderGroupId>)| other_view(e)) =~= before.map_values(|e: (i64, Vec<FolderGroupId>)| other_view(e)).push(other_view(other_matches@.last())));
                }
                k = k + 1;
            }
            assert(ids@.take(k as int) =~= ids@);
            let fm = FoldersMatch::new(fgid, group_filenames, excepts, other_matches);
            folders_match.push(fm);
        }
        proof {
            assert forall|i: int, j: int| 0 <= i < j < folders_match@.len() implies (#[trigger] folders_match@[i]).fgid@ != (#[trigger] folders_match@[j]).fgid@ by {
                assert(s[i].0@ != s[j].0@);
            }
        }
        let ghost built = folders_match@;
        sort_folders_match(&mut folders_match);
        proof {
            broadcast use vstd::seq_lib::group_to_multiset_ensures;
            assert forall|i: int| 0 <= i < folders_match@.len() implies built_from(#[trigger] folders_match@[i], s, m2f) by {
                assert(folders_match@.to_multiset().count(folders_match@[i]) > 0);
                assert(built.contains(folders_match@[i]));
            }
            assert forall|key: Seq<i64>| #[trigger] has_group(s, key) <==> exists|i: int| 0 <= i < folders_match@.len() && (#[trigger] folders_match@[i]).fgid@ == key by {
                if has_group(s, key) {
                    let q = choose|q: int| 0 <= q < s.len() && (#[trigger] s[q]).0@ == key;
                    assert(built[q].fgid@ == key);
                    assert(built.to_multiset().count(built[q]) > 0);
                    assert(folders_match@.contains(built[q]));
                }
                if exists|i: int| 0 <= i < folders_match@.len() && (#[trigger] folders_match@[i]).fgid@ == key {
                    let i = choose|i: int| 0 <= i < folders_match@.len() && (#[trigger] folders_match@[i]).fgid@ == key;
                    assert(folders_match@.to_multiset().count(folders_match@[i]) > 0);
                    assert(built.contains(folders_match@[i]));
                    let q = choose|q: int| 0 <= q < built.len() && built[q] == folders_match@[i];
                    assert(s[q].0@ == key);
                }
            }
        }
        folders_match
    }
}


/// Over the folder groups in order: the filenames examined for the folder group `k`, the
/// filenames of each folder group whose analysis has `k` among its matches.
pub open spec fn examined_total(groups: Seq<FolderGroup>, k: Seq<i64>) -> Seq<String>
    decreases groups.len(),
{
    if groups.len() == 0 {
        Seq::empty()
    } else {
        examined_total(groups.drop_last(), k) + if has_key(groups.last().analysis.matches@, k) {
            groups.last().filenames@
        } else {
            Seq::<String>::empty()
        }
    }
}

/// Over the folder groups in order: the filenames matched in the folder group `k`.
pub open spec fn matched_total(groups: Seq<FolderGroup>, k: Seq<i64>) -> Seq<String>
    decreases groups.len(),
{
    if groups.len() == 0 {
        Seq::empty()
    } else {
        matched_total(groups.drop_last(), k) + names_of_key(groups.last().analysis.matches@, k)
    }
}

/// Some folder group's analysis has `k` among its matches.
pub open spec fn key_total(groups: Seq<FolderGroup>, k: Seq<i64>) -> bool
    decreases groups.len(),
{
    if groups.len() == 0 {
        false
    } else {
        key_total(groups.drop_last(), k) || has_key(groups.last().analysis.matches@, k)
    }
}

/// Over the folder groups in order: the folder groups with matching files that include the
/// folder `id`, each once, in order of first appearance.
pub open spec fn groups_total(groups: Seq<FolderGroup>, id: i64) -> Seq<Seq<i64>>
    decreases groups.len(),
{
    if groups.len() == 0 {
        Seq::empty()
    } else {
        push_each_unique(groups_total(groups.drop_last(), id), keys_with(groups.last().analysis.matches@, id))
    }
}

/// The folder groups with matching files that include each folder.
pub open spec fn folder_groups_total(groups: Seq<FolderGroup>) -> spec_fn(i64) -> Seq<Seq<i64>> {
    |id: i64| groups_total(groups, id)
}

proof fn lemma_key_total(groups: Seq<FolderGroup>, k: Seq<i64>)
    requires
        key_total(groups, k),
    ensures
        exists|i: int| 0 <= i < groups.len() && has_key((#[trigger] groups[i]).analysis.matches@, k),
    decreases groups.len(),
{
    if key_total(groups.drop_last(), k) {
        lemma_key_total(groups.drop_last(), k);
        let i = choose|i: int| 0 <= i < groups.drop_last().len() && has_key((#[trigger] groups.drop_last()[i]).analysis.matches@, k);
        assert(groups[i] == groups.drop_last()[i]);
    } else {
        assert(groups[groups.len() - 1] == groups.last());
    }
}

proof fn lemma_push_each_unique_within(list: Seq<Seq<i64>>, items: Seq<Seq<i64>>)
    ensures
        forall|j: int| 0 <= j < push_each_unique(list, items).len() ==> list.contains(#[trigger] push_each_unique(list, items)[j]) || items.contains(push_each_unique(list, items)[j]),
    decreases items.len(),
{
    if items.len() > 0 {
        lemma_push_each_unique_within(list, items.drop_last());
        let prev = push_each_unique(list, items.drop_last());
        assert forall|j: int| 0 <= j < push_each_unique(list, items).len() implies list.contains(#[trigger] push_each_unique(list, items)[j]) || items.contains(push_each_unique(list, items)[j]) by {
            let x = push_each_unique(list, items)[j];
            if j < prev.len() {
                assert(x == prev[j]);
                if items.drop_last().contains(x) {
                    let q = choose|q: int| 0 <= q < items.drop_last().len() && items.drop_last()[q] == x;
                    assert(items[q] == x);
                }
            } else {
                assert(x == items.last());
                assert(items[items.len() - 1] == x);
            }
        }
    }
}

proof fn lemma_keys_with_within(e: Seq<(FolderGroupId, Vec<String>)>, id: i64, j: int) -> (i: int)
    requires
        0 <= j < keys_with(e, id).len(),
    ensures
        0 <= i < e.len(),
        e[i].0@ == keys_with(e, id)[j],
{
    let p = |k: Seq<i64>| k.contains(id);
    let ks = entry_keys(e);
    assert(keys_with(e, id) == ks.filter(p));
    crate::analysis::lemma_filter_within(ks, p);
    let x = ks.filter(p)[j];
    assert(ks.contains(x));
    let i = choose|i: int| 0 <= i < ks.len() && ks[i] == x;
    assert(e[i].0@ == x);
    i
}

proof fn lemma_groups_total_known(groups: Seq<FolderGroup>, m: Map<i64, crate::objects::FolderMd>)
    requires
        forall|i: int| 0 <= i < groups.len() ==> analysis_known(m, (#[trigger] groups[i]).analysis),
    ensures
        forall|id: i64, j: int| 0 <= j < groups_total(groups, id).len() ==> all_known(m, #[trigger] groups_total(groups, id)[j]),
    decreases groups.len(),
{
    if groups.len() > 0 {
        let rest = groups.drop_last();
        assert forall|i: int| 0 <= i < rest.len() implies analysis_known(m, (#[trigger] rest[i]).analysis) by {
            assert(rest[i] == groups[i]);
        }
        lemma_groups_total_known(rest, m);
        let last = groups.last();
        assert(analysis_known(m, groups[groups.len() - 1].analysis));
        assert forall|id: i64, j: int| 0 <= j < groups_total(groups, id).len() implies all_known(m, #[trigger] groups_total(groups, id)[j]) by {
            let items = keys_with(last.analysis.matches@, id);
            lemma_push_each_unique_within(groups_total(rest, id), items);
            let x = groups_total(groups, id)[j];
            if groups_total(rest, id).contains(x) {
                let q = choose|q: int| 0 <= q < groups_total(rest, id).len() && groups_total(rest, id)[q] == x;
                assert(all_known(m, groups_total(rest, id)[q]));
            } else {
                assert(items.contains(x));
                let q = choose|q: int| 0 <= q < items.len() && items[q] == x;
                let i = lemma_keys_with_within(last.analysis.matches@, id, q);
                assert(all_known(m, last.analysis.matches@[i].0@));
            }
        }
    }
}

proof fn lemma_other_entries_shape(f: spec_fn(i64) -> Seq<Seq<i64>>, k: Seq<i64>, ids: Seq<i64>)
    ensures
        forall|j: int| 0 <= j < other_entries(f, k, ids).len() ==> ids.contains((#[trigger] other_entries(f, k, ids)[j]).0)
            && other_entries(f, k, ids)[j].1 == other_groups(f(other_entries(f, k, ids)[j].0), k).to_multiset(),
    decreases ids.len(),
{
    if ids.len() > 0 {
        lemma_other_entries_shape(f, k, ids.drop_last());
        let prev = other_entries(f, k, ids.drop_last());
        assert forall|j: int| 0 <= j < other_entries(f, k, ids).len() implies ids.contains((#[trigger] other_entries(f, k, ids)[j]).0)
            && other_entries(f, k, ids)[j].1 == other_groups(f(other_entries(f, k, ids)[j].0), k).to_multiset() by {
            if j < prev.len() {
                assert(other_entries(f, k, ids)[j] == prev[j]);
                let q = choose|q: int| 0 <= q < ids.drop_last().len() && ids.drop_last()[q] == prev[j].0;
                assert(ids[q] == prev[j].0);
            } else {
                assert(ids[ids.len() - 1] == ids.last());
            }
        }
    }
}

/// The folders and folder groups that a folder group metadata names are loaded.
pub open spec fn match_known(m: Map<i64, crate::objects::FolderMd>, fm: FoldersMatch) -> bool {
    &&& all_known(m, fm.fgid@)
    &&& forall|i: int| 0 <= i < fm.other_matches@.len() ==> m.contains_key((#[trigger] fm.other_matches@[i]).0)
    &&& forall|i: int, j: int| 0 <= i < fm.other_matches@.len() && 0 <= j < fm.other_matches@[i].1@.len() ==> all_known(m, (#[trigger] fm.other_matches@[i].1@[j])@)
}

proof fn lemma_match_known(fm: FoldersMatch, f: spec_fn(i64) -> Seq<Seq<i64>>, m: Map<i64, crate::objects::FolderMd>)
    requires
        fm.other_matches@.map_values(|e: (i64, Vec<FolderGroupId>)| other_view(e)).to_multiset() == other_entries(f, fm.fgid@, fm.fgid@).to_multiset(),
        all_known(m, fm.fgid@),
        forall|id: i64, j: int| 0 <= j < f(id).len() ==> all_known(m, #[trigger] f(id)[j]),
    ensures
        match_known(m, fm),
{
    broadcast use vstd::seq_lib::group_to_multiset_ensures;

    let views = fm.other_matches@.map_values(|e: (i64, Vec<FolderGroupId>)| other_view(e));
    let entries = other_entries(f, fm.fgid@, fm.fgid@);
    lemma_other_entries_shape(f, fm.fgid@, fm.fgid@);
    assert forall|i: int| 0 <= i < fm.other_matches@.len() implies m.contains_key((#[trigger] fm.other_matches@[i]).0)
        && forall|j: int| 0 <= j < fm.other_matches@[i].1@.len() ==> all_known(m, (#[trigger] fm.other_matches@[i].1@[j])@) by {
        let e = fm.other_matches@[i];
        assert(views[i] == other_view(e));
        assert(views.to_multiset().count(views[i]) > 0);
        assert(entries.contains(views[i]));
        let q = choose|q: int| 0 <= q < entries.len() && entries[q] == views[i];
        assert(fm.fgid@.contains(e.0));
        let p = choose|p: int| 0 <= p < fm.fgid@.len() && fm.fgid@[p] == e.0;
        assert(m.contains_key(fm.fgid@[p]));
        let others = other_groups(f(e.0), fm.fgid@);
        assert(fgid_views(e.1@).to_multiset() == others.to_multiset());
        crate::analysis::lemma_filter_within(f(e.0), |g: Seq<i64>| g != fm.fgid@);
        assert forall|j: int| 0 <= j < e.1@.len() implies all_known(m, (#[trigger] e.1@[j])@) by {
            assert(fgid_views(e.1@)[j] == e.1@[j]@);
            assert(fgid_views(e.1@).to_multiset().count(e.1@[j]@) > 0);
            assert(others.contains(e.1@[j]@));
            let a = choose|a: int| 0 <= a < others.len() && others[a] == e.1@[j]@;
            assert(f(e.0).contains(others[a]));
            let fe = f(e.0);
            let b = choose|b: int| 0 <= b < fe.len() && #[trigger] fe[b] == others[a];
            assert(all_known(m, fe[b]));
        }
    }
}

/// The container of the folder groups whose files match.
pub struct DuplicateFoldersMatch {
    folders_md: FoldersMd,
    folder_matches: Vec<FoldersMatch>,
}

impl DuplicateFoldersMatch {
    /// The folders, by identifier.
    pub closed spec fn folders(&self) -> Map<i64, crate::objects::FolderMd> {
        self.folders_md@
    }

    /// The folder groups whose files match.
    pub closed spec fn matches(&self) -> Seq<FoldersMatch> {
        self.folder_matches@
    }

    /// The invariant: folders filed by identifier, folder groups in strictly ascending order,
    /// every folder and folder group they name loaded.
    pub open spec fn wf(&self) -> bool {
        &&& filed_by_id(self.folders())
        &&& matches_ascending(self.matches())
        &&& forall|i: int| 0 <= i < self.matches().len() ==> match_known(self.folders(), #[trigger] self.matches()[i])
    }

    /// Converts the duplicate folders metadata into the folder groups whose files match.
    pub fn from(duplicate_folders: DuplicateFolders) -> (r: Self)
        requires
            duplicate_folders.wf(),
        ensures
            r.wf(),
            r.folders() == duplicate_folders.folders(),
            forall|key: Seq<i64>| #[trigger] key_total(duplicate_folders.groups(), key) <==> exists|i: int| 0 <= i < r.matches().len() && (#[trigger] r.matches()[i]).fgid@ == key,
            forall|i: int| 0 <= i < r.matches().len() ==> built_from_parts(
                #[trigger] r.matches()[i],
                examined_total(duplicate_folders.groups(), r.matches()[i].fgid@),
                matched_total(duplicate_folders.groups(), r.matches()[i].fgid@),
                folder_groups_total(duplicate_folders.groups()),
            ),
    {
        let ghost gs = duplicate_folders.groups();
        let ghost m = duplicate_folders.folders();
        let (folders_md, groups) = duplicate_folders.into_parts();
        let mut builder = FoldersMatchBuilder::new();
        let mut rest = groups;
        let total = rest.len();
        let mut n: usize = 0;
        proof {
            assert(gs.take(0) =~= Seq::<FolderGroup>::empty());
        }
        while rest.len() > 0
            invariant
                builder.wf(),
                forall|i: int| 0 <= i < gs.len() ==> group_ok(m, #[trigger] gs[i]),
                gs.len() == total,
                n + rest.len() == gs.len(),
                forall|q: int| 0 <= q < rest.len() ==> #[trigger] rest@[q] == gs[n + q],
                forall|key: Seq<i64>| #[trigger] has_group(builder.matches@, key) == key_total(gs.take(n as int), key),
                forall|key: Seq<i64>| #[trigger] examined_of(builder.matches@, key) == examined_total(gs.take(n as int), key),
                forall|key: Seq<i64>| #[trigger] matched_of(builder.matches@, key) == matched_total(gs.take(n as int), key),
                forall|id: i64| #[trigger] groups_of_folder(builder.matches_to_fgids@, id) == groups_total(gs.take(n as int), id),
            decreases rest.len(),
        {
            let ghost old_rest = rest@;
            let group = rest.remove(0);
            assert(old_rest[0] == gs[n as int]);
            assert forall|q: int| 0 <= q < rest.len() implies #[trigger] rest@[q] == gs[n + 1 + q] by {
                assert(rest@[q] == old_rest[q + 1]);
            }
            proof {
                assert(group_ok(m, gs[n as int]));
                let (folders, names) = choose|folders: Seq<&crate::objects::FolderMd>, names: Seq<String>| #![trigger matches_of(group.analysis.matches@, folders, names)]
                    crate::foldersmd::group_folders(folders, m, group.fgid@) && names.to_multiset() == group.filenames@.to_multiset() && matches_of(group.analysis.matches@, folders, names)
                        && no_matches_of(group.analysis.no_matches@, folders, names);
                assert(matches_of(group.analysis.matches@, folders, names));
                assert(no_matches_of(group.analysis.no_matches@, folders, names));
                assert(gs.take(n + 1).drop_last() =~= gs.take(n as int));
                assert(gs.take(n + 1).last() == group);
            }
            builder.add(group);
            n = n + 1;
        }
        proof {
            assert(gs.take(n as int) =~= gs);
        }
        let ghost s = builder.matches@;
        let ghost m2f = builder.matches_to_fgids@;
        let folder_matches = builder.build();
        proof {
            assert forall|key: Seq<i64>| #[trigger] key_total(gs, key) == has_group(s, key) by {
                assert(has_group(s, key) == key_total(gs.take(n as int), key));
            }
            assert forall|key: Seq<i64>| #[trigger] examined_total(gs, key) == examined_of(s, key) && matched_total(gs, key) == matched_of(s, key) by {
                assert(examined_of(s, key) == examined_total(gs.take(n as int), key));
                assert(matched_of(s, key) == matched_total(gs.take(n as int), key));
            }
            assert forall|id: i64| #[trigger] groups_total(gs, id) == groups_of_folder(m2f, id) by {
                assert(groups_of_folder(m2f, id) == groups_total(gs.take(n as int), id));
            }
            assert(folder_groups_of(m2f) =~= folder_groups_total(gs));
            assert forall|i: int| 0 <= i < gs.len() implies analysis_known(m, (#[trigger] gs[i]).analysis) by {
                assert(group_ok(m, gs[i]));
            }
            lemma_groups_total_known(gs, m);
            assert forall|i: int| 0 <= i < folder_matches@.len() implies match_known(m, #[trigger] folder_matches@[i]) by {
                let fm = folder_matches@[i];
                assert(built_from(fm, s, m2f));
                assert(has_group(s, fm.fgid@));
                lemma_key_total(gs, fm.fgid@);
                let g = choose|g: int| 0 <= g < gs.len() && has_key((#[trigger] gs[g]).analysis.matches@, fm.fgid@);
                assert(group_ok(m, gs[g]));
                let q = choose|q: int| 0 <= q < gs[g].analysis.matches@.len() && (#[trigger] gs[g].analysis.matches@[q]).0@ == fm.fgid@;
                assert(all_known(m, gs[g].analysis.matches@[q].0@));
                lemma_match_known(fm, folder_groups_total(gs), m);
            }
        }
        DuplicateFoldersMatch { folders_md, folder_matches }
    }

    /// The number of folder groups whose files match.
    pub fn len(&self) -> (r: usize)
        ensures
            r == self.matches().len(),
    {
        self.folder_matches.len()
    }
}


/// The folders that references refer to.
pub open spec fn folder_values(s: Seq<&FolderMd>) -> Seq<FolderMd> {
    s.map_values(|f: &FolderMd| *f)
}

/// The folders that identifiers name.
pub open spec fn folder_values_of(m: Map<i64, FolderMd>, ids: Seq<i64>) -> Seq<FolderMd> {
    ids.map_values(|id: i64| m[id])
}

/// The view of an entry of other matches metadata: the folder, and the folders of each of
/// its other folder groups.
pub open spec fn other_md_view<'a>(e: (&'a FolderMd, Vec<Vec<&'a FolderMd>>)) -> (FolderMd, Seq<Multiset<FolderMd>>) {
    (*e.0, e.1@.map_values(|v: Vec<&'a FolderMd>| folder_values(v@).to_multiset()))
}

/// The view of an entry of other folder group matches, with folders looked up by identifier.
pub open spec fn other_fm_view(m: Map<i64, FolderMd>, e: (i64, Vec<FolderGroupId>)) -> (FolderMd, Seq<Multiset<FolderMd>>) {
    (m[e.0], e.1@.map_values(|g: FolderGroupId| folder_values_of(m, g@).to_multiset()))
}

/// The folder match metadata describes the folder group metadata `fm`.
pub open spec fn describes_match(md: FoldersMatchMd, m: Map<i64, FolderMd>, fm: FoldersMatch) -> bool {
    &&& md.fgid@ == fm.fgid@
    &&& group_folders(md.folders_md@, m, fm.fgid@)
    &&& str_views(md.matches@) == string_views(fm.matches@)
    &&& str_views(md.except@) == string_views(fm.except@)
    &&& pathname_ordered(entry_folders(md.other_matches@))
    &&& forall|i: int, j: int| 0 <= i < md.other_matches@.len() && 0 <= j < md.other_matches@[i].1@.len() ==> pathname_ordered((#[trigger] md.other_matches@[i].1@[j])@)
    &&& md.other_matches@.map_values(|e: (&FolderMd, Vec<Vec<&FolderMd>>)| other_md_view(e)).to_multiset()
        == fm.other_matches@.map_values(|e: (i64, Vec<FolderGroupId>)| other_fm_view(m, e)).to_multiset()
    &&& md.other_matches@.map_values(|e: (&FolderMd, Vec<Vec<&FolderMd>>)| other_md_view(e)) == stable_sorted(
        fm.other_matches@.map_values(|e: (i64, Vec<FolderGroupId>)| other_fm_view(m, e)),
        other_view_greater(),
    )
}

/// The first folder's pathname orders after the second's, of two entries of other matches.
pub open spec fn other_view_greater() -> spec_fn((FolderMd, Seq<Multiset<FolderMd>>), (FolderMd, Seq<Multiset<FolderMd>>)) -> bool {
    |x: (FolderMd, Seq<Multiset<FolderMd>>), y: (FolderMd, Seq<Multiset<FolderMd>>)| path_order(
        x.0.pathname@,
        y.0.pathname@,
    ) == Ordering::Greater
}

/// The folders of a group, ordered by pathname, are the folders its identifiers name.
proof fn lemma_group_values(folders: Seq<&FolderMd>, m: Map<i64, FolderMd>, ids: Seq<i64>)
    requires
        group_folders(folders, m, ids),
    ensures
        folder_values(folders).to_multiset() == folder_values_of(m, ids).to_multiset(),
{
    lemma_map_multiset(folders, folders_of(&m, ids), |f: &FolderMd| *f);
    assert(folder_values(folders_of(&m, ids)) =~= folder_values_of(m, ids));
}

/// The folder match metadata for the domain API, borrowed from the folder group metadata.
pub struct FoldersMatchMd<'m> {
    /// The id of the matching folder group.
    pub fgid: FolderGroupId,
    /// The folders of the group, ordered by pathname.
    pub folders_md: Vec<&'m FolderMd>,
    /// The filenames that this group of folders had in common.
    pub matches: Vec<&'m str>,
    /// The filenames that did not match.
    pub except: Vec<&'m str>,
    /// Folders of the group, ordered by pathname, with the folders of each other folder group
    /// with matching files they belong to.
    pub other_matches: Vec<(&'m FolderMd, Vec<Vec<&'m FolderMd>>)>,
}

/// The total size of the named children of a folder: for each name, the size of the first
/// child of that name.
pub open spec fn named_size(children: Seq<Metadata>, names: Seq<Seq<char>>) -> nat
    decreases names.len(),
{
    if names.len() == 0 {
        0
    } else {
        named_size(children, names.drop_last()) + children[first_named(children, names.last())].spec_size() as nat
    }
}

/// Whether the folder has a child named by each of the names.
pub fn holds_named(folder: &FolderMd, names: &Vec<&str>) -> (r: bool)
    ensures
        r == forall|i: int|
            0 <= i < names@.len() ==> first_named(folder.children@, #[trigger] names@[i]@) < folder.children@.len(),
{
    let mut i: usize = 0;
    while i < names.len()
        invariant
            i <= names@.len(),
            forall|k: int| 0 <= k < i ==> first_named(folder.children@, #[trigger] names@[k]@) < folder.children@.len(),
        decreases names.len() - i,
    {
        if find_child(folder, names[i]).is_none() {
            return false;
        }
        i = i + 1;
    }
    true
}

/// The size of files that folders have in common, and the disk space they use: the sizes
/// of the named files in the first folder (any folder would do, the files match), and that
/// times the number of folders. Each name names a file of the first folder, and the space
/// used fits in 64 bits.
pub fn folders_md_size(folders_md: &Vec<&FolderMd>, filenames: &Vec<&str>) -> (r: (u64, u64))
    requires
        folders_md@.len() > 0,
        forall|i: int|
            0 <= i < filenames@.len() ==> first_named(folders_md@[0].children@, #[trigger] filenames@[i]@)
                < folders_md@[0].children@.len(),
        named_size(folders_md@[0].children@, str_views(filenames@)) * folders_md@.len() <= u64::MAX,
    ensures
        r.0 == named_size(folders_md@[0].children@, str_views(filenames@)),
        r.1 == r.0 * folders_md@.len(),
{
    let folder_md = folders_md[0];
    let ghost children = folder_md.children@;
    let ghost names = str_views(filenames@);
    let ghost total = named_size(children, names);
    let count = folders_md.len();
    proof {
        assert(total <= total * count) by (nonlinear_arith)
            requires
                count >= 1,
        ;
    }
    let mut actual: u64 = 0;
    let mut i: usize = 0;
    while i < filenames.len()
        invariant
            i <= names.len(),
            names.len() == filenames@.len(),
            names == str_views(filenames@),
            children == folder_md.children@,
            total == named_size(children, names),
            total <= u64::MAX,
            forall|k: int| 0 <= k < filenames@.len() ==> first_named(children, #[trigger] filenames@[k]@) < children.len(),
            actual == named_size(children, names.take(i as int)),
        decreases filenames.len() - i,
    {
        proof {
            assert(names.take(i + 1).drop_last() =~= names.take(i as int));
            assert(names[i as int] == filenames@[i as int]@);
            lemma_named_size_prefix(children, names, i as int + 1);
        }
        let position = find_child(folder_md, filenames[i]);
        let k = position.unwrap();
        actual = actual + folder_md.children[k].size();
        i = i + 1;
    }
    assert(names.take(i as int) =~= names);
    let used = actual * (count as u64);
    (actual, used)
}

/// The size of the matching files of a folder group, and the disk space they use, as
/// `folders_md_size` gives them for the group's folders and matching filenames.
pub fn files_size(folders_match: &FoldersMatchMd) -> (r: (u64, u64))
    requires
        folders_match.folders_md@.len() > 0,
        forall|i: int|
            0 <= i < folders_match.matches@.len() ==> first_named(
                folders_match.folders_md@[0].children@,
                #[trigger] folders_match.matches@[i]@,
            ) < folders_match.folders_md@[0].children@.len(),
        named_size(folders_match.folders_md@[0].children@, str_views(folders_match.matches@))
            * folders_match.folders_md@.len() <= u64::MAX,
    ensures
        r.0 == named_size(folders_match.folders_md@[0].children@, str_views(folders_match.matches@)),
        r.1 == r.0 * folders_match.folders_md@.len(),
{
    folders_md_size(&folders_match.folders_md, &folders_match.matches)
}

proof fn lemma_named_size_prefix(children: Seq<Metadata>, names: Seq<Seq<char>>, n: int)
    requires
        0 <= n <= names.len(),
    ensures
        named_size(children, names.take(n)) <= named_size(children, names),
    decreases names.len(),
{
    if n < names.len() {
        assert(names.drop_last().take(n) =~= names.take(n));
        lemma_named_size_prefix(children, names.drop_last(), n);
    } else {
        assert(names.take(n) =~= names);
    }
}

impl DuplicateFoldersMatch {
    /// The metadata of the folder group at `index`, `None` past the last one.
    pub fn get_md(&self, index: usize) -> (r: Option<FoldersMatchMd<'_>>)
        requires
            self.wf(),
        ensures
            self.matches().len() <= usize::MAX,
            r is Some <==> index < self.matches().len(),
            r matches Some(md) ==> describes_match(md, self.folders(), self.matches()[index as int]),
    {
        if index < self.folder_matches.len() {
            let ghost m = self.folders();
            let fm = &self.folder_matches[index];
            assert(match_known(m, *fm));
            let mut other_matches: Vec<(&FolderMd, Vec<Vec<&FolderMd>>)> = Vec::new();
            let mut i: usize = 0;
            while i < fm.other_matches.len()
                invariant
                    m == self.folders_md@,
                    match_known(m, *fm),
                    i <= fm.other_matches@.len(),
                    other_matches@.map_values(|e: (&FolderMd, Vec<Vec<&FolderMd>>)| other_md_view(e))
                        == fm.other_matches@.take(i as int).map_values(|e: (i64, Vec<FolderGroupId>)| other_fm_view(m, e)),
                    forall|q: int, j: int| 0 <= q < other_matches@.len() && 0 <= j < other_matches@[q].1@.len() ==> pathname_ordered((#[trigger] other_matches@[q].1@[j])@),
                decreases fm.other_matches.len() - i,
            {
                let entry = &fm.other_matches[i];
                let mut groups: Vec<Vec<&FolderMd>> = Vec::new();
                let mut j: usize = 0;
                while j < entry.1.len()
                    invariant
                        m == self.folders_md@,
                        match_known(m, *fm),
                        i < fm.other_matches@.len(),
                        *entry == fm.other_matches@[i as int],
                        j <= entry.1@.len(),
                        groups@.map_values(|v: Vec<&FolderMd>| folder_values(v@).to_multiset())
                            == entry.1@.take(j as int).map_values(|g: FolderGroupId| folder_values_of(m, g@).to_multiset()),
                        forall|q: int| 0 <= q < groups@.len() ==> pathname_ordered((#[trigger] groups@[q])@),
                    decreases entry.1.len() - j,
                {
                    assert(all_known(m, fm.other_matches@[i as int].1@[j as int]@));
                    let group = self.folders_md.get_group(&entry.1[j]);
                    proof {
                        lemma_group_values(group@, m, entry.1@[j as int]@);
                    }
                    let ghost before = groups@;
                    groups.push(group);
                    assert(groups@.map_values(|v: Vec<&FolderMd>| folder_values(v@).to_multiset()) =~= before.map_values(|v: Vec<&FolderMd>| folder_values(v@).to_multiset()).push(folder_values_of(m, entry.1@[j as int]@).to_multiset()));
                    assert(entry.1@.take(j + 1) =~= entry.1@.take(j as int).push(entry.1@[j as int]));
                    j = j + 1;
                }
                assert(entry.1@.take(j as int) =~= entry.1@);
                assert(m.contains_key(fm.other_matches@[i as int].0));
                let folder_md = self.folders_md.folder(entry.0);
                let ghost before = other_matches@;
                other_matches.push((folder_md, groups));
                assert forall|q: int, j: int| 0 <= q < other_matches@.len() && 0 <= j < other_matches@[q].1@.len() implies pathname_ordered((#[trigger] other_matches@[q].1@[j])@) by {
                    if q < before.len() {
                        assert(other_matches@[q] == before[q]);
                        assert(pathname_ordered(before[q].1@[j]@));
                    } else {
                        assert(other_matches@[q].1@ == groups@);
                        assert(pathname_ordered(groups@[j]@));
                    }
                }
                assert(other_matches@.map_values(|e: (&FolderMd, Vec<Vec<&FolderMd>>)| other_md_view(e)) =~= before.map_values(|e: (&FolderMd, Vec<Vec<&FolderMd>>)| other_md_view(e)).push(other_fm_view(m, *entry)));
                assert(fm.other_matches@.take(i + 1) =~= fm.other_matches@.take(i as int).push(fm.other_matches@[i as int]));
                i = i + 1;
            }
            assert(fm.other_matches@.take(i as int) =~= fm.other_matches@);
            let ghost unsorted = other_matches@;
            sort_by_folder_pathname(&mut other_matches);
            proof {
                broadcast use vstd::seq_lib::group_to_multiset_ensures;
                lemma_map_multiset(other_matches@, unsorted, |e: (&FolderMd, Vec<Vec<&FolderMd>>)| other_md_view(e));
                lemma_stable_sorted_map(
                    unsorted,
                    |e: (&FolderMd, Vec<Vec<&FolderMd>>)| other_md_view(e),
                    entry_pathname_greater::<Vec<Vec<&FolderMd>>>(),
                    other_view_greater(),
                );
                assert forall|q: int, j: int| 0 <= q < other_matches@.len() && 0 <= j < other_matches@[q].1@.len() implies pathname_ordered((#[trigger] other_matches@[q].1@[j])@) by {
                    assert(other_matches@.to_multiset().count(other_matches@[q]) > 0);
                    assert(unsorted.contains(other_matches@[q]));
                    let p = choose|p: int| 0 <= p < unsorted.len() && unsorted[p] == other_matches@[q];
                    assert(pathname_ordered(unsorted[p].1@[j]@));
                }
            }
            Some(
                FoldersMatchMd {
                    fgid: fm.fgid.duplicate(),
                    folders_md: self.folders_md.get_group(&fm.fgid),
                    matches: str_refs(&fm.matches),
                    except: str_refs(&fm.except),
                    other_matches,
                },
            )
        } else {
            None
        }
    }

    /// An iterator over the folder match metadata, in order.
    pub fn iter(&self) -> (r: FoldersMatchIterator<'_>)
        ensures
            r.folders_match == self,
            r.index == 0,
    {
        FoldersMatchIterator { folders_match: self, index: 0 }
    }
}

/// The traversal of the folder match metadata.
pub struct FoldersMatchIterator<'m> {
    /// The folder match metadata traversed.
    pub folders_match: &'m DuplicateFoldersMatch,
    /// The index of the next folder group.
    pub index: usize,
}

impl<'m> FoldersMatchIterator<'m> {
    /// The metadata of the next folder group, `None` once all were given.
    pub fn next(&mut self) -> (r: Option<FoldersMatchMd<'m>>)
        requires
            old(self).folders_match.wf(),
        ensures
            final(self).folders_match == old(self).folders_match,
            r is Some <==> old(self).index < old(self).folders_match.matches().len(),
            r is Some ==> final(self).index == old(self).index + 1,
            r is None ==> final(self).index == old(self).index,
            r matches Some(md) ==> describes_match(
                md,
                old(self).folders_match.folders(),
                old(self).folders_match.matches()[old(self).index as int],
            ),
    {
        let folders_match = self.folders_match.get_md(self.index);
        if folders_match.is_some() {
            self.index = self.index + 1;
        }
        folders_match
    }
}

} // verus!
