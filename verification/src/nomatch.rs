//! Folders with files that matched no other: the builder that collects them from the
//! analysed folder groups, and the metadata it produces.
use crate::analysis::{
    distinct_ids, has_id, lemma_names_of_id_at, matches_of, names_of_id, names_sorted, no_matches_of, sort_names,
};
use crate::duplicates::{analysis_known, group_ok, str_refs, str_views, string_views, DuplicateFolders, FolderGroup};
use crate::foldersmd::{filed_by_id, group_folders, FoldersMd};
use crate::sorting::lemma_map_multiset;
use crate::groupid::FolderGroupId;
use crate::objects::FolderMd;
use crate::order::{compare_str, lemma_str_order, str_order};
use crate::sorting::{
    answered_le, insertion_sort, lemma_adjacent_to_sorted, lemma_permuted_distinct, lemma_stable_sorted_map, never_greater,
    stable_sorted, vsort_by,
};
use std::cmp::Ordering;
use std::collections::HashMap;
use vstd::prelude::*;

verus! {

broadcast use vstd::std_specs::hash::group_hash_axioms;

/// The count `n` for each time `id` occurs among `ids`.
pub open spec fn occurrences_times(ids: Seq<i64>, id: i64, n: nat) -> nat
    decreases ids.len(),
{
    if ids.len() == 0 {
        0
    } else {
        occurrences_times(ids.drop_last(), id, n) + if ids.last() == id {
            n
        } else {
            0nat
        }
    }
}

/// Over analysis match entries: the number of filenames matched by the folder `id`, the
/// filenames of an entry counted once for each time the folder occurs in its folder group.
pub open spec fn match_count(entries: Seq<(FolderGroupId, Vec<String>)>, id: i64) -> nat
    decreases entries.len(),
{
    if entries.len() == 0 {
        0
    } else {
        match_count(entries.drop_last(), id) + occurrences_times(entries.last().0@, id, entries.last().1@.len())
    }
}

/// The count recorded for a folder, 0 when none is.
pub open spec fn count_of(m: Map<i64, usize>, id: i64) -> nat {
    if m.contains_key(id) {
        m[id] as nat
    } else {
        0
    }
}

/// Appends filenames for a folder, creating its entry if needed.
pub fn add_folder_names(entries: &mut Vec<(i64, Vec<String>)>, id: i64, names: Vec<String>)
    requires
        distinct_ids(old(entries)@),
    ensures
        distinct_ids(final(entries)@),
        forall|k: i64| #[trigger] has_id(final(entries)@, k) <==> has_id(old(entries)@, k) || k == id,
        forall|k: i64| #[trigger] names_of_id(final(entries)@, k) == if k == id {
            names_of_id(old(entries)@, k) + names@
        } else {
            names_of_id(old(entries)@, k)
        },
{
    let ghost old_entries = entries@;
    let mut names = names;
    let mut i: usize = 0;
    while i < entries.len()
        invariant
            entries@ == old_entries,
            i <= entries@.len(),
            forall|j: int| 0 <= j < i ==> (#[trigger] entries@[j]).0 != id,
        ensures
            entries@ == old_entries,
            i <= entries@.len(),
            forall|j: int| 0 <= j < i ==> (#[trigger] entries@[j]).0 != id,
            i == entries@.len() || entries@[i as int].0 == id,
        decreases entries.len() - i,
    {
        if entries[i].0 == id {
            break;
        }
        i = i + 1;
    }
    if i < entries.len() && entries[i].0 == id {
        proof {
            lemma_names_of_id_at(old_entries, i as int);
        }
        let mut entry = entries.remove(i);
        entry.1.append(&mut names);
        entries.insert(i, entry);
        proof {
            assert(entries@ =~= old_entries.update(i as int, entry));
            assert forall|a: int, b: int| 0 <= a < b < entries@.len() implies (#[trigger] entries@[a]).0 != (#[trigger] entries@[b]).0 by {
                assert(old_entries[a].0 != old_entries[b].0);
            }
            lemma_names_of_id_at(entries@, i as int);
            assert forall|k: i64| #[trigger] has_id(entries@, k) <==> has_id(old_entries, k) || k == id by {
                if has_id(old_entries, k) {
                    let j = choose|j: int| 0 <= j < old_entries.len() && (#[trigger] old_entries[j]).0 == k;
                    assert(entries@[j].0 == k);
                }
                if has_id(entries@, k) {
                    let j = choose|j: int| 0 <= j < entries@.len() && (#[trigger] entries@[j]).0 == k;
                    assert(old_entries[j].0 == k);
                }
            }
            assert forall|k: i64| k != id implies #[trigger] names_of_id(entries@, k) == names_of_id(old_entries, k) by {
                if has_id(old_entries, k) {
                    let j = choose|j: int| 0 <= j < old_entries.len() && (#[trigger] old_entries[j]).0 == k;
                    lemma_names_of_id_at(old_entries, j);
                    lemma_names_of_id_at(entries@, j);
                }
            }
        }
    } else {
        let ghost added = names@;
        entries.push((id, names));
        proof {
            assert(!has_id(old_entries, id));
            assert forall|a: int, b: int| 0 <= a < b < entries@.len() implies (#[trigger] entries@[a]).0 != (#[trigger] entries@[b]).0 by {
                if b == old_entries.len() {
                    assert(old_entries[a].0 != id);
                } else {
                    assert(old_entries[a].0 != old_entries[b].0);
                }
            }
            let n = old_entries.len() as int;
            lemma_names_of_id_at(entries@, n);
            assert(names_of_id(old_entries, id) + added =~= added);
            assert forall|k: i64| #[trigger] has_id(entries@, k) <==> has_id(old_entries, k) || k == id by {
                if has_id(old_entries, k) {
                    let j = choose|j: int| 0 <= j < old_entries.len() && (#[trigger] old_entries[j]).0 == k;
                    assert(entries@[j].0 == k);
                }
                if has_id(entries@, k) && k != id {
                    let j = choose|j: int| 0 <= j < entries@.len() && (#[trigger] entries@[j]).0 == k;
                    assert(old_entries[j].0 == k);
                }
            }
            assert forall|k: i64| k != id implies #[trigger] names_of_id(entries@, k) == names_of_id(old_entries, k) by {
                if has_id(old_entries, k) {
                    let j = choose|j: int| 0 <= j < old_entries.len() && (#[trigger] old_entries[j]).0 == k;
                    lemma_names_of_id_at(old_entries, j);
                    lemma_names_of_id_at(entries@, j);
                }
            }
        }
    }
}

/// The builder that collects the folders with files that did not match.
pub struct FoldersNoMatchBuilder {
    /// The number of files matched, by folder.
    pub folder_matches: HashMap<i64, usize>,
    /// The filenames that did not match, by folder.
    pub folders_no_match: Vec<(i64, Vec<String>)>,
}

impl FoldersNoMatchBuilder {
    /// Creates an empty builder.
    pub fn new() -> (r: Self)
        ensures
            r.folder_matches@ == Map::<i64, usize>::empty(),
            r.folders_no_match@ == Seq::<(i64, Vec<String>)>::empty(),
    {
        FoldersNoMatchBuilder { folder_matches: HashMap::new(), folders_no_match: Vec::new() }
    }

    /// Adds to the count of matched files of a folder.
    fn add_count(&mut self, id: i64, n: usize)
        requires
            count_of(old(self).folder_matches@, id) + n <= usize::MAX,
        ensures
            final(self).folders_no_match@ == old(self).folders_no_match@,
            count_of(final(self).folder_matches@, id) == count_of(old(self).folder_matches@, id) + n,
            forall|other: i64| other != id ==> #[trigger] count_of(final(self).folder_matches@, other) == count_of(old(self).folder_matches@, other),
    {
        match self.folder_matches.remove(&id) {
            Some(matches) => {
                self.folder_matches.insert(id, matches + n);
            },
            None => {
                self.folder_matches.insert(id, n);
            },
        }
    }

    /// Adds the folder groups with matching files: each of their folders counts the
    /// filenames matched.
    pub fn add_matches(&mut self, matches: Vec<(FolderGroupId, Vec<String>)>)
        requires
            forall|id: i64| count_of(old(self).folder_matches@, id) + #[trigger] match_count(matches@, id) <= usize::MAX,
        ensures
            final(self).folders_no_match@ == old(self).folders_no_match@,
            forall|id: i64| #[trigger] count_of(final(self).folder_matches@, id) == count_of(old(self).folder_matches@, id) + match_count(matches@, id),
    {
        let ghost e = matches@;
        let ghost c0 = self.folder_matches@;
        let mut rest = matches;
        let total = rest.len();
        let mut u: usize = 0;
        proof {
            assert(e.take(0) =~= Seq::<(FolderGroupId, Vec<String>)>::empty());
        }
        while rest.len() > 0
            invariant
                e.len() == total,
                u + rest.len() == e.len(),
                forall|q: int| 0 <= q < rest.len() ==> #[trigger] rest@[q] == e[u + q],
                self.folders_no_match@ == old(self).folders_no_match@,
                forall|id: i64| count_of(c0, id) + #[trigger] match_count(e, id) <= usize::MAX,
                forall|id: i64| #[trigger] count_of(self.folder_matches@, id) == count_of(c0, id) + match_count(e.take(u as int), id),
            decreases rest.len(),
        {
            let ghost old_rest = rest@;
            let (fgid, filenames) = rest.remove(0);
            assert(old_rest[0] == e[u as int]);
            assert forall|q: int| 0 <= q < rest.len() implies #[trigger] rest@[q] == e[u + 1 + q] by {
                assert(rest@[q] == old_rest[q + 1]);
            }
            proof {
                assert(e.take(u + 1).drop_last() =~= e.take(u as int));
                assert(e.take(u + 1).last() == e[u as int]);
                lemma_match_count_prefix(e, u + 1);
            }
            let match_count_n = filenames.len();
            let ids = fgid.ids();
            let mut k: usize = 0;
            let ghost c1 = self.folder_matches@;
            proof {
                assert(ids@.take(0) =~= Seq::<i64>::empty());
            }
            while k < ids.len()
                invariant
                    u < e.len(),
                    ids@ == e[u as int].0@,
                    match_count_n == e[u as int].1@.len(),
                    k <= ids@.len(),
                    self.folders_no_match@ == old(self).folders_no_match@,
                    forall|id: i64| count_of(c0, id) + #[trigger] match_count(e, id) <= usize::MAX,
                    forall|id: i64| #[trigger] count_of(c1, id) == count_of(c0, id) + match_count(e.take(u as int), id),
                    forall|id: i64| #[trigger] count_of(self.folder_matches@, id) == count_of(c1, id) + occurrences_times(ids@.take(k as int), id, match_count_n as nat),
                decreases ids.len() - k,
            {
                let id = ids[k];
                proof {
                    assert(ids@.take(k + 1).drop_last() =~= ids@.take(k as int));
                    assert(ids@.take(k + 1).last() == id);
                    lemma_occurrences_prefix(ids@, id, match_count_n as nat, k + 1);
                    lemma_match_count_prefix(e, u + 1);
                    lemma_occurrences_mono(ids@, id, match_count_n as nat, k + 1);
                    lemma_match_count_mono(e, id, u + 1);
                    assert(match_count(e.take(u + 1), id) == match_count(e.take(u as int), id) + occurrences_times(ids@, id, match_count_n as nat));
                }
                self.add_count(id, match_count_n);
                k = k + 1;
            }
            assert(ids@.take(k as int) =~= ids@);
            u = u + 1;
        }
        assert(e.take(u as int) =~= e);
    }

    /// Adds the folders with files that did not match, with those filenames.
    pub fn add_no_matches(&mut self, no_matches: Vec<(i64, Vec<String>)>)
        requires
            distinct_ids(old(self).folders_no_match@),
            distinct_ids(no_matches@),
        ensures
            final(self).folder_matches@ == old(self).folder_matches@,
            distinct_ids(final(self).folders_no_match@),
            forall|id: i64| #[trigger] has_id(final(self).folders_no_match@, id) == (has_id(old(self).folders_no_match@, id) || has_id(no_matches@, id)),
            forall|id: i64| #[trigger] names_of_id(final(self).folders_no_match@, id) == names_of_id(old(self).folders_no_match@, id) + names_of_id(no_matches@, id),
    {
        let ghost n = no_matches@;
        let ghost s0 = self.folders_no_match@;
        let mut rest = no_matches;
        let total = rest.len();
        let mut v: usize = 0;
        proof {
            assert(n.take(0) =~= Seq::<(i64, Vec<String>)>::empty());
            assert forall|id: i64| #[trigger] names_of_id(self.folders_no_match@, id) == names_of_id(s0, id) + names_of_id(n.take(0), id) by {
                assert(names_of_id(n.take(0), id) =~= Seq::<String>::empty());
                assert(names_of_id(s0, id) + Seq::<String>::empty() =~= names_of_id(s0, id));
            }
        }
        while rest.len() > 0
            invariant
                n.len() == total,
                distinct_ids(n),
                v + rest.len() == n.len(),
                forall|q: int| 0 <= q < rest.len() ==> #[trigger] rest@[q] == n[v + q],
                self.folder_matches@ == old(self).folder_matches@,
                distinct_ids(self.folders_no_match@),
                forall|id: i64| #[trigger] has_id(self.folders_no_match@, id) == (has_id(s0, id) || has_id(n.take(v as int), id)),
                forall|id: i64| #[trigger] names_of_id(self.folders_no_match@, id) == names_of_id(s0, id) + names_of_id(n.take(v as int), id),
            decreases rest.len(),
        {
            let ghost old_rest = rest@;
            let (folder_id, filenames) = rest.remove(0);
            assert(old_rest[0] == n[v as int]);
            assert forall|q: int| 0 <= q < rest.len() implies #[trigger] rest@[q] == n[v + 1 + q] by {
                assert(rest@[q] == old_rest[q + 1]);
            }
            add_folder_names(&mut self.folders_no_match, folder_id, filenames);
            proof {
                lemma_take_ids(n, v as int);
                assert forall|id: i64| #[trigger] names_of_id(self.folders_no_match@, id) == names_of_id(s0, id) + names_of_id(n.take(v + 1), id) by {
                    if id == folder_id {
                        assert(names_of_id(s0, id) + names_of_id(n.take(v as int), id) + n[v as int].1@ =~= names_of_id(s0, id) + (names_of_id(n.take(v as int), id) + n[v as int].1@));
                    }
                }
            }
            v = v + 1;
        }
        assert(n.take(v as int) =~= n);
    }

    /// Adds the analysis of a folder group.
    pub fn add(&mut self, folder_group: FolderGroup)
        requires
            distinct_ids(old(self).folders_no_match@),
            distinct_ids(folder_group.analysis.no_matches@),
            forall|id: i64| count_of(old(self).folder_matches@, id) + #[trigger] match_count(folder_group.analysis.matches@, id) <= usize::MAX,
        ensures
            distinct_ids(final(self).folders_no_match@),
            forall|id: i64| #[trigger] count_of(final(self).folder_matches@, id) == count_of(old(self).folder_matches@, id) + match_count(folder_group.analysis.matches@, id),
            forall|id: i64| #[trigger] has_id(final(self).folders_no_match@, id) == (has_id(old(self).folders_no_match@, id) || has_id(folder_group.analysis.no_matches@, id)),
            forall|id: i64| #[trigger] names_of_id(final(self).folders_no_match@, id) == names_of_id(old(self).folders_no_match@, id) + names_of_id(folder_group.analysis.no_matches@, id),
    {
        let FolderGroup { fgid: _, filenames: _, analysis } = folder_group;
        self.add_matches(analysis.matches);
        self.add_no_matches(analysis.no_matches);
    }
}

proof fn lemma_occurrences_mono(ids: Seq<i64>, id: i64, n: nat, k: int)
    requires
        0 <= k <= ids.len(),
    ensures
        occurrences_times(ids.take(k), id, n) <= occurrences_times(ids, id, n),
    decreases ids.len(),
{
    if k < ids.len() {
        assert(ids.drop_last().take(k) =~= ids.take(k));
        lemma_occurrences_mono(ids.drop_last(), id, n, k);
    } else {
        assert(ids.take(k) =~= ids);
    }
}

proof fn lemma_match_count_mono(e: Seq<(FolderGroupId, Vec<String>)>, id: i64, u: int)
    requires
        0 <= u <= e.len(),
    ensures
        match_count(e.take(u), id) <= match_count(e, id),
    decreases e.len(),
{
    if u < e.len() {
        assert(e.drop_last().take(u) =~= e.take(u));
        lemma_match_count_mono(e.drop_last(), id, u);
    } else {
        assert(e.take(u) =~= e);
    }
}

proof fn lemma_occurrences_prefix(ids: Seq<i64>, id: i64, n: nat, k: int)
    requires
        0 < k <= ids.len(),
    ensures
        occurrences_times(ids.take(k), id, n) == occurrences_times(ids.take(k - 1), id, n) + if ids[k - 1] == id {
            n
        } else {
            0nat
        },
{
    assert(ids.take(k).drop_last() =~= ids.take(k - 1));
}

proof fn lemma_match_count_prefix(e: Seq<(FolderGroupId, Vec<String>)>, u: int)
    requires
        0 < u <= e.len(),
    ensures
        forall|id: i64| #[trigger] match_count(e.take(u), id) == match_count(e.take(u - 1), id) + occurrences_times(e[u - 1].0@, id, e[u - 1].1@.len()),
{
    assert(e.take(u).drop_last() =~= e.take(u - 1));
    assert(e.take(u).last() == e[u - 1]);
}

/// Taking one more entry of a folder list with distinct ids adds that entry.
proof fn lemma_take_ids(e: Seq<(i64, Vec<String>)>, v: int)
    requires
        distinct_ids(e),
        0 <= v < e.len(),
    ensures
        forall|k: i64| #[trigger] has_id(e.take(v + 1), k) == (has_id(e.take(v), k) || k == e[v].0),
        forall|k: i64| #[trigger] names_of_id(e.take(v + 1), k) == if k == e[v].0 {
            names_of_id(e.take(v), k) + e[v].1@
        } else {
            names_of_id(e.take(v), k)
        },
{
    let a = e.take(v);
    let b = e.take(v + 1);
    assert(b =~= a.push(e[v]));
    assert(distinct_ids(a)) by {
        assert forall|i: int, j: int| 0 <= i < j < a.len() implies (#[trigger] a[i]).0 != (#[trigger] a[j]).0 by {
            assert(e[i].0 != e[j].0);
        }
    }
    assert(distinct_ids(b)) by {
        assert forall|i: int, j: int| 0 <= i < j < b.len() implies (#[trigger] b[i]).0 != (#[trigger] b[j]).0 by {
            assert(e[i].0 != e[j].0);
        }
    }
    assert(!has_id(a, e[v].0)) by {
        if has_id(a, e[v].0) {
            let j = choose|j: int| 0 <= j < a.len() && (#[trigger] a[j]).0 == e[v].0;
            assert(e[j].0 != e[v].0);
        }
    }
    assert forall|k: i64| #[trigger] has_id(b, k) == (has_id(a, k) || k == e[v].0) by {
        if has_id(a, k) {
            let j = choose|j: int| 0 <= j < a.len() && (#[trigger] a[j]).0 == k;
            assert(b[j].0 == k);
        }
        if k == e[v].0 {
            assert(b[v].0 == k);
        }
        if has_id(b, k) && k != e[v].0 {
            let j = choose|j: int| 0 <= j < b.len() && (#[trigger] b[j]).0 == k;
            assert(a[j].0 == k);
        }
    }
    assert forall|k: i64| #[trigger] names_of_id(b, k) == if k == e[v].0 {
        names_of_id(a, k) + e[v].1@
    } else {
        names_of_id(a, k)
    } by {
        if k == e[v].0 {
            lemma_names_of_id_at(b, v);
            assert(names_of_id(a, k) + e[v].1@ =~= e[v].1@);
        } else if has_id(a, k) {
            let j = choose|j: int| 0 <= j < a.len() && (#[trigger] a[j]).0 == k;
            lemma_names_of_id_at(a, j);
            lemma_names_of_id_at(b, j);
        }
    }
}


/// The metadata of a folder with files that did not match.
pub struct FolderNoMatch {
    /// The folder id.
    pub id: i64,
    /// The number of files the folder did match.
    pub matches: usize,
    /// The filenames that did not match, sorted.
    pub filenames: Vec<String>,
}

impl FolderNoMatch {
    /// Creates the metadata, its filenames sorted into ascending order.
    pub fn new(id: i64, matches: usize, filenames: Vec<String>) -> (r: Self)
        ensures
            r.id == id,
            r.matches == matches,
            names_sorted(r.filenames@),
            r.filenames@.to_multiset() == filenames@.to_multiset(),
    {
        let mut filenames = filenames;
        sort_names(&mut filenames);
        FolderNoMatch { id, matches, filenames }
    }
}

/// No two folders of the metadata have the same identifier.
pub open spec fn distinct_folders(v: Seq<FolderNoMatch>) -> bool {
    forall|i: int, j: int| 0 <= i < j < v.len() ==> (#[trigger] v[i]).id != (#[trigger] v[j]).id
}

impl FoldersNoMatchBuilder {
    /// Creates the metadata of each folder with files that did not match: its filenames
    /// and the number of files it matched; in no particular order.
    pub fn build(self) -> (r: Vec<FolderNoMatch>)
        requires
            distinct_ids(self.folders_no_match@),
        ensures
            distinct_folders(r@),
            forall|id: i64| #[trigger] has_id(self.folders_no_match@, id) <==> exists|i: int| 0 <= i < r@.len() && (#[trigger] r@[i]).id == id,
            forall|i: int| 0 <= i < r@.len() ==> (#[trigger] r@[i]).matches == count_of(self.folder_matches@, r@[i].id),
            forall|i: int| 0 <= i < r@.len() ==> names_sorted((#[trigger] r@[i]).filenames@),
            forall|i: int| 0 <= i < r@.len() ==> (#[trigger] r@[i]).filenames@.to_multiset() == names_of_id(self.folders_no_match@, r@[i].id).to_multiset(),
    {
        let ghost s = self.folders_no_match@;
        let ghost c = self.folder_matches@;
        let FoldersNoMatchBuilder { folder_matches, folders_no_match } = self;
        let mut rest = folders_no_match;
        let total = rest.len();
        let mut out: Vec<FolderNoMatch> = Vec::new();
        while rest.len() > 0
            invariant
                distinct_ids(s),
                s.len() == total,
                folder_matches@ == c,
                out.len() + rest.len() == s.len(),
                forall|q: int| 0 <= q < rest.len() ==> #[trigger] rest@[q] == s[out.len() + q],
                forall|q: int| 0 <= q < out.len() ==> (#[trigger] out@[q]).id == s[q].0,
                forall|q: int| 0 <= q < out.len() ==> (#[trigger] out@[q]).matches == count_of(c, s[q].0),
                forall|q: int| 0 <= q < out.len() ==> names_sorted((#[trigger] out@[q]).filenames@),
                forall|q: int| 0 <= q < out.len() ==> (#[trigger] out@[q]).filenames@.to_multiset() == s[q].1@.to_multiset(),
            decreases rest.len(),
        {
            let ghost old_rest = rest@;
            let ghost q = out.len() as int;
            let (id, filenames) = rest.remove(0);
            assert(old_rest[0] == s[q]);
            assert forall|p: int| 0 <= p < rest.len() implies #[trigger] rest@[p] == s[q + 1 + p] by {
                assert(rest@[p] == old_rest[p + 1]);
            }
            let matches: usize = match folder_matches.get(&id) {
                Some(count) => *count,
                None => 0,
            };
            out.push(FolderNoMatch::new(id, matches, filenames));
        }
        proof {
            assert forall|i: int, j: int| 0 <= i < j < out@.len() implies (#[trigger] out@[i]).id != (#[trigger] out@[j]).id by {
                assert(s[i].0 != s[j].0);
            }
            assert forall|id: i64| #[trigger] has_id(s, id) <==> exists|i: int| 0 <= i < out@.len() && (#[trigger] out@[i]).id == id by {
                if has_id(s, id) {
                    let q = choose|q: int| 0 <= q < s.len() && (#[trigger] s[q]).0 == id;
                    assert(out@[q].id == id);
                }
                if exists|i: int| 0 <= i < out@.len() && (#[trigger] out@[i]).id == id {
                    let i = choose|i: int| 0 <= i < out@.len() && (#[trigger] out@[i]).id == id;
                    assert(s[i].0 == id);
                }
            }
            assert forall|i: int| 0 <= i < out@.len() implies (#[trigger] out@[i]).filenames@.to_multiset() == names_of_id(s, out@[i].id).to_multiset() by {
                lemma_names_of_id_at(s, i);
            }
        }
        out
    }
}

/// The folders are in strictly ascending order of their identifiers.
pub open spec fn folders_ascending(v: Seq<FolderNoMatch>) -> bool {
    forall|i: int, j: int| 0 <= i < j < v.len() ==> (#[trigger] v[i]).id < (#[trigger] v[j]).id
}

/// Orders folder metadata with distinct identifiers by identifier.
fn sort_no_matches(v: &mut Vec<FolderNoMatch>)
    requires
        distinct_folders(old(v)@),
    ensures
        final(v)@.to_multiset() == old(v)@.to_multiset(),
        folders_ascending(final(v)@),
{
    let ghost orig = v@;
    let f = |a: &FolderNoMatch, b: &FolderNoMatch| -> (r: Ordering)
        ensures
            r == (if a.id < b.id { Ordering::Less } else if a.id > b.id { Ordering::Greater } else { Ordering::Equal }),
        {
            if a.id < b.id {
                Ordering::Less
            } else if a.id > b.id {
                Ordering::Greater
            } else {
                Ordering::Equal
            }
        };
    proof {
        assert forall|a: FolderNoMatch, b: FolderNoMatch| #[trigger] never_greater(f, a, b) || #[trigger] never_greater(f, b, a) by {
            if a.id <= b.id {
                assert(never_greater(f, a, b));
            } else {
                assert(never_greater(f, b, a));
            }
        }
    }
    vsort_by(v, f);
    proof {
        let key = |x: FolderNoMatch| x.id;
        assert forall|i: int, j: int| 0 <= i < j < orig.len() implies key(#[trigger] orig[i]) != key(#[trigger] orig[j]) by {
            assert(orig[i].id != orig[j].id);
        }
        lemma_permuted_distinct(orig, v@, key);
        let lt = |a: FolderNoMatch, b: FolderNoMatch| a.id < b.id;
        assert forall|i: int, j: int| 0 <= i && j == i + 1 && j < v@.len() implies #[trigger] lt(v@[i], v@[j]) by {
            assert(answered_le(f, v@[i], v@[j]));
            assert(key(v@[i]) != key(v@[j]));
        }
        lemma_adjacent_to_sorted(v@, lt);
        assert forall|i: int, j: int| 0 <= i < j < v@.len() implies (#[trigger] v@[i]).id < (#[trigger] v@[j]).id by {
            assert(lt(v@[i], v@[j]));
        }
    }
}

/// Over the folder groups in order: the filenames of the folder `id` whose files matched no other.
pub open spec fn no_match_names_total(groups: Seq<FolderGroup>, id: i64) -> Seq<String>
    decreases groups.len(),
{
    if groups.len() == 0 {
        Seq::empty()
    } else {
        no_match_names_total(groups.drop_last(), id) + names_of_id(groups.last().analysis.no_matches@, id)
    }
}

/// Some folder group's analysis has the folder `id` among the folders without a match.
pub open spec fn no_match_total(groups: Seq<FolderGroup>, id: i64) -> bool
    decreases groups.len(),
{
    if groups.len() == 0 {
        false
    } else {
        no_match_total(groups.drop_last(), id) || has_id(groups.last().analysis.no_matches@, id)
    }
}

/// Over the folder groups: the number of filenames matched by the folder `id`.
pub open spec fn match_count_total(groups: Seq<FolderGroup>, id: i64) -> nat
    decreases groups.len(),
{
    if groups.len() == 0 {
        0
    } else {
        match_count_total(groups.drop_last(), id) + match_count(groups.last().analysis.matches@, id)
    }
}

proof fn lemma_match_count_total_mono(groups: Seq<FolderGroup>, id: i64, n: int)
    requires
        0 <= n <= groups.len(),
    ensures
        match_count_total(groups.take(n), id) <= match_count_total(groups, id),
    decreases groups.len(),
{
    if n < groups.len() {
        assert(groups.drop_last().take(n) =~= groups.take(n));
        lemma_match_count_total_mono(groups.drop_last(), id, n);
    } else {
        assert(groups.take(n) =~= groups);
    }
}

proof fn lemma_no_match_total(groups: Seq<FolderGroup>, id: i64)
    requires
        no_match_total(groups, id),
    ensures
        exists|i: int| 0 <= i < groups.len() && has_id((#[trigger] groups[i]).analysis.no_matches@, id),
    decreases groups.len(),
{
    if no_match_total(groups.drop_last(), id) {
        lemma_no_match_total(groups.drop_last(), id);
        let i = choose|i: int| 0 <= i < groups.drop_last().len() && has_id((#[trigger] groups.drop_last()[i]).analysis.no_matches@, id);
        assert(groups[i] == groups.drop_last()[i]);
    } else {
        assert(groups[groups.len() - 1] == groups.last());
    }
}

/// The container of the folders with files that did not match.
pub struct FoldersNoMatch {
    folders_md: FoldersMd,
    no_matches: Vec<FolderNoMatch>,
}

impl FoldersNoMatch {
    /// The folders, by identifier.
    pub closed spec fn folders(&self) -> Map<i64, FolderMd> {
        self.folders_md@
    }

    /// The folders with files that did not match.
    pub closed spec fn entries(&self) -> Seq<FolderNoMatch> {
        self.no_matches@
    }

    /// The invariant: folders filed by identifier, entries in strictly ascending order of
    /// their identifiers, each naming a loaded folder.
    pub open spec fn wf(&self) -> bool {
        &&& filed_by_id(self.folders())
        &&& folders_ascending(self.entries())
        &&& forall|i: int| 0 <= i < self.entries().len() ==> self.folders().contains_key((#[trigger] self.entries()[i]).id)
    }

    /// Creates the metadata, the folders ordered by identifier.
    pub fn new(folders_md: FoldersMd, no_matches: Vec<FolderNoMatch>) -> (r: Self)
        requires
            folders_md.wf(),
            distinct_folders(no_matches@),
            forall|i: int| 0 <= i < no_matches@.len() ==> folders_md@.contains_key((#[trigger] no_matches@[i]).id),
        ensures
            r.wf(),
            r.folders() == folders_md@,
            r.entries().to_multiset() == no_matches@.to_multiset(),
    {
        broadcast use vstd::seq_lib::group_to_multiset_ensures;

        let ghost orig = no_matches@;
        let mut no_matches = no_matches;
        sort_no_matches(&mut no_matches);
        proof {
            assert forall|i: int| 0 <= i < no_matches@.len() implies folders_md@.contains_key((#[trigger] no_matches@[i]).id) by {
                assert(no_matches@.to_multiset().count(no_matches@[i]) > 0);
                assert(orig.contains(no_matches@[i]));
            }
        }
        FoldersNoMatch { folders_md, no_matches }
    }

    /// Converts the duplicate folders metadata into the folders with files that did not
    /// match; the counts of matched files must fit in a `usize`.
    pub fn from(duplicate_folders: DuplicateFolders) -> (r: Self)
        requires
            duplicate_folders.wf(),
            forall|id: i64| #[trigger] match_count_total(duplicate_folders.groups(), id) <= usize::MAX,
        ensures
            r.wf(),
            r.folders() == duplicate_folders.folders(),
            forall|id: i64| #[trigger] no_match_total(duplicate_folders.groups(), id) <==> exists|i: int| 0 <= i < r.entries().len() && (#[trigger] r.entries()[i]).id == id,
            forall|i: int| 0 <= i < r.entries().len() ==> (#[trigger] r.entries()[i]).matches == match_count_total(duplicate_folders.groups(), r.entries()[i].id),
            forall|i: int| 0 <= i < r.entries().len() ==> names_sorted((#[trigger] r.entries()[i]).filenames@),
            forall|i: int| 0 <= i < r.entries().len() ==> (#[trigger] r.entries()[i]).filenames@.to_multiset() == no_match_names_total(duplicate_folders.groups(), r.entries()[i].id).to_multiset(),
    {
        let ghost gs = duplicate_folders.groups();
        let ghost m = duplicate_folders.folders();
        let (folders_md, groups) = duplicate_folders.into_parts();
        let mut builder = FoldersNoMatchBuilder::new();
        let mut rest = groups;
        let total = rest.len();
        let mut n: usize = 0;
        proof {
            assert(gs.take(0) =~= Seq::<FolderGroup>::empty());
        }
        while rest.len() > 0
            invariant
                forall|i: int| 0 <= i < gs.len() ==> group_ok(m, #[trigger] gs[i]),
                forall|id: i64| #[trigger] match_count_total(gs, id) <= usize::MAX,
                gs.len() == total,
                n + rest.len() == gs.len(),
                forall|q: int| 0 <= q < rest.len() ==> #[trigger] rest@[q] == gs[n + q],
                distinct_ids(builder.folders_no_match@),
                forall|id: i64| #[trigger] count_of(builder.folder_matches@, id) == match_count_total(gs.take(n as int), id),
                forall|id: i64| #[trigger] has_id(builder.folders_no_match@, id) == no_match_total(gs.take(n as int), id),
                forall|id: i64| #[trigger] names_of_id(builder.folders_no_match@, id) == no_match_names_total(gs.take(n as int), id),
            decreases rest.len(),
        {
            let ghost old_rest = rest@;
            let group = rest.remove(0);
            assert(old_rest[0] == gs[n as int]);
            assert forall|q: int| 0 <= q < rest.len() implies #[trigger] rest@[q] == gs[n + 1 + q] by {
                assert(rest@[q] == old_rest[q + 1]);
            }
            proof {
                assert(group_ok(m, gs[n as int]));
                let (folders, names) = choose|folders: Seq<&FolderMd>, names: Seq<String>| #![trigger matches_of(group.analysis.matches@, folders, names)]
                    group_folders(folders, m, group.fgid@) && names.to_multiset() == group.filenames@.to_multiset() && matches_of(group.analysis.matches@, folders, names)
                        && no_matches_of(group.analysis.no_matches@, folders, names);
                assert(no_matches_of(group.analysis.no_matches@, folders, names));
                assert(gs.take(n + 1).drop_last() =~= gs.take(n as int));
                assert(gs.take(n + 1).last() == group);
                assert forall|id: i64| count_of(builder.folder_matches@, id) + #[trigger] match_count(group.analysis.matches@, id) <= usize::MAX by {
                    lemma_match_count_total_mono(gs, id, n + 1);
                }
            }
            builder.add(group);
            n = n + 1;
        }
        proof {
            assert(gs.take(n as int) =~= gs);
        }
        let ghost s = builder.folders_no_match@;
        let ghost c = builder.folder_matches@;
        let built = builder.build();
        proof {
            assert forall|id: i64| #[trigger] no_match_total(gs, id) == has_id(s, id) by {
                assert(has_id(s, id) == no_match_total(gs.take(n as int), id));
            }
            assert forall|i: int| 0 <= i < built@.len() implies m.contains_key((#[trigger] built@[i]).id) by {
                let id = built@[i].id;
                assert(has_id(s, id));
                lemma_no_match_total(gs, id);
                let g = choose|g: int| 0 <= g < gs.len() && has_id((#[trigger] gs[g]).analysis.no_matches@, id);
                assert(group_ok(m, gs[g]));
                assert(analysis_known(m, gs[g].analysis));
                let q = choose|q: int| 0 <= q < gs[g].analysis.no_matches@.len() && (#[trigger] gs[g].analysis.no_matches@[q]).0 == id;
                assert(m.contains_key(gs[g].analysis.no_matches@[q].0));
            }
            assert forall|i: int| 0 <= i < built@.len() implies (#[trigger] built@[i]).matches == match_count_total(gs, built@[i].id) && built@[i].filenames@.to_multiset() == no_match_names_total(gs, built@[i].id).to_multiset() by {
                assert(count_of(c, built@[i].id) == match_count_total(gs.take(n as int), built@[i].id));
                assert(names_of_id(s, built@[i].id) == no_match_names_total(gs.take(n as int), built@[i].id));
            }
        }
        let r = FoldersNoMatch::new(folders_md, built);
        proof {
            broadcast use vstd::seq_lib::group_to_multiset_ensures;
            assert forall|i: int| 0 <= i < r.entries().len() implies (#[trigger] r.entries()[i]).matches == match_count_total(gs, r.entries()[i].id)
                && names_sorted(r.entries()[i].filenames@)
                && r.entries()[i].filenames@.to_multiset() == no_match_names_total(gs, r.entries()[i].id).to_multiset() by {
                assert(r.entries().to_multiset().count(r.entries()[i]) > 0);
                assert(built@.contains(r.entries()[i]));
            }
            assert forall|id: i64| #[trigger] no_match_total(gs, id) <==> exists|i: int| 0 <= i < r.entries().len() && (#[trigger] r.entries()[i]).id == id by {
                if no_match_total(gs, id) {
                    let i = choose|i: int| 0 <= i < built@.len() && (#[trigger] built@[i]).id == id;
                    assert(built@.to_multiset().count(built@[i]) > 0);
                    assert(r.entries().contains(built@[i]));
                }
                if exists|i: int| 0 <= i < r.entries().len() && (#[trigger] r.entries()[i]).id == id {
                    let i = choose|i: int| 0 <= i < r.entries().len() && (#[trigger] r.entries()[i]).id == id;
                    assert(r.entries().to_multiset().count(r.entries()[i]) > 0);
                    assert(built@.contains(r.entries()[i]));
                }
            }
        }
        r
    }

    /// The number of folders with files that did not match.
    pub fn len(&self) -> (r: usize)
        ensures
            r == self.entries().len(),
    {
        self.no_matches.len()
    }
}

/// The metadata of a folder with files that did not match, for the domain API.
pub struct FolderNoMatchMd<'m> {
    /// The folder.
    pub folder_md: &'m FolderMd,
    /// The filenames that did not match.
    pub filenames: Vec<&'m str>,
    /// The number of files the folder did match.
    pub other_matches: usize,
}

impl FoldersNoMatch {
    /// The metadata of the folder at `index`, `None` past the last one.
    pub fn get_md(&self, index: usize) -> (r: Option<FolderNoMatchMd<'_>>)
        requires
            self.wf(),
        ensures
            self.entries().len() <= usize::MAX,
            r is Some <==> index < self.entries().len(),
            r matches Some(md) ==> describes_no_match(md, *self, index),
    {
        if index < self.no_matches.len() {
            let folder_no_match = &self.no_matches[index];
            assert(self.folders().contains_key(self.entries()[index as int].id));
            let folder_md = self.folders_md.folder(folder_no_match.id);
            let filenames = str_refs(&folder_no_match.filenames);
            Some(FolderNoMatchMd { folder_md, filenames, other_matches: folder_no_match.matches })
        } else {
            None
        }
    }
}


/// The metadata describes the folder at position `k` of the folders without a match.
pub open spec fn describes_no_match(md: FolderNoMatchMd, fnm: FoldersNoMatch, k: usize) -> bool {
    &&& *md.folder_md == fnm.folders()[fnm.entries()[k as int].id]
    &&& str_views(md.filenames@) == string_views(fnm.entries()[k as int].filenames@)
    &&& md.other_matches == fnm.entries()[k as int].matches
}

/// The positions from 0 up to `n`.
pub open spec fn indices(n: nat) -> Seq<usize> {
    Seq::new(n, |i: int| i as usize)
}

/// The pathname of the folder at position `k` of the folders without a match.
pub open spec fn entry_pathname(fnm: FoldersNoMatch, k: usize) -> Seq<char> {
    fnm.folders()[fnm.entries()[k as int].id].pathname@
}

/// Each position of the folders without a match with the pathname of its folder.
pub open spec fn pathname_pairs(fnm: FoldersNoMatch) -> Seq<(usize, Seq<char>)> {
    indices(fnm.entries().len()).map_values(|k: usize| (k, entry_pathname(fnm, k)))
}

/// The first pair's pathname text orders after the second's.
pub open spec fn pair_greater() -> spec_fn((usize, Seq<char>), (usize, Seq<char>)) -> bool {
    |a: (usize, Seq<char>), b: (usize, Seq<char>)| str_order(a.1, b.1) == Ordering::Greater
}

/// The first entry's text orders after the second's.
pub open spec fn sorter_greater<'a>() -> spec_fn((usize, &'a str), (usize, &'a str)) -> bool {
    |a: (usize, &'a str), b: (usize, &'a str)| str_order(a.1@, b.1@) == Ordering::Greater
}

/// The order visits each folder once, by ascending pathname text, folders whose pathnames
/// are the same text in the order of their positions.
pub open spec fn pathname_order_of(order: Seq<usize>, fnm: FoldersNoMatch) -> bool {
    &&& order == stable_sorted(pathname_pairs(fnm), pair_greater()).map_values(|p: (usize, Seq<char>)| p.0)
    &&& order.to_multiset() == indices(fnm.entries().len()).to_multiset()
    &&& forall|i: int, j: int|
        0 <= i && j == i + 1 && j < order.len() ==> str_order(
            entry_pathname(fnm, #[trigger] order[i]),
            entry_pathname(fnm, #[trigger] order[j]),
        ) != Ordering::Greater
}

/// The positions of a pathname sorter.
pub open spec fn sorter_positions<'a>(s: Seq<(usize, &'a str)>) -> Seq<usize> {
    s.map_values(|e: (usize, &'a str)| e.0)
}

impl FoldersNoMatch {
    /// Pairs each position with the pathname of its folder.
    fn pathname_sorter(&self) -> (r: Vec<(usize, &str)>)
        requires
            self.wf(),
        ensures
            sorter_positions(r@) == indices(self.entries().len()),
            forall|q: int| 0 <= q < r@.len() ==> (#[trigger] r@[q]).1@ == entry_pathname(*self, r@[q].0),
    {
        let mut sorter: Vec<(usize, &str)> = Vec::new();
        let mut i: usize = 0;
        while i < self.no_matches.len()
            invariant
                self.wf(),
                i <= self.entries().len(),
                sorter_positions(sorter@) == indices(i as nat),
                forall|q: int| 0 <= q < sorter@.len() ==> (#[trigger] sorter@[q]).1@ == entry_pathname(*self, sorter@[q].0),
            decreases self.entries().len() - i,
        {
            assert(self.folders().contains_key(self.entries()[i as int].id));
            let folder_md = self.folders_md.folder(self.no_matches[i].id);
            let ghost before = sorter@;
            sorter.push((i, folder_md.pathname.as_str()));
            assert(sorter_positions(sorter@) =~= sorter_positions(before).push(i));
            assert(indices((i + 1) as nat) =~= indices(i as nat).push(i));
            i = i + 1;
        }
        sorter
    }

    /// The positions of the sorter, in order.
    fn sorter_order(sorter: &Vec<(usize, &str)>) -> (r: Vec<usize>)
        ensures
            r@ == sorter_positions(sorter@),
    {
        let mut order: Vec<usize> = Vec::with_capacity(sorter.len());
        let mut i: usize = 0;
        while i < sorter.len()
            invariant
                i <= sorter@.len(),
                order@ == sorter_positions(sorter@.take(i as int)),
            decreases sorter.len() - i,
        {
            order.push(sorter[i].0);
            i = i + 1;
            assert(order@ =~= sorter_positions(sorter@.take(i as int)));
        }
        assert(sorter@.take(i as int) =~= sorter@);
        order
    }

    /// An iterator over the folders without a match, by ascending pathname text.
    pub fn iter(&self) -> (r: FoldersNoMatchIterator<'_>)
        requires
            self.wf(),
        ensures
            r.folders_no_match == self,
            r.index == 0,
            pathname_order_of(r.pathname_order@, *self),
    {
        let mut sorter = self.pathname_sorter();
        let ghost unsorted = sorter@;
        sort_sorter(&mut sorter);
        let pathname_order = Self::sorter_order(&sorter);
        proof {
            let view = |e: (usize, &str)| (e.0, e.1@);
            let first = |p: (usize, Seq<char>)| p.0;
            assert(unsorted.map_values(view) =~= pathname_pairs(*self)) by {
                assert forall|q: int| 0 <= q < unsorted.len() implies #[trigger] unsorted.map_values(view)[q] == pathname_pairs(*self)[q] by {
                    assert(sorter_positions(unsorted)[q] == indices(self.entries().len())[q]);
                }
            }
            lemma_stable_sorted_map(unsorted, view, sorter_greater(), pair_greater());
            assert(sorter@.map_values(view).map_values(first) =~= sorter_positions(sorter@));
        }
        proof {
            broadcast use vstd::seq_lib::group_to_multiset_ensures;
            lemma_map_multiset(sorter@, unsorted, |e: (usize, &str)| e.0);
            assert forall|i: int, j: int| 0 <= i && j == i + 1 && j < pathname_order@.len() implies str_order(
                entry_pathname(*self, #[trigger] pathname_order@[i]),
                entry_pathname(*self, #[trigger] pathname_order@[j]),
            ) != Ordering::Greater by {
                assert(sorter@.to_multiset().count(sorter@[i]) > 0);
                assert(unsorted.contains(sorter@[i]));
                assert(sorter@.to_multiset().count(sorter@[j]) > 0);
                assert(unsorted.contains(sorter@[j]));
            }
        }
        FoldersNoMatchIterator { folders_no_match: self, index: 0, pathname_order }
    }
}

/// Orders a pathname sorter by the pathname text.
fn sort_sorter(sorter: &mut Vec<(usize, &str)>)
    ensures
        final(sorter)@.to_multiset() == old(sorter)@.to_multiset(),
        final(sorter)@ == stable_sorted(old(sorter)@, sorter_greater()),
        forall|i: int, j: int| 0 <= i && j == i + 1 && j < final(sorter)@.len() ==> str_order((#[trigger] final(sorter)@[i]).1@, (#[trigger] final(sorter)@[j]).1@) != Ordering::Greater,
{
    let f = |a: &(usize, &str), b: &(usize, &str)| -> (r: Ordering)
        ensures
            r == str_order(a.1@, b.1@),
        { compare_str(a.1, b.1) };
    proof {
        assert forall|a: (usize, &str), b: (usize, &str)| #[trigger] never_greater(f, a, b) || #[trigger] never_greater(f, b, a) by {
            lemma_str_order(a.1@, b.1@, a.1@);
            if str_order(a.1@, b.1@) != Ordering::Greater {
                assert(never_greater(f, a, b));
            } else {
                assert(never_greater(f, b, a));
            }
        }
    }
    insertion_sort(sorter, f, Ghost(sorter_greater()));
    proof {
        assert forall|i: int, j: int| 0 <= i && j == i + 1 && j < sorter@.len() implies str_order((#[trigger] sorter@[i]).1@, (#[trigger] sorter@[j]).1@) != Ordering::Greater by {
            assert(answered_le(f, sorter@[i], sorter@[j]));
        }
    }
}

/// The traversal of the folders without a match, by ascending pathname text.
pub struct FoldersNoMatchIterator<'n> {
    /// The folders without a match.
    pub folders_no_match: &'n FoldersNoMatch,
    /// The position in the pathname order of the next folder.
    pub index: usize,
    /// The positions of the folders in ascending pathname order.
    pub pathname_order: Vec<usize>,
}

impl<'n> FoldersNoMatchIterator<'n> {
    /// The metadata of the next folder by pathname, `None` once all were given.
    pub fn next(&mut self) -> (r: Option<FolderNoMatchMd<'n>>)
        requires
            old(self).folders_no_match.wf(),
            pathname_order_of(old(self).pathname_order@, *old(self).folders_no_match),
        ensures
            final(self).folders_no_match == old(self).folders_no_match,
            final(self).pathname_order@ == old(self).pathname_order@,
            r is Some <==> old(self).index < old(self).pathname_order@.len(),
            r is Some ==> final(self).index == old(self).index + 1,
            r is None ==> final(self).index == old(self).index,
            r matches Some(md) ==> describes_no_match(md, *old(self).folders_no_match, old(self).pathname_order@[old(self).index as int]),
    {
        if self.index < self.pathname_order.len() {
            let k = self.pathname_order[self.index];
            proof {
                broadcast use vstd::seq_lib::group_to_multiset_ensures;
                let order = self.pathname_order@;
                assert(order.to_multiset().count(order[self.index as int]) > 0);
                assert(indices(self.folders_no_match.entries().len()).contains(k));
            }
            let md = self.folders_no_match.get_md(k);
            self.index = self.index + 1;
            md
        } else {
            None
        }
    }
}

} // verus!
