//! The folders of the duplicate folder analysis, looked up by their identifier.
use crate::analysis::{folder_files, folders_hold_file, has_file_named};
use crate::filematch::distinct_file_ids;
use crate::groupid::FolderGroupId;
use crate::objects::FolderMd;
use crate::order::{lemma_path_order, path_order, paths_cmp};
use crate::sorting::{answered_le, insertion_sort, never_greater, stable_sorted};
use std::cmp::Ordering;
use std::collections::HashMap;
use vstd::prelude::*;

verus! {

broadcast use vstd::std_specs::hash::group_hash_axioms;

/// No folder's pathname orders after the pathname of the folder that follows it.
pub open spec fn pathname_ordered(folders: Seq<&FolderMd>) -> bool {
    forall|i: int, j: int|
        0 <= i && j == i + 1 && j < folders.len() ==> path_order(
            (#[trigger] folders[i]).pathname@,
            (#[trigger] folders[j]).pathname@,
        ) != Ordering::Greater
}

/// The folders that `ids` identify, in the order of `ids`.
pub open spec fn folders_of<'a>(m: &'a Map<i64, FolderMd>, ids: Seq<i64>) -> Seq<&'a FolderMd> {
    ids.map_values(|id: i64| &m[id])
}

/// Every identifier of `ids` names a folder of `m`.
pub open spec fn all_known(m: Map<i64, FolderMd>, ids: Seq<i64>) -> bool {
    forall|i: int| 0 <= i < ids.len() ==> m.contains_key(#[trigger] ids[i])
}

/// Each folder of `m` is filed under its own identifier.
pub open spec fn filed_by_id(m: Map<i64, FolderMd>) -> bool {
    forall|k: i64| #[trigger] m.contains_key(k) ==> m[k].id == k
}

/// The first folder's pathname orders after the second's.
pub open spec fn pathname_greater<'a>() -> spec_fn(&'a FolderMd, &'a FolderMd) -> bool {
    |a: &'a FolderMd, b: &'a FolderMd| path_order(a.pathname@, b.pathname@) == Ordering::Greater
}

/// The first entry's folder pathname orders after the second's.
pub open spec fn entry_pathname_greater<'a, T>() -> spec_fn((&'a FolderMd, T), (&'a FolderMd, T)) -> bool {
    |a: (&'a FolderMd, T), b: (&'a FolderMd, T)| path_order(a.0.pathname@, b.0.pathname@) == Ordering::Greater
}

/// `folders` are the folders that `ids` identify, ordered by pathname, folders whose
/// pathnames compare equal keeping the order of `ids`.
pub open spec fn group_folders(folders: Seq<&FolderMd>, m: Map<i64, FolderMd>, ids: Seq<i64>) -> bool {
    &&& folders.to_multiset() == folders_of(&m, ids).to_multiset()
    &&& pathname_ordered(folders)
    &&& folders == stable_sorted(folders_of(&m, ids), pathname_greater())
}

/// A reordering of folders that each hold a file named `name`, no two files sharing an
/// identifier, keeps that property.
pub proof fn lemma_permuted_hold_file(s: Seq<&FolderMd>, t: Seq<&FolderMd>, name: Seq<char>)
    requires
        s.to_multiset() == t.to_multiset(),
        folders_hold_file(t, name),
    ensures
        folders_hold_file(s, name),
{
    broadcast use vstd::seq_lib::group_to_multiset_ensures;

    let ft = folder_files(t, name);
    let fs = folder_files(s, name);
    assert forall|k: int| 0 <= k < s.len() implies has_file_named(*#[trigger] s[k], name) by {
        assert(s.to_multiset().count(s[k]) > 0);
        assert(t.contains(s[k]));
        let i = choose|i: int| 0 <= i < t.len() && t[i] == s[k];
        assert(has_file_named(*t[i], name));
    }
    assert(t.no_duplicates()) by {
        assert forall|i: int, j: int| 0 <= i < t.len() && 0 <= j < t.len() && i != j implies t[i] != t[j] by {
            if i < j {
                assert(ft[i].id != ft[j].id);
            } else {
                assert(ft[j].id != ft[i].id);
            }
        }
    }
    t.lemma_multiset_has_no_duplicates();
    s.lemma_multiset_has_no_duplicates_conv();
    assert forall|p: int, q: int| 0 <= p < q < fs.len() implies (#[trigger] fs[p]).id != (#[trigger] fs[q]).id by {
        assert(s.to_multiset().count(s[p]) > 0);
        assert(s.to_multiset().count(s[q]) > 0);
        assert(t.contains(s[p]));
        assert(t.contains(s[q]));
        let i = choose|i: int| 0 <= i < t.len() && t[i] == s[p];
        let j = choose|j: int| 0 <= j < t.len() && t[j] == s[q];
        assert(s[p] != s[q]);
        assert(fs[p] == ft[i]);
        assert(fs[q] == ft[j]);
        if i < j {
            assert(ft[i].id != ft[j].id);
        } else {
            assert(ft[j].id != ft[i].id);
        }
    }
}

/// The folders of the duplicate folders metadata, each filed under its identifier.
pub struct FoldersMd {
    folders: HashMap<i64, FolderMd>,
}

impl View for FoldersMd {
    type V = Map<i64, FolderMd>;

    closed spec fn view(&self) -> Map<i64, FolderMd> {
        self.folders@
    }
}

impl FoldersMd {
    /// Each folder is filed under its own identifier.
    pub open spec fn wf(&self) -> bool {
        filed_by_id(self@)
    }

    /// Creates an empty collection.
    pub fn new() -> (r: Self)
        ensures
            r@ == Map::<i64, FolderMd>::empty(),
            r.wf(),
    {
        FoldersMd { folders: HashMap::new() }
    }

    /// Adds a folder, giving back the folder it replaces when one has the same identifier.
    pub fn add(&mut self, folder_md: FolderMd) -> (r: Option<FolderMd>)
        requires
            old(self).wf(),
        ensures
            final(self).wf(),
            final(self)@ == old(self)@.insert(folder_md.id, folder_md),
            match r {
                Some(f) => old(self)@.contains_key(folder_md.id) && f == old(self)@[folder_md.id],
                None => !old(self)@.contains_key(folder_md.id),
            },
    {
        let id = folder_md.id;
        let r = self.folders.insert(id, folder_md);
        assert forall|k: i64| #[trigger] self@.contains_key(k) implies self@[k].id == k by {
            if k != id {
                assert(old(self)@.contains_key(k));
            }
        }
        r
    }

    /// The folder with the identifier, if there is one.
    pub fn get(&self, id: &i64) -> (r: Option<&FolderMd>)
        ensures
            match r {
                Some(f) => self@.contains_key(*id) && *f == self@[*id],
                None => !self@.contains_key(*id),
            },
    {
        self.folders.get(id)
    }

    /// The folder with the identifier, which the collection holds.
    pub fn folder(&self, id: i64) -> (r: &FolderMd)
        requires
            self@.contains_key(id),
        ensures
            *r == self@[id],
    {
        match self.folders.get(&id) {
            Some(f) => f,
            None => vstd::pervasive::unreached(),
        }
    }

    /// The folders that the identifiers name, in the order of the identifiers.
    pub fn folders_by_ids(&self, ids: &Vec<i64>) -> (r: Vec<&FolderMd>)
        requires
            all_known(self@, ids@),
        ensures
            r@ == folders_of(&self@, ids@),
    {
        let mut group: Vec<&FolderMd> = Vec::new();
        let mut i: usize = 0;
        while i < ids.len()
            invariant
                all_known(self@, ids@),
                i <= ids@.len(),
                group@ == folders_of(&self@, ids@.take(i as int)),
            decreases ids.len() - i,
        {
            let folder_md = self.folder(ids[i]);
            group.push(folder_md);
            i = i + 1;
            assert(group@ =~= folders_of(&self@, ids@.take(i as int)));
        }
        assert(ids@.take(i as int) =~= ids@);
        group
    }

    /// The folders of a folder group, ordered by their pathname.
    pub fn get_group(&self, fgid: &FolderGroupId) -> (r: Vec<&FolderMd>)
        requires
            all_known(self@, fgid@),
        ensures
            group_folders(r@, self@, fgid@),
    {
        let mut group = self.folders_by_ids(fgid.ids());
        sort_by_pathname(&mut group);
        group
    }
}

/// Orders folders by their pathname, folders whose pathnames compare equal keeping their
/// order.
pub fn sort_by_pathname(folders: &mut Vec<&FolderMd>)
    ensures
        final(folders)@.to_multiset() == old(folders)@.to_multiset(),
        pathname_ordered(final(folders)@),
        final(folders)@ == stable_sorted(old(folders)@, pathname_greater()),
{
    let by_pathname = |lhs: &&FolderMd, rhs: &&FolderMd| -> (o: Ordering)
        ensures
            o == path_order(lhs.pathname@, rhs.pathname@),
        { paths_cmp(lhs.pathname.as_str(), rhs.pathname.as_str()) };
    proof {
        assert forall|a: &FolderMd, b: &FolderMd| #[trigger]
            never_greater(by_pathname, a, b) || #[trigger] never_greater(by_pathname, b, a) by {
            lemma_path_order(a.pathname@, b.pathname@, a.pathname@);
            if path_order(a.pathname@, b.pathname@) != Ordering::Greater {
                assert(never_greater(by_pathname, a, b));
            } else {
                assert(never_greater(by_pathname, b, a));
            }
        }
    }
    insertion_sort(folders, by_pathname, Ghost(pathname_greater()));
    proof {
        assert forall|i: int, j: int| 0 <= i && j == i + 1 && j < folders@.len() implies path_order(
            (#[trigger] folders@[i]).pathname@,
            (#[trigger] folders@[j]).pathname@,
        ) != Ordering::Greater by {
            assert(answered_le(by_pathname, folders@[i], folders@[j]));
        }
    }
}


/// The folders of a list of entries keyed by folder.
pub open spec fn entry_folders<'a, T>(entries: Seq<(&'a FolderMd, T)>) -> Seq<&'a FolderMd> {
    entries.map_values(|e: (&'a FolderMd, T)| e.0)
}

/// Orders entries keyed by folder by the folder pathname, entries whose folder pathnames
/// compare equal keeping their order.
pub fn sort_by_folder_pathname<T>(entries: &mut Vec<(&FolderMd, T)>)
    ensures
        final(entries)@.to_multiset() == old(entries)@.to_multiset(),
        pathname_ordered(entry_folders(final(entries)@)),
        final(entries)@ == stable_sorted(old(entries)@, entry_pathname_greater()),
{
    let by_pathname = |lhs: &(&FolderMd, T), rhs: &(&FolderMd, T)| -> (o: Ordering)
        ensures
            o == path_order(lhs.0.pathname@, rhs.0.pathname@),
        { paths_cmp(lhs.0.pathname.as_str(), rhs.0.pathname.as_str()) };
    proof {
        assert forall|a: (&FolderMd, T), b: (&FolderMd, T)| #[trigger]
            never_greater(by_pathname, a, b) || #[trigger] never_greater(by_pathname, b, a) by {
            lemma_path_order(a.0.pathname@, b.0.pathname@, a.0.pathname@);
            if path_order(a.0.pathname@, b.0.pathname@) != Ordering::Greater {
                assert(never_greater(by_pathname, a, b));
            } else {
                assert(never_greater(by_pathname, b, a));
            }
        }
    }
    insertion_sort(entries, by_pathname, Ghost(entry_pathname_greater()));
    proof {
        let folders = entry_folders(entries@);
        assert forall|i: int, j: int| 0 <= i && j == i + 1 && j < folders.len() implies path_order(
            (#[trigger] folders[i]).pathname@,
            (#[trigger] folders[j]).pathname@,
        ) != Ordering::Greater by {
            assert(answered_le(by_pathname, entries@[i], entries@[j]));
        }
    }
}

} // verus!
