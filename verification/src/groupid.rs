//! Folder group identifiers: the ascending identifiers of a group of folders.
use crate::objects::{DuplicateIds, FileMd, FolderMd};
use crate::order::{compare_ids, ids_order, lemma_ids_order};
use crate::sorting::{ord_is_total, vsort};
use std::cmp::Ordering;
use vstd::prelude::*;
use vstd::std_specs::cmp::OrdSpec;
use vstd::relations::{sorted_by, total_ordering};

verus! {

/// The ascending order of identifiers.
pub open spec fn id_le() -> spec_fn(i64, i64) -> bool {
    |a: i64, b: i64| a <= b
}

/// The identifiers in ascending order.
pub open spec fn sorted_ids(ids: Seq<i64>) -> Seq<i64> {
    ids.sort_by(id_le())
}

/// A collection of folder ids used to identify a group of folders.
#[derive(Debug, PartialEq, Hash, Eq, PartialOrd, Ord)]
pub struct FolderGroupId(Vec<i64>);

impl View for FolderGroupId {
    type V = Seq<i64>;

    closed spec fn view(&self) -> Seq<i64> {
        self.0@
    }
}

pub proof fn lemma_i64_ord_total()
    ensures
        ord_is_total::<i64>(),
        total_ordering(id_le()),
{
}

/// A sequence whose neighbours are in ascending order is in ascending order.
pub proof fn lemma_adjacent_sorted(s: Seq<i64>)
    requires
        forall|i: int, j: int| 0 <= i && j == i + 1 && j < s.len() ==> #[trigger] s[i] <= #[trigger] s[j],
    ensures
        sorted_by(s, id_le()),
    decreases s.len(),
{
    if s.len() > 1 {
        let t = s.drop_last();
        assert forall|i: int, j: int| 0 <= i && j == i + 1 && j < t.len() implies #[trigger] t[i] <= #[trigger] t[j] by {
            assert(s[i] <= s[j]);
        }
        lemma_adjacent_sorted(t);
        assert forall|i: int, j: int| 0 <= i < j < s.len() implies #[trigger] id_le()(s[i], s[j]) by {
            if j < s.len() - 1 {
                assert(id_le()(t[i], t[j]));
            } else if i < j - 1 {
                assert(id_le()(t[i], t[j - 1]));
                assert(s[j - 1] <= s[j]);
            } else {
                assert(s[j - 1] <= s[j]);
            }
        }
    }
}

/// Sorts identifiers into ascending order.
pub fn sort_ids(ids: &mut Vec<i64>)
    ensures
        final(ids)@ == sorted_ids(old(ids)@),
{
    let ghost orig = ids@;
    proof {
        lemma_i64_ord_total();
    }
    vsort(ids);
    proof {
        assert forall|i: int, j: int| 0 <= i && j == i + 1 && j < ids@.len() implies #[trigger] ids@[i]
            <= #[trigger] ids@[j] by {
            assert(ids@[i].cmp_spec(&ids@[j]) != Ordering::Greater);
        }
        lemma_adjacent_sorted(ids@);
        orig.lemma_sort_by_ensures(id_le());
        vstd::seq_lib::lemma_sorted_unique(ids@, orig.sort_by(id_le()), id_le());
    }
}

impl FolderGroupId {
    /// Creates the folder group identifier, its identifiers sorted in ascending order.
    pub fn new(folder_ids: Vec<i64>) -> (r: Self)
        ensures
            r@ == sorted_ids(folder_ids@),
    {
        let mut folder_ids = folder_ids;
        sort_ids(&mut folder_ids);
        FolderGroupId(folder_ids)
    }

    /// The folder identifiers of the group, in ascending order.
    pub fn ids(&self) -> (r: &Vec<i64>)
        ensures
            r@ == self@,
    {
        &self.0
    }

    /// Compares two folder group identifiers lexicographically.
    pub fn compare(&self, other: &FolderGroupId) -> (r: Ordering)
        ensures
            r == ids_order(self@, other@),
    {
        compare_ids(self.0.as_slice(), other.0.as_slice())
    }

    /// Whether two folder group identifiers hold the same identifiers.
    pub fn same_as(&self, other: &FolderGroupId) -> (r: bool)
        ensures
            r == (self@ == other@),
    {
        proof {
            lemma_ids_order(self@, other@, self@);
        }
        match self.compare(other) {
            Ordering::Equal => true,
            _ => false,
        }
    }

    /// Creates a copy of the folder group identifier.
    pub fn duplicate(&self) -> (r: Self)
        ensures
            r@ == self@,
    {
        let mut folder_ids: Vec<i64> = Vec::new();
        let mut i: usize = 0;
        while i < self.0.len()
            invariant
                i <= self.0.len(),
                folder_ids@ == self.0@.subrange(0, i as int),
            decreases self.0.len() - i,
        {
            folder_ids.push(self.0[i]);
            i = i + 1;
            assert(folder_ids@ =~= self.0@.subrange(0, i as int));
        }
        assert(self.0@.subrange(0, i as int) =~= self.0@);
        FolderGroupId(folder_ids)
    }

    /// Creates a folder group identifier from the folder ids of duplicate file ids.
    pub fn from_duplicate_ids(duplicate_ids: &DuplicateIds) -> (r: Self)
        ensures
            r@ == sorted_ids(duplicate_ids.folder_ids()),
    {
        let mut folder_ids: Vec<i64> = Vec::new();
        let mut i: usize = 0;
        while i < duplicate_ids.ids.len()
            invariant
                i <= duplicate_ids.ids.len(),
                folder_ids@ == duplicate_ids.ids@.subrange(0, i as int).map_values(
                    |p: (i64, i64)| p.0,
                ),
            decreases duplicate_ids.ids.len() - i,
        {
            folder_ids.push(duplicate_ids.ids[i].0);
            i = i + 1;
            assert(folder_ids@ =~= duplicate_ids.ids@.subrange(0, i as int).map_values(
                |p: (i64, i64)| p.0,
            ));
        }
        assert(duplicate_ids.ids@.subrange(0, i as int) =~= duplicate_ids.ids@);
        Self::new(folder_ids)
    }

    /// Creates a folder group identifier from the parent ids of file metadata.
    pub fn from_files(file_mds: Vec<&FileMd>) -> (r: Self)
        ensures
            r@ == sorted_ids(file_mds@.map_values(|f: &FileMd| f.parent_id)),
    {
        let mut folder_ids: Vec<i64> = Vec::new();
        let mut i: usize = 0;
        while i < file_mds.len()
            invariant
                i <= file_mds.len(),
                folder_ids@ == file_mds@.subrange(0, i as int).map_values(|f: &FileMd| f.parent_id),
            decreases file_mds.len() - i,
        {
            folder_ids.push(file_mds[i].parent_id);
            i = i + 1;
            assert(folder_ids@ =~= file_mds@.subrange(0, i as int).map_values(
                |f: &FileMd| f.parent_id,
            ));
        }
        assert(file_mds@.subrange(0, i as int) =~= file_mds@);
        Self::new(folder_ids)
    }

    /// Creates a folder group identifier from the ids of a collection of folders.
    pub fn from_folders(folder_mds: &Vec<&FolderMd>) -> (r: Self)
        ensures
            r@ == sorted_ids(folder_mds@.map_values(|f: &FolderMd| f.id)),
    {
        let mut folder_ids: Vec<i64> = Vec::new();
        let mut i: usize = 0;
        while i < folder_mds.len()
            invariant
                i <= folder_mds.len(),
                folder_ids@ == folder_mds@.subrange(0, i as int).map_values(|f: &FolderMd| f.id),
            decreases folder_mds.len() - i,
        {
            folder_ids.push(folder_mds[i].id);
            i = i + 1;
            assert(folder_ids@ =~= folder_mds@.subrange(0, i as int).map_values(
                |f: &FolderMd| f.id,
            ));
        }
        assert(folder_mds@.subrange(0, i as int) =~= folder_mds@);
        Self::new(folder_ids)
    }
}

} // verus!
