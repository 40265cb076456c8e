//! Filesystem metadata: the folders, files and problems collected from a folder hierarchy.
use crate::filematch::lemma_filter_push;
use crate::order::{lemma_path_order, path_order, paths_cmp};
use crate::sorting::{answered_le, never_greater, vsort_by};
use std::cmp::Ordering;
use vstd::prelude::*;

verus! {

/// The metadata associated with a folder.
pub struct FolderMetadata {
    /// The folder pathname.
    pub path: String,
    /// The folder disk space being used.
    pub size: u64,
    /// A timestamp of when the folder was created or 0 if not available.
    pub created: u64,
    /// A timestamp of when the folder was last modified or 0 if not available.
    pub modified: u64,
    /// The contents of the folder.
    pub children: Vec<FsMetadata>,
}

/// The metadata associated with a file.
pub struct FileMetadata {
    /// The file pathname.
    pub path: String,
    /// Indicates the file is a link to another filesystem item.
    pub is_symlink: bool,
    /// The file disk space being used.
    pub size: u64,
    /// A timestamp of when the file was created or 0 if not available.
    pub created: u64,
    /// A timestamp of when the file was last modified or 0 if not available.
    pub modified: u64,
}

/// The metadata for some problem, such as *access denied*, met collecting metadata for a
/// folder or file.
pub struct ProblemMetadata {
    /// The pathname of the folder or file.
    pub path: String,
    /// A description of what happened.
    pub description: String,
}

/// The type of filesystem metadata and the possible variants.
pub enum FsMetadata {
    /// Contains the metadata for a folder.
    Folder(FolderMetadata),
    /// Contains the metadata for a file.
    File(FileMetadata),
    /// Contains the metadata of some problem that occurred.
    Problem(ProblemMetadata),
}

/// The texts between the `/` separators of a pathname, in order; `a//b/` gives `a`, an empty
/// text, `b` and an empty text.
pub open spec fn segments(s: Seq<char>) -> Seq<Seq<char>>
    decreases s.len(),
{
    if s.len() == 0 {
        seq![Seq::<char>::empty()]
    } else {
        let prev = segments(s.drop_last());
        if s.last() == '/' {
            prev.push(Seq::<char>::empty())
        } else {
            prev.update(prev.len() - 1, prev.last().push(s.last()))
        }
    }
}

/// A segment that names a path component: neither empty nor `.`.
pub open spec fn named_segment(x: Seq<char>) -> bool {
    x.len() > 0 && x != seq!['.']
}

/// The segments of a pathname that name components.
pub open spec fn named_segments(segs: Seq<Seq<char>>) -> Seq<Seq<char>> {
    segs.filter(|x: Seq<char>| named_segment(x))
}

/// The final component of a pathname when it is a name, the way `Path::file_name` gives it;
/// empty when the pathname ends in `..` or has no named component.
pub open spec fn file_name_of(s: Seq<char>) -> Seq<char> {
    let named = named_segments(segments(s));
    if named.len() > 0 && named.last() != seq!['.', '.'] {
        named.last()
    } else {
        Seq::empty()
    }
}

proof fn lemma_segments_nonempty(s: Seq<char>)
    ensures
        segments(s).len() > 0,
    decreases s.len(),
{
    if s.len() > 0 {
        lemma_segments_nonempty(s.drop_last());
    }
}

/// Whether the text from `a` to `b` of the string is exactly `t`.
fn text_is(s: &str, a: usize, b: usize, t: &str) -> (r: bool)
    requires
        a <= b <= s@.len(),
    ensures
        r == (s@.subrange(a as int, b as int) == t@),
{
    let n = t.unicode_len();
    if b - a != n {
        return false;
    }
    let mut k: usize = 0;
    while k < n
        invariant
            n == t@.len(),
            b - a == n,
            a <= b <= s@.len(),
            k <= n,
            forall|q: int| 0 <= q < k ==> s@[a + q] == t@[q],
        decreases n - k,
    {
        if s.get_char(a + k) != t.get_char(k) {
            assert(s@.subrange(a as int, b as int)[k as int] != t@[k as int]);
            return false;
        }
        k = k + 1;
    }
    assert(s@.subrange(a as int, b as int) =~= t@);
    true
}

/// Retrieves the filename of a pathname: its final component when that is a name, otherwise
/// an empty text.
pub fn as_filename(path: &str) -> (r: String)
    ensures
        r@ == file_name_of(path@),
{
    let ghost s = path@;
    let n = path.unicode_len();
    let mut start: usize = 0;
    let mut best: Option<(usize, usize)> = None;
    let mut i: usize = 0;
    proof {
        reveal_strlit(".");
        reveal_strlit("..");
        reveal(Seq::filter);
        assert(s.take(0) =~= Seq::<char>::empty());
        assert(segments(s.take(0)) =~= seq![Seq::<char>::empty()]);
        assert(segments(s.take(0)).drop_last() =~= Seq::<Seq<char>>::empty());
        assert(named_segments(Seq::<Seq<char>>::empty()) =~= Seq::<Seq<char>>::empty());
    }
    while i < n
        invariant
            n == s.len(),
            s == path@,
            start <= i <= n,
            segments(s.take(i as int)).last() == s.subrange(start as int, i as int),
            match best {
                Some((a, b)) => a <= b <= start && named_segments(segments(s.take(i as int)).drop_last()).len() > 0
                    && named_segments(segments(s.take(i as int)).drop_last()).last() == s.subrange(a as int, b as int),
                None => named_segments(segments(s.take(i as int)).drop_last()).len() == 0,
            },
        decreases n - i,
    {
        let c = path.get_char(i);
        proof {
            reveal_strlit(".");
            assert("."@ =~= seq!['.']);
            lemma_segments_nonempty(s.take(i as int));
            assert(s.take(i + 1).drop_last() =~= s.take(i as int));
            assert(s.take(i + 1).last() == c);
        }
        if c == '/' {
            let dot = text_is(path, start, i, ".");
            proof {
                let prev = segments(s.take(i as int));
                let cur = prev.last();
                assert(segments(s.take(i + 1)) == prev.push(Seq::<char>::empty()));
                assert(segments(s.take(i + 1)).drop_last() =~= prev);
                assert(prev =~= prev.drop_last().push(cur));
                lemma_filter_push(prev.drop_last(), cur, |x: Seq<char>| named_segment(x));
            }
            if i > start && !dot {
                best = Some((start, i));
            }
            start = i + 1;
            proof {
                assert(s.subrange((i + 1) as int, (i + 1) as int) =~= Seq::<char>::empty());
            }
        } else {
            proof {
                let prev = segments(s.take(i as int));
                assert(segments(s.take(i + 1)) == prev.update(prev.len() - 1, prev.last().push(c)));
                assert(segments(s.take(i + 1)).drop_last() =~= prev.drop_last());
                assert(s.subrange(start as int, i + 1) =~= s.subrange(start as int, i as int).push(c));
            }
        }
        i = i + 1;
    }
    assert(s.take(i as int) =~= s);
    let dot = text_is(path, start, n, ".");
    let ghost segs = segments(s);
    proof {
        reveal_strlit(".");
        reveal_strlit("..");
        assert("."@ =~= seq!['.']);
        assert(".."@ =~= seq!['.', '.']);
        lemma_segments_nonempty(s);
        assert(segs =~= segs.drop_last().push(segs.last()));
        lemma_filter_push(segs.drop_last(), segs.last(), |x: Seq<char>| named_segment(x));
    }
    let last: Option<(usize, usize)> = if n > start && !dot {
        Some((start, n))
    } else {
        best
    };
    match last {
        Some((a, b)) => {
            if text_is(path, a, b, "..") {
                String::new()
            } else {
                let name = path.substring_char(a, b);
                String::from_str(name)
            }
        },
        None => String::new(),
    }
}

impl FolderMetadata {
    /// Returns the folder pathname.
    pub fn pathname(&self) -> (r: String)
        ensures
            r@ == self.path@,
    {
        self.path.clone()
    }

    /// Returns the folder filename.
    pub fn filename(&self) -> (r: String)
        ensures
            r@ == file_name_of(self.path@),
    {
        as_filename(self.path.as_str())
    }
}

impl FileMetadata {
    /// Returns the file pathname.
    pub fn pathname(&self) -> (r: String)
        ensures
            r@ == self.path@,
    {
        self.path.clone()
    }

    /// Returns the file filename.
    pub fn filename(&self) -> (r: String)
        ensures
            r@ == file_name_of(self.path@),
    {
        as_filename(self.path.as_str())
    }
}

impl ProblemMetadata {
    /// Returns the folder or file pathname.
    pub fn pathname(&self) -> (r: String)
        ensures
            r@ == self.path@,
    {
        self.path.clone()
    }
}

impl FsMetadata {
    /// The pathname of the metadata.
    pub open spec fn spec_path(&self) -> Seq<char> {
        match self {
            FsMetadata::Folder(f) => f.path@,
            FsMetadata::File(f) => f.path@,
            FsMetadata::Problem(p) => p.path@,
        }
    }

    /// Get the metadata pathname.
    pub fn path(&self) -> (r: &str)
        ensures
            r@ == self.spec_path(),
    {
        match self {
            FsMetadata::Folder(folder_metadata) => folder_metadata.path.as_str(),
            FsMetadata::File(file_metadata) => file_metadata.path.as_str(),
            FsMetadata::Problem(problem_metadata) => problem_metadata.path.as_str(),
        }
    }

    /// Identifies the metadata to be the `File` variant.
    pub fn is_file(&self) -> (r: bool)
        ensures
            r == self is File,
    {
        match self {
            FsMetadata::File(_) => true,
            _ => false,
        }
    }
}


/// The number of items of filesystem metadata: the item itself and, for a folder, all the
/// items it contains.
pub open spec fn node_count(m: FsMetadata) -> nat
    decreases m, 0nat,
{
    match m {
        FsMetadata::Folder(f) => 1 + children_count(f.children@),
        _ => 1,
    }
}

/// The number of items of a sequence of filesystem metadata, contents included.
pub open spec fn children_count(s: Seq<FsMetadata>) -> nat
    decreases s, s.len(),
{
    if s.len() == 0 {
        0
    } else {
        children_count(s.drop_last()) + node_count(s.last())
    }
}

proof fn lemma_children_count_prefix(s: Seq<FsMetadata>, i: int)
    requires
        0 <= i < s.len(),
    ensures
        children_count(s.take(i + 1)) == children_count(s.take(i)) + node_count(s[i]),
        children_count(s.take(i + 1)) <= children_count(s),
    decreases s.len(),
{
    assert(s.take(i + 1).drop_last() =~= s.take(i));
    assert(s.take(i + 1).last() == s[i]);
    if i + 1 < s.len() {
        assert(s.drop_last().take(i + 1) =~= s.take(i + 1));
        assert(s.drop_last()[i] == s[i]);
        lemma_children_count_prefix(s.drop_last(), i);
    } else {
        assert(s.take(i + 1) =~= s);
    }
}

/// Adds to `count` the number of items of the metadata, contents included.
fn count_into(fs_node: &FsMetadata, count: &mut i64)
    requires
        *old(count) >= 0,
        *old(count) + node_count(*fs_node) <= i64::MAX,
    ensures
        *final(count) == *old(count) + node_count(*fs_node),
    decreases fs_node,
{
    *count = *count + 1;
    if let FsMetadata::Folder(folder_metadata) = fs_node {
        let ghost start = *count;
        let mut i: usize = 0;
        proof {
            assert(folder_metadata.children@.take(0) =~= Seq::<FsMetadata>::empty());
        }
        while i < folder_metadata.children.len()
            invariant
                *fs_node == FsMetadata::Folder(*folder_metadata),
                i <= folder_metadata.children@.len(),
                start >= 0,
                start + children_count(folder_metadata.children@) <= i64::MAX,
                *count == start + children_count(folder_metadata.children@.take(i as int)),
            decreases folder_metadata.children.len() - i,
        {
            proof {
                lemma_children_count_prefix(folder_metadata.children@, i as int);
                assert(decreases_to!(*fs_node => fs_node->Folder_0));
                assert(fs_node->Folder_0 == *folder_metadata);
                assert(decreases_to!(*folder_metadata => folder_metadata.children));
                assert(decreases_to!(folder_metadata.children => folder_metadata.children@));
                assert(decreases_to!(folder_metadata.children@ => folder_metadata.children@[i as int]));
            }
            count_into(&folder_metadata.children[i], count);
            i = i + 1;
        }
        assert(folder_metadata.children@.take(i as int) =~= folder_metadata.children@);
    }
}

/// Count the items contained by the filesystem metadata, the metadata itself included.
pub fn count_metadata(fs_metadata: &FsMetadata) -> (r: i64)
    requires
        node_count(*fs_metadata) <= i64::MAX,
    ensures
        r == node_count(*fs_metadata),
{
    let mut count: i64 = 0;
    count_into(fs_metadata, &mut count);
    count
}

/// The items are in ascending order of their pathnames, compared component by component as
/// `Path` compares them.
pub open spec fn ordered_by_path(items: Seq<FsMetadata>) -> bool {
    forall|i: int, j: int|
        0 <= i && j == i + 1 && j < items.len() ==> path_order(
            (#[trigger] items[i]).spec_path(),
            (#[trigger] items[j]).spec_path(),
        ) != Ordering::Greater
}

/// Orders the contents of a folder by their pathnames, keeping the same contents.
pub fn sort_by_path(children: &mut Vec<FsMetadata>)
    ensures
        final(children)@.to_multiset() == old(children)@.to_multiset(),
        ordered_by_path(final(children)@),
{
    let f = |a: &FsMetadata, b: &FsMetadata| -> (r: Ordering)
        ensures
            r == path_order(a.spec_path(), b.spec_path()),
        { paths_cmp(a.path(), b.path()) };
    proof {
        assert forall|a: FsMetadata, b: FsMetadata| #[trigger] never_greater(f, a, b) || #[trigger] never_greater(f, b, a) by {
            lemma_path_order(a.spec_path(), b.spec_path(), a.spec_path());
            if path_order(a.spec_path(), b.spec_path()) != Ordering::Greater {
                assert(never_greater(f, a, b));
            } else {
                assert(never_greater(f, b, a));
            }
        }
    }
    vsort_by(children, f);
    proof {
        assert forall|i: int, j: int| 0 <= i && j == i + 1 && j < children@.len() implies path_order(
            (#[trigger] children@[i]).spec_path(),
            (#[trigger] children@[j]).spec_path(),
        ) != Ordering::Greater by {
            assert(answered_le(f, children@[i], children@[j]));
        }
    }
}

/// The text of the metadata: its kind and its pathname.
pub open spec fn metadata_text(m: FsMetadata) -> Seq<char> {
    match m {
        FsMetadata::Folder(f) => "Folder("@ + f.path@ + ")"@,
        FsMetadata::File(f) => "File("@ + f.path@ + ")"@,
        FsMetadata::Problem(p) => "Problem("@ + p.path@ + ")"@,
    }
}

impl FsMetadata {
    /// The kind of the metadata and its pathname, as `Folder(pathname)`, `File(pathname)` or
    /// `Problem(pathname)`.
    pub fn text(&self) -> (r: String)
        ensures
            r@ == metadata_text(*self),
    {
        match self {
            FsMetadata::Folder(folder_md) => String::from_str("Folder(").concat(folder_md.path.as_str()).concat(")"),
            FsMetadata::File(file_md) => String::from_str("File(").concat(file_md.path.as_str()).concat(")"),
            FsMetadata::Problem(problem_md) => String::from_str("Problem(").concat(problem_md.path.as_str()).concat(
                ")",
            ),
        }
    }
}

} // verus!
