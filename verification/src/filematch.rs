//! Matching files that share a filename: files of equal size are taken to be copies.
use crate::objects::FileMd;
use vstd::prelude::*;

verus! {

/// The files of `files` whose size is `size`, in their original order.
pub open spec fn files_of_size(files: Seq<&FileMd>, size: u64) -> Seq<&FileMd> {
    files.filter(|f: &FileMd| f.size == size)
}

/// No file before position `k` has the size of the file at position `k`.
pub open spec fn first_of_size(files: Seq<&FileMd>, k: int) -> bool {
    forall|j: int| 0 <= j < k ==> (#[trigger] files[j]).size != files[k].size
}

/// The groups of matching files among the first `n` files: one group per file size that
/// occurs at least twice, holding all the files of that size in their original order, the
/// groups ordered by the first occurrence of their size.
pub open spec fn match_groups(files: Seq<&FileMd>, n: int) -> Seq<Seq<&FileMd>>
    decreases n,
{
    if n <= 0 {
        Seq::empty()
    } else {
        let groups = match_groups(files, n - 1);
        let size = files[n - 1].size;
        if first_of_size(files, n - 1) && files_of_size(files, size).len() >= 2 {
            groups.push(files_of_size(files, size))
        } else {
            groups
        }
    }
}

/// The files whose size no other file shares, in their original order.
pub open spec fn unmatched_files(files: Seq<&FileMd>) -> Seq<&FileMd> {
    files.filter(|f: &FileMd| files_of_size(files, f.size).len() == 1)
}

/// No two files carry the same identifier.
pub open spec fn distinct_file_ids(files: Seq<&FileMd>) -> bool {
    forall|i: int, j: int| 0 <= i < j < files.len() ==> (#[trigger] files[i]).id != (#[trigger] files[j]).id
}

/// A size is settled once a file of that size before position `i` has a copy.
pub open spec fn settled(files: Seq<&FileMd>, i: int, size: u64) -> bool {
    exists|k: int| 0 <= k < i && (#[trigger] files[k]).size == size && files_of_size(files, size).len() >= 2
}

pub proof fn lemma_filter_push<A>(s: Seq<A>, x: A, p: spec_fn(A) -> bool)
    ensures
        s.push(x).filter(p) == (if p(x) {
            s.filter(p).push(x)
        } else {
            s.filter(p)
        }),
{
    reveal(Seq::filter);
    assert(s.push(x).drop_last() =~= s);
}

pub proof fn lemma_filter_contains<A>(s: Seq<A>, p: spec_fn(A) -> bool, i: int)
    requires
        0 <= i < s.len(),
        p(s[i]),
    ensures
        s.filter(p).len() >= 1,
    decreases s.len(),
{
    reveal(Seq::filter);
    if i == s.len() - 1 {
    } else {
        lemma_filter_contains(s.drop_last(), p, i);
    }
}

pub proof fn lemma_filter_two<A>(s: Seq<A>, p: spec_fn(A) -> bool, i: int, j: int)
    requires
        0 <= i < j < s.len(),
        p(s[i]),
        p(s[j]),
    ensures
        s.filter(p).len() >= 2,
    decreases s.len(),
{
    reveal(Seq::filter);
    if j == s.len() - 1 {
        lemma_filter_contains(s.drop_last(), p, i);
    } else {
        lemma_filter_two(s.drop_last(), p, i, j);
    }
}

/// The files of a size, when none comes before position `i`, are those from position `i` on.
pub proof fn lemma_size_from(files: Seq<&FileMd>, i: int, size: u64)
    requires
        0 <= i <= files.len(),
        forall|j: int| 0 <= j < i ==> (#[trigger] files[j]).size != size,
    ensures
        files_of_size(files, size) == files.subrange(i, files.len() as int).filter(
            |f: &FileMd| f.size == size,
        ),
{
    let p = |f: &FileMd| f.size == size;
    let pre = files.subrange(0, i);
    let post = files.subrange(i, files.len() as int);
    assert(files =~= pre + post);
    Seq::filter_distributes_over_add(pre, post, p);
    pre.lemma_all_neg_filter_empty(p);
    assert(pre.filter(p) =~= Seq::empty());
    assert(pre.filter(p) + post.filter(p) =~= post.filter(p));
}

/// Whether the identifier list holds an identifier.
pub fn contains_id(ids: &Vec<i64>, id: i64) -> (r: bool)
    ensures
        r == ids@.contains(id),
{
    let mut i: usize = 0;
    while i < ids.len()
        invariant
            i <= ids.len(),
            forall|j: int| 0 <= j < i ==> ids@[j] != id,
        decreases ids.len() - i,
    {
        if ids[i] == id {
            return true;
        }
        i = i + 1;
    }
    false
}

/// The identifiers of files.
pub open spec fn file_ids(files: Seq<&FileMd>) -> Seq<i64> {
    files.map_values(|f: &FileMd| f.id)
}

/// `matched` holds exactly the identifiers of the files whose size is settled before `i`.
pub open spec fn matched_state(files: Seq<&FileMd>, i: int, matched: Seq<i64>) -> bool {
    forall|j: int|
        0 <= j < files.len() ==> (matched.contains((#[trigger] files[j]).id) <==> settled(
            files,
            i,
            files[j].size,
        ))
}

/// Skipping a file whose size is settled changes neither the settled sizes nor the groups.
proof fn lemma_skip_settled(files: Seq<&FileMd>, i: int, matched: Seq<i64>)
    requires
        0 <= i < files.len(),
        matched_state(files, i, matched),
        settled(files, i, files[i].size),
    ensures
        matched_state(files, i + 1, matched),
        match_groups(files, i + 1) == match_groups(files, i),
{
    let size = files[i].size;
    let k = choose|k: int|
        0 <= k < i && (#[trigger] files[k]).size == size && files_of_size(files, size).len() >= 2;
    assert(!first_of_size(files, i));
    assert forall|j: int| 0 <= j < files.len() implies (matched.contains((#[trigger] files[j]).id)
        <==> settled(files, i + 1, files[j].size)) by {
        if settled(files, i + 1, files[j].size) {
            let k2 = choose|k2: int|
                0 <= k2 < i + 1 && (#[trigger] files[k2]).size == files[j].size && files_of_size(
                    files,
                    files[j].size,
                ).len() >= 2;
            if k2 == i {
                assert(files[k].size == files[j].size);
            }
            assert(settled(files, i, files[j].size));
        }
    }
}

/// A file whose size is not settled is the first of its size, and the files of its size
/// all come from its position on.
proof fn lemma_unsettled_first(files: Seq<&FileMd>, i: int)
    requires
        0 <= i < files.len(),
        !settled(files, i, files[i].size),
    ensures
        first_of_size(files, i),
        files_of_size(files, files[i].size) == files.subrange(i, files.len() as int).filter(
            |f: &FileMd| f.size == files[i].size,
        ),
{
    let size = files[i].size;
    let p = |f: &FileMd| f.size == size;
    assert forall|j: int| 0 <= j < i implies (#[trigger] files[j]).size != size by {
        if files[j].size == size {
            lemma_filter_two(files, p, j, i);
            assert(settled(files, i, size));
        }
    }
    lemma_size_from(files, i, size);
}

/// The settled sizes and the groups after a new group of matching files.
proof fn lemma_new_group(files: Seq<&FileMd>, i: int, matched: Seq<i64>, group: Seq<&FileMd>)
    requires
        0 <= i < files.len(),
        distinct_file_ids(files),
        matched_state(files, i, matched),
        !settled(files, i, files[i].size),
        group == files_of_size(files, files[i].size),
        group.len() >= 2,
    ensures
        matched_state(files, i + 1, matched + file_ids(group)),
        match_groups(files, i + 1) == match_groups(files, i).push(group),
{
    let size = files[i].size;
    let p = |f: &FileMd| f.size == size;
    lemma_unsettled_first(files, i);
    let m2 = matched + file_ids(group);
    assert forall|j: int| 0 <= j < files.len() implies (m2.contains((#[trigger] files[j]).id)
        <==> settled(files, i + 1, files[j].size)) by {
        if files[j].size == size {
            files.lemma_filter_contains(p, j);
            assert(group.contains(files[j]));
            let q = choose|q: int| 0 <= q < group.len() && group[q] == files[j];
            assert(file_ids(group)[q] == files[j].id);
            assert(m2[matched.len() + q] == files[j].id);
            assert(settled(files, i + 1, size));
        } else {
            if m2.contains(files[j].id) && !matched.contains(files[j].id) {
                let w = choose|w: int| 0 <= w < m2.len() && m2[w] == files[j].id;
                let q = w - matched.len();
                assert(file_ids(group)[q] == group[q].id);
                files.lemma_filter_pred(p, q);
                assert(group.contains(group[q]));
                files.lemma_filter_contains_rev(p, group[q]);
                assert(files.filter(p).contains(group[q]));
                let m = choose|m: int| 0 <= m < files.len() && files[m] == group[q];
                assert(files[m].id == files[j].id);
                assert(m == j);
            }
            if settled(files, i + 1, files[j].size) {
                let k2 = choose|k2: int|
                    0 <= k2 < i + 1 && (#[trigger] files[k2]).size == files[j].size && files_of_size(
                        files,
                        files[j].size,
                    ).len() >= 2;
                assert(settled(files, i, files[j].size));
            }
            if matched.contains(files[j].id) {
                assert(m2[matched.index_of(files[j].id)] == files[j].id);
            }
        }
    }
}

/// The settled sizes and the groups after a file without a copy.
proof fn lemma_single(files: Seq<&FileMd>, i: int, matched: Seq<i64>)
    requires
        0 <= i < files.len(),
        matched_state(files, i, matched),
        !settled(files, i, files[i].size),
        files_of_size(files, files[i].size).len() < 2,
    ensures
        matched_state(files, i + 1, matched),
        match_groups(files, i + 1) == match_groups(files, i),
{
    assert forall|j: int| 0 <= j < files.len() implies (matched.contains((#[trigger] files[j]).id)
        <==> settled(files, i + 1, files[j].size)) by {
        if settled(files, i + 1, files[j].size) {
            let k2 = choose|k2: int|
                0 <= k2 < i + 1 && (#[trigger] files[k2]).size == files[j].size && files_of_size(
                    files,
                    files[j].size,
                ).len() >= 2;
            assert(settled(files, i, files[j].size));
        }
    }
}

/// Once all the files are examined, a file is unmatched exactly when no other file has its size.
proof fn lemma_all_settled(files: Seq<&FileMd>, j: int)
    requires
        0 <= j < files.len(),
    ensures
        settled(files, files.len() as int, files[j].size) <==> files_of_size(files, files[j].size).len() != 1,
{
    let size = files[j].size;
    lemma_filter_contains(files, |f: &FileMd| f.size == size, j);
    if files_of_size(files, size).len() != 1 {
        assert(files[j].size == size);
    }
}

/// Collects the file at position `i` and every later file of the same size that is not
/// yet matched.
fn collect_same_size<'a>(files_md: &Vec<&'a FileMd>, i: usize, matched: &Vec<i64>) -> (r: Vec<&'a FileMd>)
    requires
        i < files_md.len(),
        matched_state(files_md@, i as int, matched@),
        !settled(files_md@, i as int, files_md@[i as int].size),
    ensures
        r@ == files_md@.subrange(i as int, files_md@.len() as int).filter(
            |f: &FileMd| f.size == files_md@[i as int].size,
        ),
{
    let ghost files = files_md@;
    let lhs_md = files_md[i];
    let ghost size = lhs_md.size;
    let ghost p = |f: &FileMd| f.size == size;
    let mut current_group: Vec<&FileMd> = Vec::new();
    current_group.push(lhs_md);
    let mut n: usize = i + 1;
    proof {
        assert(files.subrange(i as int, n as int) =~= Seq::<&FileMd>::empty().push(files[i as int]));
        lemma_filter_push(Seq::<&FileMd>::empty(), files[i as int], p);
        reveal(Seq::filter);
        assert(Seq::<&FileMd>::empty().filter(p) =~= Seq::<&FileMd>::empty());
    }
    while n < files_md.len()
        invariant
            files == files_md@,
            i < n <= files.len(),
            lhs_md == files[i as int],
            size == lhs_md.size,
            p == (|f: &FileMd| f.size == size),
            !settled(files, i as int, size),
            matched_state(files, i as int, matched@),
            current_group@ == files.subrange(i as int, n as int).filter(p),
        decreases files.len() - n,
    {
        let rhs_md = files_md[n];
        proof {
            assert(files.subrange(i as int, n + 1) =~= files.subrange(i as int, n as int).push(
                files[n as int],
            ));
            lemma_filter_push(files.subrange(i as int, n as int), files[n as int], p);
        }
        if !contains_id(matched, rhs_md.id) && lhs_md.size == rhs_md.size {
            current_group.push(rhs_md);
        }
        n = n + 1;
    }
    current_group
}

/// Appends the identifiers of a group of files.
fn push_file_ids(matched: &mut Vec<i64>, group: &Vec<&FileMd>)
    ensures
        final(matched)@ == old(matched)@ + file_ids(group@),
{
    let ghost before = matched@;
    let mut g: usize = 0;
    while g < group.len()
        invariant
            g <= group.len(),
            matched@ == before + file_ids(group@.subrange(0, g as int)),
        decreases group.len() - g,
    {
        matched.push(group[g].id);
        g = g + 1;
        assert(matched@ =~= before + file_ids(group@.subrange(0, g as int)));
    }
    assert(group@.subrange(0, g as int) =~= group@);
}

/// Analyzes files that share a common filename.
///
/// Files are taken to match when their sizes are equal. The first collection holds the
/// groups of matching files, the second the files that did not match any other file.
/// The caller guarantees that no two files carry the same identifier.
pub fn folder_file_matches<'a>(files_md: Vec<&'a FileMd>) -> (r: (Vec<Vec<&'a FileMd>>, Vec<&'a FileMd>))
    requires
        distinct_file_ids(files_md@),
    ensures
        r.0@.map_values(|g: Vec<&FileMd>| g@) == match_groups(files_md@, files_md@.len() as int),
        r.1@ == unmatched_files(files_md@),
{
    let ghost files = files_md@;
    let mut group_matches: Vec<Vec<&FileMd>> = Vec::new();
    let mut matched: Vec<i64> = Vec::new();
    let files_cnt = files_md.len();
    let mut i: usize = 0;
    assert(group_matches@.map_values(|g: Vec<&FileMd>| g@) =~= match_groups(files, 0));
    while i < files_cnt
        invariant
            files == files_md@,
            files_cnt == files.len(),
            distinct_file_ids(files),
            i <= files_cnt,
            group_matches@.map_values(|g: Vec<&FileMd>| g@) == match_groups(files, i as int),
            matched_state(files, i as int, matched@),
        decreases files_cnt - i,
    {
        let lhs_md = files_md[i];
        if contains_id(&matched, lhs_md.id) {
            proof {
                lemma_skip_settled(files, i as int, matched@);
            }
        } else {
            let current_group = collect_same_size(&files_md, i, &matched);
            proof {
                lemma_unsettled_first(files, i as int);
            }
            if current_group.len() > 1 {
                proof {
                    lemma_new_group(files, i as int, matched@, current_group@);
                }
                push_file_ids(&mut matched, &current_group);
                let ghost before = group_matches@;
                group_matches.push(current_group);
                assert(group_matches@.map_values(|g: Vec<&FileMd>| g@) =~= before.map_values(
                    |g: Vec<&FileMd>| g@,
                ).push(current_group@));
            } else {
                proof {
                    lemma_single(files, i as int, matched@);
                }
            }
        }
        i = i + 1;
    }
    let mut not_matched: Vec<&FileMd> = Vec::new();
    let mut j: usize = 0;
    let ghost q = |f: &FileMd| files_of_size(files, f.size).len() == 1;
    proof {
        reveal(Seq::filter);
        assert(files.subrange(0, 0).filter(q) =~= Seq::<&FileMd>::empty());
    }
    while j < files_cnt
        invariant
            files == files_md@,
            files_cnt == files.len(),
            j <= files_cnt,
            matched_state(files, files_cnt as int, matched@),
            q == (|f: &FileMd| files_of_size(files, f.size).len() == 1),
            not_matched@ == files.subrange(0, j as int).filter(q),
        decreases files_cnt - j,
    {
        let md = files_md[j];
        proof {
            lemma_all_settled(files, j as int);
            assert(files.subrange(0, j + 1) =~= files.subrange(0, j as int).push(files[j as int]));
            lemma_filter_push(files.subrange(0, j as int), files[j as int], q);
        }
        if !contains_id(&matched, md.id) {
            not_matched.push(md);
        }
        j = j + 1;
    }
    assert(files.subrange(0, files_cnt as int) =~= files);
    (group_matches, not_matched)
}


/// The file at position `j` is the first of a size that at least two files share.
pub open spec fn starts_group(files: Seq<&FileMd>, j: int) -> bool {
    first_of_size(files, j) && files_of_size(files, files[j].size).len() >= 2
}

/// The files of the size of the file at position `j`.
pub open spec fn group_of(files: Seq<&FileMd>, j: int) -> Seq<&FileMd> {
    files_of_size(files, files[j].size)
}

/// Each group of matching files among the first `n` files is the group of a file that
/// starts one.
pub proof fn lemma_group_started(files: Seq<&FileMd>, n: int, g: int) -> (j: int)
    requires
        0 <= n <= files.len(),
        0 <= g < match_groups(files, n).len(),
    ensures
        0 <= j < n,
        starts_group(files, j),
        match_groups(files, n)[g] == group_of(files, j),
    decreases n,
{
    let prev = match_groups(files, n - 1);
    if g < prev.len() {
        assert(match_groups(files, n)[g] == prev[g]);
        lemma_group_started(files, n - 1, g)
    } else {
        n - 1
    }
}

/// Every file among the first `n` that starts a group has its group among the groups.
pub proof fn lemma_started_grouped(files: Seq<&FileMd>, n: int)
    requires
        0 <= n <= files.len(),
    ensures
        forall|j: int| 0 <= j < n && #[trigger] starts_group(files, j) ==> exists|g: int|
            0 <= g < match_groups(files, n).len() && #[trigger] match_groups(files, n)[g] == group_of(files, j),
    decreases n,
{
    if n > 0 {
        lemma_started_grouped(files, n - 1);
        let prev = match_groups(files, n - 1);
        let groups = match_groups(files, n);
        assert forall|j: int| 0 <= j < n && #[trigger] starts_group(files, j) implies exists|g: int|
            0 <= g < groups.len() && #[trigger] groups[g] == group_of(files, j) by {
            if j < n - 1 {
                let g = choose|g: int| 0 <= g < prev.len() && #[trigger] prev[g] == group_of(files, j);
                assert(groups[g] == prev[g]);
            } else {
                assert(groups[prev.len() as int] == group_of(files, j));
            }
        }
    }
}

/// The first file of a group has the group's size.
proof fn lemma_group_first(files: Seq<&FileMd>, j: int)
    requires
        0 <= j < files.len(),
    ensures
        group_of(files, j).len() >= 1,
        group_of(files, j)[0].size == files[j].size,
{
    let p = |f: &FileMd| f.size == files[j].size;
    files.lemma_filter_contains(p, j);
    files.lemma_filter_pred(p, 0);
}

/// No two groups of matching files are the same.
pub proof fn lemma_groups_distinct(files: Seq<&FileMd>, n: int)
    requires
        0 <= n <= files.len(),
    ensures
        forall|g1: int, g2: int|
            0 <= g1 < g2 < match_groups(files, n).len() ==> (#[trigger] match_groups(files, n)[g1]) != (#[trigger] match_groups(files, n)[g2]),
    decreases n,
{
    if n > 0 {
        lemma_groups_distinct(files, n - 1);
        let prev = match_groups(files, n - 1);
        let groups = match_groups(files, n);
        if starts_group(files, n - 1) {
            assert forall|g1: int, g2: int| 0 <= g1 < g2 < groups.len() implies (#[trigger] groups[g1]) != (#[trigger] groups[g2]) by {
                assert(groups[g1] == prev[g1]);
                if g2 < prev.len() {
                    assert(groups[g2] == prev[g2]);
                } else {
                    let j = lemma_group_started(files, n - 1, g1);
                    lemma_group_first(files, j);
                    lemma_group_first(files, n - 1);
                    assert(files[j].size != files[n - 1].size);
                }
            }
        } else {
            assert(groups == prev);
        }
    }
}

/// The first file of the size of the file at position `k`.
proof fn lemma_first_of_its_size(files: Seq<&FileMd>, k: int) -> (j: int)
    requires
        0 <= k < files.len(),
    ensures
        0 <= j <= k,
        files[j].size == files[k].size,
        first_of_size(files, j),
    decreases k,
{
    if first_of_size(files, k) {
        k
    } else {
        let i = choose|i: int| 0 <= i < k && (#[trigger] files[i]).size == files[k].size;
        lemma_first_of_its_size(files, i)
    }
}

/// The files are partitioned: a file whose size another file shares is in exactly one group
/// of matching files and is not unmatched; a file whose size no other file shares is
/// unmatched and in no group.
pub proof fn lemma_files_partition(files: Seq<&FileMd>, k: int)
    requires
        0 <= k < files.len(),
    ensures
        files_of_size(files, files[k].size).len() >= 2 ==> {
            &&& exists|g: int| 0 <= g < match_groups(files, files.len() as int).len() && (#[trigger] match_groups(files, files.len() as int)[g]).contains(files[k])
            &&& !unmatched_files(files).contains(files[k])
        },
        files_of_size(files, files[k].size).len() < 2 ==> {
            &&& unmatched_files(files).contains(files[k])
            &&& forall|g: int| 0 <= g < match_groups(files, files.len() as int).len() ==> !(#[trigger] match_groups(files, files.len() as int)[g]).contains(files[k])
        },
        forall|g1: int, g2: int|
            0 <= g1 < match_groups(files, files.len() as int).len() && 0 <= g2 < match_groups(files, files.len() as int).len()
                && (#[trigger] match_groups(files, files.len() as int)[g1]).contains(files[k])
                && (#[trigger] match_groups(files, files.len() as int)[g2]).contains(files[k]) ==> g1 == g2,
{
    let n = files.len() as int;
    let groups = match_groups(files, n);
    let size = files[k].size;
    lemma_started_grouped(files, n);
    lemma_groups_distinct(files, n);
    let same = |f: &FileMd| f.size == size;
    let alone = |f: &FileMd| files_of_size(files, f.size).len() == 1;
    files.lemma_filter_contains(same, k);
    assert(files_of_size(files, size).len() >= 1);
    // a group holding the file is the group of its size
    assert forall|g: int| 0 <= g < groups.len() && (#[trigger] groups[g]).contains(files[k]) implies groups[g] == files_of_size(files, size)
        && files_of_size(files, size).len() >= 2 by {
        let j = lemma_group_started(files, n, g);
        let q = choose|q: int| 0 <= q < groups[g].len() && groups[g][q] == files[k];
        files.lemma_filter_pred(|f: &FileMd| f.size == files[j].size, q);
        assert(files[j].size == size);
    }
    if files_of_size(files, size).len() >= 2 {
        let j = lemma_first_of_its_size(files, k);
        assert(starts_group(files, j));
        let g = choose|g: int| 0 <= g < groups.len() && #[trigger] groups[g] == group_of(files, j);
        assert(groups[g].contains(files[k]));
        if unmatched_files(files).contains(files[k]) {
            let q = choose|q: int| 0 <= q < unmatched_files(files).len() && unmatched_files(files)[q] == files[k];
            files.lemma_filter_pred(alone, q);
        }
    } else {
        files.lemma_filter_contains(alone, k);
    }
    assert forall|g1: int, g2: int|
        0 <= g1 < groups.len() && 0 <= g2 < groups.len() && (#[trigger] groups[g1]).contains(files[k]) && (#[trigger] groups[g2]).contains(files[k]) implies g1 == g2 by {
        if g1 < g2 {
            assert(groups[g1] != groups[g2]);
        } else if g2 < g1 {
            assert(groups[g2] != groups[g1]);
        }
    }
}

} // verus!
