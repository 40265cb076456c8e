//! Folder hierarchies rebuilt from folder metadata listed parent before child.
use crate::analysis::{find_child, first_named};
use crate::duplicates::string_views;
use crate::objects::{FolderMd, Metadata};
use crate::forest::{
    added, closed, flushed, frame, frames, lemma_children_with_trees, rebuilt, BuildState, FolderHead, Tree,
    forest, lemma_forest_edits, lemma_forest_index, insert_by_name, lemma_insert_by_name_at, lemma_tree_name, position, sorted_by_name, tree,
    tree_name,
};
use crate::order::{lemma_str_order, str_greater, str_order, text_greater};
use std::cmp::Ordering;
use vstd::multiset::Multiset;
use vstd::prelude::*;

verus! {

/// The identifiers of a metadata tree: the item itself and, for a folder, everything it holds.
pub open spec fn md_ids(m: Metadata) -> Multiset<i64>
    decreases m, 1nat,
{
    match m {
        Metadata::Root(f) => Multiset::singleton(f.id).add(forest_ids(f.children@)),
        Metadata::Folder(f) => Multiset::singleton(f.id).add(forest_ids(f.children@)),
        Metadata::File(f) => Multiset::singleton(f.id),
        Metadata::Problem(p) => Multiset::singleton(p.id),
    }
}

/// The identifiers of a sequence of metadata trees.
pub open spec fn forest_ids(s: Seq<Metadata>) -> Multiset<i64>
    decreases s, 0nat,
{
    if s.len() == 0 {
        Multiset::empty()
    } else {
        forest_ids(s.drop_last()).add(md_ids(s.last()))
    }
}

/// The identifiers of a folder and everything it holds.
pub open spec fn folder_ids(f: FolderMd) -> Multiset<i64> {
    Multiset::singleton(f.id).add(forest_ids(f.children@))
}

/// The identifiers of the folders of a stack and everything they hold.
pub open spec fn stack_ids(s: Seq<FolderMd>) -> Multiset<i64>
    decreases s.len(),
{
    if s.len() == 0 {
        Multiset::empty()
    } else {
        stack_ids(s.drop_last()).add(folder_ids(s.last()))
    }
}

/// Reordering metadata trees keeps their identifiers.
pub proof fn lemma_forest_ids_permutation(s1: Seq<Metadata>, s2: Seq<Metadata>)
    requires
        s1.to_multiset() == s2.to_multiset(),
    ensures
        forest_ids(s1) == forest_ids(s2),
    decreases s1.len(),
{
    broadcast use vstd::seq_lib::group_to_multiset_ensures;

    if s1.len() == 0 {
        assert(s2.to_multiset().len() == 0);
        assert(s2.len() == 0);
    } else {
        let x = s1.last();
        let r1 = s1.drop_last();
        assert(s1 =~= r1.push(x));
        assert(s1.to_multiset().count(x) > 0);
        assert(s2.contains(x));
        let i = choose|i: int| 0 <= i < s2.len() && s2[i] == x;
        let r2 = s2.remove(i);
        vstd::seq_lib::to_multiset_remove(s2, i);
        assert(r1.to_multiset() =~= r2.to_multiset());
        lemma_forest_ids_permutation(r1, r2);
        lemma_forest_ids_remove(s2, i);
    }
}

/// The identifiers of metadata trees are those of one of them and of the others.
pub proof fn lemma_forest_ids_remove(s: Seq<Metadata>, i: int)
    requires
        0 <= i < s.len(),
    ensures
        forest_ids(s) == forest_ids(s.remove(i)).add(md_ids(s[i])),
    decreases s.len(),
{
    if i == s.len() - 1 {
        assert(s.remove(i) =~= s.drop_last());
    } else {
        lemma_forest_ids_remove(s.drop_last(), i);
        assert(s.remove(i).drop_last() =~= s.drop_last().remove(i));
        assert(s.remove(i).last() == s.last());
        assert(s.drop_last()[i] == s[i]);
        assert(forest_ids(s.remove(i)) == forest_ids(s.drop_last().remove(i)).add(md_ids(s.last())));
        assert(forest_ids(s) == forest_ids(s.drop_last()).add(md_ids(s.last())));
        assert(forest_ids(s.drop_last().remove(i)).add(md_ids(s.drop_last()[i])).add(md_ids(s.last()))
            =~= forest_ids(s.drop_last().remove(i)).add(md_ids(s.last())).add(md_ids(s[i])));
    }
}

/// The children of a folder are in ascending order of their names.
pub open spec fn children_sorted(children: Seq<Metadata>) -> bool {
    forall|i: int, j: int|
        0 <= i && j == i + 1 && j < children.len() ==> str_order(
            (#[trigger] children[i]).spec_name(),
            (#[trigger] children[j]).spec_name(),
        ) != Ordering::Greater
}

/// Sorts the children of a folder by name, children of the same name keeping their order.
pub fn sort_children(children: &mut Vec<Metadata>)
    ensures
        final(children)@.to_multiset() == old(children)@.to_multiset(),
        children_sorted(final(children)@),
        forest(final(children)@) == sorted_by_name(forest(old(children)@)),
{
    broadcast use vstd::seq_lib::group_to_multiset_ensures;

    let ghost orig = children@;
    let ghost mut n: int = 0;
    let mut out: Vec<Metadata> = Vec::new();
    proof {
        assert(orig.skip(0) =~= orig);
        assert(orig.take(0) =~= Seq::<Metadata>::empty());
        assert(out@.to_multiset() =~= vstd::multiset::Multiset::empty());
    }
    while children.len() > 0
        invariant
            0 <= n <= orig.len(),
            children@ == orig.skip(n),
            forest(out@) == sorted_by_name(forest(orig.take(n))),
            out@.to_multiset().add(children@.to_multiset()) == orig.to_multiset(),
            children_sorted(out@),
        decreases children.len(),
    {
        let ghost rest = children@;
        let x = children.remove(0);
        let mut k = out.len();
        loop
            invariant_except_break
                k <= out@.len(),
                forall|j: int| k <= j < out@.len() ==> text_greater((#[trigger] out@[j]).spec_name(), x.spec_name()),
            ensures
                k <= out@.len(),
                forall|j: int| k <= j < out@.len() ==> text_greater((#[trigger] out@[j]).spec_name(), x.spec_name()),
                k > 0 ==> !text_greater(out@[k - 1].spec_name(), x.spec_name()),
            decreases k,
        {
            if k == 0 {
                break;
            }
            if !str_greater(out[k - 1].name(), x.name()) {
                break;
            }
            k = k - 1;
        }
        let ghost before = out@;
        let ghost kk = position(k);
        out.insert(k, x);
        proof {
            let fb = forest(before);
            lemma_forest_index(before);
            assert forall|j: int| k <= j < fb.len() implies text_greater(tree_name(#[trigger] fb[j]), tree_name(tree(x))) by {
                lemma_tree_name(before[j]);
                lemma_tree_name(x);
            }
            if k > 0 {
                lemma_tree_name(before[k - 1]);
                lemma_tree_name(x);
            }
            lemma_insert_by_name_at(fb, tree(x), kk);
            lemma_forest_edits(before, kk, x);
            assert(x == orig[n]);
            assert(orig.take(n + 1).drop_last() =~= orig.take(n));
            assert(orig.take(n + 1).last() == x);
            assert(children@ =~= orig.skip(n + 1));
            assert(rest =~= children@.insert(0, x));
            assert(out@ == before.insert(kk, x));
            vstd::seq_lib::to_multiset_insert(before, kk, x);
            vstd::seq_lib::to_multiset_insert(children@, 0, x);
            let taken = forest(orig.take(n + 1));
            assert(taken == forest(orig.take(n)).push(tree(x)));
            assert(taken.drop_last() =~= forest(orig.take(n)));
            assert(sorted_by_name(taken) == insert_by_name(fb, tree(x)));
            assert(out@.to_multiset().add(children@.to_multiset()) =~= before.to_multiset().add(rest.to_multiset()));
            assert forall|i: int, j: int| 0 <= i && j == i + 1 && j < out@.len() implies str_order(
                (#[trigger] out@[i]).spec_name(),
                (#[trigger] out@[j]).spec_name(),
            ) != Ordering::Greater by {
                if j < k {
                    assert(out@[i] == before[i] && out@[j] == before[j]);
                } else if j == k {
                    assert(out@[i] == before[k - 1]);
                } else if i == k {
                    assert(out@[j] == before[kk]);
                    lemma_str_order(x.spec_name(), before[kk].spec_name(), x.spec_name());
                } else {
                    assert(out@[i] == before[i - 1] && out@[j] == before[j - 1]);
                }
            }
            n = n + 1;
        }
    }
    proof {
        assert(orig.take(n) =~= orig);
        assert(children@.to_multiset() =~= vstd::multiset::Multiset::empty());
    }
    *children = out;
}


/// The identifiers of the folders of a stack, bottom first.
pub open spec fn stack_id_seq(s: Seq<FolderMd>) -> Seq<i64> {
    s.map_values(|f: FolderMd| f.id)
}

/// The parent identifiers of the folders of a stack, bottom first.
pub open spec fn stack_parent_seq(s: Seq<FolderMd>) -> Seq<i64> {
    s.map_values(|f: FolderMd| f.parent_id)
}

/// Each folder of the stack is a child of the folder below it.
pub open spec fn parent_chain(s: Seq<FolderMd>) -> bool {
    forall|i: int, j: int| 0 <= i && j == i + 1 && j < s.len() ==> (#[trigger] s[j]).parent_id == (#[trigger] s[i]).id
}

/// The builder that re-creates folder hierarchies from folder metadata listed with each
/// folder after its parent.
pub struct Hierarchy {
    metadata_folders: Vec<Metadata>,
    current_hierarchy: Vec<FolderMd>,
}

impl Hierarchy {
    /// The folder hierarchies completed so far.
    pub closed spec fn folders(&self) -> Seq<Metadata> {
        self.metadata_folders@
    }

    /// The folders of the hierarchy being traversed, the outermost first.
    pub closed spec fn stack(&self) -> Seq<FolderMd> {
        self.current_hierarchy@
    }

    /// The identifiers of everything the builder holds.
    pub open spec fn held_ids(&self) -> Multiset<i64> {
        forest_ids(self.folders()).add(stack_ids(self.stack()))
    }

    /// What the builder holds, as trees.
    pub open spec fn state(&self) -> BuildState {
        BuildState { folders: forest(self.folders()), stack: frames(self.stack()) }
    }

    /// Creates an empty builder.
    pub fn new() -> (r: Self)
        ensures
            r.folders() == Seq::<Metadata>::empty(),
            r.stack() == Seq::<FolderMd>::empty(),
    {
        Hierarchy { metadata_folders: Vec::new(), current_hierarchy: Vec::new() }
    }

    /// Completes the innermost folder: its children are sorted by name and it becomes the
    /// last child of the folder below it, or a completed hierarchy when none is below.
    fn close_top(&mut self)
        requires
            old(self).stack().len() > 0,
        ensures
            final(self).held_ids() == old(self).held_ids(),
            final(self).stack().len() == old(self).stack().len() - 1,
            stack_id_seq(final(self).stack()) == stack_id_seq(old(self).stack()).drop_last(),
            stack_parent_seq(final(self).stack()) == stack_parent_seq(old(self).stack()).drop_last(),
            old(self).folders().is_prefix_of(final(self).folders()),
            final(self).folders().len() == old(self).folders().len() + if old(self).stack().len() == 1 {
                1int
            } else {
                0int
            },
            final(self).state() == closed(old(self).state(), true),
    {
        let ghost s0 = self.current_hierarchy@;
        let ghost f0 = self.metadata_folders@;
        let mut child_md = match self.current_hierarchy.pop() {
            Some(md) => md,
            None => vstd::pervasive::unreached(),
        };
        let ghost c0 = child_md;
        sort_children(&mut child_md.children);
        proof {
            lemma_forest_ids_permutation(child_md.children@, c0.children@);
            assert(s0 =~= self.current_hierarchy@.push(c0));
            assert(md_ids(Metadata::Folder(child_md)) == folder_ids(child_md));
        }
        if self.current_hierarchy.len() == 0 {
            self.metadata_folders.push(Metadata::Folder(child_md));
            proof {
                lemma_forest_edits(f0, 0, Metadata::Folder(child_md));
                assert(frames(s0)[0] == frame(c0));
                assert(frames(self.current_hierarchy@) =~= Seq::<(FolderHead, Seq<Tree>)>::empty());
                assert(self.metadata_folders@.drop_last() =~= f0);
                assert(self.current_hierarchy@ =~= Seq::<FolderMd>::empty());
                assert(forest_ids(self.metadata_folders@) == forest_ids(f0).add(folder_ids(c0)));
                assert(stack_ids(s0) == stack_ids(Seq::<FolderMd>::empty()).add(folder_ids(c0)));
                assert(self.held_ids() =~= forest_ids(f0).add(stack_ids(s0)));
                assert(f0.is_prefix_of(self.metadata_folders@)) by {
                    assert(self.metadata_folders@.subrange(0, f0.len() as int) =~= f0);
                }
                assert(stack_id_seq(self.current_hierarchy@) =~= stack_id_seq(s0).drop_last());
                assert(stack_parent_seq(self.current_hierarchy@) =~= stack_parent_seq(s0).drop_last());
            }
        } else {
            let mut parent_md = match self.current_hierarchy.pop() {
                Some(md) => md,
                None => vstd::pervasive::unreached(),
            };
            let ghost p0 = parent_md;
            let ghost below = self.current_hierarchy@;
            parent_md.children.push(Metadata::Folder(child_md));
            self.current_hierarchy.push(parent_md);
            proof {
                lemma_forest_edits(p0.children@, 0, Metadata::Folder(child_md));
                let n = s0.len() as int;
                assert(s0 =~= below.push(p0).push(c0));
                assert(frames(s0)[n - 1] == frame(c0));
                assert(frames(s0)[n - 2] == frame(p0));
                assert(frames(self.current_hierarchy@) =~= frames(s0).take(n - 2).push(frame(parent_md)));
                assert(parent_md.children@.drop_last() =~= p0.children@);
                assert(folder_ids(parent_md) =~= folder_ids(p0).add(folder_ids(c0)));
                assert(s0 =~= below.push(p0).push(c0));
                assert(s0.drop_last() =~= below.push(p0));
                assert(s0.last() == c0);
                assert(below.push(p0).drop_last() =~= below);
                assert(self.current_hierarchy@.drop_last() =~= below);
                assert(stack_ids(s0) == stack_ids(below.push(p0)).add(folder_ids(c0)));
                assert(stack_ids(below.push(p0)) == stack_ids(below).add(folder_ids(p0)));
                assert(stack_ids(self.current_hierarchy@) == stack_ids(below).add(folder_ids(parent_md)));
                assert(self.held_ids() =~= forest_ids(f0).add(stack_ids(s0)));
                assert(f0.is_prefix_of(self.metadata_folders@)) by {
                    assert(self.metadata_folders@.subrange(0, f0.len() as int) =~= f0);
                }
                assert(stack_id_seq(self.current_hierarchy@) =~= stack_id_seq(s0).drop_last());
                assert(stack_parent_seq(self.current_hierarchy@) =~= stack_parent_seq(s0).drop_last());
            }
        }
    }

    /// Adds folder metadata: folders of the current hierarchy that are not its parent are
    /// completed, innermost first, and it becomes the innermost folder.
    pub fn add(&mut self, folder_md: FolderMd)
        requires
            parent_chain(old(self).stack()),
        ensures
            parent_chain(final(self).stack()),
            final(self).stack().len() > 0,
            final(self).stack().last() == folder_md,
            ({
                let d = final(self).stack().len() - 1;
                &&& d <= old(self).stack().len()
                &&& stack_id_seq(final(self).stack().drop_last()) == stack_id_seq(old(self).stack()).take(d)
                &&& (d == 0 || old(self).stack()[d - 1].id == folder_md.parent_id)
                &&& forall|j: int| d <= j < old(self).stack().len() ==> (#[trigger] old(self).stack()[j]).id != folder_md.parent_id
                &&& final(self).folders().len() == old(self).folders().len() + if d == 0 && old(self).stack().len() > 0 {
                    1int
                } else {
                    0int
                }
            }),
            final(self).held_ids() == old(self).held_ids().add(folder_ids(folder_md)),
            old(self).folders().is_prefix_of(final(self).folders()),
            final(self).state() == added(old(self).state(), folder_md, true),
    {
        let ghost st0 = self.state();
        let ghost s0 = self.current_hierarchy@;
        let ghost f0 = self.metadata_folders@;
        let ghost h0 = self.held_ids();
        let pid = folder_md.parent_id;
        proof {
            assert(stack_id_seq(s0).take(s0.len() as int) =~= stack_id_seq(s0));
            assert(stack_parent_seq(s0).take(s0.len() as int) =~= stack_parent_seq(s0));
            assert(f0.is_prefix_of(f0)) by {
                assert(f0.subrange(0, f0.len() as int) =~= f0);
            }
        }
        loop
            invariant
                parent_chain(s0),
                added(self.state(), folder_md, true) == added(st0, folder_md, true),
                pid == folder_md.parent_id,
                self.held_ids() == h0,
                self.current_hierarchy@.len() <= s0.len(),
                stack_id_seq(self.current_hierarchy@) == stack_id_seq(s0).take(self.current_hierarchy@.len() as int),
                stack_parent_seq(self.current_hierarchy@) == stack_parent_seq(s0).take(self.current_hierarchy@.len() as int),
                forall|j: int| self.current_hierarchy@.len() <= j < s0.len() ==> (#[trigger] s0[j]).id != pid,
                f0.is_prefix_of(self.metadata_folders@),
                self.metadata_folders@.len() == f0.len() + if s0.len() > 0 && self.current_hierarchy@.len() == 0 {
                    1int
                } else {
                    0int
                },
            ensures
                parent_chain(s0),
                added(self.state(), folder_md, true) == added(st0, folder_md, true),
                pid == folder_md.parent_id,
                self.held_ids() == h0,
                self.current_hierarchy@.len() <= s0.len(),
                stack_id_seq(self.current_hierarchy@) == stack_id_seq(s0).take(self.current_hierarchy@.len() as int),
                stack_parent_seq(self.current_hierarchy@) == stack_parent_seq(s0).take(self.current_hierarchy@.len() as int),
                forall|j: int| self.current_hierarchy@.len() <= j < s0.len() ==> (#[trigger] s0[j]).id != pid,
                f0.is_prefix_of(self.metadata_folders@),
                self.metadata_folders@.len() == f0.len() + if s0.len() > 0 && self.current_hierarchy@.len() == 0 {
                    1int
                } else {
                    0int
                },
                self.current_hierarchy@.len() == 0 || self.current_hierarchy@.last().id == pid,
            decreases self.current_hierarchy@.len(),
        {
            let n = self.current_hierarchy.len();
            if n == 0 {
                break;
            }
            let top_id = self.current_hierarchy[n - 1].id;
            if pid == top_id {
                assert(stack_id_seq(self.current_hierarchy@)[n - 1] == top_id);
                break;
            }
            let ghost before = self.current_hierarchy@;
            let ghost fb = self.metadata_folders@;
            let ghost stb = self.state();
            proof {
                assert(stb.stack.last().0.id == top_id);
                assert(stb.stack.len() == n);
                assert(stb.stack.len() != 0 && stb.stack.last().0.id != folder_md.parent_id);
                assert(added(stb, folder_md, true) == added(closed(stb, true), folder_md, true));
                assert(stack_id_seq(before)[n - 1] == top_id);
                assert(stack_id_seq(s0).take(n as int)[n - 1] == s0[n - 1].id);
            }
            self.close_top();
            proof {
                assert(stack_id_seq(s0).take(n as int).drop_last() =~= stack_id_seq(s0).take(n - 1));
                assert(stack_parent_seq(s0).take(n as int).drop_last() =~= stack_parent_seq(s0).take(n - 1));
                assert(f0.is_prefix_of(self.metadata_folders@)) by {
                    assert(self.metadata_folders@.subrange(0, f0.len() as int) =~= fb.subrange(0, f0.len() as int));
                }
            }
        }
        let ghost kept = self.current_hierarchy@;
        let ghost stk = self.state();
        self.current_hierarchy.push(folder_md);
        proof {
            if kept.len() > 0 {
                assert(stk.stack.last().0.id == kept.last().id);
            }
            assert(frames(self.current_hierarchy@) =~= stk.stack.push(frame(folder_md)));
            let k = kept.len() as int;
            assert(self.current_hierarchy@.drop_last() =~= kept);
            assert(stack_ids(self.current_hierarchy@) == stack_ids(kept).add(folder_ids(folder_md)));
            assert(self.held_ids() =~= h0.add(folder_ids(folder_md)));
            assert forall|i: int, j: int| 0 <= i && j == i + 1 && j < self.current_hierarchy@.len() implies (#[trigger] self.current_hierarchy@[j]).parent_id == (#[trigger] self.current_hierarchy@[i]).id by {
                if j < k {
                    assert(stack_parent_seq(kept)[j] == stack_parent_seq(s0)[j]);
                    assert(stack_id_seq(kept)[i] == stack_id_seq(s0)[i]);
                    assert(s0[j].parent_id == s0[i].id);
                } else {
                    assert(stack_id_seq(kept)[k - 1] == kept.last().id);
                }
            }
            if k > 0 {
                assert(stack_id_seq(kept)[k - 1] == stack_id_seq(s0).take(k)[k - 1]);
            }
        }
    }

    /// Completes every folder of the current hierarchy.
    fn flush(&mut self)
        ensures
            final(self).stack().len() == 0,
            forest(final(self).folders()) == flushed(old(self).state(), true),
            final(self).held_ids() == old(self).held_ids(),
            old(self).folders().is_prefix_of(final(self).folders()),
            final(self).folders().len() == old(self).folders().len() + if old(self).stack().len() > 0 {
                1int
            } else {
                0int
            },
    {
        let ghost f0 = self.metadata_folders@;
        let ghost st0 = self.state();
        let ghost n0 = self.current_hierarchy@.len();
        proof {
            assert(f0.is_prefix_of(f0)) by {
                assert(f0.subrange(0, f0.len() as int) =~= f0);
            }
        }
        while self.current_hierarchy.len() > 0
            invariant
                flushed(self.state(), true) == flushed(st0, true),
                self.held_ids() == old(self).held_ids(),
                f0 == old(self).folders(),
                n0 == old(self).stack().len(),
                self.current_hierarchy@.len() <= n0,
                f0.is_prefix_of(self.metadata_folders@),
                self.metadata_folders@.len() == f0.len() + if n0 > 0 && self.current_hierarchy@.len() == 0 {
                    1int
                } else {
                    0int
                },
            decreases self.current_hierarchy@.len(),
        {
            let ghost fb = self.metadata_folders@;
            let ghost stb = self.state();
            proof {
                assert(stb.stack.len() == self.current_hierarchy@.len());
            }
            self.close_top();
            proof {
                assert(f0.is_prefix_of(self.metadata_folders@)) by {
                    assert(self.metadata_folders@.subrange(0, f0.len() as int) =~= fb.subrange(0, f0.len() as int));
                }
            }
        }
    }

    /// Gets the folder hierarchies: the current one is completed first.
    pub fn get(self) -> (r: Vec<Metadata>)
        ensures
            forest(r@) == flushed(self.state(), true),
            forest_ids(r@) == self.held_ids(),
            self.folders().is_prefix_of(r@),
            r@.len() == self.folders().len() + if self.stack().len() > 0 {
                1int
            } else {
                0int
            },
    {
        let mut hierarchy = self;
        hierarchy.flush();
        proof {
            assert(stack_ids(hierarchy.current_hierarchy@) =~= Multiset::<i64>::empty());
            assert(hierarchy.held_ids() =~= forest_ids(hierarchy.metadata_folders@));
        }
        hierarchy.metadata_folders
    }
}

impl Default for Hierarchy {
    fn default() -> (r: Self)
        ensures
            r.folders() == Seq::<Metadata>::empty(),
            r.stack() == Seq::<FolderMd>::empty(),
    {
        Hierarchy::new()
    }
}


proof fn lemma_subset_trans(a: Multiset<i64>, b: Multiset<i64>, c: Multiset<i64>)
    requires
        a.subset_of(b),
        b.subset_of(c),
    ensures
        a.subset_of(c),
{
    assert forall|v: i64| a.count(v) <= c.count(v) by {
        assert(a.count(v) <= b.count(v));
        assert(b.count(v) <= c.count(v));
    }
}

/// Where a child of the given name goes among children kept in name order: before the first
/// child whose name sorts after it.
pub open spec fn insert_position(children: Seq<Metadata>, name: Seq<char>) -> int
    decreases children.len(),
{
    if children.len() == 0 {
        0
    } else if text_greater(children[0].spec_name(), name) {
        0
    } else {
        1 + insert_position(children.drop_first(), name)
    }
}

/// The children with `child` in place of the child of the same name, or put in name order
/// when no child has its name.
pub open spec fn children_with(children: Seq<Metadata>, child: Metadata) -> Seq<Metadata> {
    let i = first_named(children, child.spec_name());
    if i < children.len() {
        children.update(i, child)
    } else {
        children.insert(insert_position(children, child.spec_name()), child)
    }
}

proof fn lemma_insert_position_step(children: Seq<Metadata>, name: Seq<char>, i: int)
    requires
        0 <= i <= children.len(),
        forall|j: int| 0 <= j < i ==> !text_greater((#[trigger] children[j]).spec_name(), name),
    ensures
        insert_position(children, name) == i + insert_position(children.skip(i), name),
    decreases i,
{
    if i > 0 {
        assert(!text_greater(children[0].spec_name(), name));
        let rest = children.drop_first();
        assert forall|j: int| 0 <= j < i - 1 implies !text_greater(
            (#[trigger] rest[j]).spec_name(),
            name,
        ) by {
            assert(rest[j] == children[j + 1]);
        }
        lemma_insert_position_step(rest, name, i - 1);
        assert(rest.skip(i - 1) =~= children.skip(i));
    } else {
        assert(children.skip(0) =~= children);
    }
}

pub proof fn lemma_insert_position_bounds(children: Seq<Metadata>, name: Seq<char>)
    ensures
        0 <= insert_position(children, name) <= children.len(),
        forall|j: int|
            0 <= j < insert_position(children, name) ==> !text_greater(
                (#[trigger] children[j]).spec_name(),
                name,
            ),
        insert_position(children, name) < children.len() ==> text_greater(
            children[insert_position(children, name)].spec_name(),
            name,
        ),
    decreases children.len(),
{
    if children.len() > 0 && !text_greater(children[0].spec_name(), name) {
        let rest = children.drop_first();
        lemma_insert_position_bounds(rest, name);
        assert forall|j: int| 0 <= j < insert_position(children, name) implies !text_greater(
            (#[trigger] children[j]).spec_name(),
            name,
        ) by {
            if j > 0 {
                assert(children[j] == rest[j - 1]);
            }
        }
        if insert_position(children, name) < children.len() {
            assert(children[insert_position(children, name)] == rest[insert_position(rest, name)]);
        }
    }
}

pub proof fn lemma_first_named_bounds(children: Seq<Metadata>, name: Seq<char>)
    ensures
        0 <= first_named(children, name) <= children.len(),
        first_named(children, name) < children.len() ==> children[first_named(
            children,
            name,
        )].spec_name() == name,
        first_named(children, name) == children.len() ==> forall|j: int|
            0 <= j < children.len() ==> (#[trigger] children[j]).spec_name() != name,
    decreases children.len(),
{
    if children.len() > 0 && children[0].spec_name() != name {
        let rest = children.drop_first();
        lemma_first_named_bounds(rest, name);
        assert forall|j: int|
            0 < j < children.len() implies (#[trigger] children[j]) == rest[j - 1] by {}
        let k = first_named(rest, name);
        assert(first_named(children, name) == 1 + k);
        if k < rest.len() {
            assert(children[1 + k] == rest[k]);
        }
    }
}

/// Children whose names strictly ascend.
pub open spec fn names_ascending(children: Seq<Metadata>) -> bool {
    forall|i: int, j: int|
        0 <= i < j < children.len() ==> text_greater(
            (#[trigger] children[j]).spec_name(),
            (#[trigger] children[i]).spec_name(),
        )
}

/// Children kept in strictly ascending name order stay in that order when a child is put
/// among them, so that each name occurs once.
pub proof fn lemma_children_with_keeps_order(children: Seq<Metadata>, child: Metadata)
    requires
        names_ascending(children),
    ensures
        names_ascending(children_with(children, child)),
{
    let name = child.spec_name();
    lemma_first_named_bounds(children, name);
    let f = first_named(children, name);
    if f < children.len() {
        let r = children.update(f, child);
        assert forall|i: int, j: int| 0 <= i < j < r.len() implies text_greater(
            (#[trigger] r[j]).spec_name(),
            (#[trigger] r[i]).spec_name(),
        ) by {
            assert(r[i].spec_name() == children[i].spec_name());
            assert(r[j].spec_name() == children[j].spec_name());
        }
    } else {
        lemma_insert_position_bounds(children, name);
        let p = insert_position(children, name);
        let r = children.insert(p, child);
        assert forall|i: int, j: int| 0 <= i < j < r.len() implies text_greater(
            (#[trigger] r[j]).spec_name(),
            (#[trigger] r[i]).spec_name(),
        ) by {
            if i < p && j == p {
                let a = children[i].spec_name();
                assert(r[i] == children[i]);
                assert(r[j] == child);
                assert(!text_greater(a, name));
                assert(a != name);
                lemma_str_order(a, name, a);
            } else if i == p && j > p {
                let b = children[j - 1].spec_name();
                let c = children[p].spec_name();
                assert(r[i] == child);
                assert(r[j] == children[j - 1]);
                assert(text_greater(c, name));
                lemma_str_order(name, c, b);
                lemma_str_order(c, b, name);
                lemma_str_order(name, b, c);
                if j - 1 > p {
                    assert(text_greater(children[j - 1].spec_name(), children[p].spec_name()));
                }
            } else if i < p && j > p {
                assert(r[i] == children[i]);
                assert(r[j] == children[j - 1]);
                assert(text_greater(children[j - 1].spec_name(), children[i].spec_name()));
            } else if i > p {
                assert(r[i] == children[i - 1]);
                assert(r[j] == children[j - 1]);
                assert(text_greater(children[j - 1].spec_name(), children[i - 1].spec_name()));
            } else {
                assert(r[i] == children[i]);
                assert(r[j] == children[j]);
                assert(text_greater(children[j].spec_name(), children[i].spec_name()));
            }
        }
    }
}

/// Finds where a child of the given name goes among name-ordered children.
fn insert_position_of(children: &Vec<Metadata>, name: &str) -> (r: usize)
    ensures
        r == insert_position(children@, name@),
        r <= children@.len(),
{
    let mut i: usize = 0;
    while i < children.len()
        invariant
            i <= children@.len(),
            forall|j: int| 0 <= j < i ==> !text_greater((#[trigger] children@[j]).spec_name(), name@),
        decreases children.len() - i,
    {
        if str_greater(children[i].name(), name) {
            proof {
                lemma_insert_position_step(children@, name@, i as int);
            }
            return i;
        }
        i = i + 1;
    }
    proof {
        lemma_insert_position_step(children@, name@, i as int);
    }
    i
}

/// Puts a child into the children of a folder: in place of the child of the same name, or in
/// name order when there is none.
pub fn insert_child(folder: &mut FolderMd, child: Metadata)
    ensures
        final(folder).id == old(folder).id,
        final(folder).parent_id == old(folder).parent_id,
        final(folder).pathname == old(folder).pathname,
        final(folder).name == old(folder).name,
        final(folder).size == old(folder).size,
        final(folder).created == old(folder).created,
        final(folder).modified == old(folder).modified,
        final(folder).children@ == children_with(old(folder).children@, child),
        names_ascending(old(folder).children@) ==> names_ascending(final(folder).children@),
        forest_ids(final(folder).children@).subset_of(forest_ids(old(folder).children@).add(md_ids(child))),
{
    proof {
        if names_ascending(folder.children@) {
            lemma_children_with_keeps_order(folder.children@, child);
        }
    }
    let ghost c0 = folder.children@;
    let name = child.name();
    let position = find_child(folder, name);
    match position {
        Some(i) => {
            folder.children.set(i, child);
            proof {
                let c1 = folder.children@;
                assert(c1 =~= c0.update(i as int, child));
                lemma_forest_ids_remove(c0, i as int);
                lemma_forest_ids_remove(c1, i as int);
                assert(c1.remove(i as int) =~= c0.remove(i as int));
                assert(forest_ids(c1) =~= forest_ids(c0.remove(i as int)).add(md_ids(child)));
                assert(forest_ids(c1).subset_of(forest_ids(c0).add(md_ids(child))));
            }
        },
        None => {
            let at = insert_position_of(&folder.children, name);
            folder.children.insert(at, child);
            proof {
                let c1 = folder.children@;
                assert(c1 =~= c0.insert(at as int, child));
                lemma_forest_ids_remove(c1, at as int);
                assert(c1.remove(at as int) =~= c0);
                assert(forest_ids(c1) =~= forest_ids(c0).add(md_ids(child)));
            }
        },
    }
}

/// The builder that re-creates folder hierarchies from folder metadata listed with each
/// folder after its parent; a completed folder replaces a child of the same name.
pub struct Builder {
    metadata_folders: Vec<Metadata>,
    current_hierarchy: Vec<FolderMd>,
}

impl Builder {
    /// The folder hierarchies completed so far.
    pub closed spec fn folders(&self) -> Seq<Metadata> {
        self.metadata_folders@
    }

    /// The folders of the hierarchy being traversed, the outermost first.
    pub closed spec fn stack(&self) -> Seq<FolderMd> {
        self.current_hierarchy@
    }

    /// The identifiers of everything the builder holds.
    pub open spec fn held_ids(&self) -> Multiset<i64> {
        forest_ids(self.folders()).add(stack_ids(self.stack()))
    }

    /// What the builder holds, as trees.
    pub open spec fn state(&self) -> BuildState {
        BuildState { folders: forest(self.folders()), stack: frames(self.stack()) }
    }

    /// Creates an empty builder.
    pub fn new() -> (r: Self)
        ensures
            r.folders() == Seq::<Metadata>::empty(),
            r.stack() == Seq::<FolderMd>::empty(),
    {
        Builder { metadata_folders: Vec::new(), current_hierarchy: Vec::new() }
    }

    /// Completes the innermost folder: it is put among the children of the folder below it,
    /// or becomes a completed hierarchy when none is below.
    fn close_top(&mut self)
        requires
            old(self).stack().len() > 0,
        ensures
            final(self).held_ids().subset_of(old(self).held_ids()),
            final(self).stack().len() == old(self).stack().len() - 1,
            stack_id_seq(final(self).stack()) == stack_id_seq(old(self).stack()).drop_last(),
            stack_parent_seq(final(self).stack()) == stack_parent_seq(old(self).stack()).drop_last(),
            old(self).folders().is_prefix_of(final(self).folders()),
            final(self).folders().len() == old(self).folders().len() + if old(self).stack().len() == 1 {
                1int
            } else {
                0int
            },
            final(self).state() == closed(old(self).state(), false),
    {
        let ghost s0 = self.current_hierarchy@;
        let ghost f0 = self.metadata_folders@;
        let child_md = match self.current_hierarchy.pop() {
            Some(md) => md,
            None => vstd::pervasive::unreached(),
        };
        proof {
            assert(s0 =~= self.current_hierarchy@.push(child_md));
            assert(md_ids(Metadata::Folder(child_md)) == folder_ids(child_md));
        }
        if self.current_hierarchy.len() == 0 {
            self.metadata_folders.push(Metadata::Folder(child_md));
            proof {
                lemma_forest_edits(f0, 0, Metadata::Folder(child_md));
                assert(frames(s0)[0] == frame(child_md));
                assert(frames(self.current_hierarchy@) =~= Seq::<(FolderHead, Seq<Tree>)>::empty());
                assert(self.metadata_folders@.drop_last() =~= f0);
                assert(self.current_hierarchy@ =~= Seq::<FolderMd>::empty());
                assert(forest_ids(self.metadata_folders@) == forest_ids(f0).add(folder_ids(child_md)));
                assert(stack_ids(s0) == stack_ids(Seq::<FolderMd>::empty()).add(folder_ids(child_md)));
                assert(self.held_ids() =~= forest_ids(f0).add(stack_ids(s0)));
                assert(f0.is_prefix_of(self.metadata_folders@)) by {
                    assert(self.metadata_folders@.subrange(0, f0.len() as int) =~= f0);
                }
                assert(stack_id_seq(self.current_hierarchy@) =~= stack_id_seq(s0).drop_last());
                assert(stack_parent_seq(self.current_hierarchy@) =~= stack_parent_seq(s0).drop_last());
            }
        } else {
            let mut parent_md = match self.current_hierarchy.pop() {
                Some(md) => md,
                None => vstd::pervasive::unreached(),
            };
            let ghost p0 = parent_md;
            let ghost below = self.current_hierarchy@;
            insert_child(&mut parent_md, Metadata::Folder(child_md));
            self.current_hierarchy.push(parent_md);
            proof {
                lemma_children_with_trees(p0.children@, Metadata::Folder(child_md));
                let n = s0.len() as int;
                assert(s0 =~= below.push(p0).push(child_md));
                assert(frames(s0)[n - 1] == frame(child_md));
                assert(frames(s0)[n - 2] == frame(p0));
                assert(frames(self.current_hierarchy@) =~= frames(s0).take(n - 2).push(frame(parent_md)));
                assert(folder_ids(parent_md).subset_of(folder_ids(p0).add(folder_ids(child_md))));
                assert(s0 =~= below.push(p0).push(child_md));
                assert(s0.drop_last() =~= below.push(p0));
                assert(s0.last() == child_md);
                assert(below.push(p0).drop_last() =~= below);
                assert(self.current_hierarchy@.drop_last() =~= below);
                assert(stack_ids(s0) == stack_ids(below.push(p0)).add(folder_ids(child_md)));
                assert(stack_ids(below.push(p0)) == stack_ids(below).add(folder_ids(p0)));
                assert(stack_ids(self.current_hierarchy@) == stack_ids(below).add(folder_ids(parent_md)));
                assert(self.held_ids().subset_of(forest_ids(f0).add(stack_ids(s0))));
                assert(f0.is_prefix_of(self.metadata_folders@)) by {
                    assert(self.metadata_folders@.subrange(0, f0.len() as int) =~= f0);
                }
                assert(stack_id_seq(self.current_hierarchy@) =~= stack_id_seq(s0).drop_last());
                assert(stack_parent_seq(self.current_hierarchy@) =~= stack_parent_seq(s0).drop_last());
            }
        }
    }

    /// Adds folder metadata: folders of the current hierarchy that are not its parent are
    /// completed, innermost first, and it becomes the innermost folder.
    pub fn add(&mut self, folder_md: FolderMd)
        requires
            parent_chain(old(self).stack()),
        ensures
            parent_chain(final(self).stack()),
            final(self).stack().len() > 0,
            final(self).stack().last() == folder_md,
            ({
                let d = final(self).stack().len() - 1;
                &&& d <= old(self).stack().len()
                &&& stack_id_seq(final(self).stack().drop_last()) == stack_id_seq(old(self).stack()).take(d)
                &&& (d == 0 || old(self).stack()[d - 1].id == folder_md.parent_id)
                &&& forall|j: int| d <= j < old(self).stack().len() ==> (#[trigger] old(self).stack()[j]).id != folder_md.parent_id
                &&& final(self).folders().len() == old(self).folders().len() + if d == 0 && old(self).stack().len() > 0 {
                    1int
                } else {
                    0int
                }
            }),
            final(self).held_ids().subset_of(old(self).held_ids().add(folder_ids(folder_md))),
            old(self).folders().is_prefix_of(final(self).folders()),
            final(self).state() == added(old(self).state(), folder_md, false),
    {
        let ghost st0 = self.state();
        let ghost s0 = self.current_hierarchy@;
        let ghost f0 = self.metadata_folders@;
        let ghost h0 = self.held_ids();
        let pid = folder_md.parent_id;
        proof {
            assert(stack_id_seq(s0).take(s0.len() as int) =~= stack_id_seq(s0));
            assert(stack_parent_seq(s0).take(s0.len() as int) =~= stack_parent_seq(s0));
            assert(f0.is_prefix_of(f0)) by {
                assert(f0.subrange(0, f0.len() as int) =~= f0);
            }
        }
        loop
            invariant
                parent_chain(s0),
                added(self.state(), folder_md, false) == added(st0, folder_md, false),
                pid == folder_md.parent_id,
                self.held_ids().subset_of(h0),
                self.current_hierarchy@.len() <= s0.len(),
                stack_id_seq(self.current_hierarchy@) == stack_id_seq(s0).take(self.current_hierarchy@.len() as int),
                stack_parent_seq(self.current_hierarchy@) == stack_parent_seq(s0).take(self.current_hierarchy@.len() as int),
                forall|j: int| self.current_hierarchy@.len() <= j < s0.len() ==> (#[trigger] s0[j]).id != pid,
                f0.is_prefix_of(self.metadata_folders@),
                self.metadata_folders@.len() == f0.len() + if s0.len() > 0 && self.current_hierarchy@.len() == 0 {
                    1int
                } else {
                    0int
                },
            ensures
                parent_chain(s0),
                added(self.state(), folder_md, false) == added(st0, folder_md, false),
                pid == folder_md.parent_id,
                self.held_ids().subset_of(h0),
                self.current_hierarchy@.len() <= s0.len(),
                stack_id_seq(self.current_hierarchy@) == stack_id_seq(s0).take(self.current_hierarchy@.len() as int),
                stack_parent_seq(self.current_hierarchy@) == stack_parent_seq(s0).take(self.current_hierarchy@.len() as int),
                forall|j: int| self.current_hierarchy@.len() <= j < s0.len() ==> (#[trigger] s0[j]).id != pid,
                f0.is_prefix_of(self.metadata_folders@),
                self.metadata_folders@.len() == f0.len() + if s0.len() > 0 && self.current_hierarchy@.len() == 0 {
                    1int
                } else {
                    0int
                },
                self.current_hierarchy@.len() == 0 || self.current_hierarchy@.last().id == pid,
            decreases self.current_hierarchy@.len(),
        {
            let n = self.current_hierarchy.len();
            if n == 0 {
                break;
            }
            let top_id = self.current_hierarchy[n - 1].id;
            if pid == top_id {
                assert(stack_id_seq(self.current_hierarchy@)[n - 1] == top_id);
                break;
            }
            let ghost before = self.current_hierarchy@;
            let ghost fb = self.metadata_folders@;
            let ghost stb = self.state();
            proof {
                assert(stb.stack.last().0.id == top_id);
                assert(stb.stack.len() == n);
                assert(stb.stack.len() != 0 && stb.stack.last().0.id != folder_md.parent_id);
                assert(added(stb, folder_md, false) == added(closed(stb, false), folder_md, false));
            }
            let ghost hb = self.held_ids();
            proof {
                assert(stack_id_seq(before)[n - 1] == top_id);
                assert(stack_id_seq(s0).take(n as int)[n - 1] == s0[n - 1].id);
            }
            self.close_top();
            proof {
                lemma_subset_trans(self.held_ids(), hb, h0);
                assert(stack_id_seq(s0).take(n as int).drop_last() =~= stack_id_seq(s0).take(n - 1));
                assert(stack_parent_seq(s0).take(n as int).drop_last() =~= stack_parent_seq(s0).take(n - 1));
                assert(f0.is_prefix_of(self.metadata_folders@)) by {
                    assert(self.metadata_folders@.subrange(0, f0.len() as int) =~= fb.subrange(0, f0.len() as int));
                }
            }
        }
        let ghost kept = self.current_hierarchy@;
        let ghost stk = self.state();
        let ghost hk = self.held_ids();
        self.current_hierarchy.push(folder_md);
        proof {
            if kept.len() > 0 {
                assert(stk.stack.last().0.id == kept.last().id);
            }
            assert(frames(self.current_hierarchy@) =~= stk.stack.push(frame(folder_md)));
            let k = kept.len() as int;
            assert(self.current_hierarchy@.drop_last() =~= kept);
            assert(stack_ids(self.current_hierarchy@) == stack_ids(kept).add(folder_ids(folder_md)));
            assert(self.held_ids() =~= hk.add(folder_ids(folder_md)));
            assert(self.held_ids().subset_of(h0.add(folder_ids(folder_md))));
            assert forall|i: int, j: int| 0 <= i && j == i + 1 && j < self.current_hierarchy@.len() implies (#[trigger] self.current_hierarchy@[j]).parent_id == (#[trigger] self.current_hierarchy@[i]).id by {
                if j < k {
                    assert(stack_parent_seq(kept)[j] == stack_parent_seq(s0)[j]);
                    assert(stack_id_seq(kept)[i] == stack_id_seq(s0)[i]);
                    assert(s0[j].parent_id == s0[i].id);
                } else {
                    assert(stack_id_seq(kept)[k - 1] == kept.last().id);
                }
            }
            if k > 0 {
                assert(stack_id_seq(kept)[k - 1] == stack_id_seq(s0).take(k)[k - 1]);
            }
        }
    }

    /// Completes every folder of the current hierarchy.
    fn flush(&mut self)
        ensures
            final(self).stack().len() == 0,
            forest(final(self).folders()) == flushed(old(self).state(), false),
            final(self).held_ids().subset_of(old(self).held_ids()),
            old(self).folders().is_prefix_of(final(self).folders()),
            final(self).folders().len() == old(self).folders().len() + if old(self).stack().len() > 0 {
                1int
            } else {
                0int
            },
    {
        let ghost f0 = self.metadata_folders@;
        let ghost st0 = self.state();
        let ghost n0 = self.current_hierarchy@.len();
        let ghost h0 = self.held_ids();
        proof {
            assert(f0.is_prefix_of(f0)) by {
                assert(f0.subrange(0, f0.len() as int) =~= f0);
            }
        }
        while self.current_hierarchy.len() > 0
            invariant
                flushed(self.state(), false) == flushed(st0, false),
                self.held_ids().subset_of(h0),
                h0 == old(self).held_ids(),
                f0 == old(self).folders(),
                n0 == old(self).stack().len(),
                self.current_hierarchy@.len() <= n0,
                f0.is_prefix_of(self.metadata_folders@),
                self.metadata_folders@.len() == f0.len() + if n0 > 0 && self.current_hierarchy@.len() == 0 {
                    1int
                } else {
                    0int
                },
            decreases self.current_hierarchy@.len(),
        {
            let ghost fb = self.metadata_folders@;
            let ghost hb = self.held_ids();
            let ghost stb = self.state();
            proof {
                assert(stb.stack.len() == self.current_hierarchy@.len());
            }
            self.close_top();
            proof {
                lemma_subset_trans(self.held_ids(), hb, h0);
                assert(f0.is_prefix_of(self.metadata_folders@)) by {
                    assert(self.metadata_folders@.subrange(0, f0.len() as int) =~= fb.subrange(0, f0.len() as int));
                }
            }
        }
    }

    /// Gets the folder hierarchies: the current one is completed first.
    pub fn get(self) -> (r: Vec<Metadata>)
        ensures
            forest(r@) == flushed(self.state(), false),
            forest_ids(r@).subset_of(self.held_ids()),
            self.folders().is_prefix_of(r@),
            r@.len() == self.folders().len() + if self.stack().len() > 0 {
                1int
            } else {
                0int
            },
    {
        let mut builder = self;
        builder.flush();
        proof {
            assert(stack_ids(builder.current_hierarchy@) =~= Multiset::<i64>::empty());
            assert(builder.held_ids() =~= forest_ids(builder.metadata_folders@));
        }
        builder.metadata_folders
    }
}


/// The lines that trace a metadata tree, one per item, each folder before what it holds.
pub open spec fn dump_lines(m: Metadata) -> Seq<Seq<char>>
    decreases m, 1nat,
{
    match m {
        Metadata::Problem(p) => seq!["Problem: "@ + p.pathname@],
        Metadata::File(f) => seq![(if f.is_symlink { "Symlink"@ } else { "File"@ }) + ": "@ + f.pathname@],
        Metadata::Root(f) => seq!["Root"@ + ": "@ + f.pathname@] + dump_forest(f.children@),
        Metadata::Folder(f) => seq!["Folder"@ + ": "@ + f.pathname@] + dump_forest(f.children@),
    }
}

/// The lines that trace a sequence of metadata trees, in order.
pub open spec fn dump_forest(s: Seq<Metadata>) -> Seq<Seq<char>>
    decreases s, 0nat,
{
    if s.len() == 0 {
        Seq::empty()
    } else {
        dump_forest(s.drop_last()) + dump_lines(s.last())
    }
}

/// The lines that trace the contents of a metadata tree: one per item, `Problem`, `File`,
/// `Symlink`, `Root` or `Folder` and the pathname, each folder before what it holds.
pub fn dump_metadata(node: &Metadata) -> (r: Vec<String>)
    ensures
        string_views(r@) == dump_lines(*node),
    decreases node,
{
    let mut lines: Vec<String> = Vec::new();
    match node {
        Metadata::Problem(problem_md) => {
            lines.push(String::from_str("Problem: ").concat(problem_md.pathname.as_str()));
            assert(string_views(lines@) =~= dump_lines(*node));
        },
        Metadata::File(file_md) => {
            let file_type = if file_md.is_symlink {
                "Symlink"
            } else {
                "File"
            };
            lines.push(String::from_str(file_type).concat(": ").concat(file_md.pathname.as_str()));
            assert(string_views(lines@) =~= dump_lines(*node));
        },
        Metadata::Root(folder_md) | Metadata::Folder(folder_md) => {
            let folder_type = if node.is_root() {
                "Root"
            } else {
                "Folder"
            };
            lines.push(String::from_str(folder_type).concat(": ").concat(folder_md.pathname.as_str()));
            let ghost head = string_views(lines@);
            let mut i: usize = 0;
            proof {
                assert(folder_md.children@.take(0) =~= Seq::<Metadata>::empty());
                assert(string_views(lines@) =~= head + dump_forest(folder_md.children@.take(0)));
            }
            while i < folder_md.children.len()
                invariant
                    *node == Metadata::Root(*folder_md) || *node == Metadata::Folder(*folder_md),
                    i <= folder_md.children@.len(),
                    string_views(lines@) == head + dump_forest(folder_md.children@.take(i as int)),
                decreases folder_md.children.len() - i,
            {
                proof {
                    if *node == Metadata::Root(*folder_md) {
                        assert(decreases_to!(*node => node->Root_0));
                        assert(node->Root_0 == *folder_md);
                    } else {
                        assert(decreases_to!(*node => node->Folder_0));
                        assert(node->Folder_0 == *folder_md);
                    }
                    assert(decreases_to!(*folder_md => folder_md.children));
                    assert(decreases_to!(folder_md.children => folder_md.children@));
                    assert(decreases_to!(folder_md.children@ => folder_md.children@[i as int]));
                }
                let mut sub = dump_metadata(&folder_md.children[i]);
                let ghost before = lines@;
                let ghost sv = sub@;
                lines.append(&mut sub);
                proof {
                    assert(string_views(lines@) =~= string_views(before) + string_views(sv));
                    assert(folder_md.children@.take(i + 1).drop_last() =~= folder_md.children@.take(i as int));
                    assert(folder_md.children@.take(i + 1).last() == folder_md.children@[i as int]);
                    assert(head + dump_forest(folder_md.children@.take(i as int)) + dump_lines(folder_md.children@[i as int])
                        =~= head + (dump_forest(folder_md.children@.take(i as int)) + dump_lines(folder_md.children@[i as int])));
                }
                i = i + 1;
            }
            assert(folder_md.children@.take(i as int) =~= folder_md.children@);
        },
    }
    lines
}


/// Re-creates the folder hierarchies of folder metadata listed with each folder after its
/// parent: each folder becomes a child of the innermost folder still open that is its parent
/// (the open folders that are not are completed first), and each completed folder has its
/// children in name order; everything the folders hold ends up in the hierarchies, nothing
/// else does.
pub fn folder_hierarchies(folder_mds: Vec<FolderMd>) -> (r: Vec<Metadata>)
    ensures
        forest(r@) == flushed(rebuilt(folder_mds@, true), true),
        forest_ids(r@) == stack_ids(folder_mds@),
{
    let ghost input = folder_mds@;
    let mut hierarchy = Hierarchy::default();
    proof {
        assert(hierarchy.state().folders =~= Seq::<Tree>::empty());
        assert(hierarchy.state().stack =~= Seq::<(FolderHead, Seq<Tree>)>::empty());
        assert(input.take(0) =~= Seq::<FolderMd>::empty());
    }
    let mut rest = folder_mds;
    let total = rest.len();
    let mut u: usize = 0;
    proof {
        assert(input.take(0) =~= Seq::<FolderMd>::empty());
        assert(forest_ids(Seq::<Metadata>::empty()) =~= Multiset::<i64>::empty());
        assert(hierarchy.held_ids() =~= stack_ids(input.take(0)));
    }
    while rest.len() > 0
        invariant
            input.len() == total,
            u + rest.len() == input.len(),
            forall|q: int| 0 <= q < rest.len() ==> #[trigger] rest@[q] == input[u + q],
            parent_chain(hierarchy.stack()),
            hierarchy.held_ids() == stack_ids(input.take(u as int)),
            hierarchy.state() == rebuilt(input.take(u as int), true),
        decreases rest.len(),
    {
        let ghost old_rest = rest@;
        let folder_md = rest.remove(0);
        assert(old_rest[0] == input[u as int]);
        assert forall|q: int| 0 <= q < rest.len() implies #[trigger] rest@[q] == input[u + 1 + q] by {
            assert(rest@[q] == old_rest[q + 1]);
        }
        hierarchy.add(folder_md);
        proof {
            assert(input.take(u + 1).drop_last() =~= input.take(u as int));
            assert(input.take(u + 1).last() == input[u as int]);
        }
        u = u + 1;
    }
    assert(input.take(u as int) =~= input);
    hierarchy.get()
}

} // verus!
