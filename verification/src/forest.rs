//! Metadata trees as values: folders with the trees they hold, and how the hierarchy builders
//! complete folders and nest them.
use crate::analysis::first_named;
use crate::hierarchy::{children_with, insert_position, lemma_first_named_bounds, lemma_insert_position_bounds};
use crate::objects::{FileMd, FolderMd, Metadata, ProblemMd};
use crate::order::text_greater;
use vstd::prelude::*;

verus! {

/// The fields of a folder other than its children.
pub struct FolderHead {
    /// The folder identifier.
    pub id: i64,
    /// The parent folder identifier.
    pub parent_id: i64,
    /// The folder pathname.
    pub pathname: Seq<char>,
    /// The folder name.
    pub name: Seq<char>,
    /// The disk space of the folder.
    pub size: u64,
    /// When the folder was created.
    pub created: u64,
    /// When the folder was last modified.
    pub modified: u64,
}

/// A metadata tree: a folder (or the root of a hierarchy) with the trees it holds, a file, or
/// a problem.
pub enum Tree {
    /// The top-level directory of a hierarchy and what it holds.
    Root(FolderHead, Seq<Tree>),
    /// A folder and what it holds.
    Folder(FolderHead, Seq<Tree>),
    /// A file.
    File(FileMd),
    /// A problem.
    Problem(ProblemMd),
}

/// A vector position as an integer.
pub open spec fn position(k: usize) -> int {
    k as int
}

/// The fields of a folder other than its children.
pub open spec fn head(f: FolderMd) -> FolderHead {
    FolderHead {
        id: f.id,
        parent_id: f.parent_id,
        pathname: f.pathname@,
        name: f.name@,
        size: f.size,
        created: f.created,
        modified: f.modified,
    }
}

/// The tree of metadata.
pub open spec fn tree(m: Metadata) -> Tree
    decreases m, 1nat,
{
    match m {
        Metadata::Root(f) => Tree::Root(head(f), forest(f.children@)),
        Metadata::Folder(f) => Tree::Folder(head(f), forest(f.children@)),
        Metadata::File(f) => Tree::File(f),
        Metadata::Problem(p) => Tree::Problem(p),
    }
}

/// The trees of a sequence of metadata, in order.
pub open spec fn forest(s: Seq<Metadata>) -> Seq<Tree>
    decreases s, 0nat,
{
    if s.len() == 0 {
        Seq::empty()
    } else {
        forest(s.drop_last()).push(tree(s.last()))
    }
}

/// The name of a tree.
pub open spec fn tree_name(t: Tree) -> Seq<char> {
    match t {
        Tree::Root(h, _) => h.name,
        Tree::Folder(h, _) => h.name,
        Tree::File(f) => f.name@,
        Tree::Problem(p) => p.name@,
    }
}

/// A tree has the name of its metadata.
pub proof fn lemma_tree_name(m: Metadata)
    ensures
        tree_name(tree(m)) == m.spec_name(),
{
}

/// The trees of a sequence are the trees of its items, one for one.
pub proof fn lemma_forest_index(s: Seq<Metadata>)
    ensures
        forest(s).len() == s.len(),
        forall|i: int| 0 <= i < s.len() ==> #[trigger] forest(s)[i] == tree(s[i]),
    decreases s.len(),
{
    if s.len() > 0 {
        lemma_forest_index(s.drop_last());
        assert forall|i: int| 0 <= i < s.len() implies #[trigger] forest(s)[i] == tree(s[i]) by {
            if i < s.len() - 1 {
                assert(s.drop_last()[i] == s[i]);
            }
        }
    }
}

/// Two sequences of metadata with the same trees item by item have the same forest.
pub proof fn lemma_forest_ext(s: Seq<Metadata>, t: Seq<Tree>)
    requires
        s.len() == t.len(),
        forall|i: int| 0 <= i < s.len() ==> tree(#[trigger] s[i]) == t[i],
    ensures
        forest(s) == t,
{
    lemma_forest_index(s);
    assert(forest(s) =~= t);
}

/// The forest of a sequence with an item put in place of another, added, or inserted.
pub proof fn lemma_forest_edits(s: Seq<Metadata>, i: int, m: Metadata)
    ensures
        forest(s.push(m)) == forest(s).push(tree(m)),
        0 <= i < s.len() ==> forest(s.update(i, m)) == forest(s).update(i, tree(m)),
        0 <= i <= s.len() ==> forest(s.insert(i, m)) == forest(s).insert(i, tree(m)),
        s.len() > 0 ==> forest(s.drop_first()) == forest(s).drop_first(),
{
    lemma_forest_index(s);
    lemma_forest_ext(s.push(m), forest(s).push(tree(m)));
    if 0 <= i < s.len() {
        lemma_forest_ext(s.update(i, m), forest(s).update(i, tree(m)));
    }
    if 0 <= i <= s.len() {
        lemma_forest_ext(s.insert(i, m), forest(s).insert(i, tree(m)));
    }
    if s.len() > 0 {
        lemma_forest_ext(s.drop_first(), forest(s).drop_first());
    }
}

/// The trees put in name order by inserting each in turn after the trees whose names do
/// not sort after its own, so that trees of the same name keep their order.
pub open spec fn sorted_by_name(ts: Seq<Tree>) -> Seq<Tree>
    decreases ts.len(),
{
    if ts.len() == 0 {
        Seq::empty()
    } else {
        insert_by_name(sorted_by_name(ts.drop_last()), ts.last())
    }
}

/// A tree inserted into name-ordered trees, after the trees whose names do not sort after
/// its own.
pub open spec fn insert_by_name(sorted: Seq<Tree>, t: Tree) -> Seq<Tree>
    decreases sorted.len(),
{
    if sorted.len() == 0 {
        seq![t]
    } else if text_greater(tree_name(sorted.last()), tree_name(t)) {
        insert_by_name(sorted.drop_last(), t).push(sorted.last())
    } else {
        sorted.push(t)
    }
}

/// Inserting by name puts the tree just after the trees whose names do not sort after its
/// own, when all the trees from that place on sort after it.
pub proof fn lemma_insert_by_name_at(sorted: Seq<Tree>, t: Tree, k: int)
    requires
        0 <= k <= sorted.len(),
        forall|j: int| k <= j < sorted.len() ==> text_greater(tree_name(#[trigger] sorted[j]), tree_name(t)),
        k > 0 ==> !text_greater(tree_name(sorted[k - 1]), tree_name(t)),
    ensures
        insert_by_name(sorted, t) == sorted.insert(k, t),
    decreases sorted.len(),
{
    if sorted.len() == 0 {
        assert(sorted.insert(k, t) =~= seq![t]);
    } else if k == sorted.len() {
        assert(sorted.insert(k, t) =~= sorted.push(t));
    } else {
        let rest = sorted.drop_last();
        assert forall|j: int| k <= j < rest.len() implies text_greater(tree_name(#[trigger] rest[j]), tree_name(t)) by {
            assert(rest[j] == sorted[j]);
        }
        if k > 0 {
            assert(rest[k - 1] == sorted[k - 1]);
        }
        assert(text_greater(tree_name(sorted[sorted.len() - 1]), tree_name(t)));
        lemma_insert_by_name_at(rest, t, k);
        assert(rest.insert(k, t).push(sorted.last()) =~= sorted.insert(k, t));
    }
}

/// The position of the first tree named `name`, the number of trees when none is.
pub open spec fn first_tree_named(ts: Seq<Tree>, name: Seq<char>) -> int
    decreases ts.len(),
{
    if ts.len() == 0 {
        0
    } else if tree_name(ts[0]) == name {
        0
    } else {
        1 + first_tree_named(ts.drop_first(), name)
    }
}

/// Where a tree of the given name goes among name-ordered trees: before the first tree whose
/// name sorts after it.
pub open spec fn tree_position(ts: Seq<Tree>, name: Seq<char>) -> int
    decreases ts.len(),
{
    if ts.len() == 0 {
        0
    } else if text_greater(tree_name(ts[0]), name) {
        0
    } else {
        1 + tree_position(ts.drop_first(), name)
    }
}

/// The trees with `t` in place of the tree of the same name, or put in name order when no
/// tree has its name.
pub open spec fn trees_with(ts: Seq<Tree>, t: Tree) -> Seq<Tree> {
    let i = first_tree_named(ts, tree_name(t));
    if i < ts.len() {
        ts.update(i, t)
    } else {
        ts.insert(tree_position(ts, tree_name(t)), t)
    }
}

/// Finding a child by name, and where a child of a name goes, agree on metadata and on
/// their trees.
pub proof fn lemma_positions_agree(s: Seq<Metadata>, name: Seq<char>, position: int)
    requires
        position == insert_position(s, name),
    ensures
        first_named(s, name) == first_tree_named(forest(s), name),
        position == tree_position(forest(s), name),
    decreases s.len(),
{
    lemma_forest_index(s);
    if s.len() > 0 {
        lemma_tree_name(s[0]);
        let rest = s.drop_first();
        lemma_forest_edits(s, 0, s[0]);
        lemma_positions_agree(rest, name, insert_position(rest, name));
    }
}

/// Putting a child among the children of a folder by name is putting its tree among their
/// trees by name.
pub proof fn lemma_children_with_trees(s: Seq<Metadata>, m: Metadata)
    ensures
        forest(children_with(s, m)) == trees_with(forest(s), tree(m)),
{
    let name = m.spec_name();
    lemma_tree_name(m);
    lemma_first_named_bounds(s, name);
    lemma_insert_position_bounds(s, name);
    lemma_positions_agree(s, name, insert_position(s, name));
    lemma_forest_index(s);
    lemma_forest_edits(s, first_named(s, name), m);
    lemma_forest_edits(s, insert_position(s, name), m);
}

/// What a hierarchy builder holds, as trees: the completed hierarchies, and the folders of
/// the hierarchy being traversed, outermost first, each with the trees it holds so far.
pub struct BuildState {
    /// The completed hierarchies.
    pub folders: Seq<Tree>,
    /// The folders being traversed.
    pub stack: Seq<(FolderHead, Seq<Tree>)>,
}

/// A folder being traversed: its fields and the trees it holds.
pub open spec fn frame(f: FolderMd) -> (FolderHead, Seq<Tree>) {
    (head(f), forest(f.children@))
}

/// The folders being traversed, as frames.
pub open spec fn frames(s: Seq<FolderMd>) -> Seq<(FolderHead, Seq<Tree>)> {
    s.map_values(|f: FolderMd| frame(f))
}

/// Completes the innermost folder. With `sorting`, its children are put in name order and it
/// becomes the last child of the folder below it; without, its children stay as they are and
/// it is put among the children of the folder below it by name (`trees_with`). With no folder
/// below, it becomes a completed hierarchy.
pub open spec fn closed(st: BuildState, sorting: bool) -> BuildState {
    let n = st.stack.len();
    let top = st.stack[n - 1];
    let t = if sorting {
        Tree::Folder(top.0, sorted_by_name(top.1))
    } else {
        Tree::Folder(top.0, top.1)
    };
    if n <= 1 {
        BuildState { folders: st.folders.push(t), stack: Seq::empty() }
    } else {
        let p = st.stack[n - 2];
        let children = if sorting {
            p.1.push(t)
        } else {
            trees_with(p.1, t)
        };
        BuildState { folders: st.folders, stack: st.stack.take(n - 2).push((p.0, children)) }
    }
}

/// Adds a folder: the innermost folders are completed until the folder's parent is the
/// innermost one, or none is left, and the folder becomes the innermost one.
pub open spec fn added(st: BuildState, f: FolderMd, sorting: bool) -> BuildState
    decreases st.stack.len(),
{
    if st.stack.len() == 0 || st.stack.last().0.id == f.parent_id {
        BuildState { folders: st.folders, stack: st.stack.push(frame(f)) }
    } else {
        added(closed(st, sorting), f, sorting)
    }
}

/// The completed hierarchies once every folder being traversed is completed.
pub open spec fn flushed(st: BuildState, sorting: bool) -> Seq<Tree>
    decreases st.stack.len(),
{
    if st.stack.len() == 0 {
        st.folders
    } else {
        flushed(closed(st, sorting), sorting)
    }
}

/// What a builder holds once the folders are added in order to an empty one.
pub open spec fn rebuilt(input: Seq<FolderMd>, sorting: bool) -> BuildState
    decreases input.len(),
{
    if input.len() == 0 {
        BuildState { folders: Seq::empty(), stack: Seq::empty() }
    } else {
        added(rebuilt(input.drop_last(), sorting), input.last(), sorting)
    }
}

} // verus!
