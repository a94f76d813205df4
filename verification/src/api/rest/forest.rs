//! What the forest of a batch of task records is.
//!
//! A batch is a sequence of records, each with an identifier and, optionally,
//! the identifier of its parent. Everything here speaks of records by their
//! position in the batch.
use super::task::{Task, TaskID, TreeView};
use vstd::prelude::*;

verus! {

/// The positions in `lo..hi` that satisfy `pick`, ascending.
pub open spec fn positions(lo: int, hi: int, pick: spec_fn(int) -> bool) -> Seq<int>
    decreases hi - lo,
{
    if hi <= lo {
        Seq::empty()
    } else if pick(hi - 1) {
        positions(lo, hi - 1, pick).push(hi - 1)
    } else {
        positions(lo, hi - 1, pick)
    }
}

/// No two records of the batch share an identifier.
pub open spec fn distinct_ids(ts: Seq<Task>) -> bool {
    forall|i: int, j: int| 0 <= i < j < ts.len() ==> ts[i].id != ts[j].id
}

/// The record at `i` names no parent.
pub open spec fn is_root(ts: Seq<Task>, i: int) -> bool {
    ts[i].parent_id is None
}

/// The record at `j` names `id` as its parent.
pub open spec fn is_child_of(ts: Seq<Task>, id: TaskID, j: int) -> bool {
    ts[j].parent_id == Some(id)
}

/// The record at `i` is a root, or reaches one by following parent
/// identifiers through the batch at most `depth` times.
pub open spec fn resolves_within(ts: Seq<Task>, i: int, depth: nat) -> bool
    decreases depth,
{
    &&& 0 <= i < ts.len()
    &&& match ts[i].parent_id {
        None => true,
        Some(id) => depth > 0 && exists|j: int|
            #![trigger ts[j]]
            0 <= j < ts.len() && ts[j].id == id && resolves_within(ts, j, (depth - 1) as nat),
    }
}

/// The record at `i` is a root or a descendant of one.
pub open spec fn resolves(ts: Seq<Task>, i: int) -> bool {
    exists|depth: nat| resolves_within(ts, i, depth)
}

/// Every record of the batch is a root or a descendant of one.
pub open spec fn all_resolve(ts: Seq<Task>) -> bool {
    forall|i: int| 0 <= i < ts.len() ==> resolves(ts, i)
}

/// Picks the positions of the roots.
pub open spec fn root_at(ts: Seq<Task>) -> spec_fn(int) -> bool {
    |i: int| is_root(ts, i)
}

/// Picks the positions of the records that never reach a root.
pub open spec fn stuck_at(ts: Seq<Task>) -> spec_fn(int) -> bool {
    |i: int| !resolves(ts, i)
}

/// Picks the positions of the records that name `id` as their parent.
pub open spec fn child_at(ts: Seq<Task>, id: TaskID) -> spec_fn(int) -> bool {
    |j: int| is_child_of(ts, id, j)
}

/// The positions of the roots, in the order of the batch.
pub open spec fn roots(ts: Seq<Task>) -> Seq<int> {
    positions(0, ts.len() as int, root_at(ts))
}

/// The positions of the records that never reach a root, in the order of the
/// batch.
pub open spec fn unresolved(ts: Seq<Task>) -> Seq<int> {
    positions(0, ts.len() as int, stuck_at(ts))
}

/// The identifiers of the records that never reach a root, in the order of
/// the batch.
pub open spec fn unresolved_ids(ts: Seq<Task>) -> Seq<TaskID> {
    Seq::new(unresolved(ts).len(), |k: int| ts[unresolved(ts)[k]].id)
}

/// The children of the record at `p`, in the order in which they are attached.
///
/// Under a root that is the order of the batch. Under any other record the
/// children that follow it in the batch come first, then those that precede
/// it, each group in the order of the batch.
pub open spec fn child_order(ts: Seq<Task>, p: int) -> Seq<int> {
    let mine = child_at(ts, ts[p].id);
    if is_root(ts, p) {
        positions(0, ts.len() as int, mine)
    } else {
        positions(p + 1, ts.len() as int, mine) + positions(0, p, mine)
    }
}

/// `tree` is the tree below the record at `i`: it holds that record, and its
/// subtrees are those of the record's children, in the order of attachment.
pub open spec fn is_subtree(ts: Seq<Task>, tree: TreeView, i: int) -> bool
    decreases tree,
{
    &&& 0 <= i < ts.len()
    &&& tree.task == ts[i]
    &&& tree.subtasks.len() == child_order(ts, i).len()
    &&& forall|k: int|
        0 <= k < tree.subtasks.len() ==> is_subtree(
            ts,
            #[trigger] tree.subtasks[k],
            child_order(ts, i)[k],
        )
}

/// `forest` is the forest of the batch: one tree for each root, in the order
/// of the batch.
pub open spec fn is_forest(ts: Seq<Task>, forest: Seq<TreeView>) -> bool {
    &&& forest.len() == roots(ts).len()
    &&& forall|k: int| 0 <= k < forest.len() ==> is_subtree(ts, #[trigger] forest[k], roots(ts)[k])
}

/// How often a task with the identifier `id` occurs in `tree`.
pub open spec fn hits(tree: TreeView, id: TaskID) -> nat
    decreases tree, 0nat,
{
    (if tree.task.id == id {
        1nat
    } else {
        0nat
    }) + hits_among(tree.subtasks, id, tree.subtasks.len())
}

/// How often a task with the identifier `id` occurs in the first `k` trees
/// of `forest`.
pub open spec fn hits_among(forest: Seq<TreeView>, id: TaskID, k: nat) -> nat
    decreases forest, k,
{
    if k == 0 || k > forest.len() {
        0
    } else {
        hits_among(forest, id, (k - 1) as nat) + hits(forest[k - 1], id)
    }
}

/// How often a task with the identifier `id` occurs in `forest`.
pub open spec fn hits_in(forest: Seq<TreeView>, id: TaskID) -> nat {
    hits_among(forest, id, forest.len())
}

/// Every task in `tree` but the topmost names the task above it as its
/// parent.
pub open spec fn linked(tree: TreeView) -> bool
    decreases tree,
{
    forall|c: int|
        0 <= c < tree.subtasks.len() ==> (#[trigger] tree.subtasks[c]).task.parent_id == Some(
            tree.task.id,
        ) && linked(tree.subtasks[c])
}

/// `forest` holds the roots of the batch, in the order of the batch, and below
/// each task only tasks that name it as their parent.
pub open spec fn is_rooted(ts: Seq<Task>, forest: Seq<TreeView>) -> bool {
    &&& forest.len() == roots(ts).len()
    &&& forall|k: int|
        0 <= k < forest.len() ==> (#[trigger] forest[k]).task == ts[roots(ts)[k]] && linked(
            forest[k],
        )
}

} // verus!
