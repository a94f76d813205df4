//! From the state of the construction to the trees.
use super::arena::{earlier, Arena};
use super::forest::{child_order, is_forest, is_root, is_rooted, is_subtree, linked, roots};
use super::task::{Task, TaskTree, TreeView};
use vstd::prelude::*;

verus! {

/// `tree` holds the record at `k`, and below it the trees that grow from the
/// children that `kids` lists for `k`, in that order.
pub open spec fn grown(ts: Seq<Task>, kids: Seq<Seq<int>>, tree: TreeView, k: int) -> bool
    decreases tree,
{
    &&& 0 <= k < ts.len()
    &&& tree.task == ts[k]
    &&& tree.subtasks.len() == kids[k].len()
    &&& forall|c: int|
        0 <= c < tree.subtasks.len() ==> grown(ts, kids, #[trigger] tree.subtasks[c], kids[k][c])
}

/// `forest` holds one grown tree for each root, in the order of the batch.
pub open spec fn raised(ts: Seq<Task>, kids: Seq<Seq<int>>, forest: Seq<TreeView>) -> bool {
    &&& forest.len() == roots(ts).len()
    &&& forall|k: int|
        0 <= k < forest.len() ==> grown(ts, kids, #[trigger] forest[k], roots(ts)[k])
}

/// Where every record lists its children as `child_order` does, a grown tree
/// is the tree below its record.
pub proof fn lemma_grown_is_subtree(ts: Seq<Task>, kids: Seq<Seq<int>>, tree: TreeView, k: int)
    requires
        grown(ts, kids, tree, k),
        kids.len() == ts.len(),
        forall|p: int| 0 <= p < ts.len() ==> #[trigger] kids[p] == child_order(ts, p),
    ensures
        is_subtree(ts, tree, k),
    decreases tree,
{
    assert forall|c: int| 0 <= c < tree.subtasks.len() implies is_subtree(
        ts,
        #[trigger] tree.subtasks[c],
        child_order(ts, k)[c],
    ) by {
        assert(kids[k] == child_order(ts, k));
        lemma_grown_is_subtree(ts, kids, tree.subtasks[c], kids[k][c]);
    }
}

/// Where every record lists its children as `child_order` does, a raised
/// forest is the forest of the batch.
pub proof fn lemma_raised_is_forest(ts: Seq<Task>, kids: Seq<Seq<int>>, forest: Seq<TreeView>)
    requires
        raised(ts, kids, forest),
        kids.len() == ts.len(),
        forall|p: int| 0 <= p < ts.len() ==> #[trigger] kids[p] == child_order(ts, p),
    ensures
        is_forest(ts, forest),
{
    assert forall|k: int| 0 <= k < forest.len() implies is_subtree(
        ts,
        #[trigger] forest[k],
        roots(ts)[k],
    ) by {
        lemma_grown_is_subtree(ts, kids, forest[k], roots(ts)[k]);
    }
}

/// In a grown tree every task but the topmost names the task above it as its
/// parent.
pub proof fn lemma_grown_is_linked(a: Arena, tree: TreeView, k: int)
    requires
        a.inv(),
        grown(a.ts, a.kids, tree, k),
    ensures
        linked(tree),
    decreases tree,
{
    assert forall|c: int| 0 <= c < tree.subtasks.len() implies (#[trigger] tree.subtasks[c]).task.parent_id
        == Some(tree.task.id) && linked(tree.subtasks[c]) by {
        let j = a.kids[k][c];
        assert(a.placed[j] && a.parent[j] == k);
        assert(grown(a.ts, a.kids, tree.subtasks[c], j));
        lemma_grown_is_linked(a, tree.subtasks[c], j);
    }
}

/// A raised forest holds the roots of the batch, and below each task only
/// tasks that name it as their parent.
pub proof fn lemma_raised_is_rooted(a: Arena, forest: Seq<TreeView>)
    requires
        a.inv(),
        raised(a.ts, a.kids, forest),
    ensures
        is_rooted(a.ts, forest),
{
    assert forall|k: int| 0 <= k < forest.len() implies (#[trigger] forest[k]).task
        == a.ts[roots(a.ts)[k]] && linked(forest[k]) by {
        lemma_grown_is_linked(a, forest[k], roots(a.ts)[k]);
    }
}

/// The record at `x` is among those placed at `pos` or later.
pub open spec fn done(a: Arena, pos: int, x: int) -> bool {
    exists|q: int| pos <= q < a.order.len() && #[trigger] a.order[q] == x
}

/// The trees are built from the record placed last to the one placed first.
/// When those placed at `pos` or later are done, each of them has given its
/// record away, and holds its tree until its parent is done too.
pub open spec fn finishing(
    a: Arena,
    pos: int,
    slots: Seq<Option<Task>>,
    built: Seq<Option<TaskTree>>,
) -> bool {
    &&& 0 <= pos <= a.order.len()
    &&& slots.len() == a.n()
    &&& built.len() == a.n()
    &&& forall|i: int|
        0 <= i < a.n() ==> #[trigger] slots[i] == (if done(a, pos, i) {
            None
        } else {
            Some(a.ts[i])
        })
    &&& forall|i: int|
        0 <= i < a.n() ==> ((#[trigger] built[i]) is Some <==> done(a, pos, i) && (is_root(
            a.ts,
            i,
        ) || !done(a, pos, a.parent[i])))
    &&& forall|i: int|
        0 <= i < a.n() && (#[trigger] built[i]) is Some ==> grown(
            a.ts,
            a.kids,
            built[i]->0@,
            i,
        )
}

/// Every record is placed and none waits.
pub open spec fn complete(a: Arena) -> bool {
    a.inv() && a.queue.len() == 0
}

proof fn lemma_placed_in_order(a: Arena, i: int) -> (q: int)
    requires
        complete(a),
        0 <= i < a.n(),
    ensures
        0 <= q < a.order.len(),
        a.order[q] == i,
{
    if !a.placed[i] {
        assert(a.queue.contains(i));
    }
    assert(a.order.contains(i));
    choose|q: int| 0 <= q < a.order.len() && a.order[q] == i
}

/// A record is placed after the record it is attached to.
proof fn lemma_parent_first(a: Arena, q: int) -> (r: int)
    requires
        complete(a),
        0 <= q < a.order.len(),
        !is_root(a.ts, a.order[q]),
    ensures
        0 <= r < q,
        a.order[r] == a.parent[a.order[q]],
{
    choose|r: int| 0 <= r < q && a.order[r] == a.parent[a.order[q]]
}

/// When the turn of the record placed at `pos - 1` comes, it still holds its
/// record, and each of its children holds its tree.
pub proof fn lemma_children_ready(
    a: Arena,
    pos: int,
    slots: Seq<Option<Task>>,
    built: Seq<Option<TaskTree>>,
)
    requires
        complete(a),
        finishing(a, pos, slots, built),
        pos > 0,
    ensures
        ({
            let k = a.order[pos - 1];
            &&& 0 <= k < a.n()
            &&& slots[k] == Some(a.ts[k])
            &&& built[k] is None
            &&& forall|c: int|
                0 <= c < a.kids[k].len() ==> 0 <= #[trigger] a.kids[k][c] < a.n()
                    && built[a.kids[k][c]] is Some
            &&& forall|c: int, d: int|
                0 <= c < d < a.kids[k].len() ==> a.kids[k][c] != a.kids[k][d]
        }),
{
    let k = a.order[pos - 1];
    assert(!done(a, pos, k));
    assert forall|c: int| 0 <= c < a.kids[k].len() implies 0 <= #[trigger] a.kids[k][c] < a.n()
        && built[a.kids[k][c]] is Some by {
        let j = a.kids[k][c];
        assert(a.placed[j] && !is_root(a.ts, j) && a.parent[j] == k);
        let q = lemma_placed_in_order(a, j);
        let r = lemma_parent_first(a, q);
        assert(r == pos - 1);
        assert(done(a, pos, j));
    }
    assert forall|c: int, d: int| 0 <= c < d < a.kids[k].len() implies a.kids[k][c]
        != a.kids[k][d] by {
        assert(earlier(a.turn[a.kids[k][c]], a.kids[k][c], a.turn[a.kids[k][d]], a.kids[k][d]));
    }
}

/// The record placed at `pos - 1` takes the trees of its children and gives
/// its record away for its own tree.
pub proof fn lemma_finish_step(
    a: Arena,
    pos: int,
    slots: Seq<Option<Task>>,
    built: Seq<Option<TaskTree>>,
    slots2: Seq<Option<Task>>,
    built2: Seq<Option<TaskTree>>,
)
    requires
        complete(a),
        finishing(a, pos, slots, built),
        pos > 0,
        slots2 == slots.update(a.order[pos - 1], None),
        built2.len() == built.len(),
        built2[a.order[pos - 1]] is Some,
        grown(a.ts, a.kids, built2[a.order[pos - 1]]->0@, a.order[pos - 1]),
        forall|i: int|
            0 <= i < a.n() && i != a.order[pos - 1] ==> #[trigger] built2[i] == (if a.kids[a.order[pos
                - 1]].contains(i) {
                None
            } else {
                built[i]
            }),
    ensures
        finishing(a, pos - 1, slots2, built2),
{
    let k = a.order[pos - 1];
    assert(done(a, pos - 1, k));
    assert(!done(a, pos, k));
    assert forall|i: int| 0 <= i < a.n() && i != k implies done(a, pos - 1, i) == done(
        a,
        pos,
        i,
    ) by {
        if done(a, pos - 1, i) {
            let q = choose|q: int| pos - 1 <= q < a.order.len() && #[trigger] a.order[q] == i;
            assert(q != pos - 1);
        }
        if done(a, pos, i) {
            let q = choose|q: int| pos <= q < a.order.len() && #[trigger] a.order[q] == i;
            assert(a.order[q] == i);
        }
    }
    assert forall|i: int| 0 <= i < a.n() implies ((#[trigger] built2[i]) is Some <==> done(
        a,
        pos - 1,
        i,
    ) && (is_root(a.ts, i) || !done(a, pos - 1, a.parent[i]))) by {
        let q = lemma_placed_in_order(a, i);
        assert(a.placed[i]);
        if i == k {
            if !is_root(a.ts, k) {
                let r = lemma_parent_first(a, pos - 1);
                if done(a, pos - 1, a.parent[k]) {
                    let q2 = choose|q2: int|
                        pos - 1 <= q2 < a.order.len() && #[trigger] a.order[q2] == a.parent[k];
                    assert(a.order[r] == a.order[q2]);
                }
            }
        } else if a.kids[k].contains(i) {
            let c = choose|c: int| 0 <= c < a.kids[k].len() && a.kids[k][c] == i;
            assert(a.kids[k][c] == i);
            assert(a.parent[i] == k && !is_root(a.ts, i));
        } else {
            assert(built2[i] == built[i]);
            if !is_root(a.ts, i) {
                assert(a.kids[a.parent[i]].contains(i));
                assert(a.parent[i] != k);
            }
        }
    }
    assert forall|i: int| 0 <= i < a.n() && (#[trigger] built2[i]) is Some implies grown(
        a.ts,
        a.kids,
        built2[i]->0@,
        i,
    ) by {
        if i != k {
            assert(built2[i] == built[i]);
        }
    }
    assert forall|i: int| 0 <= i < a.n() implies #[trigger] slots2[i] == (if done(a, pos - 1, i) {
        None
    } else {
        Some(a.ts[i])
    }) by {}
}

/// When every record is done, the roots and only they hold a tree.
pub proof fn lemma_finished(a: Arena, slots: Seq<Option<Task>>, built: Seq<Option<TaskTree>>)
    requires
        complete(a),
        finishing(a, 0, slots, built),
    ensures
        forall|i: int| 0 <= i < a.n() ==> ((#[trigger] built[i]) is Some <==> is_root(a.ts, i)),
{
    assert forall|i: int| 0 <= i < a.n() implies ((#[trigger] built[i]) is Some <==> is_root(
        a.ts,
        i,
    )) by {
        let q = lemma_placed_in_order(a, i);
        assert(done(a, 0, i));
        assert(a.placed[i]);
        if !is_root(a.ts, i) {
            let r = lemma_placed_in_order(a, a.parent[i]);
            assert(done(a, 0, a.parent[i]));
        }
    }
}

} // verus!
