//! What holds of every forest.
use super::forest::{
    all_resolve, child_at, child_order, distinct_ids, hits, hits_among, hits_in, is_child_of,
    is_forest, is_root, is_rooted, is_subtree, linked, positions, resolves, resolves_within,
    root_at, roots,
};
use super::order::{lemma_positions, lemma_positions_unique};
use super::task::{Task, TreeView};
use vstd::prelude::*;

verus! {

/// The tree below a record is determined by the batch: two trees below the
/// same record are equal.
pub proof fn lemma_subtree_unique(ts: Seq<Task>, s: TreeView, t: TreeView, i: int)
    requires
        is_subtree(ts, s, i),
        is_subtree(ts, t, i),
    ensures
        s == t,
    decreases s,
{
    assert forall|c: int| 0 <= c < s.subtasks.len() implies s.subtasks[c] == t.subtasks[c] by {
        lemma_subtree_unique(ts, s.subtasks[c], t.subtasks[c], child_order(ts, i)[c]);
    }
    assert(s.subtasks =~= t.subtasks);
}

/// The forest of a batch is determined by the batch: building it twice gives
/// the same roots in the same order, with the same tasks below each.
pub proof fn lemma_forest_unique(ts: Seq<Task>, f: Seq<TreeView>, g: Seq<TreeView>)
    requires
        is_forest(ts, f),
        is_forest(ts, g),
    ensures
        f == g,
{
    assert forall|k: int| 0 <= k < f.len() implies f[k] == g[k] by {
        lemma_subtree_unique(ts, f[k], g[k], roots(ts)[k]);
    }
    assert(f =~= g);
}

/// In the tree below a record every task but the topmost names the task
/// above it as its parent.
pub proof fn lemma_subtree_is_linked(ts: Seq<Task>, tree: TreeView, i: int)
    requires
        is_subtree(ts, tree, i),
    ensures
        linked(tree),
    decreases tree,
{
    let mine = child_at(ts, ts[i].id);
    lemma_positions(0, ts.len() as int, mine);
    lemma_positions(i + 1, ts.len() as int, mine);
    lemma_positions(0, i, mine);
    assert forall|c: int| 0 <= c < tree.subtasks.len() implies (#[trigger] tree.subtasks[c]).task.parent_id
        == Some(tree.task.id) && linked(tree.subtasks[c]) by {
        let j = child_order(ts, i)[c];
        assert(is_subtree(ts, tree.subtasks[c], j));
        assert(mine(j)) by {
            if !is_root(ts, i) {
                let hi = positions(i + 1, ts.len() as int, mine);
                let lo = positions(0, i, mine);
                if c < hi.len() {
                    assert(j == hi[c]);
                } else {
                    assert(j == lo[c - hi.len()]);
                }
            }
        }
        lemma_subtree_is_linked(ts, tree.subtasks[c], j);
    }
}

/// The forest of a batch holds the roots of the batch, and below each task
/// only tasks that name it as their parent.
pub proof fn lemma_forest_is_rooted(ts: Seq<Task>, forest: Seq<TreeView>)
    requires
        is_forest(ts, forest),
    ensures
        is_rooted(ts, forest),
{
    assert forall|k: int| 0 <= k < forest.len() implies (#[trigger] forest[k]).task
        == ts[roots(ts)[k]] && linked(forest[k]) by {
        lemma_subtree_is_linked(ts, forest[k], roots(ts)[k]);
    }
}

/// A batch in which no record names a parent resolves, and its forest holds
/// one tree for each record, in the order of the batch, each without
/// subtasks.
pub proof fn lemma_forest_of_roots(ts: Seq<Task>, forest: Seq<TreeView>)
    requires
        forall|i: int| 0 <= i < ts.len() ==> is_root(ts, i),
        is_forest(ts, forest),
    ensures
        all_resolve(ts),
        forest.len() == ts.len(),
        forall|k: int|
            0 <= k < forest.len() ==> (#[trigger] forest[k]).task == ts[k]
                && forest[k].subtasks.len() == 0,
{
    let n = ts.len() as int;
    assert forall|i: int| 0 <= i < ts.len() implies resolves(ts, i) by {
        assert(is_root(ts, i));
        assert(resolves_within(ts, i, 0));
    }
    let all = Seq::new(ts.len(), |k: int| k);
    assert forall|k: int| all.contains(k) <==> 0 <= k < n && root_at(ts)(k) by {
        if 0 <= k < n {
            assert(is_root(ts, k));
            assert(all[k] == k);
        }
    }
    lemma_positions_unique(all, 0, n, root_at(ts));
    assert(roots(ts) == all);
    assert forall|k: int| 0 <= k < forest.len() implies (#[trigger] forest[k]).task == ts[k]
        && forest[k].subtasks.len() == 0 by {
        assert(is_subtree(ts, forest[k], roots(ts)[k]));
        assert(roots(ts)[k] == k);
        let mine = child_at(ts, ts[k].id);
        lemma_positions(0, n, mine);
        let kids = positions(0, n, mine);
        if kids.len() > 0 {
            let j = kids[0];
            assert(mine(j));
            assert(is_root(ts, j));
        }
        assert(is_root(ts, k));
        assert(child_order(ts, k) == kids);
    }
}

/// `child_order` lists the children of a record, each once, and nothing else.
pub proof fn lemma_child_order(ts: Seq<Task>, i: int)
    requires
        0 <= i < ts.len(),
    ensures
        forall|c: int|
            0 <= c < child_order(ts, i).len() ==> 0 <= #[trigger] child_order(ts, i)[c] < ts.len()
                && child_order(ts, i)[c] != i && is_child_of(ts, ts[i].id, child_order(ts, i)[c]),
        forall|c: int, d: int|
            0 <= c < d < child_order(ts, i).len() ==> child_order(ts, i)[c] != child_order(
                ts,
                i,
            )[d],
        forall|j: int|
            0 <= j < ts.len() && j != i && is_child_of(ts, ts[i].id, j) ==> child_order(
                ts,
                i,
            ).contains(j),
{
    let n = ts.len() as int;
    let mine = child_at(ts, ts[i].id);
    let order = child_order(ts, i);
    lemma_positions(0, n, mine);
    lemma_positions(i + 1, n, mine);
    lemma_positions(0, i, mine);
    if is_root(ts, i) {
        assert forall|c: int| 0 <= c < order.len() implies order[c] != i by {
            assert(mine(order[c]));
        }
        assert forall|j: int| 0 <= j < n && j != i && is_child_of(ts, ts[i].id, j) implies order.contains(
        j) by {
            assert(mine(j));
        }
    } else {
        let hi = positions(i + 1, n, mine);
        let lo = positions(0, i, mine);
        assert forall|c: int| 0 <= c < order.len() implies 0 <= #[trigger] order[c] < n
            && order[c] != i && is_child_of(ts, ts[i].id, order[c]) by {
            if c < hi.len() {
                assert(order[c] == hi[c]);
                assert(mine(hi[c]));
            } else {
                assert(order[c] == lo[c - hi.len()]);
                assert(mine(lo[c - hi.len()]));
            }
        }
        assert forall|c: int, d: int| 0 <= c < d < order.len() implies order[c] != order[d] by {
            if d < hi.len() {
                assert(order[c] == hi[c] && order[d] == hi[d]);
            } else if c >= hi.len() {
                assert(order[c] == lo[c - hi.len()] && order[d] == lo[d - hi.len()]);
            } else {
                assert(order[c] == hi[c] && order[d] == lo[d - hi.len()]);
            }
        }
        assert forall|j: int| 0 <= j < n && j != i && is_child_of(ts, ts[i].id, j) implies order.contains(
        j) by {
            assert(mine(j));
            if j > i {
                assert(hi.contains(j));
                let c = choose|c: int| 0 <= c < hi.len() && hi[c] == j;
                assert(order[c] == j);
            } else {
                assert(lo.contains(j));
                let c = choose|c: int| 0 <= c < lo.len() && lo[c] == j;
                assert(order[c + hi.len()] == j);
            }
        }
    }
}

/// How many of the first `k` entries of `js` are `p`.
pub open spec fn marks(js: Seq<int>, p: int, k: nat) -> nat
    decreases k,
{
    if k == 0 || k > js.len() {
        0
    } else {
        marks(js, p, (k - 1) as nat) + if js[k - 1] == p {
            1nat
        } else {
            0nat
        }
    }
}

proof fn lemma_marks(js: Seq<int>, p: int, k: nat)
    requires
        forall|a: int, b: int| 0 <= a < b < js.len() ==> js[a] != js[b],
        k <= js.len(),
    ensures
        marks(js, p, k) == if exists|c: int| 0 <= c < k && js[c] == p {
            1nat
        } else {
            0nat
        },
    decreases k,
{
    if k > 0 {
        lemma_marks(js, p, (k - 1) as nat);
        if js[k - 1] == p {
            if exists|c: int| 0 <= c < k - 1 && js[c] == p {
                let c = choose|c: int| 0 <= c < k - 1 && js[c] == p;
                assert(js[c] != js[k - 1]);
            }
        } else {
            if exists|c: int| 0 <= c < k && js[c] == p {
                let c = choose|c: int| 0 <= c < k && js[c] == p;
                assert(c < k - 1);
            }
        }
    }
}

/// The `k`-th tree adds its own task and what occurs below it.
proof fn lemma_hits_unfold(trees: Seq<TreeView>, id: u64, k: nat)
    requires
        0 < k <= trees.len(),
    ensures
        hits_among(trees, id, k) == hits_among(trees, id, (k - 1) as nat) + (if trees[k
            - 1].task.id == id {
            1nat
        } else {
            0nat
        }) + hits_among(trees[k - 1].subtasks, id, trees[k - 1].subtasks.len()),
{
    let t = trees[k - 1];
    assert(hits_among(trees, id, k) == hits_among(trees, id, (k - 1) as nat) + hits(t, id));
    assert(hits(t, id) == (if t.task.id == id {
        1nat
    } else {
        0nat
    }) + hits_among(t.subtasks, id, t.subtasks.len()));
}

/// The labelled trees `trees` are the trees below the records at `js`.
spec fn trees_below(ts: Seq<Task>, trees: Seq<TreeView>, js: Seq<int>) -> bool {
    &&& trees.len() == js.len()
    &&& forall|c: int| 0 <= c < trees.len() ==> is_subtree(ts, #[trigger] trees[c], js[c])
}

/// A root occurs among trees below records as often as it is among those
/// records.
proof fn lemma_root_level(ts: Seq<Task>, trees: Seq<TreeView>, js: Seq<int>, p: int, k: nat)
    requires
        distinct_ids(ts),
        0 <= p < ts.len(),
        is_root(ts, p),
        trees_below(ts, trees, js),
        k <= trees.len(),
    ensures
        hits_among(trees, ts[p].id, k) == marks(js, p, k),
    decreases trees, k,
{
    if k > 0 {
        lemma_root_level(ts, trees, js, p, (k - 1) as nat);
        let t = trees[k - 1];
        let j = js[k - 1];
        assert(is_subtree(ts, t, j));
        let order = child_order(ts, j);
        lemma_child_order(ts, j);
        assert(trees_below(ts, t.subtasks, order));
        lemma_root_level(ts, t.subtasks, order, p, t.subtasks.len());
        lemma_marks(order, p, order.len());
        if exists|c: int| 0 <= c < order.len() && order[c] == p {
            let c = choose|c: int| 0 <= c < order.len() && order[c] == p;
            assert(is_child_of(ts, ts[j].id, order[c]));
        }
        assert(hits_among(t.subtasks, ts[p].id, t.subtasks.len()) == 0);
        assert((t.task.id == ts[p].id) == (j == p));
        lemma_hits_unfold(trees, ts[p].id, k);
    }
}

/// A record that names the record at `q` as its parent occurs among trees
/// below records as often as it is among those records, and once more for
/// each time the record at `q` occurs among the trees.
proof fn lemma_child_level(
    ts: Seq<Task>,
    trees: Seq<TreeView>,
    js: Seq<int>,
    p: int,
    q: int,
    k: nat,
)
    requires
        distinct_ids(ts),
        0 <= p < ts.len(),
        0 <= q < ts.len(),
        p != q,
        is_child_of(ts, ts[q].id, p),
        trees_below(ts, trees, js),
        k <= trees.len(),
    ensures
        hits_among(trees, ts[p].id, k) == marks(js, p, k) + hits_among(trees, ts[q].id, k),
    decreases trees, k,
{
    if k > 0 {
        lemma_child_level(ts, trees, js, p, q, (k - 1) as nat);
        let t = trees[k - 1];
        let j = js[k - 1];
        assert(is_subtree(ts, t, j));
        let order = child_order(ts, j);
        lemma_child_order(ts, j);
        assert(trees_below(ts, t.subtasks, order));
        lemma_child_level(ts, t.subtasks, order, p, q, t.subtasks.len());
        lemma_marks(order, p, order.len());
        if j == q {
            assert(order.contains(p));
            let c = choose|c: int| 0 <= c < order.len() && order[c] == p;
            assert(order[c] == p);
            assert(marks(order, p, order.len()) == 1);
        } else {
            if exists|c: int| 0 <= c < order.len() && order[c] == p {
                let c = choose|c: int| 0 <= c < order.len() && order[c] == p;
                assert(is_child_of(ts, ts[j].id, order[c]));
                assert(ts[j].id == ts[q].id);
            }
            assert(marks(order, p, order.len()) == 0);
        }
        assert((t.task.id == ts[p].id) == (j == p));
        assert((t.task.id == ts[q].id) == (j == q));
        lemma_hits_unfold(trees, ts[p].id, k);
        lemma_hits_unfold(trees, ts[q].id, k);
    }
}

/// A record that names itself as its parent reaches no root.
proof fn lemma_own_parent_is_stuck(ts: Seq<Task>, i: int, d: nat)
    requires
        distinct_ids(ts),
        0 <= i < ts.len(),
        is_child_of(ts, ts[i].id, i),
    ensures
        !resolves_within(ts, i, d),
    decreases d,
{
    if resolves_within(ts, i, d) {
        let j = choose|j: int|
            #![trigger ts[j]]
            0 <= j < ts.len() && ts[j].id == ts[i].id && resolves_within(ts, j, (d - 1) as nat);
        assert(j == i);
        lemma_own_parent_is_stuck(ts, i, (d - 1) as nat);
    }
}

proof fn lemma_once_within(ts: Seq<Task>, forest: Seq<TreeView>, i: int, d: nat)
    requires
        distinct_ids(ts),
        is_forest(ts, forest),
        resolves_within(ts, i, d),
    ensures
        hits_in(forest, ts[i].id) == 1,
    decreases d,
{
    let n = ts.len() as int;
    let tops = roots(ts);
    lemma_positions(0, n, root_at(ts));
    assert(trees_below(ts, forest, tops));
    lemma_marks(tops, i, tops.len());
    if is_root(ts, i) {
        lemma_root_level(ts, forest, tops, i, forest.len());
        assert(tops.contains(i));
        let c = choose|c: int| 0 <= c < tops.len() && tops[c] == i;
        assert(tops[c] == i);
    } else {
        let q = choose|j: int|
            #![trigger ts[j]]
            0 <= j < ts.len() && ts[j].id == ts[i].parent_id->0 && resolves_within(
                ts,
                j,
                (d - 1) as nat,
            );
        if q == i {
            lemma_own_parent_is_stuck(ts, i, d);
        }
        lemma_child_level(ts, forest, tops, i, q, forest.len());
        if exists|c: int| 0 <= c < tops.len() && tops[c] == i {
            let c = choose|c: int| 0 <= c < tops.len() && tops[c] == i;
            assert(root_at(ts)(tops[c]));
        }
        lemma_once_within(ts, forest, q, (d - 1) as nat);
    }
}

/// In the forest of a batch with distinct identifiers, every record that is
/// a root or descends from one occurs exactly once.
pub proof fn lemma_each_record_once(ts: Seq<Task>, forest: Seq<TreeView>, i: int)
    requires
        distinct_ids(ts),
        is_forest(ts, forest),
        0 <= i < ts.len(),
        resolves(ts, i),
    ensures
        hits_in(forest, ts[i].id) == 1,
{
    let d = choose|d: nat| resolves_within(ts, i, d);
    lemma_once_within(ts, forest, i, d);
}

} // verus!
