//! The forest under construction.
use super::arena::{lemma_triangle, triangle, Arena};
use super::finish::{
    complete, finishing, grown, lemma_children_ready, lemma_finish_step, lemma_finished, raised,
};
use super::forest::{is_root, positions, resolves, root_at, roots, stuck_at, unresolved_ids};
use super::order::lemma_positions_unique;
use super::outcome::{exhausted, lemma_exhausted};
use super::steps::{
    budget, lemma_hit, lemma_lookup_uses_budget, lemma_miss, lemma_seeded, seeded,
};
use super::task::{forest_view, Task, TaskID, TaskTree};
use std::collections::HashMap;
use std::collections::VecDeque;
use vstd::prelude::*;

verus! {

/// A sequence of positions as mathematics.
pub open spec fn ints(s: Seq<usize>) -> Seq<int> {
    Seq::new(s.len(), |k: int| s[k] as int)
}

/// Takes the trees of the records listed in `kids` out of `built`, in the
/// order of the list.
pub fn gather(kids: &Vec<usize>, built: &mut Vec<Option<TaskTree>>) -> (trees: Vec<TaskTree>)
    requires
        forall|c: int|
            0 <= c < kids@.len() ==> #[trigger] kids@[c] < old(built)@.len() && old(
                built,
            )@[kids@[c] as int] is Some,
        forall|c: int, d: int| 0 <= c < d < kids@.len() ==> kids@[c] != kids@[d],
    ensures
        trees@.len() == kids@.len(),
        forall|c: int|
            0 <= c < kids@.len() ==> Some(#[trigger] trees@[c]) == old(built)@[kids@[c] as int],
        final(built)@.len() == old(built)@.len(),
        forall|i: int|
            0 <= i < old(built)@.len() ==> #[trigger] final(built)@[i] == (if ints(
                kids@,
            ).contains(i) {
                None
            } else {
                old(built)@[i]
            }),
{
    let ghost built0 = built@;
    let mut trees: Vec<TaskTree> = Vec::new();
    let mut c: usize = 0;
    while c < kids.len()
        invariant
            c <= kids@.len(),
            built@.len() == built0.len(),
            trees@.len() == c,
            forall|d: int| 0 <= d < kids@.len() ==> #[trigger] kids@[d] < built0.len(),
            forall|d: int, e: int| 0 <= d < e < kids@.len() ==> kids@[d] != kids@[e],
            forall|d: int| 0 <= d < c ==> Some(#[trigger] trees@[d]) == built0[kids@[d] as int],
            forall|d: int| c <= d < kids@.len() ==> built0[#[trigger] kids@[d] as int] is Some,
            forall|i: int|
                0 <= i < built0.len() ==> #[trigger] built@[i] == (if ints(kids@).take(
                    c as int,
                ).contains(i) {
                    None
                } else {
                    built0[i]
                }),
        decreases kids@.len() - c,
    {
        let j = kids[c];
        assert(!ints(kids@).take(c as int).contains(j as int)) by {
            if ints(kids@).take(c as int).contains(j as int) {
                let d = choose|d: int|
                    0 <= d < ints(kids@).take(c as int).len() && ints(kids@).take(c as int)[d]
                        == j as int;
                assert(kids@[d] == kids@[c as int]);
            }
        }
        let tree = built[j].take().unwrap();
        trees.push(tree);
        assert forall|i: int| 0 <= i < built0.len() implies #[trigger] built@[i] == (if ints(
            kids@,
        ).take(c + 1).contains(i) {
            None
        } else {
            built0[i]
        }) by {
            let now = ints(kids@).take(c + 1);
            let was = ints(kids@).take(c as int);
            assert(now[c as int] == j);
            if was.contains(i) {
                let d = choose|d: int| 0 <= d < was.len() && was[d] == i;
                assert(now[d] == i);
            }
            if now.contains(i) && i != j {
                let d = choose|d: int| 0 <= d < now.len() && now[d] == i;
                assert(was[d] == i);
            }
        }
        c += 1;
    }
    assert(ints(kids@).take(c as int) =~= ints(kids@));
    trees
}

/// What the construction remembers without using it: where and when each
/// record was placed, and how much work was done.
pub struct Trail {
    pub parent: Seq<int>,
    pub turn: Seq<int>,
    pub depth: Seq<nat>,
    pub pass: int,
    pub cursor: int,
    pub split: int,
    pub attempts: nat,
    pub total: nat,
}

/// The nodes under construction, known by their position in the batch.
pub struct TaskTreeBuilder {
    /// The batch.
    pub tasks: Vec<Task>,
    /// The placed records by identifier.
    pub table: HashMap<TaskID, usize>,
    /// The records that wait for their parent.
    pub pending: VecDeque<usize>,
    /// The children attached to each record.
    pub subtasks: Vec<Vec<usize>>,
    /// Whether each record is placed.
    pub placed: Vec<bool>,
    /// The placed records, first placed first.
    pub order: Vec<usize>,
    /// Lookups that failed since the last one that succeeded.
    pub fails: usize,
    pub trail: Ghost<Trail>,
}

impl TaskTreeBuilder {
    /// The state of the construction as mathematics.
    pub open spec fn arena(self) -> Arena {
        Arena {
            ts: self.tasks@,
            table: Map::new(
                |id: TaskID| self.table@.contains_key(id),
                |id: TaskID| self.table@[id] as int,
            ),
            queue: ints(self.pending@),
            kids: Seq::new(self.subtasks@.len(), |p: int| ints(self.subtasks@[p]@)),
            placed: self.placed@,
            order: ints(self.order@),
            misses: self.fails as int,
            parent: self.trail@.parent,
            turn: self.trail@.turn,
            depth: self.trail@.depth,
            pass: self.trail@.pass,
            cursor: self.trail@.cursor,
            split: self.trail@.split,
            attempts: self.trail@.attempts,
            total: self.trail@.total,
        }
    }

    /// The roots of `tasks` placed, every other record waiting.
    pub fn new(tasks: Vec<Task>) -> (b: TaskTreeBuilder)
        ensures
            b.tasks@ == tasks@,
            b.arena().inv(),
            b.arena().attempts == 0,
            b.arena().total == tasks@.len() - roots(tasks@).len(),
    {
        broadcast use vstd::std_specs::hash::group_hash_axioms;

        let ghost ts = tasks@;
        let n = tasks.len();
        let mut table: HashMap<TaskID, usize> = HashMap::new();
        let mut pending: VecDeque<usize> = VecDeque::new();
        let mut subtasks: Vec<Vec<usize>> = Vec::new();
        let mut placed: Vec<bool> = Vec::new();
        let mut order: Vec<usize> = Vec::new();
        let mut i: usize = 0;
        while i < n
            invariant
                tasks@ == ts,
                n == ts.len(),
                i <= n,
                subtasks@.len() == i,
                forall|p: int| 0 <= p < i ==> (#[trigger] subtasks@[p])@.len() == 0,
                placed@.len() == i,
                forall|k: int| 0 <= k < i ==> #[trigger] placed@[k] == is_root(ts, k),
                forall|id: TaskID| #[trigger]
                    table@.contains_key(id) ==> table@[id] < i && is_root(ts, table@[id] as int)
                        && ts[table@[id] as int].id == id,
                forall|k: int|
                    0 <= k < i && is_root(ts, k) ==> table@.contains_key((#[trigger] ts[k]).id),
                pending@.len() + order@.len() == i,
                forall|q: int|
                    0 <= q < pending@.len() ==> #[trigger] pending@[q] < i && !is_root(
                        ts,
                        pending@[q] as int,
                    ),
                forall|q: int, r: int| 0 <= q < r < pending@.len() ==> pending@[q] < pending@[r],
                forall|k: int|
                    0 <= k < i && !is_root(ts, k) ==> exists|q: int|
                        0 <= q < pending@.len() && #[trigger] pending@[q] == k,
                forall|q: int|
                    0 <= q < order@.len() ==> #[trigger] order@[q] < i && is_root(
                        ts,
                        order@[q] as int,
                    ),
                forall|q: int, r: int| 0 <= q < r < order@.len() ==> order@[q] < order@[r],
                forall|k: int|
                    0 <= k < i && is_root(ts, k) ==> exists|q: int|
                        0 <= q < order@.len() && #[trigger] order@[q] == k,
            decreases n - i,
        {
            let ghost pending0 = pending@;
            let ghost order0 = order@;
            subtasks.push(Vec::new());
            match tasks[i].parent_id {
                None => {
                    table.insert(tasks[i].id, i);
                    placed.push(true);
                    order.push(i);
                    assert(order@[order0.len() as int] == i);
                    assert forall|k: int| 0 <= k < i + 1 && is_root(ts, k) implies exists|q: int|
                        0 <= q < order@.len() && #[trigger] order@[q] == k by {
                        if k < i {
                            let q = choose|q: int| 0 <= q < order0.len() && order0[q] == k;
                            assert(order@[q] == k);
                        }
                    }
                },
                Some(_) => {
                    pending.push_back(i);
                    placed.push(false);
                    assert(pending@[pending0.len() as int] == i);
                    assert forall|k: int| 0 <= k < i + 1 && !is_root(ts, k) implies exists|q: int|
                        0 <= q < pending@.len() && #[trigger] pending@[q] == k by {
                        if k < i {
                            let q = choose|q: int| 0 <= q < pending0.len() && pending0[q] == k;
                            assert(pending@[q] == k);
                        }
                    }
                },
            }
            i += 1;
        }
        let ghost trail = Trail {
            parent: Seq::new(n as nat, |k: int| 0int),
            turn: Seq::new(n as nat, |k: int| -1int),
            depth: Seq::new(n as nat, |k: int| 0nat),
            pass: 0,
            cursor: -1,
            split: pending@.len() as int,
            attempts: 0,
            total: pending@.len(),
        };
        let b = TaskTreeBuilder {
            tasks,
            table,
            pending,
            subtasks,
            placed,
            order,
            fails: 0,
            trail: Ghost(trail),
        };
        proof {
            let a = b.arena();
            assert forall|k: int| 0 <= k < a.n() && !is_root(a.ts, k) implies a.queue.contains(
                k,
            ) by {
                let q = choose|q: int| 0 <= q < b.pending@.len() && #[trigger] b.pending@[q] == k;
                assert(a.queue[q] == k);
            }
            assert forall|k: int| 0 <= k < a.n() && is_root(a.ts, k) implies a.order.contains(
                k,
            ) by {
                let q = choose|q: int| 0 <= q < b.order@.len() && #[trigger] b.order@[q] == k;
                assert(a.order[q] == k);
            }
            assert(a.table_ok()) by {
                assert forall|k: int|
                    0 <= k < a.n() && #[trigger] a.placed[k] implies a.table.contains_key(
                    a.ts[k].id,
                ) by {
                    assert(is_root(ts, k));
                }
            }
            assert(seeded(a));
            lemma_seeded(a);
            assert(a.order == roots(a.ts)) by {
                assert forall|k: int| a.order.contains(k) <==> 0 <= k < a.n() && root_at(a.ts)(
                    k,
                ) by {
                    if a.order.contains(k) {
                        let q = choose|q: int| 0 <= q < a.order.len() && a.order[q] == k;
                        assert(a.order[q] == k);
                    }
                }
                lemma_positions_unique(a.order, 0, a.n(), root_at(a.ts));
            }
        }
        b
    }

    /// Looks up the parent of the record at the front of the queue. If the
    /// parent is placed, the record is attached to it and placed too; if
    /// not, the record goes to the back of the queue.
    pub fn attempt(&mut self)
        requires
            old(self).arena().inv(),
            old(self).arena().live(),
        ensures
            final(self).tasks@ == old(self).tasks@,
            final(self).arena() == old(self).arena().step(),
            final(self).arena().inv(),
    {
        broadcast use vstd::std_specs::hash::group_hash_axioms;

        let ghost a = self.arena();
        let ghost t = self.trail@;
        let ghost pending0 = self.pending@;
        assert(a.queue[0] == pending0[0]);
        assert(self.fails < self.pending.len());
        let x = self.pending.pop_front().unwrap();
        assert(0 <= x < a.n() && !is_root(a.ts, x as int)) by {
            assert(a.queue[0] == x);
        }
        let wanted = self.tasks[x].parent_id.unwrap();
        let found = match self.table.get(&wanted) {
            Some(p) => Some(*p),
            None => None,
        };
        let ghost next = Trail {
            pass: a.next_pass(),
            cursor: x as int,
            split: a.next_split(),
            attempts: t.attempts + 1,
            ..t
        };
        match found {
            None => {
                self.fails = self.fails + 1;
                self.pending.push_back(x);
                self.trail = Ghost(next);
                proof {
                    let b = self.arena();
                    assert(!a.finds());
                    assert(b.queue =~= a.miss().queue);
                    assert(b.table =~= a.miss().table);
                    assert(b.kids =~= a.miss().kids);
                    assert(b.order =~= a.miss().order);
                    assert(b == a.miss());
                    lemma_miss(a);
                }
            },
            Some(p) => {
                assert(a.finds());
                assert(p == a.table[a.wanted(x as int)]);
                proof {
                    lemma_hit(a);
                }
                let ghost kids0 = self.subtasks@;
                self.fails = 0;
                self.subtasks[p].push(x);
                self.table.insert(self.tasks[x].id, x);
                self.placed[x] = true;
                self.order.push(x);
                self.trail = Ghost(
                    Trail {
                        parent: t.parent.update(x as int, p as int),
                        turn: t.turn.update(x as int, a.next_pass()),
                        depth: t.depth.update(x as int, t.depth[p as int] + 1),
                        ..next
                    },
                );
                proof {
                    let b = self.arena();
                    let h = a.hit();
                    assert(b.queue =~= h.queue);
                    assert(b.table =~= h.table);
                    assert(b.kids =~= h.kids) by {
                        assert forall|q: int| 0 <= q < b.kids.len() implies b.kids[q]
                            =~= h.kids[q] by {
                            if q == p {
                            } else {
                                assert(self.subtasks@[q] == kids0[q]);
                            }
                        }
                    }
                    assert(b.placed =~= h.placed);
                    assert(b.order =~= h.order);
                    assert(b == h);
                }
            },
        }
    }

    /// Makes lookups until the queue is empty or every record in it has
    /// been looked at in vain since the table last grew.
    ///
    /// With `total` records waiting at the start, the lookups made from the
    /// start on never exceed `total` (`total` + 1) / 2: a lookup that finds
    /// the parent shortens the queue, and between two of them fewer lookups
    /// fail than the queue is long.
    pub fn resolve(&mut self)
        requires
            old(self).arena().inv(),
        ensures
            final(self).tasks@ == old(self).tasks@,
            exhausted(final(self).arena()),
            final(self).arena().total == old(self).arena().total,
            final(self).arena().attempts >= old(self).arena().attempts,
            final(self).arena().attempts <= triangle(final(self).arena().total),
            2 * final(self).arena().attempts <= final(self).arena().total * (final(self).arena().total
                + 1),
    {
        while self.pending.len() > 0 && self.fails < self.pending.len()
            invariant
                self.tasks@ == old(self).tasks@,
                self.arena().inv(),
                self.arena().total == old(self).arena().total,
                self.arena().attempts >= old(self).arena().attempts,
            decreases budget(self.arena()),
        {
            proof {
                lemma_lookup_uses_budget(self.arena());
            }
            self.attempt();
        }
        proof {
            lemma_triangle(self.arena().total);
        }
    }

    /// The identifiers of the records that are not placed, in the order of
    /// the batch.
    pub fn unplaced(&self) -> (ids: Vec<TaskID>)
        requires
            exhausted(self.arena()),
        ensures
            ids@ == unresolved_ids(self.tasks@),
    {
        let ghost a = self.arena();
        let ghost ts = self.tasks@;
        proof {
            lemma_exhausted(a);
        }
        let n = self.tasks.len();
        let mut ids: Vec<TaskID> = Vec::new();
        let mut i: usize = 0;
        while i < n
            invariant
                i <= n,
                n == ts.len(),
                self.tasks@ == ts,
                self.placed@.len() == n,
                forall|j: int| 0 <= j < n ==> (#[trigger] self.placed@[j] <==> resolves(ts, j)),
                ids@.len() == positions(0, i as int, stuck_at(ts)).len(),
                forall|k: int|
                    0 <= k < ids@.len() ==> #[trigger] ids@[k] == ts[positions(
                        0,
                        i as int,
                        stuck_at(ts),
                    )[k]].id,
            decreases n - i,
        {
            if !self.placed[i] {
                ids.push(self.tasks[i].id);
            }
            i += 1;
        }
        assert(ids@ =~= unresolved_ids(ts));
        ids
    }

    /// Turns the records into trees, the record placed last first, and hands
    /// out the trees of the roots in the order of the batch.
    pub fn finalize(self) -> (forest: Vec<TaskTree>)
        requires
            complete(self.arena()),
        ensures
            raised(self.tasks@, self.arena().kids, forest_view(forest@)),
    {
        let ghost a = self.arena();
        let ghost ts = self.tasks@;
        let TaskTreeBuilder { tasks, subtasks, order, .. } = self;
        let n = tasks.len();
        let mut slots: Vec<Option<Task>> = Vec::new();
        let mut built: Vec<Option<TaskTree>> = Vec::new();
        for task in it: tasks.into_iter()
            invariant
                it.seq() == ts,
                slots@.len() == it.index(),
                built@.len() == it.index(),
                forall|i: int| 0 <= i < slots@.len() ==> #[trigger] slots@[i] == Some(ts[i]),
                forall|i: int| 0 <= i < built@.len() ==> (#[trigger] built@[i]) is None,
        {
            slots.push(Some(task));
            built.push(None);
        }
        let mut pos = order.len();
        assert(finishing(a, pos as int, slots@, built@));
        while pos > 0
            invariant
                complete(a),
                a.ts == ts,
                n == ts.len(),
                a.order == ints(order@),
                subtasks@.len() == n,
                forall|p: int| 0 <= p < n ==> #[trigger] a.kids[p] == ints(subtasks@[p]@),
                finishing(a, pos as int, slots@, built@),
            decreases pos,
        {
            let ghost slots0 = slots@;
            let ghost built0 = built@;
            proof {
                lemma_children_ready(a, pos as int, slots0, built0);
            }
            let k = order[pos - 1];
            assert(k == a.order[pos - 1]);
            let kids = &subtasks[k];
            assert(ints(kids@) == a.kids[k as int]);
            assert forall|c: int| 0 <= c < kids@.len() implies #[trigger] kids@[c] < built@.len()
                && built@[kids@[c] as int] is Some by {
                assert(a.kids[k as int][c] == kids@[c]);
            }
            assert forall|c: int, d: int| 0 <= c < d < kids@.len() implies kids@[c] != kids@[d] by {
                assert(a.kids[k as int][c] == kids@[c]);
                assert(a.kids[k as int][d] == kids@[d]);
            }
            let trees = gather(kids, &mut built);
            let task = slots[k].take().unwrap();
            let tree = TaskTree { task, subtasks: trees };
            proof {
                assert forall|c: int| 0 <= c < tree@.subtasks.len() implies grown(
                    ts,
                    a.kids,
                    #[trigger] tree@.subtasks[c],
                    a.kids[k as int][c],
                ) by {
                    assert(a.kids[k as int][c] == kids@[c]);
                    assert(Some(trees@[c]) == built0[kids@[c] as int]);
                    assert(tree@.subtasks[c] == trees@[c]@);
                }
                assert(grown(ts, a.kids, tree@, k as int));
            }
            built[k] = Some(tree);
            proof {
                lemma_finish_step(a, pos as int, slots0, built0, slots@, built@);
            }
            pos -= 1;
        }
        proof {
            lemma_finished(a, slots@, built@);
        }
        let ghost built1 = built@;
        let mut forest: Vec<TaskTree> = Vec::new();
        let mut i: usize = 0;
        while i < n
            invariant
                i <= n,
                n == ts.len(),
                a.ts == ts,
                built@.len() == n,
                built1.len() == n,
                forall|j: int| i <= j < n ==> #[trigger] built@[j] == built1[j],
                forall|j: int| 0 <= j < n ==> ((#[trigger] built1[j]) is Some <==> is_root(ts, j)),
                forall|j: int|
                    0 <= j < n && (#[trigger] built1[j]) is Some ==> grown(
                        ts,
                        a.kids,
                        built1[j]->0@,
                        j,
                    ),
                forest@.len() == positions(0, i as int, root_at(ts)).len(),
                forall|k: int|
                    0 <= k < forest@.len() ==> grown(
                        ts,
                        a.kids,
                        (#[trigger] forest@[k])@,
                        positions(0, i as int, root_at(ts))[k],
                    ),
            decreases n - i,
        {
            match built[i].take() {
                Some(tree) => {
                    forest.push(tree);
                },
                None => {},
            }
            i += 1;
        }
        assert(raised(ts, a.kids, forest_view(forest@))) by {
            assert(forest_view(forest@).len() == roots(ts).len());
        }
        forest
    }
}

} // verus!
