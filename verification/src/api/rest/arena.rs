//! The state of the forest under construction, as mathematics.
//!
//! Records are known by their position in the batch. The table finds a placed
//! record by its identifier, the queue holds the records that still wait for
//! their parent, and every placed record lists the children attached to it.
//! Beside that the state remembers when each record was placed: the queue is
//! worked through in passes over the batch, and a record is placed in some
//! pass, at its own position.
use super::forest::{is_child_of, is_root, resolves_within};
use super::task::{Task, TaskID};
use vstd::prelude::*;

verus! {

/// 0 + 1 + ... + k.
pub open spec fn triangle(k: nat) -> nat
    decreases k,
{
    if k == 0 {
        0
    } else {
        k + triangle((k - 1) as nat)
    }
}

/// 0 + 1 + ... + k is half of k (k + 1).
pub proof fn lemma_triangle(k: nat)
    ensures
        2 * triangle(k) == k * (k + 1),
    decreases k,
{
    if k > 0 {
        lemma_triangle((k - 1) as nat);
        assert(2 * (k + triangle((k - 1) as nat)) == k * (k + 1)) by (nonlinear_arith)
            requires
                2 * triangle((k - 1) as nat) == (k - 1) * ((k - 1) + 1),
        ;
    } else {
        assert(k * (k + 1) == 0) by (nonlinear_arith)
            requires
                k == 0,
        ;
    }
}

/// The moment (`pass_a`, `a`) lies before the moment (`pass_b`, `b`).
pub open spec fn earlier(pass_a: int, a: int, pass_b: int, b: int) -> bool {
    pass_a < pass_b || (pass_a == pass_b && a < b)
}

/// The state of a construction.
pub struct Arena {
    /// The batch.
    pub ts: Seq<Task>,
    /// Identifier to position, for the placed records.
    pub table: Map<TaskID, int>,
    /// The waiting records, next first.
    pub queue: Seq<int>,
    /// For each record the children attached to it, first attached first.
    pub kids: Seq<Seq<int>>,
    /// Whether the record is a root or attached.
    pub placed: Seq<bool>,
    /// The placed records, first placed first.
    pub order: Seq<int>,
    /// Lookups that failed since the last one that succeeded.
    pub misses: int,
    /// For each attached record the record it is attached to.
    pub parent: Seq<int>,
    /// For each placed record the pass in which it was placed; -1 for a root.
    pub turn: Seq<int>,
    /// For each placed record the number of steps from it up to a root.
    pub depth: Seq<nat>,
    /// The pass that is under way.
    pub pass: int,
    /// The record that was looked at last; -1 before the first.
    pub cursor: int,
    /// How many entries at the front of the queue are still to be looked at
    /// in this pass.
    pub split: int,
    /// Lookups made so far.
    pub attempts: nat,
    /// Length of the queue at the start.
    pub total: nat,
}

impl Arena {
    pub open spec fn n(self) -> int {
        self.ts.len() as int
    }

    /// The identifier that the record at `j` waits for.
    pub open spec fn wanted(self, j: int) -> TaskID {
        self.ts[j].parent_id->0
    }

    pub open spec fn sized(self) -> bool {
        &&& self.kids.len() == self.n()
        &&& self.placed.len() == self.n()
        &&& self.parent.len() == self.n()
        &&& self.turn.len() == self.n()
        &&& self.depth.len() == self.n()
        &&& 0 <= self.misses <= self.queue.len()
        &&& 0 <= self.split <= self.queue.len()
        &&& -1 <= self.cursor < self.n()
        &&& 0 <= self.pass
    }

    pub open spec fn table_ok(self) -> bool {
        &&& forall|id: TaskID| #[trigger]
            self.table.contains_key(id) ==> 0 <= self.table[id] < self.n()
                && self.placed[self.table[id]] && self.ts[self.table[id]].id == id
        &&& forall|i: int|
            0 <= i < self.n() && #[trigger] self.placed[i] ==> self.table.contains_key(
                self.ts[i].id,
            )
    }

    pub open spec fn resolved_ok(self) -> bool {
        forall|i: int|
            0 <= i < self.n() && #[trigger] self.placed[i] ==> resolves_within(
                self.ts,
                i,
                self.depth[i],
            )
    }

    pub open spec fn queue_ok(self) -> bool {
        &&& forall|q: int|
            0 <= q < self.queue.len() ==> 0 <= #[trigger] self.queue[q] < self.n()
                && !self.placed[self.queue[q]] && !is_root(self.ts, self.queue[q])
        &&& forall|i: int|
            0 <= i < self.n() && !#[trigger] self.placed[i] ==> self.queue.contains(i)
    }

    /// The last `misses` entries of the queue were looked at since the table
    /// last grew, and their parent was not in it.
    pub open spec fn misses_ok(self) -> bool {
        forall|q: int|
            self.queue.len() - self.misses <= q < self.queue.len() ==> !self.table.contains_key(
                self.wanted(#[trigger] self.queue[q]),
            )
    }

    pub open spec fn kids_ok(self) -> bool {
        &&& forall|p: int, a: int|
            0 <= p < self.n() && 0 <= a < self.kids[p].len() ==> {
                let j = #[trigger] self.kids[p][a];
                0 <= j < self.n() && self.placed[j] && !is_root(self.ts, j) && self.parent[j] == p
            }
        &&& forall|j: int|
            0 <= j < self.n() && #[trigger] self.placed[j] && !is_root(self.ts, j) ==> {
                &&& 0 <= self.parent[j] < self.n()
                &&& self.placed[self.parent[j]]
                &&& is_child_of(self.ts, self.ts[self.parent[j]].id, j)
                &&& self.kids[self.parent[j]].contains(j)
            }
    }

    pub open spec fn order_ok(self) -> bool {
        &&& forall|q: int|
            0 <= q < self.order.len() ==> 0 <= #[trigger] self.order[q] < self.n()
                && self.placed[self.order[q]]
        &&& forall|q: int, r: int|
            0 <= q < r < self.order.len() ==> self.order[q] != self.order[r]
        &&& forall|i: int| 0 <= i < self.n() && #[trigger] self.placed[i] ==> self.order.contains(i)
        &&& forall|q: int|
            0 <= q < self.order.len() && !is_root(self.ts, #[trigger] self.order[q]) ==> exists|
                r: int,
            |
                0 <= r < q && self.order[r] == self.parent[self.order[q]]
    }

    /// The queue holds first the waiting records after the cursor, then
    /// those up to it, both ascending.
    pub open spec fn rotation_ok(self) -> bool {
        &&& forall|a: int, b: int| 0 <= a < b < self.split ==> self.queue[a] < self.queue[b]
        &&& forall|a: int| 0 <= a < self.split ==> #[trigger] self.queue[a] > self.cursor
        &&& forall|a: int, b: int|
            self.split <= a < b < self.queue.len() ==> self.queue[a] < self.queue[b]
        &&& forall|a: int|
            self.split <= a < self.queue.len() ==> #[trigger] self.queue[a] <= self.cursor
    }

    /// No record was placed later than now.
    pub open spec fn time_ok(self) -> bool {
        forall|j: int|
            0 <= j < self.n() && #[trigger] self.placed[j] ==> if is_root(self.ts, j) {
                self.turn[j] == -1
            } else {
                0 <= self.turn[j] <= self.pass && (self.turn[j] == self.pass ==> j <= self.cursor)
            }
    }

    /// The record at `p` was placed after the queue entry `q` was last
    /// looked at.
    pub open spec fn awaited(self, q: int, p: int) -> bool {
        if is_root(self.ts, p) {
            self.pass == 0 && q < self.split
        } else if q < self.split {
            self.turn[p] == self.pass || (self.turn[p] == self.pass - 1 && p > self.queue[q])
        } else {
            self.turn[p] == self.pass && p > self.queue[q]
        }
    }

    /// A waiting record has not been looked at since its parent was placed.
    pub open spec fn seen_ok(self) -> bool {
        forall|q: int, p: int|
            #![trigger self.queue[q], self.placed[p]]
            0 <= q < self.queue.len() && 0 <= p < self.n() && self.placed[p] && is_child_of(
                self.ts,
                self.ts[p].id,
                self.queue[q],
            ) ==> self.awaited(q, p)
    }

    /// The record at `j` was attached the first time it was looked at after
    /// its parent was placed.
    pub open spec fn prompt(self, j: int) -> bool {
        let p = self.parent[j];
        if is_root(self.ts, p) {
            self.turn[j] == 0
        } else {
            (self.turn[j] == self.turn[p] && j > p) || (self.turn[j] == self.turn[p] + 1 && j < p)
        }
    }

    pub open spec fn born_ok(self) -> bool {
        &&& forall|j: int|
            0 <= j < self.n() && #[trigger] self.placed[j] && !is_root(self.ts, j) ==> self.prompt(
                j,
            )
        &&& forall|p: int, a: int, b: int|
            #![trigger self.kids[p][a], self.kids[p][b]]
            0 <= p < self.n() && 0 <= a < b < self.kids[p].len() ==> earlier(
                self.turn[self.kids[p][a]],
                self.kids[p][a],
                self.turn[self.kids[p][b]],
                self.kids[p][b],
            )
    }

    /// What is left to do at most, added to what was done, stays within the
    /// bound set at the start.
    pub open spec fn budget_ok(self) -> bool {
        &&& self.queue.len() <= self.total
        &&& self.attempts + triangle(self.queue.len()) - self.misses <= triangle(self.total)
    }

    pub open spec fn inv(self) -> bool {
        &&& self.sized()
        &&& self.table_ok()
        &&& self.resolved_ok()
        &&& self.queue_ok()
        &&& self.misses_ok()
        &&& self.kids_ok()
        &&& self.order_ok()
        &&& self.rotation_ok()
        &&& self.time_ok()
        &&& self.seen_ok()
        &&& self.born_ok()
        &&& self.budget_ok()
    }

    /// Another lookup can be made.
    pub open spec fn live(self) -> bool {
        self.queue.len() > 0 && self.misses < self.queue.len()
    }

    /// The pass in which the next lookup falls.
    pub open spec fn next_pass(self) -> int {
        if self.split == 0 {
            self.pass + 1
        } else {
            self.pass
        }
    }

    /// What is left of this pass after the next lookup.
    pub open spec fn next_split(self) -> int {
        if self.split == 0 {
            self.queue.len() - 1
        } else {
            self.split - 1
        }
    }

    /// The lookup that comes next finds the parent.
    pub open spec fn finds(self) -> bool {
        self.table.contains_key(self.wanted(self.queue[0]))
    }

    /// The state after the next lookup.
    pub open spec fn step(self) -> Arena {
        if self.finds() {
            self.hit()
        } else {
            self.miss()
        }
    }

    /// The state after a lookup that did not find the parent: the record goes
    /// to the back of the queue.
    pub open spec fn miss(self) -> Arena {
        let x = self.queue[0];
        Arena {
            queue: self.queue.drop_first().push(x),
            misses: self.misses + 1,
            pass: self.next_pass(),
            cursor: x,
            split: self.next_split(),
            attempts: self.attempts + 1,
            ..self
        }
    }

    /// The state after a lookup that found the parent: the record is attached
    /// to it and enters the table.
    pub open spec fn hit(self) -> Arena {
        let x = self.queue[0];
        let p = self.table[self.wanted(x)];
        Arena {
            table: self.table.insert(self.ts[x].id, x),
            queue: self.queue.drop_first(),
            kids: self.kids.update(p, self.kids[p].push(x)),
            placed: self.placed.update(x, true),
            order: self.order.push(x),
            misses: 0,
            parent: self.parent.update(x, p),
            turn: self.turn.update(x, self.next_pass()),
            depth: self.depth.update(x, self.depth[p] + 1),
            pass: self.next_pass(),
            cursor: x,
            split: self.next_split(),
            attempts: self.attempts + 1,
            ..self
        }
    }
}

} // verus!
