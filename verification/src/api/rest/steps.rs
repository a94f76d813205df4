//! Every lookup keeps the state of the construction sound.
use super::arena::{earlier, triangle, Arena};
use super::forest::{is_child_of, is_root, resolves_within};
use super::task::Task;
use vstd::prelude::*;

verus! {

/// The state before the first lookup: the roots are placed, in the order of
/// the batch, and every other record waits, in the order of the batch.
pub open spec fn seeded(a: Arena) -> bool {
    &&& a.sized()
    &&& a.table_ok()
    &&& forall|i: int| 0 <= i < a.n() ==> #[trigger] a.placed[i] == is_root(a.ts, i)
    &&& forall|i: int| 0 <= i < a.n() ==> #[trigger] a.turn[i] == -1
    &&& forall|p: int| 0 <= p < a.n() ==> (#[trigger] a.kids[p]).len() == 0
    &&& forall|q: int|
        0 <= q < a.queue.len() ==> 0 <= #[trigger] a.queue[q] < a.n() && !is_root(
            a.ts,
            a.queue[q],
        )
    &&& forall|q: int, r: int| 0 <= q < r < a.queue.len() ==> a.queue[q] < a.queue[r]
    &&& forall|i: int| 0 <= i < a.n() && !is_root(a.ts, i) ==> a.queue.contains(i)
    &&& forall|q: int|
        0 <= q < a.order.len() ==> 0 <= #[trigger] a.order[q] < a.n() && is_root(
            a.ts,
            a.order[q],
        )
    &&& forall|q: int, r: int| 0 <= q < r < a.order.len() ==> a.order[q] < a.order[r]
    &&& forall|i: int| 0 <= i < a.n() && is_root(a.ts, i) ==> a.order.contains(i)
    &&& a.misses == 0
    &&& a.pass == 0
    &&& a.cursor == -1
    &&& a.split == a.queue.len()
    &&& a.attempts == 0
    &&& a.total == a.queue.len()
}

/// The state before the first lookup is sound.
pub proof fn lemma_seeded(a: Arena)
    requires
        seeded(a),
    ensures
        a.inv(),
{
    assert(a.resolved_ok());
    assert(a.queue_ok());
    assert(a.misses_ok());
    assert(a.kids_ok());
    assert(a.order_ok());
    assert(a.rotation_ok());
    assert(a.time_ok());
    assert(a.seen_ok());
    assert(a.born_ok());
    assert(a.budget_ok());
}

/// The queue holds no position twice.
pub proof fn lemma_queue_distinct(a: Arena)
    requires
        a.sized(),
        a.rotation_ok(),
    ensures
        forall|q: int, r: int| 0 <= q < r < a.queue.len() ==> a.queue[q] != a.queue[r],
{
    assert forall|q: int, r: int| 0 <= q < r < a.queue.len() implies a.queue[q] != a.queue[r] by {
        if r < a.split {
        } else if q >= a.split {
        } else {
            assert(a.queue[q] > a.cursor);
            assert(a.queue[r] <= a.cursor);
        }
    }
}

proof fn lemma_miss_queue(a: Arena)
    requires
        a.inv(),
        a.live(),
        !a.table.contains_key(a.wanted(a.queue[0])),
    ensures
        a.miss().sized(),
        a.miss().queue_ok(),
        a.miss().misses_ok(),
        a.miss().rotation_ok(),
        a.miss().budget_ok(),
{
    let b = a.miss();
    let x = a.queue[0];
    let len = a.queue.len() as int;
    assert(b.queue.len() == len);
    assert forall|q: int| 0 <= q < len implies b.queue[q] == (if q < len - 1 {
        a.queue[q + 1]
    } else {
        x
    }) by {}
    assert(a.queue[0] == x);
    assert(b.queue_ok()) by {
        assert forall|i: int| 0 <= i < b.n() && !#[trigger] b.placed[i] implies b.queue.contains(
            i,
        ) by {
            assert(a.queue.contains(i));
            let q = choose|q: int| 0 <= q < len && a.queue[q] == i;
            if q == 0 {
                assert(b.queue[len - 1] == i);
            } else {
                assert(b.queue[q - 1] == i);
            }
        }
    }
    assert(b.misses_ok()) by {
        assert forall|q: int| b.queue.len() - b.misses <= q < b.queue.len() implies !b.table.contains_key(
        b.wanted(#[trigger] b.queue[q])) by {
            if q < len - 1 {
                assert(b.queue[q] == a.queue[q + 1]);
            }
        }
    }
    assert(b.rotation_ok()) by {
        if a.split == 0 {
            assert forall|k: int| 0 <= k < b.split implies #[trigger] b.queue[k] > b.cursor by {
                assert(b.queue[k] == a.queue[k + 1]);
                assert(a.queue[0] < a.queue[k + 1]);
            }
            assert forall|k: int, l: int| 0 <= k < l < b.split implies b.queue[k] < b.queue[l] by {
                assert(b.queue[k] == a.queue[k + 1] && b.queue[l] == a.queue[l + 1]);
            }
        } else {
            assert(x > a.cursor);
            assert forall|k: int| 0 <= k < b.split implies #[trigger] b.queue[k] > b.cursor by {
                assert(b.queue[k] == a.queue[k + 1]);
                assert(a.queue[0] < a.queue[k + 1]);
            }
            assert forall|k: int, l: int| 0 <= k < l < b.split implies b.queue[k] < b.queue[l] by {
                assert(b.queue[k] == a.queue[k + 1] && b.queue[l] == a.queue[l + 1]);
            }
            assert forall|k: int, l: int| b.split <= k < l < b.queue.len() implies b.queue[k]
                < b.queue[l] by {
                assert(b.queue[k] == a.queue[k + 1]);
                assert(a.queue[k + 1] <= a.cursor);
                if l < len - 1 {
                    assert(b.queue[l] == a.queue[l + 1]);
                }
            }
            assert forall|k: int| b.split <= k < b.queue.len() implies #[trigger] b.queue[k]
                <= b.cursor by {
                if k < len - 1 {
                    assert(b.queue[k] == a.queue[k + 1]);
                    assert(a.queue[k + 1] <= a.cursor);
                }
            }
        }
    }
}

proof fn lemma_miss_time(a: Arena)
    requires
        a.inv(),
        a.live(),
        !a.table.contains_key(a.wanted(a.queue[0])),
    ensures
        a.miss().time_ok(),
        a.miss().seen_ok(),
{
    let b = a.miss();
    let x = a.queue[0];
    let len = a.queue.len() as int;
    assert(b.queue.len() == len);
    assert forall|q: int| 0 <= q < len implies b.queue[q] == (if q < len - 1 {
        a.queue[q + 1]
    } else {
        x
    }) by {}
    assert(b.time_ok()) by {
        assert forall|j: int| 0 <= j < b.n() && #[trigger] b.placed[j] implies if is_root(
            b.ts,
            j,
        ) {
            b.turn[j] == -1
        } else {
            0 <= b.turn[j] <= b.pass && (b.turn[j] == b.pass ==> j <= b.cursor)
        } by {
            if !is_root(a.ts, j) && a.turn[j] == b.pass {
                assert(a.split > 0);
                assert(a.queue[0] > a.cursor);
            }
        }
    }
    assert(b.seen_ok()) by {
        assert forall|q: int, p: int|
            #![trigger b.queue[q], b.placed[p]]
            0 <= q < b.queue.len() && 0 <= p < b.n() && b.placed[p] && is_child_of(
                b.ts,
                b.ts[p].id,
                b.queue[q],
            ) implies b.awaited(q, p) by {
            if q == len - 1 {
                assert(a.table.contains_key(a.ts[p].id));
                assert(a.wanted(x) == a.ts[p].id);
            } else {
                assert(b.queue[q] == a.queue[q + 1]);
                assert(a.placed[p]);
                assert(a.awaited(q + 1, p));
            }
        }
    }
}

/// A lookup that does not find the parent keeps the state sound.
pub proof fn lemma_miss(a: Arena)
    requires
        a.inv(),
        a.live(),
        !a.table.contains_key(a.wanted(a.queue[0])),
    ensures
        a.miss().inv(),
{
    lemma_miss_queue(a);
    lemma_miss_time(a);
    let b = a.miss();
    assert(b.table_ok());
    assert(b.resolved_ok());
    assert(b.kids_ok());
    assert(b.order_ok());
    assert(b.born_ok());
}

/// A record whose parent reaches a root reaches it in one step more.
pub proof fn lemma_resolves_below(ts: Seq<Task>, x: int, p: int, d: nat)
    requires
        0 <= x < ts.len(),
        0 <= p < ts.len(),
        is_child_of(ts, ts[p].id, x),
        resolves_within(ts, p, d),
    ensures
        resolves_within(ts, x, d + 1),
{
}

/// What a lookup that finds the parent starts from.
pub open spec fn can_hit(a: Arena) -> bool {
    &&& a.inv()
    &&& a.live()
    &&& a.table.contains_key(a.wanted(a.queue[0]))
}

proof fn lemma_hit_queue(a: Arena)
    requires
        can_hit(a),
    ensures
        a.hit().sized(),
        a.hit().queue_ok(),
        a.hit().misses_ok(),
        a.hit().rotation_ok(),
        a.hit().budget_ok(),
{
    let b = a.hit();
    let x = a.queue[0];
    let len = a.queue.len() as int;
    lemma_queue_distinct(a);
    assert(b.queue.len() == len - 1);
    assert forall|q: int| 0 <= q < len - 1 implies b.queue[q] == a.queue[q + 1] by {}
    assert(b.queue_ok()) by {
        assert forall|q: int| 0 <= q < b.queue.len() implies 0 <= #[trigger] b.queue[q] < b.n()
            && !b.placed[b.queue[q]] && !is_root(b.ts, b.queue[q]) by {
            assert(b.queue[q] == a.queue[q + 1]);
            assert(a.queue[q + 1] != a.queue[0]);
        }
        assert forall|i: int| 0 <= i < b.n() && !#[trigger] b.placed[i] implies b.queue.contains(
            i,
        ) by {
            assert(!a.placed[i]);
            assert(a.queue.contains(i));
            let q = choose|q: int| 0 <= q < len && a.queue[q] == i;
            assert(q != 0);
            assert(b.queue[q - 1] == i);
        }
    }
    assert(b.rotation_ok()) by {
        assert forall|k: int| 0 <= k < b.split implies #[trigger] b.queue[k] > b.cursor by {
            assert(b.queue[k] == a.queue[k + 1]);
            assert(a.queue[0] < a.queue[k + 1]);
        }
        assert forall|k: int, l: int| 0 <= k < l < b.split implies b.queue[k] < b.queue[l] by {
            assert(b.queue[k] == a.queue[k + 1] && b.queue[l] == a.queue[l + 1]);
        }
        assert forall|k: int, l: int| b.split <= k < l < b.queue.len() implies b.queue[k]
            < b.queue[l] by {
            assert(b.queue[k] == a.queue[k + 1] && b.queue[l] == a.queue[l + 1]);
        }
        assert forall|k: int| b.split <= k < b.queue.len() implies #[trigger] b.queue[k]
            <= b.cursor by {
            assert(b.queue[k] == a.queue[k + 1]);
            assert(a.split > 0);
            assert(a.queue[k + 1] <= a.cursor);
            assert(a.queue[0] > a.cursor);
        }
    }
    assert(b.budget_ok()) by {
        assert(triangle(len as nat) == len + triangle((len - 1) as nat));
    }
}

proof fn lemma_hit_links(a: Arena)
    requires
        can_hit(a),
    ensures
        a.hit().table_ok(),
        a.hit().resolved_ok(),
        a.hit().kids_ok(),
        a.hit().order_ok(),
{
    let b = a.hit();
    let x = a.queue[0];
    let p = a.table[a.wanted(x)];
    assert(0 <= x < a.n() && !a.placed[x] && !is_root(a.ts, x));
    assert(0 <= p < a.n() && a.placed[p] && a.ts[p].id == a.wanted(x));
    assert(p != x);
    assert(b.table_ok()) by {
        assert forall|id: u64| #[trigger] b.table.contains_key(id) implies 0 <= b.table[id]
            < b.n() && b.placed[b.table[id]] && b.ts[b.table[id]].id == id by {
            if id != a.ts[x].id {
                assert(a.table.contains_key(id));
            }
        }
        assert forall|i: int| 0 <= i < b.n() && #[trigger] b.placed[i] implies b.table.contains_key(
            b.ts[i].id,
        ) by {
            if i != x {
                assert(a.placed[i]);
            }
        }
    }
    assert(b.resolved_ok()) by {
        assert forall|i: int| 0 <= i < b.n() && #[trigger] b.placed[i] implies resolves_within(
            b.ts,
            i,
            b.depth[i],
        ) by {
            if i == x {
                let d = b.depth[x];
                assert(d == a.depth[p] + 1);
                assert((d - 1) as nat == a.depth[p]);
                assert(resolves_within(b.ts, p, (d - 1) as nat));
                lemma_resolves_below(b.ts, x, p, a.depth[p]);
            } else {
                assert(a.placed[i]);
            }
        }
    }
    assert(b.kids_ok()) by {
        assert forall|q: int, k: int| 0 <= q < b.n() && 0 <= k < b.kids[q].len() implies ({
            let j = #[trigger] b.kids[q][k];
            0 <= j < b.n() && b.placed[j] && !is_root(b.ts, j) && b.parent[j] == q
        }) by {
            if q == p && k == a.kids[p].len() {
            } else {
                assert(b.kids[q][k] == a.kids[q][k]);
            }
        }
        assert forall|j: int|
            0 <= j < b.n() && #[trigger] b.placed[j] && !is_root(b.ts, j) implies ({
            &&& 0 <= b.parent[j] < b.n()
            &&& b.placed[b.parent[j]]
            &&& is_child_of(b.ts, b.ts[b.parent[j]].id, j)
            &&& b.kids[b.parent[j]].contains(j)
        }) by {
            if j == x {
                assert(b.kids[p][a.kids[p].len() as int] == x);
            } else {
                assert(a.placed[j]);
                let q = a.parent[j];
                assert(a.kids[q].contains(j));
                let k = choose|k: int| 0 <= k < a.kids[q].len() && a.kids[q][k] == j;
                assert(b.kids[q][k] == j);
            }
        }
    }
    assert(b.order_ok()) by {
        let old_len = a.order.len() as int;
        assert forall|q: int, r: int| 0 <= q < r < b.order.len() implies b.order[q]
            != b.order[r] by {
            if r == old_len {
                assert(a.placed[a.order[q]]);
            }
        }
        assert forall|i: int| 0 <= i < b.n() && #[trigger] b.placed[i] implies b.order.contains(
            i,
        ) by {
            if i == x {
                assert(b.order[old_len] == x);
            } else {
                assert(a.placed[i]);
                assert(a.order.contains(i));
                let q = choose|q: int| 0 <= q < old_len && a.order[q] == i;
                assert(b.order[q] == i);
            }
        }
        assert forall|q: int|
            0 <= q < b.order.len() && !is_root(b.ts, #[trigger] b.order[q]) implies exists|
            r: int,
        |
            0 <= r < q && b.order[r] == b.parent[b.order[q]] by {
            if q == old_len {
                assert(a.order.contains(p));
                let r = choose|r: int| 0 <= r < old_len && a.order[r] == p;
                assert(b.order[r] == b.parent[b.order[q]]);
            } else {
                assert(a.placed[a.order[q]]);
                let r = choose|r: int| 0 <= r < q && a.order[r] == a.parent[a.order[q]];
                assert(b.order[r] == b.parent[b.order[q]]);
            }
        }
    }
}

proof fn lemma_hit_time(a: Arena)
    requires
        can_hit(a),
    ensures
        a.hit().time_ok(),
        a.hit().seen_ok(),
{
    let b = a.hit();
    let x = a.queue[0];
    let p = a.table[a.wanted(x)];
    let len = a.queue.len() as int;
    lemma_queue_distinct(a);
    assert(0 <= x < a.n() && !a.placed[x] && !is_root(a.ts, x));
    assert(b.queue.len() == len - 1);
    assert forall|q: int| 0 <= q < len - 1 implies b.queue[q] == a.queue[q + 1] by {}
    assert(b.time_ok()) by {
        assert forall|j: int| 0 <= j < b.n() && #[trigger] b.placed[j] implies if is_root(
            b.ts,
            j,
        ) {
            b.turn[j] == -1
        } else {
            0 <= b.turn[j] <= b.pass && (b.turn[j] == b.pass ==> j <= b.cursor)
        } by {
            if j != x {
                assert(a.placed[j]);
                if !is_root(a.ts, j) && a.turn[j] == b.pass {
                    assert(a.split > 0);
                    assert(a.queue[0] > a.cursor);
                }
            }
        }
    }
    assert(b.seen_ok()) by {
        assert forall|q: int, r: int|
            #![trigger b.queue[q], b.placed[r]]
            0 <= q < b.queue.len() && 0 <= r < b.n() && b.placed[r] && is_child_of(
                b.ts,
                b.ts[r].id,
                b.queue[q],
            ) implies b.awaited(q, r) by {
            assert(b.queue[q] == a.queue[q + 1]);
            assert(a.queue[q + 1] != a.queue[0]);
            if r == x {
                if q < b.split {
                } else {
                    if a.split == 0 {
                    } else {
                        assert(a.queue[q + 1] <= a.cursor);
                        assert(a.queue[0] > a.cursor);
                    }
                }
            } else {
                assert(a.placed[r]);
                assert(a.awaited(q + 1, r));
            }
        }
    }
}

proof fn lemma_hit_born(a: Arena)
    requires
        can_hit(a),
    ensures
        a.hit().born_ok(),
{
    let b = a.hit();
    let x = a.queue[0];
    let p = a.table[a.wanted(x)];
    assert(0 <= x < a.n() && !a.placed[x] && !is_root(a.ts, x));
    assert(0 <= p < a.n() && a.placed[p] && a.ts[p].id == a.wanted(x));
    assert(p != x);
    assert(a.awaited(0, p)) by {
        assert(is_child_of(a.ts, a.ts[p].id, a.queue[0]));
    }
    if a.split > 0 {
        assert(a.queue[0] > a.cursor);
    }
    assert forall|j: int|
        0 <= j < b.n() && #[trigger] b.placed[j] && !is_root(b.ts, j) implies b.prompt(j) by {
        if j == x {
        } else {
            assert(a.placed[j]);
            assert(a.prompt(j));
            assert(a.parent[j] != x);
        }
    }
    assert forall|q: int, k: int, l: int|
        #![trigger b.kids[q][k], b.kids[q][l]]
        0 <= q < b.n() && 0 <= k < l < b.kids[q].len() implies earlier(
        b.turn[b.kids[q][k]],
        b.kids[q][k],
        b.turn[b.kids[q][l]],
        b.kids[q][l],
    ) by {
        if q == p && l == a.kids[p].len() {
            let j = a.kids[p][k];
            assert(b.kids[q][k] == j);
            assert(a.placed[j] && !is_root(a.ts, j));
        } else {
            assert(b.kids[q][k] == a.kids[q][k]);
            assert(b.kids[q][l] == a.kids[q][l]);
            assert(a.placed[a.kids[q][k]]);
            assert(a.placed[a.kids[q][l]]);
        }
    }
}

/// A lookup that finds the parent keeps the state sound.
pub proof fn lemma_hit(a: Arena)
    requires
        can_hit(a),
    ensures
        a.hit().inv(),
{
    lemma_hit_queue(a);
    lemma_hit_links(a);
    lemma_hit_time(a);
    lemma_hit_born(a);
}

/// The lookups that can still be made at most: with `k` records waiting and
/// no miss counted, 1 + 2 + ... + `k`.
pub open spec fn budget(a: Arena) -> int {
    triangle(a.queue.len()) - a.misses
}

/// Every lookup keeps the state sound and uses up some of the budget, which
/// never falls below 0. So a construction that starts with `k` waiting
/// records makes no more than `k` (`k` + 1) / 2 lookups.
pub proof fn lemma_lookup_uses_budget(a: Arena)
    requires
        a.inv(),
        a.live(),
    ensures
        a.step().inv(),
        a.step().attempts == a.attempts + 1,
        0 <= budget(a.step()) < budget(a),
{
    let len = a.queue.len();
    assert(triangle(len) == len + triangle((len - 1) as nat));
    if a.finds() {
        lemma_hit(a);
        assert(a.hit().queue.len() == len - 1);
    } else {
        lemma_miss(a);
        assert(a.miss().queue.len() == len);
    }
}

} // verus!
