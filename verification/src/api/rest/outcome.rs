//! What the state of the construction says once no lookup can be made.
use super::arena::{earlier, Arena};
use super::forest::{
    child_at, child_order, distinct_ids, is_child_of, is_root, positions, resolves,
    resolves_within,
};
use super::order::{
    lemma_positions, lemma_positions_unique, lemma_rising_unique, rising, same_entries,
};
use vstd::prelude::*;

verus! {

/// Nothing more can be looked up: the queue is empty, or every record in it
/// was looked at since the table last grew.
pub open spec fn exhausted(a: Arena) -> bool {
    a.inv() && a.misses == a.queue.len()
}

proof fn lemma_waiting_is_stuck(a: Arena, i: int, d: nat)
    requires
        exhausted(a),
        0 <= i < a.n(),
        !a.placed[i],
    ensures
        !resolves_within(a.ts, i, d),
    decreases d,
{
    if resolves_within(a.ts, i, d) {
        assert(a.queue.contains(i));
        let q = choose|q: int| 0 <= q < a.queue.len() && a.queue[q] == i;
        assert(!is_root(a.ts, a.queue[q]));
        assert(!a.table.contains_key(a.wanted(a.queue[q])));
        let id = a.ts[i].parent_id->0;
        let j = choose|j: int|
            #![trigger a.ts[j]]
            0 <= j < a.ts.len() && a.ts[j].id == id && resolves_within(
                a.ts,
                j,
                (d - 1) as nat,
            );
        if a.placed[j] {
            assert(a.table.contains_key(a.ts[j].id));
        } else {
            lemma_waiting_is_stuck(a, j, (d - 1) as nat);
        }
    }
}

/// Once no lookup can be made, the placed records are exactly those that
/// are roots or descend from one.
pub proof fn lemma_exhausted(a: Arena)
    requires
        exhausted(a),
    ensures
        forall|i: int| 0 <= i < a.n() ==> (#[trigger] a.placed[i] <==> resolves(a.ts, i)),
{
    assert forall|i: int| 0 <= i < a.n() implies (#[trigger] a.placed[i] <==> resolves(
        a.ts,
        i,
    )) by {
        if a.placed[i] {
            assert(resolves_within(a.ts, i, a.depth[i]));
        } else {
            assert forall|d: nat| !resolves_within(a.ts, i, d) by {
                lemma_waiting_is_stuck(a, i, d);
            }
        }
    }
}

/// An empty queue leaves every record placed.
pub proof fn lemma_all_placed(a: Arena)
    requires
        a.inv(),
        a.queue.len() == 0,
    ensures
        forall|i: int| 0 <= i < a.n() ==> #[trigger] a.placed[i],
{
    assert forall|i: int| 0 <= i < a.n() implies #[trigger] a.placed[i] by {
        if !a.placed[i] {
            assert(a.queue.contains(i));
        }
    }
}

/// Where the record at `j` stands in the round that starts behind `p`.
pub open spec fn round_from(p: int, n: int) -> spec_fn(int) -> int {
    |j: int|
        if j > p {
            j - p
        } else {
            j - p + n
        }
}

proof fn lemma_children_found(a: Arena, p: int)
    requires
        a.inv(),
        a.queue.len() == 0,
        distinct_ids(a.ts),
        0 <= p < a.n(),
    ensures
        forall|k: int|
            a.kids[p].contains(k) <==> 0 <= k < a.n() && k != p && is_child_of(
                a.ts,
                a.ts[p].id,
                k,
            ),
        forall|k: int| 0 <= k < a.n() && #[trigger] is_child_of(a.ts, a.ts[p].id, k) ==> k != p,
{
    lemma_all_placed(a);
    assert forall|k: int| 0 <= k < a.n() && #[trigger] is_child_of(a.ts, a.ts[p].id, k) implies k
        != p && a.kids[p].contains(k) by {
        assert(a.placed[k] && !is_root(a.ts, k));
        let q = a.parent[k];
        assert(is_child_of(a.ts, a.ts[q].id, k));
        assert(a.ts[q].id == a.ts[p].id);
        assert(q == p);
        assert(a.prompt(k));
    }
    assert forall|k: int| a.kids[p].contains(k) implies 0 <= k < a.n() && k != p && is_child_of(
        a.ts,
        a.ts[p].id,
        k,
    ) by {
        let i = choose|i: int| 0 <= i < a.kids[p].len() && a.kids[p][i] == k;
        assert(a.kids[p][i] == k);
        assert(a.placed[k]);
    }
}

/// With distinct identifiers and an empty queue, every record lists its
/// children in the order that `child_order` gives.
pub proof fn lemma_settled(a: Arena, p: int)
    requires
        a.inv(),
        a.queue.len() == 0,
        distinct_ids(a.ts),
        0 <= p < a.n(),
    ensures
        a.kids[p] == child_order(a.ts, p),
{
    let n = a.n();
    let mine = child_at(a.ts, a.ts[p].id);
    let kids = a.kids[p];
    lemma_all_placed(a);
    lemma_children_found(a, p);
    assert forall|i: int| 0 <= i < kids.len() implies 0 <= #[trigger] kids[i] < n && a.placed[kids[i]]
        && !is_root(a.ts, kids[i]) && a.parent[kids[i]] == p && a.prompt(kids[i]) by {
        assert(a.kids[p][i] == kids[i]);
    }
    if is_root(a.ts, p) {
        assert forall|i: int, j: int| 0 <= i < j < kids.len() implies kids[i] < kids[j] by {
            assert(earlier(a.turn[a.kids[p][i]], a.kids[p][i], a.turn[a.kids[p][j]], a.kids[p][j]));
            assert(a.prompt(kids[i]) && a.prompt(kids[j]));
        }
        assert forall|k: int| kids.contains(k) <==> 0 <= k < n && mine(k) by {}
        lemma_positions_unique(kids, 0, n, mine);
    } else {
        let hi = positions(p + 1, n, mine);
        let lo = positions(0, p, mine);
        let want = hi + lo;
        let key = round_from(p, n);
        lemma_positions(p + 1, n, mine);
        lemma_positions(0, p, mine);
        assert(rising(kids, key)) by {
            assert forall|i: int, j: int| 0 <= i < j < kids.len() implies key(kids[i]) < key(
                kids[j],
            ) by {
                assert(earlier(
                    a.turn[a.kids[p][i]],
                    a.kids[p][i],
                    a.turn[a.kids[p][j]],
                    a.kids[p][j],
                ));
                assert(a.prompt(kids[i]) && a.prompt(kids[j]));
            }
        }
        assert(rising(want, key)) by {
            assert forall|i: int, j: int| 0 <= i < j < want.len() implies key(want[i]) < key(
                want[j],
            ) by {
                if j < hi.len() {
                    assert(want[i] == hi[i] && want[j] == hi[j]);
                } else if i >= hi.len() {
                    assert(want[i] == lo[i - hi.len()] && want[j] == lo[j - hi.len()]);
                } else {
                    assert(want[i] == hi[i] && want[j] == lo[j - hi.len()]);
                }
            }
        }
        assert(same_entries(kids, want)) by {
            assert forall|k: int| kids.contains(k) <==> want.contains(k) by {
                if kids.contains(k) {
                    if k > p {
                        assert(hi.contains(k));
                        let i = choose|i: int| 0 <= i < hi.len() && hi[i] == k;
                        assert(want[i] == k);
                    } else {
                        assert(lo.contains(k));
                        let i = choose|i: int| 0 <= i < lo.len() && lo[i] == k;
                        assert(want[i + hi.len()] == k);
                    }
                }
                if want.contains(k) {
                    let i = choose|i: int| 0 <= i < want.len() && want[i] == k;
                    if i < hi.len() {
                        assert(hi[i] == k);
                        assert(hi.contains(k));
                    } else {
                        assert(lo[i - hi.len()] == k);
                        assert(lo.contains(k));
                    }
                }
            }
        }
        lemma_rising_unique(kids, want, key);
    }
}

} // verus!
