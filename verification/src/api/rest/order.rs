//! Facts about ascending sequences of positions.
use super::forest::positions;
use vstd::prelude::*;

verus! {

/// `s` lists its entries by strictly rising `key`.
pub open spec fn rising(s: Seq<int>, key: spec_fn(int) -> int) -> bool {
    forall|a: int, b: int| 0 <= a < b < s.len() ==> key(s[a]) < key(s[b])
}

/// `s` and `t` hold the same entries.
pub open spec fn same_entries(s: Seq<int>, t: Seq<int>) -> bool {
    forall|k: int| s.contains(k) <==> t.contains(k)
}

/// `positions` holds exactly the chosen positions of the range, ascending.
pub proof fn lemma_positions(lo: int, hi: int, pick: spec_fn(int) -> bool)
    ensures
        forall|k: int| #[trigger] positions(lo, hi, pick).contains(k) <==> lo <= k < hi && pick(k),
        forall|a: int|
            0 <= a < positions(lo, hi, pick).len() ==> lo <= #[trigger] positions(lo, hi, pick)[a]
                < hi && pick(positions(lo, hi, pick)[a]),
        forall|a: int, b: int|
            0 <= a < b < positions(lo, hi, pick).len() ==> positions(lo, hi, pick)[a] < positions(
                lo,
                hi,
                pick,
            )[b],
        positions(lo, hi, pick).len() <= if hi <= lo {
            0
        } else {
            hi - lo
        },
    decreases hi - lo,
{
    let s = positions(lo, hi, pick);
    if hi <= lo {
    } else {
        lemma_positions(lo, hi - 1, pick);
        let r = positions(lo, hi - 1, pick);
        if pick(hi - 1) {
            assert(s == r.push(hi - 1));
            assert forall|k: int| #[trigger] s.contains(k) <==> lo <= k < hi && pick(k) by {
                if s.contains(k) {
                    let a = choose|a: int| 0 <= a < s.len() && s[a] == k;
                    if a < r.len() {
                        assert(r[a] == k);
                        assert(r.contains(k));
                    }
                }
                if lo <= k < hi && pick(k) {
                    if k == hi - 1 {
                        assert(s[r.len() as int] == k);
                    } else {
                        assert(r.contains(k));
                        let a = choose|a: int| 0 <= a < r.len() && r[a] == k;
                        assert(s[a] == k);
                    }
                }
            }
        } else {
            assert(s == r);
        }
    }
}

/// Two sequences that list the same entries by strictly rising key are equal.
pub proof fn lemma_rising_unique(s: Seq<int>, t: Seq<int>, key: spec_fn(int) -> int)
    requires
        rising(s, key),
        rising(t, key),
        same_entries(s, t),
    ensures
        s == t,
    decreases s.len(),
{
    if s.len() == 0 {
        if t.len() > 0 {
            assert(t.contains(t[0]));
            assert(s.contains(t[0]));
        }
        assert(s =~= t);
    } else {
        assert(s.contains(s[0]));
        assert(t.contains(s[0]));
        let b = choose|b: int| 0 <= b < t.len() && t[b] == s[0];
        assert(t.contains(t[0]));
        assert(s.contains(t[0]));
        let a = choose|a: int| 0 <= a < s.len() && s[a] == t[0];
        // the least key stands first in both
        assert(a == 0 && b == 0) by {
            if a > 0 {
                assert(key(s[0]) < key(s[a]));
                if b > 0 {
                    assert(key(t[0]) < key(t[b]));
                }
            }
            if b > 0 {
                assert(key(t[0]) < key(t[b]));
                if a > 0 {
                    assert(key(s[0]) < key(s[a]));
                }
            }
        }
        let s1 = s.subrange(1, s.len() as int);
        let t1 = t.subrange(1, t.len() as int);
        assert(rising(s1, key)) by {
            assert forall|a: int, b: int| 0 <= a < b < s1.len() implies key(s1[a]) < key(
                s1[b],
            ) by {
                assert(s1[a] == s[a + 1] && s1[b] == s[b + 1]);
            }
        }
        assert(rising(t1, key)) by {
            assert forall|a: int, b: int| 0 <= a < b < t1.len() implies key(t1[a]) < key(
                t1[b],
            ) by {
                assert(t1[a] == t[a + 1] && t1[b] == t[b + 1]);
            }
        }
        assert(same_entries(s1, t1)) by {
            assert forall|k: int| s1.contains(k) <==> t1.contains(k) by {
                if s1.contains(k) {
                    let a = choose|a: int| 0 <= a < s1.len() && s1[a] == k;
                    assert(s[a + 1] == k);
                    assert(key(s[0]) < key(s[a + 1]));
                    assert(s.contains(k));
                    assert(t.contains(k));
                    let b = choose|b: int| 0 <= b < t.len() && t[b] == k;
                    assert(b != 0);
                    assert(t1[b - 1] == k);
                }
                if t1.contains(k) {
                    let b = choose|b: int| 0 <= b < t1.len() && t1[b] == k;
                    assert(t[b + 1] == k);
                    assert(key(t[0]) < key(t[b + 1]));
                    assert(t.contains(k));
                    assert(s.contains(k));
                    let a = choose|a: int| 0 <= a < s.len() && s[a] == k;
                    assert(a != 0);
                    assert(s1[a - 1] == k);
                }
            }
        }
        lemma_rising_unique(s1, t1, key);
        assert(s =~= seq![s[0]] + s1);
        assert(t =~= seq![t[0]] + t1);
    }
}

/// An ascending sequence that holds exactly the chosen positions of a range
/// is `positions` of that range.
pub proof fn lemma_positions_unique(s: Seq<int>, lo: int, hi: int, pick: spec_fn(int) -> bool)
    requires
        forall|a: int, b: int| 0 <= a < b < s.len() ==> s[a] < s[b],
        forall|k: int| s.contains(k) <==> lo <= k < hi && pick(k),
    ensures
        s == positions(lo, hi, pick),
{
    lemma_positions(lo, hi, pick);
    let key = |k: int| k;
    assert(rising(s, key));
    assert(rising(positions(lo, hi, pick), key));
    assert(same_entries(s, positions(lo, hi, pick)));
    lemma_rising_unique(s, positions(lo, hi, pick), key);
}

} // verus!
