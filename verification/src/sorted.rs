//! Sequences of `(number, value)` pairs kept in strictly ascending number
//! order: the storage of field-number indexes and of message field sets.

use vstd::prelude::*;

verus! {

/// Keys strictly ascend through the sequence.
pub open spec fn sorted_by_number<T>(s: Seq<(u32, T)>) -> bool {
    forall|i: int, j: int| 0 <= i < j < s.len() ==> s[i].0 < s[j].0
}

/// Some pair of the sequence has key `n`.
pub open spec fn has_number<T>(s: Seq<(u32, T)>, n: u32) -> bool {
    exists|k: int| 0 <= k < s.len() && s[k].0 == n
}

/// The position of the pair with key `n`.
pub open spec fn position_of<T>(s: Seq<(u32, T)>, n: u32) -> int {
    choose|k: int| 0 <= k < s.len() && s[k].0 == n
}

/// The value stored under key `n`.
pub open spec fn value_of<T>(s: Seq<(u32, T)>, n: u32) -> T {
    s[position_of(s, n)].1
}

/// The sequence read as a map from key to value.
pub open spec fn as_map<T>(s: Seq<(u32, T)>) -> Map<u32, T> {
    Map::new(|n: u32| has_number(s, n), |n: u32| value_of(s, n))
}

/// The keys of the sequence, in order.
pub open spec fn numbers<T>(s: Seq<(u32, T)>) -> Seq<u32> {
    s.map_values(|e: (u32, T)| e.0)
}

/// Binary search on the first tuple element: on a slice sorted by that
/// key, `Ok` holds the position of `number`, and `Err` the position at
/// which it would be inserted to keep the order.
pub(crate) fn search_by_number<T>(entries: &[(u32, T)], number: u32) -> (r: Result<usize, usize>)
    requires
        sorted_by_number(entries@),
    ensures
        match r {
            Ok(i) => i < entries@.len() && entries@[i as int].0 == number,
            Err(i) => {
                &&& i <= entries@.len()
                &&& forall|j: int| 0 <= j < i ==> entries@[j].0 < number
                &&& forall|j: int| i <= j < entries@.len() ==> entries@[j].0 > number
            },
        },
{
    let mut lo: usize = 0;
    let mut hi: usize = entries.len();
    while lo < hi
        invariant
            lo <= hi <= entries@.len(),
            sorted_by_number(entries@),
            forall|j: int| 0 <= j < lo ==> entries@[j].0 < number,
            forall|j: int| hi <= j < entries@.len() ==> entries@[j].0 > number,
        decreases hi - lo,
    {
        let mid = lo + (hi - lo) / 2;
        let key = entries[mid].0;
        if key == number {
            return Ok(mid);
        } else if key < number {
            lo = mid + 1;
        } else {
            hi = mid;
        }
    }
    Err(lo)
}

/// In a sorted sequence a key occurs at one position only, which is the
/// position the sequence reports for it.
pub proof fn lemma_position<T>(s: Seq<(u32, T)>, k: int)
    requires
        sorted_by_number(s),
        0 <= k < s.len(),
    ensures
        has_number(s, s[k].0),
        position_of(s, s[k].0) == k,
        value_of(s, s[k].0) == s[k].1,
        as_map(s).dom().contains(s[k].0),
        as_map(s)[s[k].0] == s[k].1,
{
    let n = s[k].0;
    assert(has_number(s, n));
    let p = position_of(s, n);
    if p != k {
        if p < k {
            assert(s[p].0 < s[k].0);
        } else {
            assert(s[k].0 < s[p].0);
        }
    }
}

/// The insertion point reported by a failed search leaves the key absent.
pub proof fn lemma_absent<T>(s: Seq<(u32, T)>, pos: int, n: u32)
    requires
        0 <= pos <= s.len(),
        forall|j: int| 0 <= j < pos ==> s[j].0 < n,
        forall|j: int| pos <= j < s.len() ==> s[j].0 > n,
    ensures
        !has_number(s, n),
        !as_map(s).dom().contains(n),
{
    if has_number(s, n) {
        let k = choose|k: int| 0 <= k < s.len() && s[k].0 == n;
        assert(s[k].0 == n);
    }
}

/// Inserting a new key at its insertion point keeps the order and adds
/// that key to the map.
pub proof fn lemma_insert<T>(s: Seq<(u32, T)>, pos: int, n: u32, v: T)
    requires
        sorted_by_number(s),
        0 <= pos <= s.len(),
        forall|j: int| 0 <= j < pos ==> s[j].0 < n,
        forall|j: int| pos <= j < s.len() ==> s[j].0 > n,
    ensures
        sorted_by_number(s.insert(pos, (n, v))),
        as_map(s.insert(pos, (n, v))) == as_map(s).insert(n, v),
        !as_map(s).dom().contains(n),
{
    let t = s.insert(pos, (n, v));
    lemma_absent(s, pos, n);
    assert(sorted_by_number(t)) by {
        assert forall|i: int, j: int| 0 <= i < j < t.len() implies t[i].0 < t[j].0 by {
            if j < pos {
                assert(t[i] == s[i] && t[j] == s[j]);
            } else if j == pos {
                assert(t[i] == s[i]);
            } else if i < pos {
                assert(t[i] == s[i] && t[j] == s[j - 1]);
            } else if i == pos {
                assert(t[j] == s[j - 1]);
            } else {
                assert(t[i] == s[i - 1] && t[j] == s[j - 1]);
            }
        }
    }
    assert(as_map(t) =~= as_map(s).insert(n, v)) by {
        assert forall|m: u32| #[trigger] as_map(t).dom().contains(m) == as_map(s).insert(
            n,
            v,
        ).dom().contains(m) by {
            if has_number(t, m) && m != n {
                let k = choose|k: int| 0 <= k < t.len() && t[k].0 == m;
                if k < pos {
                    assert(s[k].0 == m);
                } else {
                    assert(s[k - 1].0 == m);
                }
            }
            if has_number(s, m) {
                let k = choose|k: int| 0 <= k < s.len() && s[k].0 == m;
                if k < pos {
                    assert(t[k].0 == m);
                } else {
                    assert(t[k + 1].0 == m);
                }
            }
            if m == n {
                assert(t[pos].0 == n);
            }
        }
        assert forall|m: u32| #[trigger] as_map(t).dom().contains(m) implies as_map(t)[m]
            == as_map(s).insert(n, v)[m] by {
            let k = choose|k: int| 0 <= k < t.len() && t[k].0 == m;
            lemma_position(t, k);
            if k < pos {
                assert(t[k] == s[k]);
                lemma_position(s, k);
            } else if k > pos {
                assert(t[k] == s[k - 1]);
                lemma_position(s, k - 1);
            }
        }
    }
}

/// Replacing the value at a key's position keeps the order and updates
/// that key in the map.
pub proof fn lemma_update<T>(s: Seq<(u32, T)>, pos: int, v: T)
    requires
        sorted_by_number(s),
        0 <= pos < s.len(),
    ensures
        sorted_by_number(s.update(pos, (s[pos].0, v))),
        as_map(s.update(pos, (s[pos].0, v))) == as_map(s).insert(s[pos].0, v),
        numbers(s.update(pos, (s[pos].0, v))) == numbers(s),
{
    let n = s[pos].0;
    let t = s.update(pos, (n, v));
    assert(sorted_by_number(t)) by {
        assert forall|i: int, j: int| 0 <= i < j < t.len() implies t[i].0 < t[j].0 by {
            assert(t[i].0 == s[i].0 && t[j].0 == s[j].0);
        }
    }
    assert(as_map(t) =~= as_map(s).insert(n, v)) by {
        assert forall|m: u32| #[trigger] as_map(t).dom().contains(m) == as_map(s).insert(
            n,
            v,
        ).dom().contains(m) by {
            if has_number(t, m) {
                let k = choose|k: int| 0 <= k < t.len() && t[k].0 == m;
                assert(s[k].0 == m);
            }
            if has_number(s, m) {
                let k = choose|k: int| 0 <= k < s.len() && s[k].0 == m;
                assert(t[k].0 == m);
            }
            lemma_position(s, pos);
        }
        assert forall|m: u32| #[trigger] as_map(t).dom().contains(m) implies as_map(t)[m]
            == as_map(s).insert(n, v)[m] by {
            let k = choose|k: int| 0 <= k < t.len() && t[k].0 == m;
            lemma_position(t, k);
            if k != pos {
                assert(t[k] == s[k]);
                lemma_position(s, k);
            }
        }
    }
    assert(numbers(t) =~= numbers(s));
}

/// Removing the pair at a position keeps the order and removes its key.
pub proof fn lemma_remove<T>(s: Seq<(u32, T)>, pos: int)
    requires
        sorted_by_number(s),
        0 <= pos < s.len(),
    ensures
        sorted_by_number(s.remove(pos)),
        as_map(s.remove(pos)) == as_map(s).remove(s[pos].0),
{
    let n = s[pos].0;
    let t = s.remove(pos);
    assert(sorted_by_number(t)) by {
        assert forall|i: int, j: int| 0 <= i < j < t.len() implies t[i].0 < t[j].0 by {
            if j < pos {
                assert(t[i] == s[i] && t[j] == s[j]);
            } else if i < pos {
                assert(t[i] == s[i] && t[j] == s[j + 1]);
            } else {
                assert(t[i] == s[i + 1] && t[j] == s[j + 1]);
            }
        }
    }
    assert(as_map(t) =~= as_map(s).remove(n)) by {
        assert forall|m: u32| #[trigger] as_map(t).dom().contains(m) == as_map(s).remove(
            n,
        ).dom().contains(m) by {
            if has_number(t, m) {
                let k = choose|k: int| 0 <= k < t.len() && t[k].0 == m;
                if k < pos {
                    assert(s[k].0 == m);
                    assert(s[k].0 < s[pos].0);
                } else {
                    assert(s[k + 1].0 == m);
                    assert(s[pos].0 < s[k + 1].0);
                }
            }
            if has_number(s, m) && m != n {
                let k = choose|k: int| 0 <= k < s.len() && s[k].0 == m;
                if k < pos {
                    assert(t[k].0 == m);
                } else {
                    assert(k != pos);
                    assert(t[k - 1].0 == m);
                }
            }
        }
        assert forall|m: u32| #[trigger] as_map(t).dom().contains(m) implies as_map(t)[m]
            == as_map(s).remove(n)[m] by {
            let k = choose|k: int| 0 <= k < t.len() && t[k].0 == m;
            lemma_position(t, k);
            if k < pos {
                assert(t[k] == s[k]);
                lemma_position(s, k);
            } else {
                assert(t[k] == s[k + 1]);
                lemma_position(s, k + 1);
            }
        }
    }
}

} // verus!
