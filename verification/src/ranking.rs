//! The highest of a list of keys, in order.

use vstd::prelude::*;

verus! {

/// Position `i` comes before position `j`: its key is greater, or equal and
/// it stands first.
pub open spec fn precedes(keys: Seq<i64>, i: int, j: int) -> bool {
    keys[i] > keys[j] || (keys[i] == keys[j] && i < j)
}

/// `r` holds the first `k` positions in the order of [`precedes`], or all of
/// them where there are fewer.
pub open spec fn is_top(keys: Seq<i64>, k: nat, r: Seq<int>) -> bool {
    &&& r.len() == if keys.len() < k {
        keys.len()
    } else {
        k
    }
    &&& forall|a: int| 0 <= a < r.len() ==> 0 <= #[trigger] r[a] < keys.len()
    &&& forall|a: int, b: int|
        0 <= a < b < r.len() ==> precedes(keys, #[trigger] r[a], #[trigger] r[b])
    &&& forall|a: int, j: int|
        0 <= a < r.len() && 0 <= j < keys.len() && !r.contains(j) ==> #[trigger] precedes(
            keys,
            r[a],
            j,
        )
}

/// There is only one such list.
pub proof fn top_is_unique(keys: Seq<i64>, k: nat, r: Seq<int>, s: Seq<int>)
    requires
        is_top(keys, k, r),
        is_top(keys, k, s),
    ensures
        r == s,
{
    top_agrees(keys, k, r, s, r.len() as int);
    assert(r =~= s);
}

proof fn top_agrees(keys: Seq<i64>, k: nat, r: Seq<int>, s: Seq<int>, n: int)
    requires
        is_top(keys, k, r),
        is_top(keys, k, s),
        0 <= n <= r.len(),
    ensures
        forall|a: int| 0 <= a < n ==> r[a] == s[a],
    decreases n,
{
    if n > 0 {
        top_agrees(keys, k, r, s, n - 1);
        let a = n - 1;
        if r[a] != s[a] {
            if r.contains(s[a]) {
                let b = r.index_of(s[a]);
                assert(r[b] == s[a]);
                if b < a {
                    assert(s[b] == s[a]);
                    assert(precedes(keys, s[b], s[a]));
                }
                assert(precedes(keys, r[a], r[b]));
            }
            assert(precedes(keys, r[a], s[a]));
            if s.contains(r[a]) {
                let b = s.index_of(r[a]);
                assert(s[b] == r[a]);
                if b < a {
                    assert(r[b] == r[a]);
                    assert(precedes(keys, r[b], r[a]));
                }
                assert(precedes(keys, s[a], s[b]));
            }
            assert(precedes(keys, s[a], r[a]));
        }
    }
}

/// The positions as integers.
pub open spec fn positions(v: Seq<usize>) -> Seq<int> {
    v.map_values(|x: usize| x as int)
}

/// The positions of the `k` greatest keys, greatest first; equal keys stay in
/// the order in which they stand.
pub fn top_positions(keys: &Vec<i64>, k: usize) -> (r: Vec<usize>)
    ensures
        is_top(keys@, k as nat, positions(r@)),
{
    let mut order: Vec<usize> = Vec::new();
    let mut i: usize = 0;
    assert(is_top(keys@.take(0), k as nat, positions(order@)));
    while i < keys.len()
        invariant
            i <= keys@.len(),
            is_top(keys@.take(i as int), k as nat, positions(order@)),
        decreases keys@.len() - i,
    {
        let ghost before = positions(order@);
        let ghost seen = keys@.take(i as int);
        let ghost next = keys@.take(i + 1);
        assert(seen =~= next.take(i as int));
        assert forall|a: int| 0 <= a < order@.len() implies order@[a] < i by {
            assert(before[a] == order@[a] as int);
        }
        let mut p: usize = order.len();
        while p > 0 && keys[order[p - 1]] < keys[i]
            invariant
                p <= order@.len(),
                i < keys@.len(),
                forall|a: int| 0 <= a < order@.len() ==> (#[trigger] order@[a]) < i,
                forall|a: int| p <= a < order@.len() ==> keys@[(#[trigger] order@[a]) as int] < keys@[i as int],
            decreases p,
        {
            p = p - 1;
        }
        proof {
            assert forall|a: int| 0 <= a < p implies keys@[(#[trigger] order@[a]) as int] >= keys@[i as int] by {
                let last = p - 1;
                assert(before[a] == order@[a] as int && before[last] == order@[last] as int);
                if a < last {
                    assert(precedes(seen, before[a], before[last]));
                }
            }
        }
        proof {
            assert forall|a: int| 0 <= a < p implies next[#[trigger] before[a]] >= next[i as int] by {
                assert(before[a] == order@[a] as int);
            }
            assert forall|a: int| p <= a < before.len() implies next[#[trigger] before[a]]
                < next[i as int] by {
                assert(before[a] == order@[a] as int);
            }
        }
        if p < k {
            order.insert(p, i);
            let ghost inserted = positions(order@);
            assert(inserted =~= before.insert(p as int, i as int));
            if order.len() > k {
                order.pop();
            }
            proof {
                assert(positions(order@) =~= if before.len() + 1 > k {
                    inserted.drop_last()
                } else {
                    inserted
                });
                inserted_top(seen, next, k as nat, before, p as int, i as int, positions(order@));
            }
        } else {
            proof {
                skipped_top(seen, next, k as nat, before, i as int);
            }
        }
        i += 1;
    }
    assert(keys@.take(i as int) =~= keys@);
    order
}

/// Inserting the next position where it belongs, and dropping the last one
/// beyond `k`, gives the first `k` positions again.
proof fn inserted_top(
    seen: Seq<i64>,
    next: Seq<i64>,
    k: nat,
    before: Seq<int>,
    p: int,
    i: int,
    after: Seq<int>,
)
    requires
        0 <= i,
        next.len() == i + 1,
        seen == next.take(i),
        is_top(seen, k, before),
        0 <= p <= before.len(),
        p < k,
        forall|a: int| 0 <= a < p ==> next[#[trigger] before[a]] >= next[i],
        forall|a: int| p <= a < before.len() ==> next[#[trigger] before[a]] < next[i],
        after == if before.len() + 1 > k {
            before.insert(p, i).drop_last()
        } else {
            before.insert(p, i)
        },
    ensures
        is_top(next, k, after),
{
    let all = before.insert(p, i);
    assert forall|a: int| 0 <= a < all.len() implies 0 <= #[trigger] all[a] < next.len() by {
        if a < p {
            assert(all[a] == before[a]);
        } else if a > p {
            assert(all[a] == before[a - 1]);
        }
    }
    assert forall|a: int, b: int| 0 <= a < b < all.len() implies precedes(
        next,
        #[trigger] all[a],
        #[trigger] all[b],
    ) by {
        if a != p && b != p {
            let a0 = if a < p {
                a
            } else {
                a - 1
            };
            let b0 = if b < p {
                b
            } else {
                b - 1
            };
            assert(all[a] == before[a0] && all[b] == before[b0]);
            assert(precedes(seen, before[a0], before[b0]));
        } else if a == p {
            assert(all[b] == before[b - 1]);
        } else {
            assert(all[a] == before[a]);
        }
    }
    assert forall|a: int| 0 <= a < after.len() implies after[a] == all[a] by {}
    assert forall|a: int, j: int|
        0 <= a < after.len() && 0 <= j < next.len() && !after.contains(j) implies #[trigger] precedes(
        next,
        after[a],
        j,
    ) by {
        assert(after[a] == all[a]);
        if all.contains(j) {
            let b = all.index_of(j);
            assert(all[b] == j);
            if b < after.len() {
                assert(after[b] == j);
                assert(after.contains(j));
            }
            assert(precedes(next, all[a], all[b]));
        } else {
            assert(all[p] == i);
            assert(j != i);
            if before.contains(j) {
                let b = before.index_of(j);
                let b1 = if b < p {
                    b
                } else {
                    b + 1
                };
                assert(all[b1] == before[b]);
            }
            assert(!before.contains(j));
            if before.len() < k {
                everything_listed(seen, k, before, j);
            }
            if a != p {
                let a0 = if a < p {
                    a
                } else {
                    a - 1
                };
                assert(all[a] == before[a0]);
                assert(precedes(seen, before[a0], j));
            } else {
                assert(precedes(seen, before[p], j));
                assert(next[before[p]] < next[i]);
            }
        }
    }
}

/// Where fewer than `k` positions are listed, all of them are.
pub proof fn everything_listed(keys: Seq<i64>, k: nat, r: Seq<int>, j: int)
    requires
        is_top(keys, k, r),
        r.len() < k,
        0 <= j < keys.len(),
    ensures
        r.contains(j),
{
    if !r.contains(j) {
        let all = r.push(j);
        assert forall|a: int| 0 <= a < all.len() implies 0 <= #[trigger] all[a] < keys.len() by {
            if a < r.len() {
                assert(all[a] == r[a]);
            }
        }
        assert forall|a: int, b: int| 0 <= a < b < all.len() implies all[a] != all[b] by {
            if b < r.len() {
                assert(precedes(keys, r[a], r[b]));
            } else {
                assert(r.contains(r[a]));
            }
        }
        distinct_positions_fit(all, keys.len());
    }
}

/// There are no more than `n` distinct positions below `n`.
pub proof fn distinct_positions_fit(s: Seq<int>, n: nat)
    requires
        forall|a: int| 0 <= a < s.len() ==> 0 <= #[trigger] s[a] < n,
        forall|a: int, b: int| 0 <= a < b < s.len() ==> s[a] != s[b],
    ensures
        s.len() <= n,
{
    s.unique_seq_to_set();
    let all = Set::new(|x: int| 0 <= x < n);
    vstd::set_lib::lemma_int_range(0, n as int);
    assert(vstd::set_lib::set_int_range(0, n as int) =~= all);
    vstd::set_lib::lemma_len_subset(s.to_set(), all);
}

/// A next position that comes after `k` others changes nothing.
proof fn skipped_top(seen: Seq<i64>, next: Seq<i64>, k: nat, before: Seq<int>, i: int)
    requires
        0 <= i,
        next.len() == i + 1,
        seen == next.take(i),
        is_top(seen, k, before),
        before.len() >= k,
        forall|a: int| 0 <= a < before.len() ==> next[#[trigger] before[a]] >= next[i],
    ensures
        is_top(next, k, before),
{
    assert forall|a: int, b: int| 0 <= a < b < before.len() implies precedes(
        next,
        #[trigger] before[a],
        #[trigger] before[b],
    ) by {
        assert(precedes(seen, before[a], before[b]));
    }
    assert forall|a: int, j: int|
        0 <= a < before.len() && 0 <= j < next.len() && !before.contains(j) implies #[trigger] precedes(
        next,
        before[a],
        j,
    ) by {
        if j < i {
            assert(precedes(seen, before[a], j));
        }
    }
}

} // verus!
