//! A store of facts that adds shards as it fills.
//!
//! One memory vector can hold about a thirteenth of its dimension in facts
//! before their noise drowns them. The store keeps a list of shards and opens
//! a new one when the last is full, so that any number of facts can be held.
//!
//! Forgetting subtracts a fact from its shard. Nothing of it stays behind but
//! its value's place in the vocabulary.

use crate::hlb::{self, HlbError};
use crate::kernel::{self, add_vectors, subtract_vectors, zeros, Kernel};
use crate::resonator::{self, bind_role, decode};
use crate::score::{self, ONE, ZERO};
use crate::text::{self, same_text};
use crate::vocab::{self, Vocab};
use std::sync::Arc;
use vstd::hash_map::StringHashMap;
use vstd::prelude::*;

pub use crate::resonator::role_from_key;

verus! {

broadcast use vstd::string::group_string_axioms;

/// How many entries of a memory vector one fact takes.
pub const DENOMINATOR_HLB: usize = 13;

/// The fewest facts that a shard is made for.
pub const SMALLEST_SHARD: usize = 20;

/// How many refining passes a read makes at most.
pub const RETRIEVE_PASSES: usize = 10;

/// How many facts a shard can hold at dimension `dim`.
pub open spec fn safe_capacity(dim: nat) -> nat {
    if dim / 13 > 20 {
        dim / 13
    } else {
        20
    }
}

/// How many facts a shard can hold at dimension `dim`.
pub fn safe_shard_capacity(dim: usize) -> (r: usize)
    ensures
        r == safe_capacity(dim as nat),
{
    if dim / DENOMINATOR_HLB > SMALLEST_SHARD {
        dim / DENOMINATOR_HLB
    } else {
        SMALLEST_SHARD
    }
}

// ---------------------------------------------------------------------
// Model
// ---------------------------------------------------------------------

/// What a shard holds: the superposition, and its facts in the order in which
/// they were stored, each a key and the index of its value.
#[verifier::ext_equal]
pub struct ShardState {
    pub memory: Seq<u32>,
    pub facts: Seq<(Seq<char>, int)>,
}

/// What a store holds.
#[verifier::ext_equal]
pub struct StoreState {
    /// The length of every vector.
    pub dim: nat,
    /// How many facts go into a shard.
    pub capacity: nat,
    /// The seed of the vocabulary.
    pub seed: u64,
    /// How many values the vocabulary has room for.
    pub room: nat,
    /// The registered values.
    pub names: Seq<Seq<char>>,
    /// The vectors of the vocabulary.
    pub rows: Seq<Seq<u32>>,
    /// The shards.
    pub shards: Seq<ShardState>,
}

/// A shard without facts.
pub open spec fn empty_shard(dim: nat) -> ShardState {
    ShardState { memory: Seq::new(dim, |i: int| ZERO), facts: Seq::empty() }
}

impl StoreState {
    /// `key` is fact number `i` of shard number `s`.
    pub open spec fn at(self, key: Seq<char>, s: int, i: int) -> bool {
        &&& 0 <= s < self.shards.len()
        &&& 0 <= i < self.shards[s].facts.len()
        &&& self.shards[s].facts[i].0 == key
    }

    /// Some shard holds `key`.
    pub open spec fn knows(self, key: Seq<char>) -> bool {
        exists|s: int, i: int| self.at(key, s, i)
    }

    /// The vectors of the registered values.
    pub open spec fn live(self) -> Seq<Seq<u32>> {
        self.rows.take(self.names.len() as int)
    }

    /// The facts as a map from keys to values.
    pub open spec fn facts(self) -> Map<Seq<char>, Seq<char>> {
        Map::new(
            |key: Seq<char>| self.knows(key),
            |key: Seq<char>|
                {
                    let place = choose|s: int, i: int| self.at(key, s, i);
                    self.names[self.shards[place.0].facts[place.1].1]
                },
        )
    }

    /// How many facts are held.
    pub open spec fn count(self) -> nat {
        fact_count(self.shards)
    }

    /// No key occurs twice, every fact has a registered value, every vector
    /// has the store's dimension and no shard holds more than its capacity.
    /// (A capacity of zero counts as one.)
    pub open spec fn valid(self) -> bool {
        &&& self.names.no_duplicates()
        &&& self.names.len() <= self.room
        &&& self.rows.len() == self.room
        &&& forall|i: int| 0 <= i < self.rows.len() ==> (#[trigger] self.rows[i]).len() == self.dim
        &&& forall|s: int|
            0 <= s < self.shards.len() ==> (#[trigger] self.shards[s]).memory.len() == self.dim
        &&& forall|s: int|
            0 <= s < self.shards.len() ==> (#[trigger] self.shards[s]).facts.len()
                <= self.capacity || self.shards[s].facts.len() <= 1
        &&& forall|s: int, i: int|
            0 <= s < self.shards.len() && 0 <= i < self.shards[s].facts.len() ==> 0
                <= (#[trigger] self.shards[s].facts[i]).1 < self.names.len()
        &&& forall|key: Seq<char>, s: int, i: int, t: int, j: int|
            #![trigger self.at(key, s, i), self.at(key, t, j)]
            self.at(key, s, i) && self.at(key, t, j) ==> s == t && i == j
    }
}

/// How many facts the shards hold together.
pub open spec fn fact_count(shards: Seq<ShardState>) -> nat
    decreases shards.len(),
{
    if shards.len() == 0 {
        0
    } else {
        fact_count(shards.drop_last()) + shards.last().facts.len()
    }
}

/// The shards that a new fact is stored into: with an empty one opened behind
/// them where there is none or the last is full.
pub open spec fn opened(v: StoreState) -> Seq<ShardState> {
    if v.shards.len() == 0 || v.shards.last().facts.len() >= v.capacity {
        v.shards.push(empty_shard(v.dim))
    } else {
        v.shards
    }
}

/// The shards that a saved fact is put back into: with an empty one opened
/// behind them where there is none or the last holds facts and is full.
pub open spec fn reopened(v: StoreState) -> Seq<ShardState> {
    if v.shards.len() == 0 || (v.shards.last().facts.len() >= v.capacity
        && v.shards.last().facts.len() > 0) {
        v.shards.push(empty_shard(v.dim))
    } else {
        v.shards
    }
}

/// `w` is `v` with the value numbered `idx` stored for a key that is new, in
/// the last of the shards `base`.
pub open spec fn appended_gives<K: Kernel>(
    k: K,
    v: StoreState,
    base: Seq<ShardState>,
    names: Seq<Seq<char>>,
    key: Seq<char>,
    idx: int,
    w: StoreState,
) -> bool {
    let last = base.len() - 1;
    let bound = hlb::signed(resonator::key_role(key, v.dim), v.rows[idx]);
    exists|memory: Seq<u32>| #[trigger]
        kernel::sum_gives(k, base[last].memory, bound, memory) && w == (StoreState {
            names,
            shards: base.update(
                last,
                ShardState { memory, facts: base[last].facts.push((key, idx)) },
            ),
            ..v
        })
}

/// `w` is `v` with the value numbered `idx` stored for the key at place
/// `(s, i)`: the old fact is subtracted and the new one added.
pub open spec fn overwritten_gives<K: Kernel>(
    k: K,
    v: StoreState,
    names: Seq<Seq<char>>,
    key: Seq<char>,
    s: int,
    i: int,
    idx: int,
    w: StoreState,
) -> bool {
    let shard = v.shards[s];
    let role = resonator::key_role(key, v.dim);
    exists|without: Seq<u32>, memory: Seq<u32>|
        #![trigger kernel::sum_gives(k, without, hlb::signed(role, v.rows[idx]), memory)]
        {
            &&& kernel::difference_gives(
                k,
                shard.memory,
                hlb::signed(role, v.rows[shard.facts[i].1]),
                without,
            )
            &&& kernel::sum_gives(k, without, hlb::signed(role, v.rows[idx]), memory)
            &&& w == (StoreState {
                names,
                shards: v.shards.update(
                    s,
                    ShardState { memory, facts: shard.facts.update(i, (key, idx)) },
                ),
                ..v
            })
        }
}

/// What storing `value` under `key` comes to. A value that the vocabulary has
/// no room for is refused and changes nothing.
pub open spec fn stored_gives<K: Kernel>(
    k: K,
    v: StoreState,
    key: Seq<char>,
    value: Seq<char>,
    w: StoreState,
    r: Result<usize, HlbError>,
) -> bool {
    &&& vocab::registered(v.names, v.room, value, w.names, r)
    &&& r is Err ==> w == v
    &&& r matches Ok(idx) ==> if v.knows(key) {
        exists|s: int, i: int| #[trigger]
            v.at(key, s, i) && overwritten_gives(k, v, w.names, key, s, i, idx as int, w)
    } else {
        appended_gives(k, v, opened(v), w.names, key, idx as int, w)
    }
}

/// What putting a saved fact back comes to: as storing it, but for the shard
/// that a new key goes into.
pub open spec fn put_back_gives<K: Kernel>(
    k: K,
    v: StoreState,
    key: Seq<char>,
    value: Seq<char>,
    w: StoreState,
    r: Result<usize, HlbError>,
) -> bool {
    &&& vocab::registered(v.names, v.room, value, w.names, r)
    &&& r is Err ==> w == v
    &&& r matches Ok(idx) ==> if v.knows(key) {
        exists|s: int, i: int| #[trigger]
            v.at(key, s, i) && overwritten_gives(k, v, w.names, key, s, i, idx as int, w)
    } else {
        appended_gives(k, v, reopened(v), w.names, key, idx as int, w)
    }
}

/// `w` is `v` without the fact at place `(s, i)`, which is subtracted from its
/// shard.
pub open spec fn removed_gives<K: Kernel>(
    k: K,
    v: StoreState,
    key: Seq<char>,
    s: int,
    i: int,
    w: StoreState,
) -> bool {
    let shard = v.shards[s];
    let bound = hlb::signed(resonator::key_role(key, v.dim), v.rows[shard.facts[i].1]);
    exists|memory: Seq<u32>| #[trigger]
        kernel::difference_gives(k, shard.memory, bound, memory) && w == (StoreState {
            shards: v.shards.update(s, ShardState { memory, facts: shard.facts.remove(i) }),
            ..v
        })
}

/// What forgetting `key` comes to.
pub open spec fn forgotten_gives<K: Kernel>(
    k: K,
    v: StoreState,
    key: Seq<char>,
    w: StoreState,
    r: Result<bool, HlbError>,
) -> bool {
    if v.knows(key) {
        &&& r == Ok::<bool, HlbError>(true)
        &&& exists|s: int, i: int| #[trigger] v.at(key, s, i) && removed_gives(k, v, key, s, i, w)
    } else {
        &&& r == Ok::<bool, HlbError>(false)
        &&& w == v
    }
}

/// The keys of a shard.
pub open spec fn shard_keys(shard: ShardState) -> Seq<Seq<char>> {
    shard.facts.map_values(|f: (Seq<char>, int)| f.0)
}

/// The roles of the keys of a shard.
pub open spec fn shard_roles(shard: ShardState, dim: nat) -> Seq<Seq<u32>> {
    shard.facts.map_values(|f: (Seq<char>, int)| resonator::key_role(f.0, dim))
}

/// The values that a shard's facts were stored with.
pub open spec fn shard_truth(shard: ShardState) -> Seq<int> {
    shard.facts.map_values(|f: (Seq<char>, int)| f.1)
}

/// `r` holds what decoding shard number `s` gives for each of its keys.
pub open spec fn shard_decoded<K: Kernel>(k: K, v: StoreState, s: int, n: nat, r: Seq<int>) -> bool {
    resonator::decoded_gives(
        k,
        v.live(),
        v.shards[s].memory,
        shard_keys(v.shards[s]),
        shard_roles(v.shards[s], v.dim),
        n,
        r,
    )
}

// ---------------------------------------------------------------------
// Counting lemmas
// ---------------------------------------------------------------------

/// Replacing one shard changes the count by what the shard gains.
pub proof fn count_update(shards: Seq<ShardState>, s: int, x: ShardState)
    requires
        0 <= s < shards.len(),
    ensures
        fact_count(shards.update(s, x)) == fact_count(shards) - shards[s].facts.len()
            + x.facts.len(),
    decreases shards.len(),
{
    let y = shards.update(s, x);
    if s == shards.len() - 1 {
        assert(y.drop_last() =~= shards.drop_last());
    } else {
        count_update(shards.drop_last(), s, x);
        assert(y.drop_last() =~= shards.drop_last().update(s, x));
    }
}

/// An empty shard adds nothing to the count.
proof fn count_empty(shards: Seq<ShardState>, dim: nat)
    ensures
        fact_count(shards.push(empty_shard(dim))) == fact_count(shards),
{
    assert(shards.push(empty_shard(dim)).drop_last() =~= shards);
}

// ---------------------------------------------------------------------
// What each operation keeps
// ---------------------------------------------------------------------

/// The map of facts gives the value at a fact's place.
pub proof fn fact_at(v: StoreState, key: Seq<char>, s: int, i: int)
    requires
        v.valid(),
        v.at(key, s, i),
    ensures
        v.facts().contains_key(key),
        v.facts()[key] == v.names[v.shards[s].facts[i].1],
{
    assert(v.knows(key));
    let place = choose|t: int, j: int| v.at(key, t, j);
    assert(v.at(key, place.0, place.1));
}

/// Registering keeps the values distinct and within the room, and keeps every
/// index that was given out.
proof fn registered_keeps(
    before: Seq<Seq<char>>,
    room: nat,
    value: Seq<char>,
    after: Seq<Seq<char>>,
    r: Result<usize, HlbError>,
)
    requires
        before.no_duplicates(),
        before.len() <= room <= usize::MAX,
        vocab::registered(before, room, value, after, r),
    ensures
        after.no_duplicates(),
        before.len() <= after.len() <= room,
        forall|i: int| 0 <= i < before.len() ==> (#[trigger] after[i]) == before[i],
        r is Ok ==> r->Ok_0 < after.len() && after[r->Ok_0 as int] == value,
{
    if !before.contains(value) && before.len() < room {
        assert forall|i: int, j: int| 0 <= i < after.len() && 0 <= j < after.len() && i != j implies after[i]
            != after[j] by {
            if i < before.len() {
                assert(before.contains(before[i]));
            }
            if j < before.len() {
                assert(before.contains(before[j]));
            }
        }
    }
}

/// Overwriting keeps the state valid and moves no fact.
proof fn overwritten_keeps<K: Kernel>(
    k: K,
    v: StoreState,
    names: Seq<Seq<char>>,
    key: Seq<char>,
    s: int,
    i: int,
    idx: int,
    w: StoreState,
)
    requires
        v.valid(),
        v.at(key, s, i),
        names.no_duplicates(),
        v.names.len() <= names.len() <= v.room,
        0 <= idx < names.len(),
        overwritten_gives(k, v, names, key, s, i, idx, w),
    ensures
        w.valid(),
        w.count() == v.count(),
        forall|x: Seq<char>, t: int, j: int| #[trigger] w.at(x, t, j) <==> v.at(x, t, j),
        w.shards.len() == v.shards.len(),
        forall|t: int, j: int|
            0 <= t < v.shards.len() && 0 <= j < v.shards[t].facts.len() && !(t == s && j == i)
                ==> (#[trigger] w.shards[t].facts[j]) == v.shards[t].facts[j],
        w.shards[s].facts[i] == (key, idx),
{
    let shard = v.shards[s];
    let role = resonator::key_role(key, v.dim);
    let (without, memory) = choose|without: Seq<u32>, memory: Seq<u32>|
        #![trigger kernel::sum_gives(k, without, hlb::signed(role, v.rows[idx]), memory)]
        {
            &&& kernel::difference_gives(
                k,
                shard.memory,
                hlb::signed(role, v.rows[shard.facts[i].1]),
                without,
            )
            &&& kernel::sum_gives(k, without, hlb::signed(role, v.rows[idx]), memory)
            &&& w == (StoreState {
                names,
                shards: v.shards.update(
                    s,
                    ShardState { memory, facts: shard.facts.update(i, (key, idx)) },
                ),
                ..v
            })
        };
    count_update(v.shards, s, w.shards[s]);
    assert(w.shards[s].facts == shard.facts.update(i, (key, idx)));
    assert forall|x: Seq<char>, t: int, j: int| #[trigger] w.at(x, t, j) <==> v.at(x, t, j) by {
        if t == s {
            if j == i {
                assert(shard.facts[i].0 == key);
            }
        }
    }
    assert forall|t: int, j: int|
        0 <= t < w.shards.len() && 0 <= j < w.shards[t].facts.len() implies 0 <= (
    #[trigger] w.shards[t].facts[j]).1 < w.names.len() by {
        if !(t == s && j == i) {
            assert(w.shards[t].facts[j] == v.shards[t].facts[j]);
        }
    }
    assert forall|x: Seq<char>, a: int, b: int, t: int, j: int|
        #![trigger w.at(x, a, b), w.at(x, t, j)]
        w.at(x, a, b) && w.at(x, t, j) implies a == t && b == j by {
        assert(v.at(x, a, b) && v.at(x, t, j));
    }
}

/// Appending keeps the state valid and adds one fact.
proof fn appended_keeps<K: Kernel>(
    k: K,
    v: StoreState,
    base: Seq<ShardState>,
    names: Seq<Seq<char>>,
    key: Seq<char>,
    idx: int,
    w: StoreState,
)
    requires
        v.valid(),
        !v.knows(key),
        names.no_duplicates(),
        v.names.len() <= names.len() <= v.room,
        0 <= idx < names.len(),
        base == v.shards || base == v.shards.push(empty_shard(v.dim)),
        base.len() > 0,
        base.last().facts.len() < v.capacity || base.last().facts.len() == 0,
        appended_gives(k, v, base, names, key, idx, w),
    ensures
        w.valid(),
        w.count() == v.count() + 1,
        w.shards.len() > 0,
        w.shards.last().facts.len() > 0,
        w.shards.last().facts.last() == (key, idx),
        forall|x: Seq<char>, t: int, j: int| #[trigger]
            w.at(x, t, j) <==> v.at(x, t, j) || (x == key && t == w.shards.len() - 1 && j
                == w.shards[t].facts.len() - 1),
        forall|t: int, j: int|
            0 <= t < v.shards.len() && 0 <= j < v.shards[t].facts.len() ==> (
            #[trigger] w.shards[t].facts[j]) == v.shards[t].facts[j],
{
    let last = base.len() - 1;
    let bound = hlb::signed(resonator::key_role(key, v.dim), v.rows[idx]);
    let memory = choose|memory: Seq<u32>| #[trigger]
        kernel::sum_gives(k, base[last].memory, bound, memory) && w == (StoreState {
            names,
            shards: base.update(
                last,
                ShardState { memory, facts: base[last].facts.push((key, idx)) },
            ),
            ..v
        });
    count_empty(v.shards, v.dim);
    count_update(base, last, w.shards[last]);
    assert forall|x: Seq<char>, t: int, j: int| #[trigger]
        w.at(x, t, j) <==> v.at(x, t, j) || (x == key && t == w.shards.len() - 1 && j
            == w.shards[t].facts.len() - 1) by {}
    assert forall|t: int, j: int|
        0 <= t < w.shards.len() && 0 <= j < w.shards[t].facts.len() implies 0 <= (
    #[trigger] w.shards[t].facts[j]).1 < w.names.len() by {
        if t < v.shards.len() && j < v.shards[t].facts.len() {
            assert(w.shards[t].facts[j] == v.shards[t].facts[j]);
        }
    }
    assert forall|x: Seq<char>, a: int, b: int, t: int, j: int|
        #![trigger w.at(x, a, b), w.at(x, t, j)]
        w.at(x, a, b) && w.at(x, t, j) implies a == t && b == j by {
        if v.at(x, a, b) {
            assert(v.knows(x));
        }
        if v.at(x, t, j) {
            assert(v.knows(x));
        }
    }
}

/// Removing keeps the state valid and takes away one fact.
proof fn removed_keeps<K: Kernel>(
    k: K,
    v: StoreState,
    key: Seq<char>,
    s: int,
    i: int,
    w: StoreState,
)
    requires
        v.valid(),
        v.at(key, s, i),
        removed_gives(k, v, key, s, i, w),
    ensures
        w.valid(),
        w.count() == v.count() - 1,
        !w.knows(key),
        forall|x: Seq<char>, t: int, j: int| #[trigger]
            w.at(x, t, j) ==> x != key && v.at(
                x,
                t,
                if t == s && j >= i {
                    j + 1
                } else {
                    j
                },
            ),
        forall|x: Seq<char>, t: int, j: int| #[trigger]
            v.at(x, t, j) && x != key ==> w.at(
                x,
                t,
                if t == s && j > i {
                    j - 1
                } else {
                    j
                },
            ),
        forall|t: int, j: int|
            0 <= t < w.shards.len() && 0 <= j < w.shards[t].facts.len() ==> (
            #[trigger] w.shards[t].facts[j]) == v.shards[t].facts[if t == s && j >= i {
                j + 1
            } else {
                j
            }],
{
    let shard = v.shards[s];
    let bound = hlb::signed(resonator::key_role(key, v.dim), v.rows[shard.facts[i].1]);
    let memory = choose|memory: Seq<u32>| #[trigger]
        kernel::difference_gives(k, shard.memory, bound, memory) && w == (StoreState {
            shards: v.shards.update(s, ShardState { memory, facts: shard.facts.remove(i) }),
            ..v
        });
    count_update(v.shards, s, w.shards[s]);
    assert forall|t: int, j: int|
        0 <= t < w.shards.len() && 0 <= j < w.shards[t].facts.len() implies (
    #[trigger] w.shards[t].facts[j]) == v.shards[t].facts[if t == s && j >= i {
        j + 1
    } else {
        j
    }] by {}
    assert forall|x: Seq<char>, t: int, j: int| #[trigger] w.at(x, t, j) implies x != key && v.at(
        x,
        t,
        if t == s && j >= i {
            j + 1
        } else {
            j
        },
    ) by {
        let jj = if t == s && j >= i {
            j + 1
        } else {
            j
        };
        assert(w.shards[t].facts[j] == v.shards[t].facts[jj]);
        assert(v.at(x, t, jj));
        if x == key {
            assert(v.at(key, s, i));
        }
    }
    assert forall|x: Seq<char>, t: int, j: int| #[trigger] v.at(x, t, j) && x != key implies w.at(
        x,
        t,
        if t == s && j > i {
            j - 1
        } else {
            j
        },
    ) by {
        let jj = if t == s && j > i {
            j - 1
        } else {
            j
        };
        assert(w.shards[t].facts[jj] == v.shards[t].facts[j]);
    }
    assert forall|t: int, j: int|
        0 <= t < w.shards.len() && 0 <= j < w.shards[t].facts.len() implies 0 <= (
    #[trigger] w.shards[t].facts[j]).1 < w.names.len() by {
        let jj = if t == s && j >= i {
            j + 1
        } else {
            j
        };
        assert(0 <= v.shards[t].facts[jj].1 < v.names.len());
    }
    assert forall|x: Seq<char>, a: int, b: int, t: int, j: int|
        #![trigger w.at(x, a, b), w.at(x, t, j)]
        w.at(x, a, b) && w.at(x, t, j) implies a == t && b == j by {
        let bb = if a == s && b >= i {
            b + 1
        } else {
            b
        };
        let jj = if t == s && j >= i {
            j + 1
        } else {
            j
        };
        assert(v.at(x, a, bb) && v.at(x, t, jj));
    }
}

// ---------------------------------------------------------------------
// Laws
// ---------------------------------------------------------------------

/// Storing keeps a state valid.
pub proof fn store_keeps_valid<K: Kernel>(
    k: K,
    v: StoreState,
    key: Seq<char>,
    value: Seq<char>,
    w: StoreState,
    r: Result<usize, HlbError>,
)
    requires
        v.valid(),
        v.room <= usize::MAX,
        stored_gives(k, v, key, value, w, r),
    ensures
        w.valid(),
{
    registered_keeps(v.names, v.room, value, w.names, r);
    if r is Ok {
        let idx = r->Ok_0 as int;
        if v.knows(key) {
            let (s, i) = choose|s: int, i: int| #[trigger]
                v.at(key, s, i) && overwritten_gives(k, v, w.names, key, s, i, idx, w);
            overwritten_keeps(k, v, w.names, key, s, i, idx, w);
        } else {
            appended_keeps(k, v, opened(v), w.names, key, idx, w);
        }
    }
}

/// A store that succeeds puts the fact into the map of facts, in place of the
/// one that the key had, and changes no other fact.
pub proof fn store_inserts_the_fact<K: Kernel>(
    k: K,
    v: StoreState,
    key: Seq<char>,
    value: Seq<char>,
    w: StoreState,
    r: Result<usize, HlbError>,
)
    requires
        v.valid(),
        v.room <= usize::MAX,
        stored_gives(k, v, key, value, w, r),
        r is Ok,
    ensures
        w.facts() == v.facts().insert(key, value),
{
    store_keeps_valid(k, v, key, value, w, r);
    registered_keeps(v.names, v.room, value, w.names, r);
    let idx = r->Ok_0 as int;
    if v.knows(key) {
        let (s, i) = choose|s: int, i: int| #[trigger]
            v.at(key, s, i) && overwritten_gives(k, v, w.names, key, s, i, idx, w);
        overwritten_keeps(k, v, w.names, key, s, i, idx, w);
        assert(w.at(key, s, i));
    } else {
        appended_keeps(k, v, opened(v), w.names, key, idx, w);
        let last = w.shards.len() - 1;
        assert(w.at(key, last, w.shards[last].facts.len() - 1));
    }
    assert(w.knows(key));
    assert forall|x: Seq<char>| #[trigger] w.facts().contains_key(x) <==> v.facts().insert(
        key,
        value,
    ).contains_key(x) by {
        if w.knows(x) {
            let (t, j) = choose|t: int, j: int| w.at(x, t, j);
            assert(w.at(x, t, j));
            if x != key {
                assert(v.at(x, t, j));
            }
        }
        if v.knows(x) {
            let (t, j) = choose|t: int, j: int| v.at(x, t, j);
            assert(w.at(x, t, j));
        }
    }
    assert forall|x: Seq<char>| w.facts().contains_key(x) implies #[trigger] w.facts()[x]
        == v.facts().insert(key, value)[x] by {
        let (t, j) = choose|t: int, j: int| w.at(x, t, j);
        assert(w.at(x, t, j));
        fact_at(w, x, t, j);
        if x == key {
            if v.knows(key) {
                let (s, i) = choose|s: int, i: int| #[trigger]
                    v.at(key, s, i) && overwritten_gives(k, v, w.names, key, s, i, idx, w);
                overwritten_keeps(k, v, w.names, key, s, i, idx, w);
                assert(w.at(key, s, i));
            } else {
                let last = w.shards.len() - 1;
                assert(w.at(key, last, w.shards[last].facts.len() - 1));
            }
        } else {
            assert(v.at(x, t, j));
            fact_at(v, x, t, j);
            assert(w.shards[t].facts[j] == v.shards[t].facts[j]);
        }
    }
    assert(w.facts() =~= v.facts().insert(key, value));
}

/// Storing under a new key adds one fact; storing under a known key adds
/// none.
pub proof fn store_counts<K: Kernel>(
    k: K,
    v: StoreState,
    key: Seq<char>,
    value: Seq<char>,
    w: StoreState,
    r: Result<usize, HlbError>,
)
    requires
        v.valid(),
        v.room <= usize::MAX,
        stored_gives(k, v, key, value, w, r),
    ensures
        w.count() == v.count() + (if r is Ok && !v.knows(key) {
            1int
        } else {
            0
        }),
{
    registered_keeps(v.names, v.room, value, w.names, r);
    if r is Ok {
        let idx = r->Ok_0 as int;
        if v.knows(key) {
            let (s, i) = choose|s: int, i: int| #[trigger]
                v.at(key, s, i) && overwritten_gives(k, v, w.names, key, s, i, idx, w);
            overwritten_keeps(k, v, w.names, key, s, i, idx, w);
        } else {
            appended_keeps(k, v, opened(v), w.names, key, idx, w);
        }
    }
}

/// Forgetting keeps a state valid.
pub proof fn forget_keeps_valid<K: Kernel>(
    k: K,
    v: StoreState,
    key: Seq<char>,
    w: StoreState,
    r: Result<bool, HlbError>,
)
    requires
        v.valid(),
        forgotten_gives(k, v, key, w, r),
    ensures
        w.valid(),
        w.count() == v.count() - (if v.knows(key) {
            1int
        } else {
            0
        }),
{
    if v.knows(key) {
        let (s, i) = choose|s: int, i: int| #[trigger]
            v.at(key, s, i) && removed_gives(k, v, key, s, i, w);
        removed_keeps(k, v, key, s, i, w);
    }
}

/// What a fact adds to an entry of the memory: the entry of its value's vector,
/// with the sign that the role of its key has there.
pub open spec fn part(role: u32, x: u32) -> u32 {
    if role == ONE {
        x
    } else {
        score::negated(x)
    }
}

/// A fact that is stored under a new key is added to the superposition of the
/// last shard, entry by entry. That is the shard that was last, unless there was
/// none or it was full: then it starts from zeros. All other shards stay as they
/// are, and so do the vectors of the vocabulary.
pub proof fn a_new_fact_is_added<K: Kernel>(
    k: K,
    v: StoreState,
    key: Seq<char>,
    value: Seq<char>,
    w: StoreState,
    r: Result<usize, HlbError>,
    j: int,
)
    requires
        v.valid(),
        v.room <= usize::MAX,
        stored_gives(k, v, key, value, w, r),
        r is Ok,
        !v.facts().contains_key(key),
        0 <= j < v.dim,
    ensures
        w.names[r->Ok_0 as int] == value,
        w.rows == v.rows,
        w.shards.len() > 0,
        w.shards.last().facts.last() == (key, r->Ok_0 as int),
        ({
            let role = resonator::key_role(key, v.dim);
            let added = part(role[j], v.rows[r->Ok_0 as int][j]);
            if v.shards.len() == 0 || v.shards.last().facts.len() >= v.capacity {
                &&& w.shards.drop_last() == v.shards
                &&& w.shards.last().facts.len() == 1
                &&& kernel::plus_gives(k, 0, added, w.shards.last().memory[j])
            } else {
                &&& w.shards.drop_last() == v.shards.drop_last()
                &&& w.shards.last().facts.drop_last() == v.shards.last().facts
                &&& kernel::plus_gives(
                    k,
                    v.shards.last().memory[j],
                    added,
                    w.shards.last().memory[j],
                )
            }
        }),
{
    registered_keeps(v.names, v.room, value, w.names, r);
    let idx = r->Ok_0 as int;
    let base = opened(v);
    let last = base.len() - 1;
    assert(!v.knows(key));
    let bound = hlb::signed(resonator::key_role(key, v.dim), v.rows[idx]);
    let memory = choose|memory: Seq<u32>| #[trigger]
        kernel::sum_gives(k, base[last].memory, bound, memory) && w == (StoreState {
            names: w.names,
            shards: base.update(
                last,
                ShardState { memory, facts: base[last].facts.push((key, idx)) },
            ),
            ..v
        });
    assert(w.shards[last].memory == memory);
    assert(base[last].memory.len() == v.dim);
    assert(v.rows[idx].len() == v.dim);
    assert(kernel::plus_gives(k, base[last].memory[j], bound[j], memory[j]));
    if v.shards.len() == 0 || v.shards.last().facts.len() >= v.capacity {
        assert(w.shards.drop_last() =~= v.shards);
    } else {
        assert(w.shards.drop_last() =~= v.shards.drop_last());
        assert(w.shards.last().facts.drop_last() =~= v.shards.last().facts);
    }
}

/// A fact that takes the place of another under its key: what the old one added
/// to its shard's superposition is taken out again, and what the new one adds is
/// put in, entry by entry. Every other shard stays as it is.
pub proof fn an_overwritten_fact_is_taken_out<K: Kernel>(
    k: K,
    v: StoreState,
    key: Seq<char>,
    value: Seq<char>,
    w: StoreState,
    r: Result<usize, HlbError>,
    s: int,
    i: int,
    j: int,
) -> (t: u32)
    requires
        v.valid(),
        v.room <= usize::MAX,
        stored_gives(k, v, key, value, w, r),
        r is Ok,
        0 <= s < v.shards.len(),
        0 <= i < v.shards[s].facts.len(),
        v.shards[s].facts[i].0 == key,
        0 <= j < v.dim,
    ensures
        w.names[r->Ok_0 as int] == value,
        w.rows == v.rows,
        w.shards.len() == v.shards.len(),
        forall|x: int| 0 <= x < v.shards.len() && x != s ==> w.shards[x] == v.shards[x],
        w.shards[s].facts == v.shards[s].facts.update(i, (key, r->Ok_0 as int)),
        kernel::minus_gives(
            k,
            v.shards[s].memory[j],
            part(
                resonator::key_role(key, v.dim)[j],
                v.rows[v.shards[s].facts[i].1][j],
            ),
            t,
        ),
        kernel::plus_gives(
            k,
            t,
            part(resonator::key_role(key, v.dim)[j], v.rows[r->Ok_0 as int][j]),
            w.shards[s].memory[j],
        ),
{
    registered_keeps(v.names, v.room, value, w.names, r);
    let idx = r->Ok_0 as int;
    assert(v.at(key, s, i));
    let (t, l) = choose|t: int, l: int| #[trigger]
        v.at(key, t, l) && overwritten_gives(k, v, w.names, key, t, l, idx, w);
    assert(t == s && l == i);
    let shard = v.shards[s];
    let role = resonator::key_role(key, v.dim);
    let (without, memory) = choose|without: Seq<u32>, memory: Seq<u32>|
        #![trigger kernel::sum_gives(k, without, hlb::signed(role, v.rows[idx]), memory)]
        {
            &&& kernel::difference_gives(
                k,
                shard.memory,
                hlb::signed(role, v.rows[shard.facts[i].1]),
                without,
            )
            &&& kernel::sum_gives(k, without, hlb::signed(role, v.rows[idx]), memory)
            &&& w == (StoreState {
                names: w.names,
                shards: v.shards.update(
                    s,
                    ShardState { memory, facts: shard.facts.update(i, (key, idx)) },
                ),
                ..v
            })
        };
    assert(shard.memory.len() == v.dim);
    assert(w.shards[s].memory == memory);
    assert(v.rows[idx].len() == v.dim);
    assert(0 <= v.shards[s].facts[i].1 < v.names.len());
    assert(v.rows[shard.facts[i].1].len() == v.dim);
    assert(kernel::minus_gives(
        k,
        shard.memory[j],
        hlb::signed(role, v.rows[shard.facts[i].1])[j],
        without[j],
    ));
    assert(kernel::plus_gives(k, without[j], hlb::signed(role, v.rows[idx])[j], memory[j]));
    without[j]
}

/// A fact that is forgotten is taken out of its shard's superposition, entry by
/// entry, and out of the shard's facts. Every other shard stays as it is, and so
/// does the vocabulary.
pub proof fn a_forgotten_fact_is_taken_out<K: Kernel>(
    k: K,
    v: StoreState,
    key: Seq<char>,
    w: StoreState,
    r: Result<bool, HlbError>,
    s: int,
    i: int,
    j: int,
)
    requires
        v.valid(),
        forgotten_gives(k, v, key, w, r),
        0 <= s < v.shards.len(),
        0 <= i < v.shards[s].facts.len(),
        v.shards[s].facts[i].0 == key,
        0 <= j < v.dim,
    ensures
        r == Ok::<bool, HlbError>(true),
        w.names == v.names,
        w.rows == v.rows,
        w.shards.len() == v.shards.len(),
        forall|x: int| 0 <= x < v.shards.len() && x != s ==> w.shards[x] == v.shards[x],
        w.shards[s].facts == v.shards[s].facts.remove(i),
        kernel::minus_gives(
            k,
            v.shards[s].memory[j],
            part(
                resonator::key_role(key, v.dim)[j],
                v.rows[v.shards[s].facts[i].1][j],
            ),
            w.shards[s].memory[j],
        ),
{
    assert(v.at(key, s, i));
    let (t, l) = choose|t: int, l: int| #[trigger]
        v.at(key, t, l) && removed_gives(k, v, key, t, l, w);
    assert(t == s && l == i);
    let shard = v.shards[s];
    let bound = hlb::signed(resonator::key_role(key, v.dim), v.rows[shard.facts[i].1]);
    let memory = choose|memory: Seq<u32>| #[trigger]
        kernel::difference_gives(k, shard.memory, bound, memory) && w == (StoreState {
            shards: v.shards.update(s, ShardState { memory, facts: shard.facts.remove(i) }),
            ..v
        });
    assert(shard.memory.len() == v.dim);
    assert(w.shards[s].memory == memory);
    assert(0 <= v.shards[s].facts[i].1 < v.names.len());
    assert(v.rows[shard.facts[i].1].len() == v.dim);
    assert(kernel::minus_gives(k, shard.memory[j], bound[j], memory[j]));
}

/// Forgetting takes the fact out of the map of facts and changes no other.
pub proof fn forget_removes_the_fact<K: Kernel>(
    k: K,
    v: StoreState,
    key: Seq<char>,
    w: StoreState,
    r: Result<bool, HlbError>,
)
    requires
        v.valid(),
        forgotten_gives(k, v, key, w, r),
    ensures
        w.facts() == v.facts().remove(key),
        !w.knows(key),
{
    forget_keeps_valid(k, v, key, w, r);
    if v.knows(key) {
        let (s, i) = choose|s: int, i: int| #[trigger]
            v.at(key, s, i) && removed_gives(k, v, key, s, i, w);
        removed_keeps(k, v, key, s, i, w);
        assert forall|x: Seq<char>| #[trigger] w.facts().contains_key(x) <==> v.facts().remove(
            key,
        ).contains_key(x) by {
            if w.knows(x) {
                let (t, j) = choose|t: int, j: int| w.at(x, t, j);
                assert(w.at(x, t, j));
            }
            if v.knows(x) && x != key {
                let (t, j) = choose|t: int, j: int| v.at(x, t, j);
                assert(v.at(x, t, j));
            }
        }
        assert forall|x: Seq<char>| w.facts().contains_key(x) implies #[trigger] w.facts()[x]
            == v.facts().remove(key)[x] by {
            let (t, j) = choose|t: int, j: int| w.at(x, t, j);
            assert(w.at(x, t, j));
            let jj = if t == s && j >= i {
                j + 1
            } else {
                j
            };
            assert(v.at(x, t, jj));
            fact_at(w, x, t, j);
            fact_at(v, x, t, jj);
            assert(w.shards[t].facts[j] == v.shards[t].facts[jj]);
        }
        assert(w.facts() =~= v.facts().remove(key));
    } else {
        assert(w.facts() =~= v.facts().remove(key));
    }
}

/// Whether subtracting `bound` from a sum of `memory` and `bound` always gives
/// `memory` back.
pub open spec fn cancels<K: Kernel>(k: K, memory: Seq<u32>, bound: Seq<u32>) -> bool {
    forall|sum: Seq<u32>, rest: Seq<u32>|
        kernel::sum_gives(k, memory, bound, sum) && #[trigger] kernel::difference_gives(
            k,
            sum,
            bound,
            rest,
        ) ==> rest == memory
}

/// Forgetting a key right after it was first stored leaves the shards as they
/// were before, but for an empty one where storing had to open it: where the
/// subtraction cancels the addition, no trace of the fact stays in a memory
/// vector.
pub proof fn forget_undoes_store<K: Kernel>(
    k: K,
    v: StoreState,
    key: Seq<char>,
    value: Seq<char>,
    w: StoreState,
    x: StoreState,
    r: Result<usize, HlbError>,
    f: Result<bool, HlbError>,
)
    requires
        v.valid(),
        v.room <= usize::MAX,
        !v.knows(key),
        stored_gives(k, v, key, value, w, r),
        r is Ok,
        forgotten_gives(k, w, key, x, f),
        cancels(
            k,
            opened(v).last().memory,
            hlb::signed(resonator::key_role(key, v.dim), v.rows[r->Ok_0 as int]),
        ),
    ensures
        f == Ok::<bool, HlbError>(true),
        x.shards == opened(v),
{
    registered_keeps(v.names, v.room, value, w.names, r);
    let idx = r->Ok_0 as int;
    appended_keeps(k, v, opened(v), w.names, key, idx, w);
    let base = opened(v);
    let last = base.len() - 1;
    let bound = hlb::signed(resonator::key_role(key, v.dim), v.rows[idx]);
    let memory = choose|memory: Seq<u32>| #[trigger]
        kernel::sum_gives(k, base[last].memory, bound, memory) && w == (StoreState {
            names: w.names,
            shards: base.update(
                last,
                ShardState { memory, facts: base[last].facts.push((key, idx)) },
            ),
            ..v
        });
    let n = base[last].facts.len() as int;
    assert(w.at(key, last, n));
    assert(w.knows(key));
    let (s, i) = choose|s: int, i: int| #[trigger]
        w.at(key, s, i) && removed_gives(k, w, key, s, i, x);
    assert(s == last && i == n);
    let rest = choose|rest: Seq<u32>| #[trigger]
        kernel::difference_gives(k, w.shards[s].memory, bound, rest) && x == (StoreState {
            shards: w.shards.update(
                s,
                ShardState { memory: rest, facts: w.shards[s].facts.remove(i) },
            ),
            ..w
        });
    assert(rest == base[last].memory);
    assert(w.shards[s].facts.remove(i) =~= base[last].facts);
    assert(x.shards =~= base);
}

/// Where the noise in a shard is low enough, decoding it gives for every key
/// the value that it was stored with.
pub proof fn clear_shard_is_read_back<K: Kernel>(k: K, v: StoreState, s: int, n: nat, r: Seq<int>)
    requires
        0 <= s < v.shards.len(),
        resonator::clear(
            k,
            v.live(),
            v.shards[s].memory,
            shard_roles(v.shards[s], v.dim),
            shard_truth(v.shards[s]),
        ),
        shard_decoded(k, v, s, n, r),
    ensures
        r == shard_truth(v.shards[s]),
{
    resonator::clear_memory_is_read_back(
        k,
        v.live(),
        v.shards[s].memory,
        shard_keys(v.shards[s]),
        shard_roles(v.shards[s], v.dim),
        shard_truth(v.shards[s]),
        n,
        r,
    );
}

// ---------------------------------------------------------------------
// Shards
// ---------------------------------------------------------------------

/// One superposition and the facts in it.
struct Shard {
    memory: Vec<u32>,
    keys: Vec<String>,
    values: Vec<usize>,
}

impl Shard {
    spec fn state(&self) -> ShardState {
        ShardState {
            memory: self.memory@,
            facts: Seq::new(self.keys@.len(), |i: int| (self.keys@[i]@, self.values@[i] as int)),
        }
    }

    spec fn wf(&self) -> bool {
        self.keys@.len() == self.values@.len()
    }

    fn new(dim: usize) -> (r: Self)
        ensures
            r.wf(),
            r.state() == empty_shard(dim as nat),
    {
        let r = Shard { memory: zeros(dim), keys: Vec::new(), values: Vec::new() };
        assert(r.state().facts =~= Seq::empty());
        r
    }

    fn len(&self) -> (r: usize)
        ensures
            r == self.state().facts.len(),
    {
        self.keys.len()
    }

    /// The number of the fact with the given key.
    fn find(&self, key: &str) -> (r: Option<usize>)
        requires
            self.wf(),
        ensures
            match r {
                Some(i) => i < self.state().facts.len() && self.state().facts[i as int].0 == key@,
                None => forall|i: int|
                    0 <= i < self.state().facts.len() ==> (#[trigger] self.state().facts[i]).0
                        != key@,
            },
    {
        let mut i: usize = 0;
        while i < self.keys.len()
            invariant
                self.wf(),
                i <= self.keys@.len(),
                forall|j: int| 0 <= j < i ==> (#[trigger] self.state().facts[j]).0 != key@,
            decreases self.keys@.len() - i,
        {
            if same_text(&self.keys[i], key) {
                return Some(i);
            }
            assert(self.state().facts[i as int].0 == self.keys@[i as int]@);
            i += 1;
        }
        None
    }

    /// Stores a fact with a new key.
    fn append(&mut self, memory: Vec<u32>, key: &str, idx: usize)
        requires
            old(self).wf(),
        ensures
            final(self).wf(),
            final(self).state() == (ShardState {
                memory: memory@,
                facts: old(self).state().facts.push((key@, idx as int)),
            }),
    {
        self.memory = memory;
        self.keys.push(key.to_string());
        self.values.push(idx);
        assert(self.state().facts =~= old(self).state().facts.push((key@, idx as int)));
    }

    /// Gives fact number `i` another value.
    fn overwrite(&mut self, memory: Vec<u32>, i: usize, idx: usize)
        requires
            old(self).wf(),
            i < old(self).state().facts.len(),
        ensures
            final(self).wf(),
            final(self).state() == (ShardState {
                memory: memory@,
                facts: old(self).state().facts.update(
                    i as int,
                    (old(self).state().facts[i as int].0, idx as int),
                ),
            }),
    {
        self.memory = memory;
        self.values.set(i, idx);
        assert(self.state().facts =~= old(self).state().facts.update(
            i as int,
            (old(self).state().facts[i as int].0, idx as int),
        ));
    }

    /// Takes fact number `i` out.
    fn remove(&mut self, memory: Vec<u32>, i: usize)
        requires
            old(self).wf(),
            i < old(self).state().facts.len(),
        ensures
            final(self).wf(),
            final(self).state() == (ShardState {
                memory: memory@,
                facts: old(self).state().facts.remove(i as int),
            }),
    {
        self.memory = memory;
        self.keys.remove(i);
        self.values.remove(i);
        assert(self.state().facts =~= old(self).state().facts.remove(i as int));
    }
}

// ---------------------------------------------------------------------
// Store
// ---------------------------------------------------------------------

/// A store of facts that adds shards as it fills.
pub struct AdaptiveMemory<K> {
    kernel: Arc<K>,
    dim: usize,
    shard_capacity: usize,
    shards: Vec<Shard>,
    vocab: Vocab,
    key_to_shard: StringHashMap<usize>,
    total_facts: usize,
}

impl<K> View for AdaptiveMemory<K> {
    type V = StoreState;

    closed spec fn view(&self) -> StoreState {
        StoreState {
            dim: self.dim as nat,
            capacity: self.shard_capacity as nat,
            seed: self.vocab.origin(),
            room: self.vocab.room(),
            names: self.vocab.names(),
            rows: self.vocab.rows(),
            shards: self.shards@.map_values(|s: Shard| s.state()),
        }
    }
}

impl<K: Kernel> AdaptiveMemory<K> {
    /// The kernel that computes for this store.
    pub closed spec fn arithmetic(&self) -> K {
        *self.kernel
    }

    /// The state is valid, and the index finds every key in its shard and no
    /// other key.
    pub closed spec fn wf(&self) -> bool {
        &&& self@.valid()
        &&& self.vocab.wf()
        &&& self.vocab.width() == self.dim
        &&& forall|s: int| 0 <= s < self.shards@.len() ==> (#[trigger] self.shards@[s]).wf()
        &&& self.key_to_shard@.dom().finite()
        &&& forall|key: Seq<char>| #[trigger]
            self.key_to_shard@.contains_key(key) <==> self@.knows(key)
        &&& forall|key: Seq<char>, s: int, i: int| #[trigger]
            self@.at(key, s, i) ==> self.key_to_shard@[key] == s
        &&& self.key_to_shard@.len() == self@.count()
        &&& self.total_facts == self@.count()
    }

    /// A well-formed store has a valid state whose sizes fit the machine.
    pub proof fn wf_facts(&self)
        requires
            self.wf(),
        ensures
            self@.valid(),
            self@.room <= usize::MAX,
            self@.dim <= usize::MAX,
            self@.capacity <= usize::MAX,
            self@.count() <= usize::MAX,
            self@.shards.len() <= usize::MAX,
    {
        self.vocab.wf_facts();
        assert(self.shards.len() <= usize::MAX);
    }

    /// An empty store of dimension `dim` whose vocabulary has room for
    /// `vocab_cap` values and is drawn from `seed`. Without a shard capacity
    /// it takes the one that is safe for the dimension.
    pub fn new(
        kernel: Arc<K>,
        dim: usize,
        vocab_cap: usize,
        shard_capacity: Option<usize>,
        seed: u64,
    ) -> (r: Result<Self, HlbError>)
        requires
            vocab_cap * dim <= usize::MAX,
        ensures
            match r {
                Ok(m) => {
                    &&& m.wf()
                    &&& m.arithmetic() == *kernel
                    &&& m@ == (StoreState {
                        dim: dim as nat,
                        capacity: match shard_capacity {
                            Some(c) => c as nat,
                            None => safe_capacity(dim as nat),
                        },
                        seed,
                        room: vocab_cap as nat,
                        names: Seq::empty(),
                        rows: m@.rows,
                        shards: Seq::empty(),
                    })
                    &&& drawn_gives(*kernel, vocab_cap as nat, dim as nat, seed, m@.rows)
                },
                Err(e) => e == HlbError::ZeroNorm && some_row_vanishes(
                    *kernel,
                    vocab_cap as nat,
                    dim as nat,
                    seed,
                ),
            },
    {
        let vocab = match Vocab::new(&*kernel, vocab_cap, dim, seed) {
            Ok(v) => v,
            Err(e) => return Err(e),
        };
        let capacity = match shard_capacity {
            Some(c) => c,
            None => safe_shard_capacity(dim),
        };
        let m = AdaptiveMemory {
            kernel,
            dim,
            shard_capacity: capacity,
            shards: Vec::new(),
            vocab,
            key_to_shard: StringHashMap::new(),
            total_facts: 0,
        };
        proof {
            m.vocab.wf_facts();
            assert(m@.shards =~= Seq::empty());
            assert(m.key_to_shard@.dom() =~= Set::empty());
        }
        Ok(m)
    }

    /// The kernel that computes for this store.
    pub fn kernel(&self) -> (r: Arc<K>)
        ensures
            *r == self.arithmetic(),
    {
        self.kernel.clone()
    }

    /// The length of every vector.
    pub fn dim(&self) -> (r: usize)
        ensures
            r == self@.dim,
    {
        self.dim
    }

    /// How many facts go into a shard.
    pub fn shard_capacity(&self) -> (r: usize)
        ensures
            r == self@.capacity,
    {
        self.shard_capacity
    }

    /// How many shards there are.
    pub fn n_shards(&self) -> (r: usize)
        ensures
            r == self@.shards.len(),
    {
        self.shards.len()
    }

    /// How many facts are held.
    pub fn total_facts(&self) -> (r: usize)
        requires
            self.wf(),
        ensures
            r == self@.count(),
    {
        self.total_facts
    }

    /// The vocabulary.
    pub fn vocab(&self) -> (r: &Vocab)
        requires
            self.wf(),
        ensures
            r.wf(),
            r.names() == self@.names,
            r.rows() == self@.rows,
            r.room() == self@.room,
            r.width() == self@.dim,
            r.origin() == self@.seed,
    {
        &self.vocab
    }

    /// The superposition in one shard.
    pub fn shard_memory(&self, shard_idx: usize) -> (r: &Vec<u32>)
        requires
            shard_idx < self@.shards.len(),
        ensures
            r@ == self@.shards[shard_idx as int].memory,
    {
        &self.shards[shard_idx].memory
    }

    /// The facts of one shard in the order in which they were stored, each
    /// with the index of its value. Nothing for a shard that does not exist.
    pub fn shard_pairs(&self, shard_idx: usize) -> (r: Vec<(String, usize)>)
        requires
            self.wf(),
        ensures
            pairs(r@) == if shard_idx < self@.shards.len() {
                self@.shards[shard_idx as int].facts
            } else {
                Seq::empty()
            },
    {
        let mut out: Vec<(String, usize)> = Vec::new();
        if shard_idx >= self.shards.len() {
            assert(pairs(out@) =~= Seq::empty());
            return out;
        }
        let shard = &self.shards[shard_idx];
        let ghost facts = self@.shards[shard_idx as int].facts;
        assert(shard.state().facts == facts);
        let mut i: usize = 0;
        while i < shard.keys.len()
            invariant
                shard.wf(),
                shard.state().facts == facts,
                i <= shard.keys@.len(),
                pairs(out@) == facts.take(i as int),
            decreases shard.keys@.len() - i,
        {
            let ghost before = out@;
            out.push((shard.keys[i].clone(), shard.values[i]));
            assert(shard.state().facts[i as int] == (
                shard.keys@[i as int]@,
                shard.values@[i as int] as int,
            ));
            assert(pairs(out@) =~= pairs(before).push(facts[i as int]));
            assert(facts.take(i + 1) =~= facts.take(i as int).push(facts[i as int]));
            i += 1;
        }
        assert(facts.take(i as int) =~= facts);
        out
    }
}

/// The texts and indices of a list of pairs.
pub open spec fn pairs(v: Seq<(String, usize)>) -> Seq<(Seq<char>, int)> {
    v.map_values(|p: (String, usize)| (p.0@, p.1 as int))
}

/// `rows` holds `cap` unit vectors of length `dim` drawn from `seed`.
pub open spec fn drawn_gives<K: Kernel>(
    k: K,
    cap: nat,
    dim: nat,
    seed: u64,
    rows: Seq<Seq<u32>>,
) -> bool {
    &&& rows.len() == cap
    &&& forall|i: int| 0 <= i < cap ==> (#[trigger] rows[i]).len() == dim
    &&& forall|i: int|
        0 <= i < cap ==> vocab::unit_gives(
            k,
            vocab::row_words(crate::entropy::seeded_words(seed, (cap * dim) as nat), dim, i),
            #[trigger] rows[i],
            Ok(()),
        )
}

/// The vectors of a vocabulary are drawn from its own seed: entry `j` of vector `i`
/// is the number for the word at `i` times the length plus `j`, divided by the
/// norm of the vector's numbers.
pub proof fn vectors_are_drawn_from_the_seed<K: Kernel>(
    k: K,
    cap: nat,
    dim: nat,
    seed: u64,
    rows: Seq<Seq<u32>>,
    i: int,
) -> (raw: (Seq<u32>, u32))
    requires
        drawn_gives(k, cap, dim, seed, rows),
        crate::entropy::seeded_words(seed, (cap * dim) as nat).len() == cap * dim,
        0 <= i < cap,
    ensures
        rows.len() == cap,
        rows[i].len() == dim,
        raw.0.len() == dim,
        kernel::norm_gives(k, raw.0, raw.1),
        forall|j: int|
            0 <= j < dim ==> kernel::uniform_gives(
                k,
                crate::entropy::seeded_words(seed, (cap * dim) as nat)[i * dim + j],
                #[trigger] raw.0[j],
            ) && kernel::divide_gives(k, raw.0[j], raw.1, rows[i][j]),
{
    let words = crate::entropy::seeded_words(seed, (cap * dim) as nat);
    assert(i * dim + dim <= cap * dim && 0 <= i * dim) by (nonlinear_arith)
        requires
            0 <= i < cap,
    ;
    let own = vocab::row_words(words, dim, i);
    assert(vocab::unit_gives(k, own, rows[i], Ok(())));
    let (raw, n) = choose|raw: Seq<u32>, n: u32| #[trigger]
        hlb::scaled(k, raw, n, rows[i], Ok::<(), HlbError>(())) && vocab::raw_gives(k, own, raw)
            && kernel::norm_gives(k, raw, n);
    assert(own.len() == dim);
    assert forall|j: int| 0 <= j < dim implies kernel::uniform_gives(
        k,
        words[i * dim + j],
        #[trigger] raw[j],
    ) && kernel::divide_gives(k, raw[j], n, rows[i][j]) by {
        assert(own[j] == words[i * dim + j]);
        assert(kernel::uniform_gives(k, own[j], raw[j]));
        assert(kernel::divide_gives(k, raw[j], n, rows[i][j]));
    }
    (raw, n)
}

/// One of the vectors drawn from `seed` is too short to be scaled to length
/// one.
pub open spec fn some_row_vanishes<K: Kernel>(k: K, cap: nat, dim: nat, seed: u64) -> bool {
    exists|i: int, raw: Seq<u32>|
        0 <= i < cap && #[trigger] vocab::unit_gives(
            k,
            vocab::row_words(crate::entropy::seeded_words(seed, (cap * dim) as nat), dim, i),
            raw,
            Err(HlbError::ZeroNorm),
        )
}

/// `text` is what reading `key` gives.
pub open spec fn read_gives<K: Kernel>(
    k: K,
    v: StoreState,
    key: Seq<char>,
    text: Seq<char>,
) -> bool {
    exists|s: int, i: int, p: Seq<int>|
        #![trigger v.at(key, s, i), shard_decoded(k, v, s, RETRIEVE_PASSES as nat, p)]
        v.at(key, s, i) && shard_decoded(k, v, s, RETRIEVE_PASSES as nat, p) && text
            == v.names[p[i]]
}

/// Whether the noise in the shard of a key is low enough for the decoder.
pub open spec fn clear_at<K: Kernel>(k: K, v: StoreState, key: Seq<char>) -> bool {
    exists|s: int, i: int| #[trigger]
        v.at(key, s, i) && resonator::clear(
            k,
            v.live(),
            v.shards[s].memory,
            shard_roles(v.shards[s], v.dim),
            shard_truth(v.shards[s]),
        )
}

/// A read gives back the value that was stored, where the noise in the key's
/// shard is low enough.
pub proof fn clear_read_gives_the_fact<K: Kernel>(
    k: K,
    v: StoreState,
    key: Seq<char>,
    text: Seq<char>,
)
    requires
        v.valid(),
        clear_at(k, v, key),
        read_gives(k, v, key, text),
    ensures
        text == v.facts()[key],
{
    let (s, i) = choose|s: int, i: int| #[trigger]
        v.at(key, s, i) && resonator::clear(
            k,
            v.live(),
            v.shards[s].memory,
            shard_roles(v.shards[s], v.dim),
            shard_truth(v.shards[s]),
        );
    let (t, j, p) = choose|t: int, j: int, p: Seq<int>|
        #![trigger v.at(key, t, j), shard_decoded(k, v, t, RETRIEVE_PASSES as nat, p)]
        v.at(key, t, j) && shard_decoded(k, v, t, RETRIEVE_PASSES as nat, p) && text
            == v.names[p[j]];
    clear_shard_is_read_back(k, v, s, RETRIEVE_PASSES as nat, p);
    fact_at(v, key, s, i);
}

/// A read decodes the shard that holds the key, in ten passes at most, and gives
/// the registered value that was decoded at the key's own place.
pub proof fn a_read_decodes_the_shard_of_the_key<K: Kernel>(
    k: K,
    v: StoreState,
    key: Seq<char>,
    text: Seq<char>,
    s: int,
    i: int,
) -> (p: Seq<int>)
    requires
        v.valid(),
        read_gives(k, v, key, text),
        0 <= s < v.shards.len(),
        0 <= i < v.shards[s].facts.len(),
        v.shards[s].facts[i].0 == key,
    ensures
        resonator::decoded_gives(
            k,
            v.rows.take(v.names.len() as int),
            v.shards[s].memory,
            v.shards[s].facts.map_values(|f: (Seq<char>, int)| f.0),
            v.shards[s].facts.map_values(
                |f: (Seq<char>, int)| resonator::key_role(f.0, v.dim),
            ),
            10,
            p,
        ),
        text == v.names[p[i]],
{
    assert(v.at(key, s, i));
    let (t, j, p) = choose|t: int, j: int, p: Seq<int>|
        #![trigger v.at(key, t, j), shard_decoded(k, v, t, RETRIEVE_PASSES as nat, p)]
        v.at(key, t, j) && shard_decoded(k, v, t, RETRIEVE_PASSES as nat, p) && text
            == v.names[p[j]];
    assert(t == s && j == i);
    assert(shard_keys(v.shards[s]) =~= v.shards[s].facts.map_values(
        |f: (Seq<char>, int)| f.0,
    ));
    assert(shard_roles(v.shards[s], v.dim) =~= v.shards[s].facts.map_values(
        |f: (Seq<char>, int)| resonator::key_role(f.0, v.dim),
    ));
    p
}

/// Every key stands in one shard, at one place: no two shards share a key, and
/// no shard holds one twice.
pub proof fn every_key_has_one_place(v: StoreState, s: int, i: int, t: int, j: int)
    requires
        v.valid(),
        0 <= s < v.shards.len(),
        0 <= i < v.shards[s].facts.len(),
        0 <= t < v.shards.len(),
        0 <= j < v.shards[t].facts.len(),
    ensures
        shard_keys(v.shards[s])[i] == shard_keys(v.shards[t])[j] <==> s == t && i == j,
{
    if shard_keys(v.shards[s])[i] == shard_keys(v.shards[t])[j] {
        let key = v.shards[s].facts[i].0;
        assert(v.at(key, s, i) && v.at(key, t, j));
    }
}

/// With a steady kernel, decoding a shard gives the same every time.
pub proof fn shard_decoding_is_repeatable<K: Kernel>(
    k: K,
    v: StoreState,
    s: int,
    n: nat,
    a: Seq<int>,
    b: Seq<int>,
)
    requires
        kernel::steady(k),
        shard_decoded(k, v, s, n, a),
        shard_decoded(k, v, s, n, b),
    ensures
        a == b,
{
    resonator::decoding_is_repeatable(
        k,
        v.live(),
        v.shards[s].memory,
        shard_keys(v.shards[s]),
        shard_roles(v.shards[s], v.dim),
        n,
        a,
        b,
    );
}

/// With a steady kernel, reading a key gives the same every time.
pub proof fn reading_is_repeatable<K: Kernel>(
    k: K,
    v: StoreState,
    key: Seq<char>,
    a: Seq<char>,
    b: Seq<char>,
)
    requires
        kernel::steady(k),
        v.valid(),
        read_gives(k, v, key, a),
        read_gives(k, v, key, b),
    ensures
        a == b,
{
    let (s, i, p) = choose|s: int, i: int, p: Seq<int>|
        #![trigger v.at(key, s, i), shard_decoded(k, v, s, RETRIEVE_PASSES as nat, p)]
        v.at(key, s, i) && shard_decoded(k, v, s, RETRIEVE_PASSES as nat, p) && a == v.names[p[i]];
    let (t, j, q) = choose|t: int, j: int, q: Seq<int>|
        #![trigger v.at(key, t, j), shard_decoded(k, v, t, RETRIEVE_PASSES as nat, q)]
        v.at(key, t, j) && shard_decoded(k, v, t, RETRIEVE_PASSES as nat, q) && b == v.names[q[j]];
    shard_decoding_is_repeatable(k, v, s, RETRIEVE_PASSES as nat, p, q);
}

impl<K: Kernel> AdaptiveMemory<K> {
    /// Stores a fact. A new key goes into the last shard, unless that is full;
    /// a fact that is put back may go into an empty one whatever its capacity.
    fn keep(&mut self, key: &str, value: &str, put_back: bool) -> (r: Result<usize, HlbError>)
        requires
            old(self).wf(),
        ensures
            final(self).wf(),
            final(self).arithmetic() == old(self).arithmetic(),
            if put_back {
                put_back_gives(old(self).arithmetic(), old(self)@, key@, value@, final(self)@, r)
            } else {
                stored_gives(old(self).arithmetic(), old(self)@, key@, value@, final(self)@, r)
            },
    {
        let ghost v = self@;
        let ghost k = self.arithmetic();
        proof {
            self.vocab.wf_facts();
        }
        let idx = match self.vocab.register(value) {
            Ok(i) => i,
            Err(e) => {
                assert(self@ == v);
                return Err(e);
            },
        };
        let ghost names = self.vocab.names();
        proof {
            registered_keeps(v.names, v.room, value@, names, Ok(idx));
            self.vocab.wf_facts();
        }
        let role = role_from_key(key, self.dim);
        let found: Option<usize> = match self.key_to_shard.get(key) {
            Some(s) => Some(*s),
            None => None,
        };
        if let Some(s) = found {
            proof {
                assert(v.knows(key@));
                let (a, b) = choose|a: int, b: int| v.at(key@, a, b);
                assert(v.at(key@, a, b));
                assert(a == s);
                assert(self.shards@[a].state() == v.shards[a]);
            }
            let i = match self.shards[s].find(key) {
                Some(i) => i,
                None => {
                    assert(false);
                    0
                },
            };
            let ghost shard = self.shards@[s as int].state();
            assert(shard == v.shards[s as int]);
            assert(v.at(key@, s as int, i as int));
            let old_idx = self.shards[s].values[i];
            assert(old_idx as int == shard.facts[i as int].1);
            let subtract = match bind_role(&*self.kernel, &role, self.vocab.row(old_idx)) {
                Ok(b) => b,
                Err(e) => return Err(e),
            };
            let without = subtract_vectors(&*self.kernel, &self.shards[s].memory, &subtract);
            let plus = match bind_role(&*self.kernel, &role, self.vocab.row(idx)) {
                Ok(b) => b,
                Err(e) => return Err(e),
            };
            let memory = add_vectors(&*self.kernel, &without, &plus);
            let ghost new_memory = memory@;
            self.shards[s].overwrite(memory, i, idx);
            proof {
                let w = self@;
                assert(w.shards =~= v.shards.update(
                    s as int,
                    ShardState {
                        memory: new_memory,
                        facts: shard.facts.update(i as int, (key@, idx as int)),
                    },
                ));
                assert(kernel::sum_gives(
                    k,
                    without@,
                    hlb::signed(resonator::key_role(key@, v.dim), v.rows[idx as int]),
                    new_memory,
                ));
                assert(overwritten_gives(
                    k,
                    v,
                    names,
                    key@,
                    s as int,
                    i as int,
                    idx as int,
                    w,
                ));
                overwritten_keeps(k, v, names, key@, s as int, i as int, idx as int, w);
                assert forall|x: Seq<char>| #[trigger] self.key_to_shard@.contains_key(x)
                    <==> w.knows(x) by {
                    if w.knows(x) {
                        let (a, b) = choose|a: int, b: int| w.at(x, a, b);
                        assert(v.at(x, a, b));
                    }
                    if v.knows(x) {
                        let (a, b) = choose|a: int, b: int| v.at(x, a, b);
                        assert(w.at(x, a, b));
                    }
                }
            }
            return Ok(idx);
        }
        assert(!v.knows(key@));
        let full = if self.shards.len() == 0 {
            true
        } else {
            let n = self.shards[self.shards.len() - 1].len();
            n >= self.shard_capacity && (n > 0 || !put_back)
        };
        if full {
            self.shards.push(Shard::new(self.dim));
        }
        let ghost base = self@.shards;
        proof {
            assert(base =~= if put_back {
                reopened(v)
            } else {
                opened(v)
            });
        }
        let s = self.shards.len() - 1;
        let ghost shard = self.shards@[s as int].state();
        assert(shard == base[s as int]);
        let bound = match bind_role(&*self.kernel, &role, self.vocab.row(idx)) {
            Ok(b) => b,
            Err(e) => return Err(e),
        };
        let memory = add_vectors(&*self.kernel, &self.shards[s].memory, &bound);
        let ghost new_memory = memory@;
        self.shards[s].append(memory, key, idx);
        self.key_to_shard.insert(key.to_string(), s);
        self.total_facts = self.key_to_shard.len();
        proof {
            let w = self@;
            assert(w.shards =~= base.update(
                s as int,
                ShardState { memory: new_memory, facts: shard.facts.push((key@, idx as int)) },
            ));
            assert(kernel::sum_gives(
                k,
                base[s as int].memory,
                hlb::signed(resonator::key_role(key@, v.dim), v.rows[idx as int]),
                new_memory,
            ));
            assert(appended_gives(k, v, base, names, key@, idx as int, w));
            appended_keeps(k, v, base, names, key@, idx as int, w);
            assert(w.at(key@, s as int, w.shards[s as int].facts.len() - 1));
            assert forall|x: Seq<char>| #[trigger] self.key_to_shard@.contains_key(x) <==> w.knows(
                x,
            ) by {
                if w.knows(x) {
                    let (a, b) = choose|a: int, b: int| w.at(x, a, b);
                    assert(w.at(x, a, b));
                    if x != key@ {
                        assert(v.at(x, a, b));
                    }
                }
                if v.knows(x) {
                    let (a, b) = choose|a: int, b: int| v.at(x, a, b);
                    assert(w.at(x, a, b));
                }
            }
            assert forall|x: Seq<char>, a: int, b: int| #[trigger]
                w.at(x, a, b) implies self.key_to_shard@[x] == a by {
                if x != key@ {
                    assert(v.at(x, a, b));
                } else if v.at(x, a, b) {
                    assert(v.knows(x));
                }
            }
        }
        Ok(idx)
    }

    /// Stores a fact, in place of the one that the key had before, and gives
    /// the index of its value. A value that the vocabulary has no room for is
    /// refused.
    pub fn store(&mut self, key: &str, value: &str) -> (r: Result<usize, HlbError>)
        requires
            old(self).wf(),
        ensures
            final(self).wf(),
            final(self).arithmetic() == old(self).arithmetic(),
            stored_gives(old(self).arithmetic(), old(self)@, key@, value@, final(self)@, r),
    {
        self.keep(key, value, false)
    }

    /// Puts a saved fact back.
    pub(crate) fn put_back(&mut self, key: &str, value: &str) -> (r: Result<usize, HlbError>)
        requires
            old(self).wf(),
        ensures
            final(self).wf(),
            final(self).arithmetic() == old(self).arithmetic(),
            put_back_gives(old(self).arithmetic(), old(self)@, key@, value@, final(self)@, r),
    {
        self.keep(key, value, true)
    }

    /// Registers a value without storing a fact.
    pub(crate) fn register_value(&mut self, value: &str) -> (r: Result<usize, HlbError>)
        requires
            old(self).wf(),
        ensures
            final(self).wf(),
            final(self).arithmetic() == old(self).arithmetic(),
            vocab::registered(
                old(self)@.names,
                old(self)@.room,
                value@,
                final(self)@.names,
                r,
            ),
            final(self)@ == (StoreState { names: final(self)@.names, ..old(self)@ }),
    {
        let ghost v = self@;
        proof {
            self.vocab.wf_facts();
        }
        let r = self.vocab.register(value);
        proof {
            registered_keeps(v.names, v.room, value@, self@.names, r);
            assert(self@ =~= StoreState { names: self@.names, ..v });
            assert forall|x: Seq<char>, a: int, b: int| #[trigger] self@.at(x, a, b) <==> v.at(
                x,
                a,
                b,
            ) by {}
            assert forall|x: Seq<char>| #[trigger] self@.knows(x) <==> v.knows(x) by {
                if v.knows(x) {
                    let (a, b) = choose|a: int, b: int| v.at(x, a, b);
                    assert(self@.at(x, a, b));
                }
                if self@.knows(x) {
                    let (a, b) = choose|a: int, b: int| self@.at(x, a, b);
                    assert(v.at(x, a, b));
                }
            }
            assert forall|s: int, i: int|
                0 <= s < self@.shards.len() && 0 <= i < self@.shards[s].facts.len() implies 0 <= (
            #[trigger] self@.shards[s].facts[i]).1 < self@.names.len() by {
                assert(0 <= v.shards[s].facts[i].1 < v.names.len());
            }
        }
        r
    }

    /// Opens an empty shard.
    pub(crate) fn open_shard(&mut self)
        requires
            old(self).wf(),
        ensures
            final(self).wf(),
            final(self).arithmetic() == old(self).arithmetic(),
            final(self)@ == (StoreState {
                shards: old(self)@.shards.push(empty_shard(old(self)@.dim)),
                ..old(self)@
            }),
    {
        let ghost v = self@;
        self.shards.push(Shard::new(self.dim));
        proof {
            let w = self@;
            assert(w.shards =~= v.shards.push(empty_shard(v.dim)));
            count_empty(v.shards, v.dim);
            assert forall|x: Seq<char>, a: int, b: int| #[trigger] w.at(x, a, b) <==> v.at(
                x,
                a,
                b,
            ) by {}
            assert forall|x: Seq<char>| #[trigger] w.knows(x) <==> v.knows(x) by {
                if v.knows(x) {
                    let (a, b) = choose|a: int, b: int| v.at(x, a, b);
                    assert(w.at(x, a, b));
                }
                if w.knows(x) {
                    let (a, b) = choose|a: int, b: int| w.at(x, a, b);
                    assert(v.at(x, a, b));
                }
            }
            assert forall|s: int, i: int|
                0 <= s < w.shards.len() && 0 <= i < w.shards[s].facts.len() implies 0 <= (
            #[trigger] w.shards[s].facts[i]).1 < w.names.len() by {
                assert(0 <= v.shards[s].facts[i].1 < v.names.len());
            }
            assert forall|x: Seq<char>, a: int, b: int, t: int, j: int|
                #![trigger w.at(x, a, b), w.at(x, t, j)]
                w.at(x, a, b) && w.at(x, t, j) implies a == t && b == j by {
                assert(v.at(x, a, b) && v.at(x, t, j));
            }
        }
    }

    /// Forgets a fact by subtracting it from its shard. Gives whether there
    /// was one.
    pub fn forget(&mut self, key: &str) -> (r: Result<bool, HlbError>)
        requires
            old(self).wf(),
        ensures
            final(self).wf(),
            final(self).arithmetic() == old(self).arithmetic(),
            forgotten_gives(old(self).arithmetic(), old(self)@, key@, final(self)@, r),
    {
        let ghost v = self@;
        let ghost k = self.arithmetic();
        proof {
            self.vocab.wf_facts();
        }
        let s: usize = match self.key_to_shard.get(key) {
            Some(s) => *s,
            None => {
                assert(!v.knows(key@));
                return Ok(false);
            },
        };
        proof {
            assert(v.knows(key@));
            let (a, b) = choose|a: int, b: int| v.at(key@, a, b);
            assert(v.at(key@, a, b));
            assert(a == s);
            assert(self.shards@[a].state() == v.shards[a]);
        }
        let i = match self.shards[s].find(key) {
            Some(i) => i,
            None => {
                assert(false);
                0
            },
        };
        let ghost shard = self.shards@[s as int].state();
        assert(shard == v.shards[s as int]);
        assert(v.at(key@, s as int, i as int));
        let idx = self.shards[s].values[i];
        assert(idx as int == shard.facts[i as int].1);
        let role = role_from_key(key, self.dim);
        let bound = match bind_role(&*self.kernel, &role, self.vocab.row(idx)) {
            Ok(b) => b,
            Err(e) => return Err(e),
        };
        let memory = subtract_vectors(&*self.kernel, &self.shards[s].memory, &bound);
        let ghost new_memory = memory@;
        self.shards[s].remove(memory, i);
        self.key_to_shard.remove(key);
        self.total_facts = self.key_to_shard.len();
        proof {
            let w = self@;
            assert(w.shards =~= v.shards.update(
                s as int,
                ShardState { memory: new_memory, facts: shard.facts.remove(i as int) },
            ));
            assert(kernel::difference_gives(
                k,
                shard.memory,
                hlb::signed(resonator::key_role(key@, v.dim), v.rows[shard.facts[i as int].1]),
                new_memory,
            ));
            assert(removed_gives(k, v, key@, s as int, i as int, w));
            removed_keeps(k, v, key@, s as int, i as int, w);
            assert forall|x: Seq<char>| #[trigger] self.key_to_shard@.contains_key(x) <==> w.knows(
                x,
            ) by {
                if w.knows(x) {
                    let (a, b) = choose|a: int, b: int| w.at(x, a, b);
                    assert(w.at(x, a, b));
                    let bb = if a == s && b >= i {
                        b + 1
                    } else {
                        b
                    };
                    assert(v.at(x, a, bb));
                }
                if v.knows(x) && x != key@ {
                    let (a, b) = choose|a: int, b: int| v.at(x, a, b);
                    assert(v.at(x, a, b));
                    let bb = if a == s && b > i {
                        b - 1
                    } else {
                        b
                    };
                    assert(w.at(x, a, bb));
                }
            }
            assert forall|x: Seq<char>, a: int, b: int| #[trigger]
                w.at(x, a, b) implies self.key_to_shard@[x] == a by {
                let bb = if a == s && b >= i {
                    b + 1
                } else {
                    b
                };
                assert(v.at(x, a, bb));
            }
        }
        Ok(true)
    }

    /// Decodes every key of one shard: its predicted value, as an index, in
    /// the order in which the keys were stored.
    pub fn decode_shard_amp(&self, shard_idx: usize, n_iter: usize) -> (r: Result<
        Vec<(String, usize)>,
        HlbError,
    >)
        requires
            self.wf(),
            shard_idx < self@.shards.len(),
        ensures
            r matches Ok(list) && {
                let shard = self@.shards[shard_idx as int];
                &&& list@.len() == shard.facts.len()
                &&& forall|i: int|
                    0 <= i < list@.len() ==> (#[trigger] pairs(list@)[i]).0 == shard.facts[i].0
                        && 0 <= pairs(list@)[i].1 < self@.names.len()
                &&& list@.len() > 0 ==> shard_decoded(
                    self.arithmetic(),
                    self@,
                    shard_idx as int,
                    n_iter as nat,
                    pairs(list@).map_values(|p: (Seq<char>, int)| p.1),
                )
            },
    {
        let shard = &self.shards[shard_idx];
        let ghost state = self@.shards[shard_idx as int];
        assert(shard.state() == state);
        let mut out: Vec<(String, usize)> = Vec::new();
        if shard.keys.len() == 0 {
            return Ok(out);
        }
        proof {
            self.vocab.wf_facts();
            assert(0 <= state.facts[0].1 < self@.names.len());
        }
        let mut roles: Vec<Vec<u32>> = Vec::with_capacity(shard.keys.len());
        let mut i: usize = 0;
        while i < shard.keys.len()
            invariant
                shard.state() == state,
                i <= shard.keys@.len(),
                roles@.len() == i,
                resonator::proper_roles(roles@, self.dim as nat),
                resonator::contents(roles@) == shard_roles(state, self.dim as nat).take(i as int),
            decreases shard.keys@.len() - i,
        {
            let role = role_from_key(&shard.keys[i], self.dim);
            assert(state.facts[i as int].0 == shard.keys@[i as int]@);
            roles.push(role);
            i += 1;
            assert(resonator::contents(roles@) =~= shard_roles(state, self.dim as nat).take(
                i as int,
            ));
        }
        proof {
            assert(shard_roles(state, self.dim as nat).take(i as int) =~= shard_roles(
                state,
                self.dim as nat,
            ));
            assert(text::texts(shard.keys@) =~= shard_keys(state));
        }
        let predictions = match decode(
            &*self.kernel,
            &self.vocab,
            &shard.memory,
            &shard.keys,
            &roles,
            n_iter,
        ) {
            Ok(p) => p,
            Err(e) => return Err(e),
        };
        let mut j: usize = 0;
        while j < shard.keys.len()
            invariant
                shard.state() == state,
                j <= shard.keys@.len() == predictions@.len(),
                resonator::below(predictions@, self@.names.len()),
                out@.len() == j,
                forall|i: int|
                    0 <= i < j ==> (#[trigger] out@[i]).0@ == state.facts[i].0 && out@[i].1
                        == predictions@[i],
            decreases shard.keys@.len() - j,
        {
            assert(state.facts[j as int].0 == shard.keys@[j as int]@);
            out.push((shard.keys[j].clone(), predictions[j]));
            j += 1;
        }
        assert(pairs(out@).map_values(|p: (Seq<char>, int)| p.1) =~= resonator::indices(
            predictions@,
        ));
        Ok(out)
    }

    /// The value stored under `key`, as well as the noise in its shard lets it
    /// be read. Nothing for a key that no fact has.
    pub fn retrieve(&self, key: &str) -> (r: Result<Option<String>, HlbError>)
        requires
            self.wf(),
        ensures
            match r {
                Ok(Some(text)) => self@.knows(key@) && read_gives(
                    self.arithmetic(),
                    self@,
                    key@,
                    text@,
                ),
                Ok(None) => !self@.knows(key@),
                Err(_) => false,
            },
    {
        let s: usize = match self.key_to_shard.get(key) {
            Some(s) => *s,
            None => {
                assert(!self@.knows(key@));
                return Ok(None);
            },
        };
        proof {
            assert(self@.knows(key@));
            let (a, b) = choose|a: int, b: int| self@.at(key@, a, b);
            assert(self@.at(key@, a, b));
            assert(a == s);
            assert(self.shards@[a].state() == self@.shards[a]);
        }
        let i = match self.shards[s].find(key) {
            Some(i) => i,
            None => {
                assert(false);
                0
            },
        };
        assert(self.shards@[s as int].state() == self@.shards[s as int]);
        assert(self@.at(key@, s as int, i as int));
        let predictions = match self.decode_shard_amp(s, RETRIEVE_PASSES) {
            Ok(p) => p,
            Err(e) => return Err(e),
        };
        let ghost p = pairs(predictions@).map_values(|p: (Seq<char>, int)| p.1);
        assert(pairs(predictions@)[i as int].1 == predictions@[i as int].1 as int);
        let idx = predictions[i].1;
        assert(p[i as int] == idx as int);
        match self.vocab.key_at(idx) {
            Some(text) => Ok(Some(text.to_string())),
            None => {
                assert(false);
                Ok(None)
            },
        }
    }
}

} // verus!
