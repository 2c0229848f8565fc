//! Indices over vectors for similarity search.
//!
//! An index holds vectors under numbers and finds those most similar to a
//! query. [`BruteForceIndex`] looks at all of them. [`HnswIndex`] hands
//! searches to a prebuilt graph and falls back to looking at all vectors
//! while the graph is missing or out of date.

use crate::hlb::{self, cosine_of_parts};
use crate::kernel::{self, Kernel};
use crate::ranking::{self, top_positions};
use crate::score::{self, total_place};
use std::sync::Arc;
use vstd::prelude::*;

verus! {

/// An index over numbered vectors. Higher similarity means closer.
pub trait VectorIndex: Sized {
    /// Takes a vector in.
    fn add(&mut self, id: u64, vector: Vec<u32>);

    /// The numbers of the `k` most similar vectors, each with its similarity,
    /// most similar first.
    fn search(&self, query: &Vec<u32>, k: usize) -> Vec<(u64, u32)>;

    /// The index over the given vectors, in place of those it held.
    fn rebuild(self, items: Vec<(u64, Vec<u32>)>) -> Self;

    /// How many vectors are held.
    fn len(&self) -> usize;

    /// Whether no vector is held: as [`len`](VectorIndex::len) tells, unless an
    /// index has its own way to tell.
    fn is_empty(&self) -> (r: bool)
        default_ensures
            exists|n: usize| #[trigger] call_ensures(Self::len, (self,), n) && r == (n == 0),
    {
        self.len() == 0
    }
}

/// A search graph over numbered vectors that is built once.
pub trait Graph: Sized {
    /// Builds a graph over vectors, of which there is at least one, and their
    /// numbers.
    fn build(points: Vec<Vec<u32>>, values: Vec<u64>) -> Self;

    /// The numbers of vectors near the query, each with its similarity, most
    /// similar first.
    fn nearest(&self, query: &Vec<u32>) -> Vec<(u64, u32)>;
}

// ---------------------------------------------------------------------
// Exact search
// ---------------------------------------------------------------------

/// Numbered vectors.
pub open spec fn entries(v: Seq<(u64, Vec<u32>)>) -> Seq<(u64, Seq<u32>)> {
    v.map_values(|p: (u64, Vec<u32>)| (p.0, p.1@))
}

/// `n` is a serially computed norm of `a`.
pub open spec fn serial_norm_gives<K: Kernel>(k: K, a: Seq<u32>, n: u32) -> bool {
    exists|d: u32| #[trigger] kernel::serial_dot_gives(k, a, a, d) && kernel::root_gives(k, d, n)
}

/// `c` is the similarity of two vectors.
pub open spec fn similarity_gives<K: Kernel>(k: K, a: Seq<u32>, b: Seq<u32>, c: u32) -> bool {
    exists|dot: u32, na: u32, nb: u32| #[trigger]
        hlb::cosine_from(k, dot, na, nb, c) && kernel::serial_dot_gives(k, a, b, dot)
            && serial_norm_gives(k, a, na) && serial_norm_gives(k, b, nb)
}

/// `scores` holds the similarity of each vector to the query.
pub open spec fn similarities_give<K: Kernel>(
    k: K,
    items: Seq<(u64, Seq<u32>)>,
    query: Seq<u32>,
    scores: Seq<u32>,
) -> bool {
    &&& scores.len() == items.len()
    &&& forall|i: int|
        0 <= i < items.len() ==> similarity_gives(k, query, items[i].1, #[trigger] scores[i])
}

/// The sort keys for scores: their places among all patterns.
pub open spec fn total_keys(scores: Seq<u32>) -> Seq<i64> {
    scores.map_values(|s: u32| score::total_rank(s) as i64)
}

/// The numbers and scores at the given positions.
pub open spec fn picked(items: Seq<(u64, Seq<u32>)>, scores: Seq<u32>, at: Seq<int>) -> Seq<
    (u64, u32),
> {
    at.map_values(|p: int| (items[p].0, scores[p]))
}

/// `r` is the exact answer to a search: the `k` entries of highest score,
/// highest first, equal scores in the order in which the entries came in.
pub open spec fn exact_gives<K: Kernel>(
    k: K,
    items: Seq<(u64, Seq<u32>)>,
    query: Seq<u32>,
    n: nat,
    r: Seq<(u64, u32)>,
) -> bool {
    exists|scores: Seq<u32>, at: Seq<int>|
        #![trigger similarities_give(k, items, query, scores), ranking::is_top(total_keys(scores), n, at)]
        similarities_give(k, items, query, scores) && ranking::is_top(total_keys(scores), n, at)
            && r == picked(items, scores, at)
}

/// The similarity of two vectors is their serial inner product divided by the
/// product of their serial norms, and zero where a norm is zero.
pub proof fn a_similarity_is_a_scaled_inner_product<K: Kernel>(
    k: K,
    a: Seq<u32>,
    b: Seq<u32>,
    c: u32,
) -> (found: (u32, u32, u32))
    requires
        similarity_gives(k, a, b, c),
    ensures
        kernel::serial_dot_gives(k, a, b, found.0),
        exists|d: u32| #[trigger]
            kernel::serial_dot_gives(k, a, a, d) && kernel::root_gives(k, d, found.1),
        exists|d: u32| #[trigger]
            kernel::serial_dot_gives(k, b, b, d) && kernel::root_gives(k, d, found.2),
        found.1 == 0 || found.1 == 0x8000_0000 || found.2 == 0 || found.2 == 0x8000_0000 ==> c == 0,
        found.1 != 0 && found.1 != 0x8000_0000 && found.2 != 0 && found.2 != 0x8000_0000
            ==> exists|p: u32| #[trigger]
            kernel::times_gives(k, found.1, found.2, p) && kernel::divide_gives(k, found.0, p, c),
{
    choose|dot: u32, na: u32, nb: u32| #[trigger]
        hlb::cosine_from(k, dot, na, nb, c) && kernel::serial_dot_gives(k, a, b, dot)
            && serial_norm_gives(k, a, na) && serial_norm_gives(k, b, nb)
}

/// An exact answer names the most similar entries. It is as long as asked for, or
/// as there are entries; each answer is the number of an entry with a similarity
/// of the query and that entry's vector; no entry is named twice; answers stand
/// from the highest score down, equal ones in the order of the entries; and an
/// entry that is not named scores no higher than one that is.
pub proof fn an_exact_answer_names_the_most_similar<K: Kernel>(
    k: K,
    items: Seq<(u64, Seq<u32>)>,
    query: Seq<u32>,
    n: nat,
    r: Seq<(u64, u32)>,
) -> (found: (Seq<u32>, Seq<int>))
    requires
        exact_gives(k, items, query, n, r),
    ensures
        r.len() == (if items.len() < n {
            items.len()
        } else {
            n
        }),
        found.0.len() == items.len(),
        found.1.len() == r.len(),
        forall|i: int|
            0 <= i < items.len() ==> similarity_gives(
                k,
                query,
                items[i].1,
                #[trigger] found.0[i],
            ),
        forall|h: int|
            0 <= h < r.len() ==> {
                let i = #[trigger] found.1[h];
                0 <= i < items.len() && r[h].0 == items[i].0 && r[h].1 == found.0[i]
            },
        forall|h: int, g: int|
            0 <= h < g < r.len() ==> {
                let a = #[trigger] found.1[h];
                let b = #[trigger] found.1[g];
                ||| score::total_rank(r[h].1) > score::total_rank(r[g].1)
                ||| r[h].1 == r[g].1 && a < b
            },
        forall|h: int, i: int|
            0 <= h < r.len() && 0 <= i < items.len() && !found.1.contains(i) ==> score::total_rank(
                (#[trigger] r[h]).1,
            ) >= score::total_rank(#[trigger] found.0[i]),
{
    let (scores, at) = choose|scores: Seq<u32>, at: Seq<int>|
        #![trigger similarities_give(k, items, query, scores), ranking::is_top(total_keys(scores), n, at)]
        similarities_give(k, items, query, scores) && ranking::is_top(total_keys(scores), n, at)
            && r == picked(items, scores, at);
    let keys = total_keys(scores);
    assert forall|h: int, g: int| 0 <= h < g < r.len() implies {
        let a = #[trigger] at[h];
        let b = #[trigger] at[g];
        ||| score::total_rank(r[h].1) > score::total_rank(r[g].1)
        ||| r[h].1 == r[g].1 && a < b
    } by {
        assert(ranking::precedes(keys, at[h], at[g]));
        assert(keys[at[h]] == score::total_rank(r[h].1));
        assert(keys[at[g]] == score::total_rank(r[g].1));
        if score::total_rank(r[h].1) == score::total_rank(r[g].1) {
            score::total_rank_is_injective(r[h].1, r[g].1);
        }
    }
    assert forall|h: int, i: int|
        0 <= h < r.len() && 0 <= i < items.len() && !at.contains(i) implies score::total_rank(
        (#[trigger] r[h]).1,
    ) >= score::total_rank(#[trigger] scores[i]) by {
        assert(ranking::precedes(keys, at[h], i));
        assert(keys[at[h]] == score::total_rank(r[h].1));
        assert(keys[i] == score::total_rank(scores[i]));
    }
    (scores, at)
}

/// The similarity of two vectors.
fn similarity<K: Kernel>(kernel: &K, a: &Vec<u32>, b: &Vec<u32>) -> (c: u32)
    ensures
        similarity_gives(*kernel, a@, b@, c),
{
    let dot = kernel.serial_dot(a, b);
    assert(kernel::serial_dot_gives(*kernel, a@, b@, dot));
    let da = kernel.serial_dot(a, a);
    assert(kernel::serial_dot_gives(*kernel, a@, a@, da));
    let na = kernel.root(da);
    let db = kernel.serial_dot(b, b);
    assert(kernel::serial_dot_gives(*kernel, b@, b@, db));
    let nb = kernel.root(db);
    let c = cosine_of_parts(kernel, dot, na, nb);
    assert(hlb::cosine_from(*kernel, dot, na, nb, c));
    c
}

/// The exact answer for given scores.
fn pick_top(items: &Vec<(u64, Vec<u32>)>, scores: &Vec<u32>, k: usize) -> (r: Vec<(u64, u32)>)
    requires
        items@.len() == scores@.len(),
    ensures
        exists|at: Seq<int>| #[trigger]
            ranking::is_top(total_keys(scores@), k as nat, at) && r@ == picked(
                entries(items@),
                scores@,
                at,
            ),
{
    let mut keys: Vec<i64> = Vec::with_capacity(scores.len());
    let mut i: usize = 0;
    while i < scores.len()
        invariant
            i <= scores@.len(),
            keys@ == total_keys(scores@.take(i as int)),
        decreases scores@.len() - i,
    {
        keys.push(total_place(scores[i]));
        i += 1;
        assert(keys@ =~= total_keys(scores@.take(i as int)));
    }
    assert(scores@.take(i as int) =~= scores@);
    let order = top_positions(&keys, k);
    let ghost at = ranking::positions(order@);
    let mut out: Vec<(u64, u32)> = Vec::with_capacity(order.len());
    let mut j: usize = 0;
    while j < order.len()
        invariant
            items@.len() == scores@.len() == keys@.len(),
            at == ranking::positions(order@),
            ranking::is_top(keys@, k as nat, at),
            j <= order@.len(),
            out@ == picked(entries(items@), scores@, at.take(j as int)),
        decreases order@.len() - j,
    {
        assert(at[j as int] == order@[j as int] as int);
        let p = order[j];
        out.push((items[p].0, scores[p]));
        j += 1;
        assert(out@ =~= picked(entries(items@), scores@, at.take(j as int)));
    }
    assert(at.take(j as int) =~= at);
    out
}

/// The `k` entries most similar to the query.
fn brute_topk<K: Kernel>(
    kernel: &K,
    items: &Vec<(u64, Vec<u32>)>,
    query: &Vec<u32>,
    k: usize,
) -> (r: Vec<(u64, u32)>)
    ensures
        exact_gives(*kernel, entries(items@), query@, k as nat, r@),
{
    let mut scores: Vec<u32> = Vec::with_capacity(items.len());
    let mut i: usize = 0;
    while i < items.len()
        invariant
            i <= items@.len(),
            scores@.len() == i,
            forall|j: int|
                0 <= j < i ==> similarity_gives(
                    *kernel,
                    query@,
                    entries(items@)[j].1,
                    #[trigger] scores@[j],
                ),
        decreases items@.len() - i,
    {
        let s = similarity(kernel, query, &items[i].1);
        assert(entries(items@)[i as int].1 == items@[i as int].1@);
        scores.push(s);
        i += 1;
    }
    assert(similarities_give(*kernel, entries(items@), query@, scores@));
    pick_top(items, &scores, k)
}

/// An index that looks at all its vectors.
pub struct BruteForceIndex<K> {
    kernel: Arc<K>,
    items: Vec<(u64, Vec<u32>)>,
}

impl<K: Kernel> BruteForceIndex<K> {
    /// The vectors that are held, in the order in which they came in.
    pub closed spec fn held(&self) -> Seq<(u64, Seq<u32>)> {
        entries(self.items@)
    }

    /// The kernel that computes for this index.
    pub closed spec fn arithmetic(&self) -> K {
        *self.kernel
    }

    /// An index without vectors.
    pub fn new(kernel: Arc<K>) -> (r: Self)
        ensures
            r.held() == Seq::<(u64, Seq<u32>)>::empty(),
            r.arithmetic() == *kernel,
    {
        let r = BruteForceIndex { kernel, items: Vec::new() };
        assert(r.held() =~= Seq::empty());
        r
    }
}

impl<K: Kernel> VectorIndex for BruteForceIndex<K> {
    fn add(&mut self, id: u64, vector: Vec<u32>)
        ensures
            final(self).held() == old(self).held().push((id, vector@)),
            final(self).arithmetic() == old(self).arithmetic(),
    {
        self.items.push((id, vector));
        assert(self.held() =~= old(self).held().push((id, vector@)));
    }

    fn search(&self, query: &Vec<u32>, k: usize) -> (r: Vec<(u64, u32)>)
        ensures
            exact_gives(self.arithmetic(), self.held(), query@, k as nat, r@),
            r@.len() <= k,
    {
        let r = brute_topk(&*self.kernel, &self.items, query, k);
        proof {
            exact_is_bounded(self.arithmetic(), self.held(), query@, k as nat, r@);
        }
        r
    }

    fn rebuild(self, items: Vec<(u64, Vec<u32>)>) -> (r: Self)
        ensures
            r.held() == entries(items@),
            r.arithmetic() == self.arithmetic(),
    {
        BruteForceIndex { kernel: self.kernel, items }
    }

    fn len(&self) -> (r: usize)
        ensures
            r == self.held().len(),
    {
        self.items.len()
    }

    fn is_empty(&self) -> (r: bool)
        ensures
            r == (self.held().len() == 0),
    {
        self.items.len() == 0
    }
}

// ---------------------------------------------------------------------
// Search through a graph
// ---------------------------------------------------------------------

/// An index that searches a graph. Vectors that come in one by one are kept
/// aside until the next rebuild.
pub struct HnswIndex<K, G> {
    kernel: Arc<K>,
    items: Vec<(u64, Vec<u32>)>,
    map: Option<G>,
    dirty: bool,
}

/// `g` is a graph built over the entries `items`.
pub open spec fn built_over<G: Graph>(g: G, items: Seq<(u64, Seq<u32>)>) -> bool {
    exists|points: Vec<Vec<u32>>, values: Vec<u64>| #[trigger]
        call_ensures(G::build, (points, values), g) && points@.map_values(|v: Vec<u32>| v@)
            == items.map_values(|e: (u64, Seq<u32>)| e.1) && values@ == items.map_values(
            |e: (u64, Seq<u32>)| e.0,
        )
}

/// A graph is built over all entries, in order: as many vectors as there are
/// entries, each with the number of its entry.
pub proof fn a_graph_knows_every_entry<G: Graph>(g: G, items: Seq<(u64, Seq<u32>)>) -> (made: (
    Vec<Vec<u32>>,
    Vec<u64>,
))
    requires
        built_over(g, items),
    ensures
        call_ensures(G::build, (made.0, made.1), g),
        made.0@.len() == items.len(),
        made.1@.len() == items.len(),
        forall|i: int| 0 <= i < items.len() ==> (#[trigger] made.0@[i])@ == items[i].1,
        forall|i: int| 0 <= i < items.len() ==> #[trigger] made.1@[i] == items[i].0,
{
    let (points, values) = choose|points: Vec<Vec<u32>>, values: Vec<u64>| #[trigger]
        call_ensures(G::build, (points, values), g) && points@.map_values(|v: Vec<u32>| v@)
            == items.map_values(|e: (u64, Seq<u32>)| e.1) && values@ == items.map_values(
            |e: (u64, Seq<u32>)| e.0,
        );
    let shown = points@.map_values(|v: Vec<u32>| v@);
    let wanted = items.map_values(|e: (u64, Seq<u32>)| e.1);
    assert(shown == wanted);
    assert(shown.len() == points@.len() && wanted.len() == items.len());
    assert forall|i: int| 0 <= i < items.len() implies (#[trigger] points@[i])@ == items[i].1 by {
        assert(shown[i] == points@[i]@);
        assert(wanted[i] == items[i].1);
    }
    (points, values)
}

/// The first `n` answers, or all where there are fewer.
pub open spec fn first_of(v: Seq<(u64, u32)>, n: nat) -> Seq<(u64, u32)> {
    if v.len() > n {
        v.take(n as int)
    } else {
        v
    }
}

/// A cut keeps the first answers, in order, and as many as were asked for where
/// there are as many.
pub proof fn a_cut_keeps_the_first(v: Seq<(u64, u32)>, n: nat)
    ensures
        first_of(v, n).len() == (if v.len() < n {
            v.len()
        } else {
            n
        }),
        forall|i: int| 0 <= i < first_of(v, n).len() ==> (#[trigger] first_of(v, n)[i]) == v[i],
{
}

/// The first `k` answers.
fn cut(v: &Vec<(u64, u32)>, k: usize) -> (r: Vec<(u64, u32)>)
    ensures
        r@ == first_of(v@, k as nat),
        r@.len() <= k,
{
    let mut out: Vec<(u64, u32)> = Vec::new();
    let mut i: usize = 0;
    while i < v.len() && i < k
        invariant
            i <= v@.len(),
            i <= k,
            out@ == v@.take(i as int),
        decreases v@.len() - i,
    {
        out.push(v[i]);
        i += 1;
        assert(out@ =~= v@.take(i as int));
    }
    assert(out@ =~= first_of(v@, k as nat));
    out
}

/// An exact answer holds no more than was asked for.
proof fn exact_is_bounded<K: Kernel>(
    k: K,
    items: Seq<(u64, Seq<u32>)>,
    query: Seq<u32>,
    n: nat,
    r: Seq<(u64, u32)>,
)
    requires
        exact_gives(k, items, query, n, r),
    ensures
        r.len() <= n,
{
}

impl<K: Kernel, G: Graph> HnswIndex<K, G> {
    /// The vectors that are held, in the order in which they came in.
    pub closed spec fn held(&self) -> Seq<(u64, Seq<u32>)> {
        entries(self.items@)
    }

    /// The graph that answers searches, if there is one up to date.
    pub closed spec fn graph(&self) -> Option<G> {
        if self.dirty {
            None
        } else {
            self.map
        }
    }

    /// The kernel that computes for this index.
    pub closed spec fn arithmetic(&self) -> K {
        *self.kernel
    }

    /// An index without vectors.
    pub fn new(kernel: Arc<K>) -> (r: Self)
        ensures
            r.held() == Seq::<(u64, Seq<u32>)>::empty(),
            r.graph() is None,
            r.arithmetic() == *kernel,
    {
        let r = HnswIndex { kernel, items: Vec::new(), map: None, dirty: false };
        assert(r.held() =~= Seq::empty());
        r
    }
}

impl<K: Kernel, G: Graph> VectorIndex for HnswIndex<K, G> {
    fn add(&mut self, id: u64, vector: Vec<u32>)
        ensures
            final(self).held() == old(self).held().push((id, vector@)),
            final(self).graph() is None,
            final(self).arithmetic() == old(self).arithmetic(),
    {
        self.items.push((id, vector));
        self.dirty = true;
        assert(self.held() =~= old(self).held().push((id, vector@)));
    }

    fn search(&self, query: &Vec<u32>, k: usize) -> (r: Vec<(u64, u32)>)
        ensures
            match self.graph() {
                Some(g) => exists|near: Vec<(u64, u32)>| #[trigger]
                    call_ensures(G::nearest, (&g, query), near) && r@ == first_of(
                        near@,
                        k as nat,
                    ),
                None => exact_gives(self.arithmetic(), self.held(), query@, k as nat, r@),
            },
            r@.len() <= k,
    {
        if !self.dirty {
            if let Some(map) = &self.map {
                let near = map.nearest(query);
                return cut(&near, k);
            }
        }
        let r = brute_topk(&*self.kernel, &self.items, query, k);
        proof {
            exact_is_bounded(self.arithmetic(), self.held(), query@, k as nat, r@);
        }
        r
    }

    fn rebuild(self, items: Vec<(u64, Vec<u32>)>) -> (r: Self)
        ensures
            r.held() == entries(items@),
            r.arithmetic() == self.arithmetic(),
            match r.graph() {
                Some(g) => items@.len() > 0 && built_over(g, entries(items@)),
                None => items@.len() == 0,
            },
    {
        let mut points: Vec<Vec<u32>> = Vec::with_capacity(items.len());
        let mut values: Vec<u64> = Vec::with_capacity(items.len());
        let mut i: usize = 0;
        while i < items.len()
            invariant
                i <= items@.len(),
                points@.len() == i,
                values@.len() == i,
                forall|j: int| 0 <= j < i ==> (#[trigger] points@[j])@ == items@[j].1@,
                forall|j: int| 0 <= j < i ==> (#[trigger] values@[j]) == items@[j].0,
            decreases items@.len() - i,
        {
            points.push(items[i].1.clone());
            values.push(items[i].0);
            i += 1;
        }
        proof {
            assert(points@.map_values(|v: Vec<u32>| v@) =~= entries(items@).map_values(
                |e: (u64, Seq<u32>)| e.1,
            ));
            assert(values@ =~= entries(items@).map_values(|e: (u64, Seq<u32>)| e.0));
        }
        let map = if points.len() == 0 {
            None
        } else {
            Some(G::build(points, values))
        };
        HnswIndex { kernel: self.kernel, items, map, dirty: false }
    }

    fn len(&self) -> (r: usize)
        ensures
            r == self.held().len(),
    {
        self.items.len()
    }

    fn is_empty(&self) -> (r: bool)
        ensures
            r == (self.held().len() == 0),
    {
        self.items.len() == 0
    }
}

} // verus!
