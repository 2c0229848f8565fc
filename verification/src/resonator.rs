//! Reading facts back out of a superposition.
//!
//! A memory vector is the sum of many bound facts. Unbinding a role gives the
//! value bound to it plus noise from all the other facts, and the nearest
//! vocabulary vector is a first guess. The guesses are then refined in passes:
//! each pass subtracts what the guesses for all other facts explain, decodes
//! again, and takes over a part of the new answers. It ends when a pass
//! changes nothing.

use crate::bytes::{self, first_word, push_all, push_le_bytes, utf8};
use crate::entropy::{self, flips_from_key, sha256};
use crate::hlb::{self, bind_hlb, poles_of, unbind_hlb, HlbError};
use crate::kernel::{self, add_vectors, subtract_vectors, zeros, Kernel};
use crate::score::ZERO;
use crate::text;
use crate::vocab::{self, Vocab};
use vstd::prelude::*;

verus! {

broadcast use vstd::string::group_string_axioms;

// ---------------------------------------------------------------------
// Roles
// ---------------------------------------------------------------------

/// The message that the role of a key is derived from.
pub open spec fn role_message(key: Seq<char>, dim: nat) -> Seq<u8> {
    vstd::utf8::encode_utf8(key) + seq![58u8] + bytes::le_bytes(dim, 8)
}

/// The role of a key: a bipolar vector drawn from the digest of the key and
/// the dimension.
pub open spec fn key_role(key: Seq<char>, dim: nat) -> Seq<u32> {
    hlb::poles(entropy::keyed_flips(entropy::digest(role_message(key, dim)), dim))
}

/// The role of a key, the same in every run and on every machine.
pub fn role_from_key(key: &str, dim: usize) -> (r: Vec<u32>)
    ensures
        r@ == key_role(key@, dim as nat),
        r@.len() == dim,
        hlb::all_bipolar(r@),
{
    let mut message = utf8(key);
    message.push(58u8);
    push_le_bytes(&mut message, dim as u64);
    assert(message@ =~= role_message(key@, dim as nat));
    let seed = sha256(&message);
    let flips = flips_from_key(&seed, dim);
    poles_of(&flips)
}

// ---------------------------------------------------------------------
// Specification of the decoder
// ---------------------------------------------------------------------

/// Whether a new answer `guess` for `key` is taken over. It is for about half
/// of all pairs, decided by a digest: the first four bytes, least significant
/// first, exceed the largest number that binary32 division by the largest
/// word still rounds to one half.
pub open spec fn takes_over(key: Seq<char>, guess: int) -> bool {
    bytes::le_number(
        entropy::digest(vstd::utf8::encode_utf8(key) + bytes::le_bytes(guess as nat, 8)).take(4),
    ) > 2_147_483_776
}

/// `g` is the value nearest to what unbinding `role` from `memory` gives.
pub open spec fn guess_gives<K: Kernel>(
    k: K,
    live: Seq<Seq<u32>>,
    memory: Seq<u32>,
    role: Seq<u32>,
    g: int,
) -> bool {
    exists|s: u32| #[trigger] vocab::nearest_gives(k, live, hlb::signed(role, memory), (g, s))
}

/// `p` holds a first guess for each role.
pub open spec fn first_gives<K: Kernel>(
    k: K,
    live: Seq<Seq<u32>>,
    memory: Seq<u32>,
    roles: Seq<Seq<u32>>,
    p: Seq<int>,
) -> bool {
    &&& p.len() == roles.len()
    &&& forall|i: int| 0 <= i < roles.len() ==> guess_gives(k, live, memory, roles[i], #[trigger] p[i])
}

/// What each role contributes to the memory if the guesses `p` are right.
pub open spec fn contributions(live: Seq<Seq<u32>>, roles: Seq<Seq<u32>>, p: Seq<int>) -> Seq<
    Seq<u32>,
> {
    Seq::new(roles.len(), |i: int| hlb::signed(roles[i], live[p[i]]))
}

/// `e` is the sum of the vectors `parts` of length `dim`, added in order to
/// the zero vector.
pub open spec fn total_gives<K: Kernel>(k: K, dim: nat, parts: Seq<Seq<u32>>, e: Seq<u32>) -> bool
    decreases parts.len(),
{
    if parts.len() == 0 {
        e == Seq::new(dim, |i: int| ZERO)
    } else {
        exists|before: Seq<u32>|
            total_gives(k, dim, parts.drop_last(), before) && #[trigger] kernel::sum_gives(
                k,
                before,
                parts.last(),
                e,
            )
    }
}

/// The answer for one key after a pass, from its answer `prev` before and the
/// answer `g` that the pass decoded.
pub open spec fn settled(key: Seq<char>, prev: int, g: int) -> int {
    if g != prev && takes_over(key, g) {
        g
    } else {
        prev
    }
}

/// `g` is what a pass decodes for one role: the memory without what the
/// guesses for the other facts explain.
pub open spec fn isolated_gives<K: Kernel>(
    k: K,
    live: Seq<Seq<u32>>,
    memory: Seq<u32>,
    explained: Seq<u32>,
    role: Seq<u32>,
    prev: int,
    g: int,
) -> bool {
    exists|others: Seq<u32>, cleaned: Seq<u32>|
        #![trigger kernel::difference_gives(k, memory, others, cleaned)]
        {
            &&& kernel::difference_gives(k, explained, hlb::signed(role, live[prev]), others)
            &&& kernel::difference_gives(k, memory, others, cleaned)
            &&& guess_gives(k, live, cleaned, role, g)
        }
}

/// `next` is the answer for one key after a pass.
pub open spec fn refined_gives<K: Kernel>(
    k: K,
    live: Seq<Seq<u32>>,
    memory: Seq<u32>,
    explained: Seq<u32>,
    key: Seq<char>,
    role: Seq<u32>,
    prev: int,
    next: int,
) -> bool {
    exists|g: int| #[trigger]
        isolated_gives(k, live, memory, explained, role, prev, g) && next == settled(key, prev, g)
}

/// `q` holds the answers after a pass over all keys that started from `p`.
pub open spec fn pass_gives<K: Kernel>(
    k: K,
    live: Seq<Seq<u32>>,
    memory: Seq<u32>,
    keys: Seq<Seq<char>>,
    roles: Seq<Seq<u32>>,
    p: Seq<int>,
    q: Seq<int>,
) -> bool {
    exists|explained: Seq<u32>| #[trigger]
        total_gives(k, memory.len(), contributions(live, roles, p), explained) && q.len()
            == p.len() && forall|i: int|
            0 <= i < p.len() ==> refined_gives(
                k,
                live,
                memory,
                explained,
                keys[i],
                roles[i],
                p[i],
                #[trigger] q[i],
            )
}

/// `r` holds the answers after at most `n` passes that start from `p` and end
/// early when a pass changes nothing.
pub open spec fn passes_give<K: Kernel>(
    k: K,
    live: Seq<Seq<u32>>,
    memory: Seq<u32>,
    keys: Seq<Seq<char>>,
    roles: Seq<Seq<u32>>,
    p: Seq<int>,
    n: nat,
    r: Seq<int>,
) -> bool
    decreases n,
{
    if n == 0 {
        r == p
    } else {
        exists|q: Seq<int>| #[trigger]
            pass_gives(k, live, memory, keys, roles, p, q) && if q == p {
                r == p
            } else {
                passes_give(k, live, memory, keys, roles, q, (n - 1) as nat, r)
            }
    }
}

/// `r` holds the decoded answers for all keys.
pub open spec fn decoded_gives<K: Kernel>(
    k: K,
    live: Seq<Seq<u32>>,
    memory: Seq<u32>,
    keys: Seq<Seq<char>>,
    roles: Seq<Seq<u32>>,
    n: nat,
    r: Seq<int>,
) -> bool {
    exists|p: Seq<int>| #[trigger]
        first_gives(k, live, memory, roles, p) && passes_give(k, live, memory, keys, roles, p, n, r)
}

// ---------------------------------------------------------------------
// Laws
// ---------------------------------------------------------------------

/// Whether the noise is low enough for the decoder to see the truth: the
/// first guesses are right, and decoding is right again once the other facts
/// are taken out.
pub open spec fn clear<K: Kernel>(
    k: K,
    live: Seq<Seq<u32>>,
    memory: Seq<u32>,
    roles: Seq<Seq<u32>>,
    truth: Seq<int>,
) -> bool {
    &&& truth.len() == roles.len()
    &&& forall|i: int, g: int|
        0 <= i < roles.len() && #[trigger] guess_gives(k, live, memory, roles[i], g) ==> g
            == truth[i]
    &&& forall|explained: Seq<u32>, i: int, g: int|
        0 <= i < roles.len() && total_gives(
            k,
            memory.len(),
            contributions(live, roles, truth),
            explained,
        ) && #[trigger] isolated_gives(k, live, memory, explained, roles[i], truth[i], g) ==> g
            == truth[i]
}

/// Where the noise is low enough, every answer is the stored one, however
/// many passes are made.
pub proof fn clear_memory_is_read_back<K: Kernel>(
    k: K,
    live: Seq<Seq<u32>>,
    memory: Seq<u32>,
    keys: Seq<Seq<char>>,
    roles: Seq<Seq<u32>>,
    truth: Seq<int>,
    n: nat,
    r: Seq<int>,
)
    requires
        clear(k, live, memory, roles, truth),
        decoded_gives(k, live, memory, keys, roles, n, r),
    ensures
        r == truth,
{
    let p = choose|p: Seq<int>| #[trigger]
        first_gives(k, live, memory, roles, p) && passes_give(k, live, memory, keys, roles, p, n, r);
    assert forall|i: int| 0 <= i < roles.len() implies p[i] == truth[i] by {
        assert(guess_gives(k, live, memory, roles[i], p[i]));
    }
    assert(p =~= truth);
    if n > 0 {
        let q = choose|q: Seq<int>| #[trigger]
            pass_gives(k, live, memory, keys, roles, p, q) && if q == p {
                r == p
            } else {
                passes_give(k, live, memory, keys, roles, q, (n - 1) as nat, r)
            };
        let explained = choose|explained: Seq<u32>| #[trigger]
            total_gives(k, memory.len(), contributions(live, roles, p), explained) && q.len()
                == p.len() && forall|i: int|
                0 <= i < p.len() ==> refined_gives(
                    k,
                    live,
                    memory,
                    explained,
                    keys[i],
                    roles[i],
                    p[i],
                    #[trigger] q[i],
                );
        assert forall|i: int| 0 <= i < p.len() implies q[i] == p[i] by {
            assert(refined_gives(k, live, memory, explained, keys[i], roles[i], p[i], q[i]));
            let g = choose|g: int| #[trigger]
                isolated_gives(k, live, memory, explained, roles[i], p[i], g) && q[i] == settled(
                    keys[i],
                    p[i],
                    g,
                );
            assert(g == truth[i]);
        }
        assert(q =~= p);
    }
}

/// Without passes the first guesses stand.
pub proof fn no_passes_keep_the_guesses<K: Kernel>(
    k: K,
    live: Seq<Seq<u32>>,
    memory: Seq<u32>,
    keys: Seq<Seq<char>>,
    roles: Seq<Seq<u32>>,
    r: Seq<int>,
)
    requires
        decoded_gives(k, live, memory, keys, roles, 0, r),
    ensures
        first_gives(k, live, memory, roles, r),
{
}

// ---------------------------------------------------------------------
// Decoder
// ---------------------------------------------------------------------

/// The message for the role of a key is the key's own bytes, a colon, and the
/// dimension in eight bytes, the least significant first: so keys differ in
/// their messages at one dimension, and dimensions for one key.
pub proof fn a_role_is_derived_from_key_and_dimension(key: Seq<char>, dim: nat)
    requires
        dim <= u64::MAX,
    ensures
        ({
            let m = role_message(key, dim);
            let n = vstd::utf8::encode_utf8(key).len() as int;
            &&& m.len() == n + 9
            &&& m.take(n) == vstd::utf8::encode_utf8(key)
            &&& m[n] == 0x3a
            &&& bytes::le_number(m.skip(n + 1)) == dim
        }),
{
    let m = role_message(key, dim);
    let n = vstd::utf8::encode_utf8(key).len() as int;
    assert(vstd::arithmetic::power::pow(256, 8) == 0x1_0000_0000_0000_0000) by {
        reveal(vstd::arithmetic::power::pow);
        reveal_with_fuel(vstd::arithmetic::power::pow, 9);
    }
    bytes::le_number_of_le_bytes(dim, 8);
    assert(m.take(n) =~= vstd::utf8::encode_utf8(key));
    assert(m.skip(n + 1) =~= bytes::le_bytes(dim, 8));
}

/// The role of a key is made of the coin flips for the digest of its message: the
/// pattern of one for heads, and that of minus one for tails.
pub proof fn a_role_is_made_of_coin_flips(key: Seq<char>, dim: nat, j: int)
    requires
        0 <= j < entropy::keyed_flips(entropy::digest(role_message(key, dim)), dim).len(),
    ensures
        ({
            let flips = entropy::keyed_flips(entropy::digest(role_message(key, dim)), dim);
            &&& key_role(key, dim).len() == flips.len()
            &&& flips[j] ==> key_role(key, dim)[j] == 0x3f80_0000
            &&& !flips[j] ==> key_role(key, dim)[j] == 0xbf80_0000
        }),
{
    hlb::flips_become_signs(
        entropy::keyed_flips(entropy::digest(role_message(key, dim)), dim),
        j,
    );
}

/// A guess is the value nearest to what unbinding the role from the memory leaves:
/// the memory's entries with the signs of the role. Without passes every answer is
/// such a guess, each for its own role.
pub proof fn first_answers_are_nearest_values<K: Kernel>(
    k: K,
    live: Seq<Seq<u32>>,
    memory: Seq<u32>,
    keys: Seq<Seq<char>>,
    roles: Seq<Seq<u32>>,
    r: Seq<int>,
    i: int,
) -> (found: (Seq<u32>, u32))
    requires
        decoded_gives(k, live, memory, keys, roles, 0, r),
        0 <= i < roles.len(),
    ensures
        r.len() == roles.len(),
        vocab::nearest_gives(k, live, found.0, (r[i], found.1)),
        found.0.len() == memory.len(),
        forall|j: int|
            0 <= j < memory.len() ==> #[trigger] found.0[j] == (if roles[i][j] == 0x3f80_0000 {
                memory[j]
            } else {
                crate::score::negated(memory[j])
            }),
{
    no_passes_keep_the_guesses(k, live, memory, keys, roles, r);
    assert(guess_gives(k, live, memory, roles[i], r[i]));
    let s = choose|s: u32| #[trigger]
        vocab::nearest_gives(k, live, hlb::signed(roles[i], memory), (r[i], s));
    (hlb::signed(roles[i], memory), s)
}

/// An answer explains what its value's vector adds under its role, and all answers
/// together the sum of that, added in order to zeros.
pub proof fn answers_explain_their_parts<K: Kernel>(
    k: K,
    live: Seq<Seq<u32>>,
    roles: Seq<Seq<u32>>,
    p: Seq<int>,
    i: int,
    j: int,
    dim: nat,
    parts: Seq<Seq<u32>>,
    more: Seq<u32>,
    e: Seq<u32>,
)
    requires
        0 <= i < roles.len(),
        0 <= j < live[p[i]].len(),
        total_gives(k, dim, parts.push(more), e),
    ensures
        contributions(live, roles, p).len() == roles.len(),
        contributions(live, roles, p)[i][j] == (if roles[i][j] == 0x3f80_0000 {
            live[p[i]][j]
        } else {
            crate::score::negated(live[p[i]][j])
        }),
        exists|before: Seq<u32>|
            #![trigger total_gives(k, dim, parts, before)]
            total_gives(k, dim, parts, before) && e.len() == before.len() && forall|x: int|
                0 <= x < e.len() ==> kernel::plus_gives(k, before[x], more[x], #[trigger] e[x]),
        forall|z: Seq<u32>|
            #[trigger] total_gives(k, dim, Seq::empty(), z) ==> z.len() == dim && forall|x: int|
                0 <= x < dim ==> #[trigger] z[x] == 0,
{
    let all = parts.push(more);
    assert(all.drop_last() =~= parts);
    let before = choose|before: Seq<u32>|
        total_gives(k, dim, all.drop_last(), before) && #[trigger] kernel::sum_gives(
            k,
            before,
            all.last(),
            e,
        );
    assert(total_gives(k, dim, parts, before));
}

/// The answers come about by passes, each from the answers before it, and there
/// are no more of them than allowed. Where fewer were made, one more would have
/// changed nothing.
pub proof fn passes_end_where_nothing_changes<K: Kernel>(
    k: K,
    live: Seq<Seq<u32>>,
    memory: Seq<u32>,
    keys: Seq<Seq<char>>,
    roles: Seq<Seq<u32>>,
    p: Seq<int>,
    n: nat,
    r: Seq<int>,
) -> (steps: Seq<Seq<int>>)
    requires
        passes_give(k, live, memory, keys, roles, p, n, r),
    ensures
        0 < steps.len() <= n + 1,
        steps[0] == p,
        steps.last() == r,
        forall|i: int|
            0 <= i < steps.len() - 1 ==> pass_gives(
                k,
                live,
                memory,
                keys,
                roles,
                #[trigger] steps[i],
                steps[i + 1],
            ) && steps[i] != steps[i + 1],
        steps.len() < n + 1 ==> pass_gives(k, live, memory, keys, roles, r, r),
    decreases n,
{
    if n == 0 {
        seq![p]
    } else {
        let q = choose|q: Seq<int>| #[trigger]
            pass_gives(k, live, memory, keys, roles, p, q) && if q == p {
                r == p
            } else {
                passes_give(k, live, memory, keys, roles, q, (n - 1) as nat, r)
            };
        if q == p {
            seq![p]
        } else {
            let rest = passes_end_where_nothing_changes(
                k,
                live,
                memory,
                keys,
                roles,
                q,
                (n - 1) as nat,
                r,
            );
            let steps = seq![p] + rest;
            assert(steps[1] == rest[0]);
            assert forall|i: int| 0 <= i < steps.len() - 1 implies pass_gives(
                k,
                live,
                memory,
                keys,
                roles,
                #[trigger] steps[i],
                steps[i + 1],
            ) && steps[i] != steps[i + 1] by {
                if i > 0 {
                    assert(steps[i] == rest[i - 1]);
                    assert(steps[i + 1] == rest[i]);
                }
            }
            assert(steps.last() == rest.last());
            steps
        }
    }
}

/// A pass changes an answer only to one that the digest of key and answer lets
/// in: the first four bytes of the digest, the least significant first, are
/// above the bound.
pub proof fn a_pass_takes_over_what_the_digest_lets_in<K: Kernel>(
    k: K,
    live: Seq<Seq<u32>>,
    memory: Seq<u32>,
    keys: Seq<Seq<char>>,
    roles: Seq<Seq<u32>>,
    p: Seq<int>,
    q: Seq<int>,
    i: int,
) -> (g: int)
    requires
        pass_gives(k, live, memory, keys, roles, p, q),
        0 <= i < p.len(),
    ensures
        q.len() == p.len(),
        ({
            let d = entropy::digest(
                vstd::utf8::encode_utf8(keys[i]) + bytes::le_bytes(g as nat, 8),
            );
            &&& bytes::le_number(d.take(4)) > 0x8000_0080 ==> q[i] == g
            &&& bytes::le_number(d.take(4)) <= 0x8000_0080 ==> q[i] == p[i]
        }),
{
    let explained = choose|explained: Seq<u32>| #[trigger]
        total_gives(k, memory.len(), contributions(live, roles, p), explained) && q.len() == p.len()
            && forall|i: int|
            0 <= i < p.len() ==> refined_gives(
                k,
                live,
                memory,
                explained,
                keys[i],
                roles[i],
                p[i],
                #[trigger] q[i],
            );
    assert(refined_gives(k, live, memory, explained, keys[i], roles[i], p[i], q[i]));
    choose|g: int| #[trigger]
        isolated_gives(k, live, memory, explained, roles[i], p[i], g) && q[i] == settled(
            keys[i],
            p[i],
            g,
        )
}

/// A pass looks at one fact with all others taken out. Where the memory holds
/// just what the answers explain, and differences are exact, what is left is the
/// part of the fact itself, and unbinding it leaves the vector of its answer: so
/// the pass decodes what is nearest to that.
pub proof fn a_pass_takes_the_others_out<K: Kernel>(
    k: K,
    live: Seq<Seq<u32>>,
    memory: Seq<u32>,
    role: Seq<u32>,
    prev: int,
    g: int,
)
    requires
        forall|x: u32, y: u32, a: u32, b: u32|
            #[trigger] kernel::minus_gives(k, x, y, a) && #[trigger] kernel::minus_gives(
                k,
                x,
                a,
                b,
            ) ==> b == y,
        live[prev].len() == memory.len(),
        isolated_gives(k, live, memory, memory, role, prev, g),
    ensures
        exists|s: u32| #[trigger] vocab::nearest_gives(k, live, live[prev], (g, s)),
{
    let (others, cleaned) = choose|others: Seq<u32>, cleaned: Seq<u32>|
        #![trigger kernel::difference_gives(k, memory, others, cleaned)]
        {
            &&& kernel::difference_gives(k, memory, hlb::signed(role, live[prev]), others)
            &&& kernel::difference_gives(k, memory, others, cleaned)
            &&& guess_gives(k, live, cleaned, role, g)
        };
    let own = hlb::signed(role, live[prev]);
    assert forall|i: int| 0 <= i < cleaned.len() implies cleaned[i] == own[i] by {
        assert(kernel::minus_gives(k, memory[i], own[i], others[i]));
        assert(kernel::minus_gives(k, memory[i], others[i], cleaned[i]));
    }
    assert(cleaned =~= own);
    hlb::signed_is_involution(role, live[prev]);
    let s = choose|s: u32| #[trigger]
        vocab::nearest_gives(k, live, hlb::signed(role, cleaned), (g, s));
    assert(vocab::nearest_gives(k, live, live[prev], (g, s)));
}

/// With a steady kernel the decoder gives the same answers every time.
pub proof fn decoding_is_repeatable<K: Kernel>(
    k: K,
    live: Seq<Seq<u32>>,
    memory: Seq<u32>,
    keys: Seq<Seq<char>>,
    roles: Seq<Seq<u32>>,
    n: nat,
    a: Seq<int>,
    b: Seq<int>,
)
    requires
        kernel::steady(k),
        decoded_gives(k, live, memory, keys, roles, n, a),
        decoded_gives(k, live, memory, keys, roles, n, b),
    ensures
        a == b,
{
    let p = choose|p: Seq<int>| #[trigger]
        first_gives(k, live, memory, roles, p) && passes_give(k, live, memory, keys, roles, p, n, a);
    let q = choose|p: Seq<int>| #[trigger]
        first_gives(k, live, memory, roles, p) && passes_give(k, live, memory, keys, roles, p, n, b);
    assert forall|i: int| 0 <= i < roles.len() implies p[i] == q[i] by {
        steady_guess(k, live, memory, roles[i], p[i], q[i]);
    }
    assert(p =~= q);
    steady_passes(k, live, memory, keys, roles, p, n, a, b);
}

proof fn steady_guess<K: Kernel>(
    k: K,
    live: Seq<Seq<u32>>,
    memory: Seq<u32>,
    role: Seq<u32>,
    g: int,
    h: int,
)
    requires
        kernel::steady(k),
        guess_gives(k, live, memory, role, g),
        guess_gives(k, live, memory, role, h),
    ensures
        g == h,
{
    let query = hlb::signed(role, memory);
    let s = choose|s: u32| #[trigger] vocab::nearest_gives(k, live, query, (g, s));
    let t = choose|s: u32| #[trigger] vocab::nearest_gives(k, live, query, (h, s));
    vocab::steady_nearest(k, live, query, (g, s), (h, t));
}

proof fn steady_total<K: Kernel>(
    k: K,
    dim: nat,
    parts: Seq<Seq<u32>>,
    a: Seq<u32>,
    b: Seq<u32>,
)
    requires
        kernel::steady(k),
        total_gives(k, dim, parts, a),
        total_gives(k, dim, parts, b),
    ensures
        a == b,
    decreases parts.len(),
{
    if parts.len() > 0 {
        let x = choose|before: Seq<u32>|
            total_gives(k, dim, parts.drop_last(), before) && #[trigger] kernel::sum_gives(
                k,
                before,
                parts.last(),
                a,
            );
        let y = choose|before: Seq<u32>|
            total_gives(k, dim, parts.drop_last(), before) && #[trigger] kernel::sum_gives(
                k,
                before,
                parts.last(),
                b,
            );
        steady_total(k, dim, parts.drop_last(), x, y);
        kernel::steady_sum(k, x, parts.last(), a, b);
    }
}

proof fn steady_isolated<K: Kernel>(
    k: K,
    live: Seq<Seq<u32>>,
    memory: Seq<u32>,
    explained: Seq<u32>,
    role: Seq<u32>,
    prev: int,
    g: int,
    h: int,
)
    requires
        kernel::steady(k),
        isolated_gives(k, live, memory, explained, role, prev, g),
        isolated_gives(k, live, memory, explained, role, prev, h),
    ensures
        g == h,
{
    let (o1, c1) = choose|others: Seq<u32>, cleaned: Seq<u32>|
        #![trigger kernel::difference_gives(k, memory, others, cleaned)]
        {
            &&& kernel::difference_gives(k, explained, hlb::signed(role, live[prev]), others)
            &&& kernel::difference_gives(k, memory, others, cleaned)
            &&& guess_gives(k, live, cleaned, role, g)
        };
    let (o2, c2) = choose|others: Seq<u32>, cleaned: Seq<u32>|
        #![trigger kernel::difference_gives(k, memory, others, cleaned)]
        {
            &&& kernel::difference_gives(k, explained, hlb::signed(role, live[prev]), others)
            &&& kernel::difference_gives(k, memory, others, cleaned)
            &&& guess_gives(k, live, cleaned, role, h)
        };
    kernel::steady_difference(k, explained, hlb::signed(role, live[prev]), o1, o2);
    kernel::steady_difference(k, memory, o1, c1, c2);
    steady_guess(k, live, c1, role, g, h);
}

proof fn steady_pass<K: Kernel>(
    k: K,
    live: Seq<Seq<u32>>,
    memory: Seq<u32>,
    keys: Seq<Seq<char>>,
    roles: Seq<Seq<u32>>,
    p: Seq<int>,
    a: Seq<int>,
    b: Seq<int>,
)
    requires
        kernel::steady(k),
        pass_gives(k, live, memory, keys, roles, p, a),
        pass_gives(k, live, memory, keys, roles, p, b),
    ensures
        a == b,
{
    let parts = contributions(live, roles, p);
    let x = choose|explained: Seq<u32>| #[trigger]
        total_gives(k, memory.len(), parts, explained) && a.len() == p.len() && forall|i: int|
            0 <= i < p.len() ==> refined_gives(
                k,
                live,
                memory,
                explained,
                keys[i],
                roles[i],
                p[i],
                #[trigger] a[i],
            );
    let y = choose|explained: Seq<u32>| #[trigger]
        total_gives(k, memory.len(), parts, explained) && b.len() == p.len() && forall|i: int|
            0 <= i < p.len() ==> refined_gives(
                k,
                live,
                memory,
                explained,
                keys[i],
                roles[i],
                p[i],
                #[trigger] b[i],
            );
    steady_total(k, memory.len(), parts, x, y);
    assert forall|i: int| 0 <= i < p.len() implies a[i] == b[i] by {
        assert(refined_gives(k, live, memory, x, keys[i], roles[i], p[i], a[i]));
        assert(refined_gives(k, live, memory, x, keys[i], roles[i], p[i], b[i]));
        let g = choose|g: int| #[trigger]
            isolated_gives(k, live, memory, x, roles[i], p[i], g) && a[i] == settled(
                keys[i],
                p[i],
                g,
            );
        let h = choose|g: int| #[trigger]
            isolated_gives(k, live, memory, x, roles[i], p[i], g) && b[i] == settled(
                keys[i],
                p[i],
                g,
            );
        steady_isolated(k, live, memory, x, roles[i], p[i], g, h);
    }
    assert(a =~= b);
}

proof fn steady_passes<K: Kernel>(
    k: K,
    live: Seq<Seq<u32>>,
    memory: Seq<u32>,
    keys: Seq<Seq<char>>,
    roles: Seq<Seq<u32>>,
    p: Seq<int>,
    n: nat,
    a: Seq<int>,
    b: Seq<int>,
)
    requires
        kernel::steady(k),
        passes_give(k, live, memory, keys, roles, p, n, a),
        passes_give(k, live, memory, keys, roles, p, n, b),
    ensures
        a == b,
    decreases n,
{
    if n > 0 {
        let x = choose|q: Seq<int>| #[trigger]
            pass_gives(k, live, memory, keys, roles, p, q) && if q == p {
                a == p
            } else {
                passes_give(k, live, memory, keys, roles, q, (n - 1) as nat, a)
            };
        let y = choose|q: Seq<int>| #[trigger]
            pass_gives(k, live, memory, keys, roles, p, q) && if q == p {
                b == p
            } else {
                passes_give(k, live, memory, keys, roles, q, (n - 1) as nat, b)
            };
        steady_pass(k, live, memory, keys, roles, p, x, y);
        if x != p {
            steady_passes(k, live, memory, keys, roles, x, (n - 1) as nat, a, b);
        }
    }
}

/// Decides whether a new answer is taken over.
fn decides_to_take_over(key: &str, guess: usize) -> (r: bool)
    ensures
        r == takes_over(key@, guess as int),
{
    let mut message = utf8(key);
    push_le_bytes(&mut message, guess as u64);
    let d = sha256(&message);
    first_word(&d) > 2_147_483_776
}

/// Binds a bipolar role to a value of the same length.
pub fn bind_role<K: Kernel>(kernel: &K, role: &Vec<u32>, value: &Vec<u32>) -> (r: Result<
    Vec<u32>,
    HlbError,
>)
    requires
        hlb::all_bipolar(role@),
        role@.len() == value@.len(),
    ensures
        r is Ok,
        r->Ok_0@ == hlb::signed(role@, value@),
{
    let bound = bind_hlb(kernel, role, value);
    proof {
        hlb::bipolar_products(*kernel, role@, value@, bound->Ok_0@);
    }
    bound
}

/// The value nearest to what unbinding `role` from `memory` gives.
fn guess<K: Kernel>(kernel: &K, vocab: &Vocab, memory: &Vec<u32>, role: &Vec<u32>) -> (r: Result<
    usize,
    HlbError,
>)
    requires
        vocab.wf(),
        vocab.names().len() > 0,
        memory@.len() == vocab.width(),
        role@.len() == vocab.width(),
        hlb::all_bipolar(role@),
    ensures
        r matches Ok(g) && g < vocab.names().len() && guess_gives(
            *kernel,
            vocab.live(),
            memory@,
            role@,
            g as int,
        ),
{
    let decoded = match unbind_hlb(kernel, memory, role) {
        Ok(d) => d,
        Err(e) => return Err(e),
    };
    proof {
        hlb::bipolar_products(*kernel, role@, memory@, decoded@);
    }
    match vocab.nearest(kernel, &decoded) {
        Some(hit) => {
            assert(vocab::nearest_gives(
                *kernel,
                vocab.live(),
                hlb::signed(role@, memory@),
                (hit.0 as int, hit.1),
            ));
            Ok(hit.0)
        },
        None => Ok(0),
    }
}

/// The views of a vector of vectors.
pub open spec fn contents(v: Seq<Vec<u32>>) -> Seq<Seq<u32>> {
    v.map_values(|x: Vec<u32>| x@)
}

/// A vector of indices as integers.
pub open spec fn indices(v: Seq<usize>) -> Seq<int> {
    v.map_values(|x: usize| x as int)
}

/// Every role is bipolar and has the length `dim`.
pub open spec fn proper_roles(roles: Seq<Vec<u32>>, dim: nat) -> bool {
    forall|i: int|
        0 <= i < roles.len() ==> (#[trigger] roles[i])@.len() == dim && hlb::all_bipolar(roles[i]@)
}

/// Every index is below `n`.
pub open spec fn below(p: Seq<usize>, n: nat) -> bool {
    forall|i: int| 0 <= i < p.len() ==> (#[trigger] p[i]) < n
}

/// The first guess for each role.
fn first_guesses<K: Kernel>(
    kernel: &K,
    vocab: &Vocab,
    memory: &Vec<u32>,
    roles: &Vec<Vec<u32>>,
) -> (r: Result<Vec<usize>, HlbError>)
    requires
        vocab.wf(),
        vocab.names().len() > 0,
        memory@.len() == vocab.width(),
        proper_roles(roles@, vocab.width()),
    ensures
        r matches Ok(p) && below(p@, vocab.names().len()) && first_gives(
            *kernel,
            vocab.live(),
            memory@,
            contents(roles@),
            indices(p@),
        ),
{
    let mut out: Vec<usize> = Vec::with_capacity(roles.len());
    let mut i: usize = 0;
    while i < roles.len()
        invariant
            vocab.wf(),
            vocab.names().len() > 0,
            memory@.len() == vocab.width(),
            proper_roles(roles@, vocab.width()),
            i <= roles@.len(),
            out@.len() == i,
            below(out@, vocab.names().len()),
            forall|j: int|
                0 <= j < i ==> guess_gives(
                    *kernel,
                    vocab.live(),
                    memory@,
                    contents(roles@)[j],
                    #[trigger] out@[j] as int,
                ),
        decreases roles@.len() - i,
    {
        assert(roles@[i as int]@.len() == vocab.width());
        let g = match guess(kernel, vocab, memory, &roles[i]) {
            Ok(g) => g,
            Err(e) => return Err(e),
        };
        out.push(g);
        i += 1;
    }
    assert forall|j: int| 0 <= j < contents(roles@).len() implies guess_gives(
        *kernel,
        vocab.live(),
        memory@,
        contents(roles@)[j],
        #[trigger] indices(out@)[j],
    ) by {
        assert(out@[j] as int == indices(out@)[j]);
    }
    Ok(out)
}

/// The sum of what all roles contribute if the guesses `p` are right.
fn explain<K: Kernel>(kernel: &K, vocab: &Vocab, roles: &Vec<Vec<u32>>, p: &Vec<usize>) -> (r:
    Result<Vec<u32>, HlbError>)
    requires
        vocab.wf(),
        proper_roles(roles@, vocab.width()),
        p@.len() == roles@.len(),
        below(p@, vocab.names().len()),
    ensures
        r matches Ok(e) && e@.len() == vocab.width() && total_gives(
            *kernel,
            vocab.width(),
            contributions(vocab.live(), contents(roles@), indices(p@)),
            e@,
        ),
{
    let ghost parts = contributions(vocab.live(), contents(roles@), indices(p@));
    let mut explained = zeros(vocab.dim());
    let mut i: usize = 0;
    proof {
        vocab.wf_facts();
    }
    assert(parts.take(0).len() == 0);
    while i < roles.len()
        invariant
            vocab.wf(),
            vocab.names().len() <= vocab.room(),
            proper_roles(roles@, vocab.width()),
            p@.len() == roles@.len(),
            below(p@, vocab.names().len()),
            parts == contributions(vocab.live(), contents(roles@), indices(p@)),
            i <= roles@.len(),
            explained@.len() == vocab.width(),
            total_gives(*kernel, vocab.width(), parts.take(i as int), explained@),
        decreases roles@.len() - i,
    {
        assert(roles@[i as int]@.len() == vocab.width());
        assert(p@[i as int] < vocab.names().len());
        let value = vocab.row(p[i]);
        let bound = match bind_role(kernel, &roles[i], value) {
            Ok(b) => b,
            Err(e) => return Err(e),
        };
        let ghost before = explained@;
        explained = add_vectors(kernel, &explained, &bound);
        proof {
            vocab.wf_facts();
            assert(vocab.live()[p@[i as int] as int] == value@);
            assert(parts[i as int] == bound@);
            assert(parts.take(i + 1).last() == bound@);
            assert(parts.take(i + 1).drop_last() =~= parts.take(i as int));
            assert(total_gives(*kernel, vocab.width(), parts.take(i + 1).drop_last(), before));
            assert(total_gives(*kernel, vocab.width(), parts.take(i + 1), explained@));
        }
        i += 1;
    }
    assert(parts.take(i as int) =~= parts);
    Ok(explained)
}

/// What a pass decodes for one role.
fn isolate<K: Kernel>(
    kernel: &K,
    vocab: &Vocab,
    memory: &Vec<u32>,
    explained: &Vec<u32>,
    role: &Vec<u32>,
    prev: usize,
) -> (r: Result<usize, HlbError>)
    requires
        vocab.wf(),
        memory@.len() == vocab.width(),
        explained@.len() == vocab.width(),
        role@.len() == vocab.width(),
        hlb::all_bipolar(role@),
        prev < vocab.names().len(),
    ensures
        r matches Ok(g) && g < vocab.names().len() && isolated_gives(
            *kernel,
            vocab.live(),
            memory@,
            explained@,
            role@,
            prev as int,
            g as int,
        ),
{
    proof {
        vocab.wf_facts();
    }
    let value = vocab.row(prev);
    assert(vocab.live()[prev as int] == value@);
    let own = match bind_role(kernel, role, value) {
        Ok(b) => b,
        Err(e) => return Err(e),
    };
    let others = subtract_vectors(kernel, explained, &own);
    let cleaned = subtract_vectors(kernel, memory, &others);
    assert(kernel::difference_gives(*kernel, memory@, others@, cleaned@));
    guess(kernel, vocab, &cleaned, role)
}

/// One pass over all keys.
fn refine<K: Kernel>(
    kernel: &K,
    vocab: &Vocab,
    memory: &Vec<u32>,
    keys: &Vec<String>,
    roles: &Vec<Vec<u32>>,
    p: &Vec<usize>,
) -> (r: Result<(Vec<usize>, bool), HlbError>)
    requires
        vocab.wf(),
        memory@.len() == vocab.width(),
        proper_roles(roles@, vocab.width()),
        keys@.len() == roles@.len(),
        p@.len() == roles@.len(),
        below(p@, vocab.names().len()),
    ensures
        r matches Ok((q, changed)) && {
            &&& q@.len() == p@.len()
            &&& below(q@, vocab.names().len())
            &&& changed == (indices(q@) != indices(p@))
            &&& pass_gives(
                *kernel,
                vocab.live(),
                memory@,
                text::texts(keys@),
                contents(roles@),
                indices(p@),
                indices(q@),
            )
        },
{
    let explained = match explain(kernel, vocab, roles, p) {
        Ok(e) => e,
        Err(e) => return Err(e),
    };
    let mut out: Vec<usize> = Vec::with_capacity(p.len());
    let mut changed = false;
    let mut i: usize = 0;
    while i < p.len()
        invariant
            vocab.wf(),
            memory@.len() == vocab.width(),
            explained@.len() == vocab.width(),
            proper_roles(roles@, vocab.width()),
            keys@.len() == roles@.len(),
            p@.len() == roles@.len(),
            below(p@, vocab.names().len()),
            i <= p@.len(),
            out@.len() == i,
            below(out@, vocab.names().len()),
            changed == exists|j: int| 0 <= j < i && out@[j] != p@[j],
            forall|j: int|
                0 <= j < i ==> refined_gives(
                    *kernel,
                    vocab.live(),
                    memory@,
                    explained@,
                    text::texts(keys@)[j],
                    contents(roles@)[j],
                    p@[j] as int,
                    #[trigger] out@[j] as int,
                ),
        decreases p@.len() - i,
    {
        assert(roles@[i as int]@.len() == vocab.width());
        assert(p@[i as int] < vocab.names().len());
        let prev = p[i];
        let new_idx = match isolate(kernel, vocab, memory, &explained, &roles[i], prev) {
            Ok(g) => g,
            Err(e) => return Err(e),
        };
        let ghost earlier = out@;
        let mut next: usize = prev;
        if new_idx != prev && decides_to_take_over(&keys[i], new_idx) {
            next = new_idx;
            changed = true;
        }
        out.push(next);
        proof {
            assert(next as int == settled(text::texts(keys@)[i as int], prev as int, new_idx as int));
            assert forall|j: int| 0 <= j < i implies out@[j] == earlier[j] by {}
            if out@[i as int] != p@[i as int] {
                assert(changed);
            }
        }
        i += 1;
    }
    proof {
        let q = indices(out@);
        assert forall|j: int| 0 <= j < q.len() implies refined_gives(
            *kernel,
            vocab.live(),
            memory@,
            explained@,
            text::texts(keys@)[j],
            contents(roles@)[j],
            indices(p@)[j],
            #[trigger] q[j],
        ) by {
            assert(q[j] == out@[j] as int);
        }
        if changed {
            let j = choose|j: int| 0 <= j < i && out@[j] != p@[j];
            assert(q[j] != indices(p@)[j]);
        } else {
            assert forall|j: int| 0 <= j < q.len() implies q[j] == indices(p@)[j] by {
                assert(out@[j] == p@[j]);
            }
            assert(q =~= indices(p@));
        }
    }
    Ok((out, changed))
}

/// Decodes all keys of a memory: first guesses, then at most `n_iter` passes.
pub fn decode<K: Kernel>(
    kernel: &K,
    vocab: &Vocab,
    memory: &Vec<u32>,
    keys: &Vec<String>,
    roles: &Vec<Vec<u32>>,
    n_iter: usize,
) -> (r: Result<Vec<usize>, HlbError>)
    requires
        vocab.wf(),
        vocab.names().len() > 0,
        memory@.len() == vocab.width(),
        proper_roles(roles@, vocab.width()),
        keys@.len() == roles@.len(),
    ensures
        r matches Ok(p) && p@.len() == keys@.len() && below(p@, vocab.names().len())
            && decoded_gives(
            *kernel,
            vocab.live(),
            memory@,
            text::texts(keys@),
            contents(roles@),
            n_iter as nat,
            indices(p@),
        ),
{
    let mut p = match first_guesses(kernel, vocab, memory, roles) {
        Ok(p) => p,
        Err(e) => return Err(e),
    };
    let ghost start = indices(p@);
    let mut left: usize = n_iter;
    while left > 0
        invariant
            vocab.wf(),
            memory@.len() == vocab.width(),
            proper_roles(roles@, vocab.width()),
            keys@.len() == roles@.len(),
            p@.len() == roles@.len(),
            below(p@, vocab.names().len()),
            left <= n_iter,
            first_gives(*kernel, vocab.live(), memory@, contents(roles@), start),
            forall|r: Seq<int>| #[trigger]
                passes_give(
                    *kernel,
                    vocab.live(),
                    memory@,
                    text::texts(keys@),
                    contents(roles@),
                    indices(p@),
                    left as nat,
                    r,
                ) ==> passes_give(
                    *kernel,
                    vocab.live(),
                    memory@,
                    text::texts(keys@),
                    contents(roles@),
                    start,
                    n_iter as nat,
                    r,
                ),
        decreases left,
    {
        let (q, changed) = match refine(kernel, vocab, memory, keys, roles, &p) {
            Ok(step) => step,
            Err(e) => return Err(e),
        };
        if !changed {
            assert(passes_give(
                *kernel,
                vocab.live(),
                memory@,
                text::texts(keys@),
                contents(roles@),
                indices(p@),
                left as nat,
                indices(p@),
            ));
            return Ok(p);
        }
        let ghost before = indices(p@);
        p = q;
        left = left - 1;
        assert forall|r: Seq<int>| #[trigger]
            passes_give(
                *kernel,
                vocab.live(),
                memory@,
                text::texts(keys@),
                contents(roles@),
                indices(p@),
                left as nat,
                r,
            ) implies passes_give(
            *kernel,
            vocab.live(),
            memory@,
            text::texts(keys@),
            contents(roles@),
            start,
            n_iter as nat,
            r,
        ) by {
            assert(passes_give(
                *kernel,
                vocab.live(),
                memory@,
                text::texts(keys@),
                contents(roles@),
                before,
                (left + 1) as nat,
                r,
            ));
        }
    }
    assert(passes_give(
        *kernel,
        vocab.live(),
        memory@,
        text::texts(keys@),
        contents(roles@),
        indices(p@),
        0,
        indices(p@),
    ));
    Ok(p)
}

} // verus!
