//! Phase vectors with a chosen number of bits per entry.
//!
//! An entry is a phase: one of `2^k` equal steps of a full turn. Binding adds
//! phases modulo `2^k` and unbinding subtracts them. With one bit the phases
//! are the signs of a bipolar vector, and both operations are multiplication.

use crate::bytes::{self, push_le_bytes, utf8};
use crate::entropy::{
    self, flips_from_key, flips_from_seed, sha256, words_from_key, words_from_seed,
};
use crate::hlb::{self, cosine_of_parts, poles_of};
use crate::kernel::{self, inner_product, norm, Kernel};
use crate::packing::{self, bytes_needed, pack_phase, unpack_phase, zero_bytes};
use crate::score::{MINUS_ONE, ONE};
use crate::text::{self, decimal_string};
use vstd::prelude::*;

verus! {

broadcast use vstd::string::group_string_axioms;

/// What can go wrong with phase vectors.
#[derive(Debug)]
#[allow(inconsistent_fields)]
pub enum VsaError {
    /// The vectors have different lengths.
    DimMismatch { lhs: usize, rhs: usize },
    /// The vectors have different numbers of bits, or different forms.
    KMismatch { lhs: u8, rhs: u8 },
    /// There are no phases with this number of bits.
    InvalidK(u8),
}

/// The message for an error.
pub open spec fn error_text(e: VsaError) -> Seq<char> {
    match e {
        VsaError::DimMismatch { lhs, rhs } => "dim mismatch: lhs="@ + text::decimal(lhs as nat)
            + " rhs="@ + text::decimal(rhs as nat),
        VsaError::KMismatch { lhs, rhs } => "k mismatch: lhs="@ + text::decimal(lhs as nat)
            + " rhs="@ + text::decimal(rhs as nat),
        VsaError::InvalidK(k) => "invalid k="@ + text::decimal(k as nat)
            + ": must be 1, 2, 4 or 8"@,
    }
}

/// Each message names what went wrong and with what.
pub proof fn errors_say_what_went_wrong(lhs: usize, rhs: usize, a: u8, b: u8)
    ensures
        error_text(VsaError::DimMismatch { lhs, rhs }) == "dim mismatch: lhs="@ + text::decimal(
            lhs as nat,
        ) + " rhs="@ + text::decimal(rhs as nat),
        error_text(VsaError::KMismatch { lhs: a, rhs: b }) == "k mismatch: lhs="@ + text::decimal(
            a as nat,
        ) + " rhs="@ + text::decimal(b as nat),
        error_text(VsaError::InvalidK(a)) == "invalid k="@ + text::decimal(a as nat)
            + ": must be 1, 2, 4 or 8"@,
{
}

impl VsaError {
    /// The message for this error.
    pub fn message(&self) -> (r: String)
        ensures
            r@ == error_text(*self),
    {
        let mut out = String::new();
        match self {
            VsaError::DimMismatch { lhs, rhs } => {
                out.append("dim mismatch: lhs=");
                out.append(&decimal_string(*lhs as u64));
                out.append(" rhs=");
                out.append(&decimal_string(*rhs as u64));
            },
            VsaError::KMismatch { lhs, rhs } => {
                out.append("k mismatch: lhs=");
                out.append(&decimal_string(*lhs as u64));
                out.append(" rhs=");
                out.append(&decimal_string(*rhs as u64));
            },
            VsaError::InvalidK(k) => {
                out.append("invalid k=");
                out.append(&decimal_string(*k as u64));
                out.append(": must be 1, 2, 4 or 8");
            },
        }
        assert(out@ =~= error_text(*self));
        out
    }
}

/// A phase vector.
#[derive(Debug, Clone)]
pub enum Phase {
    /// One bit per entry, as the numbers one and minus one.
    Real(Vec<u32>),
    /// `k` bits per entry, packed.
    Quantized { phases: Vec<u8>, k: u8, dim: usize },
}

/// The phases of a bipolar vector: zero for one and one for minus one.
pub open spec fn sign_levels(v: Seq<u32>) -> Seq<nat> {
    v.map_values(
        |x: u32|
            if x == ONE {
                0nat
            } else {
                1
            },
    )
}

impl Phase {
    /// The number of entries.
    pub open spec fn size(&self) -> nat {
        match self {
            Phase::Real(v) => v@.len(),
            Phase::Quantized { dim, .. } => *dim as nat,
        }
    }

    /// The number of bits per entry.
    pub open spec fn bits(&self) -> u8 {
        match self {
            Phase::Real(_) => 1,
            Phase::Quantized { k, .. } => *k,
        }
    }

    /// The entries.
    pub open spec fn levels(&self) -> Seq<nat> {
        match self {
            Phase::Real(v) => sign_levels(v@),
            Phase::Quantized { phases, k, dim } => Seq::new(
                *dim as nat,
                |i: int| packing::item(phases@, i, *k as nat),
            ),
        }
    }

    /// A bipolar vector; or entries of one to eight bits in exactly as many
    /// bytes as they take. (An empty vector may name a greater width.)
    pub open spec fn valid(&self) -> bool {
        match self {
            Phase::Real(v) => hlb::all_bipolar(v@),
            Phase::Quantized { phases, k, dim } => {
                &&& 1 <= *k <= 8 || (*dim == 0 && *k < 32)
                &&& *dim * *k + 7 <= usize::MAX
                &&& phases@.len() == packing::packed_len(*dim as nat, *k as nat)
            },
        }
    }

    /// Both vectors have the same form.
    pub open spec fn alike(&self, other: &Phase) -> bool {
        self is Real <==> other is Real
    }
}

/// Every entry of a valid vector is below the number of its states.
pub proof fn levels_bounded(p: &Phase)
    requires
        p.valid(),
    ensures
        p.levels().len() == p.size(),
        forall|i: int|
            0 <= i < p.size() ==> (#[trigger] p.levels()[i]) < packing::states(p.bits()) <= 256,
{
    assert forall|i: int| 0 <= i < p.size() implies (#[trigger] p.levels()[i]) < packing::states(
        p.bits(),
    ) <= 256 by {
        match p {
            Phase::Real(v) => {
                assert((1u32 << 1u32) == 2) by (bit_vector);
            },
            Phase::Quantized { phases, k, dim } => {
                packing::stream_bounded(phases@, i * *k as nat, *k);
            },
        }
    }
}

/// The entry-wise sum modulo `n`.
pub open spec fn added(a: Seq<nat>, b: Seq<nat>, n: nat) -> Seq<nat> {
    Seq::new(a.len(), |i: int| ((a[i] + b[i]) as int % n as int) as nat)
}

/// The entry-wise difference modulo `n`.
pub open spec fn taken(a: Seq<nat>, b: Seq<nat>, n: nat) -> Seq<nat> {
    Seq::new(a.len(), |i: int| ((a[i] - b[i]) % n as int) as nat)
}

/// What combining two vectors comes to: an error when they do not fit
/// together, else the entries `levels`.
pub open spec fn combined(a: &Phase, b: &Phase, levels: Seq<nat>, r: Result<Phase, VsaError>) -> bool {
    if a.size() != b.size() {
        r == Err::<Phase, VsaError>(
            VsaError::DimMismatch { lhs: a.size() as usize, rhs: b.size() as usize },
        )
    } else if a.bits() != b.bits() || !a.alike(b) {
        r == Err::<Phase, VsaError>(VsaError::KMismatch { lhs: a.bits(), rhs: b.bits() })
    } else {
        r matches Ok(p) && {
            &&& p.valid()
            &&& p.alike(a)
            &&& p.bits() == a.bits()
            &&& p.size() == a.size()
            &&& p.levels() == levels
        }
    }
}

/// Subtracting what was added gives a phase back.
proof fn difference_undoes_sum(r: nat, v: nat, n: nat)
    requires
        v < n,
        r < n,
    ensures
        ((r + v) % n - r) % n as int == v,
{
    if r + v < n {
        vstd::arithmetic::div_mod::lemma_small_mod(r + v, n);
        vstd::arithmetic::div_mod::lemma_small_mod(v, n);
    } else {
        let s = (r + v - n) as nat;
        vstd::arithmetic::div_mod::lemma_small_mod(s, n);
        vstd::arithmetic::div_mod::lemma_mod_add_multiples_vanish(s as int, n as int);
        vstd::arithmetic::div_mod::lemma_mod_add_multiples_vanish(v - n, n as int);
        vstd::arithmetic::div_mod::lemma_small_mod(v, n);
    }
}

/// An entry of one, two, four or eight bits has two, four, sixteen or two hundred
/// and fifty-six states.
pub proof fn widths_have_their_states()
    ensures
        packing::states(1) == 2,
        packing::states(2) == 4,
        packing::states(4) == 16,
        packing::states(8) == 256,
{
    assert(1u32 << 1u32 == 2) by (bit_vector);
    assert(1u32 << 2u32 == 4) by (bit_vector);
    assert(1u32 << 4u32 == 16) by (bit_vector);
    assert(1u32 << 8u32 == 256) by (bit_vector);
}

/// Binding turns each phase on by the other one: the phases add up, and a full
/// turn counts as none. So it does not matter which of the two comes first. Of
/// bipolar vectors it is the product of signs: one where both signs agree.
pub proof fn binding_adds_the_phases(a: &Phase, b: &Phase, r: Result<Phase, VsaError>, i: int)
    requires
        a.valid(),
        b.valid(),
        combined(a, b, added(a.levels(), b.levels(), packing::states(a.bits())), r),
        r is Ok,
        0 <= i < a.size(),
    ensures
        ({
            let x = a.levels()[i];
            let y = b.levels()[i];
            let z = r->Ok_0.levels()[i];
            let turn = packing::states(a.bits());
            &&& z == x + y || z == x + y - turn
            &&& z < turn
        }),
        a matches Phase::Real(x) ==> (b matches Phase::Real(y) && (r->Ok_0 matches Phase::Real(z)
            && (z@[i] == 0x3f80_0000 <==> x@[i] == y@[i]))),
{
    levels_bounded(a);
    levels_bounded(b);
    let x = a.levels()[i];
    let y = b.levels()[i];
    let turn = packing::states(a.bits());
    assert(x < turn && y < turn);
    vstd::arithmetic::div_mod::lemma_fundamental_div_mod_converse(
        (x + y) as int,
        turn as int,
        if x + y < turn {
            0
        } else {
            1
        },
        if x + y < turn {
            (x + y) as int
        } else {
            x + y - turn
        },
    );
    widths_have_their_states();
    if let Phase::Real(v) = a {
        if let Phase::Real(w) = b {
            if let Phase::Real(z) = r->Ok_0 {
                assert(sign_levels(v@)[i] == x && sign_levels(w@)[i] == y);
                assert(sign_levels(z@)[i] == r->Ok_0.levels()[i]);
                assert(crate::score::bipolar(v@[i]) && crate::score::bipolar(w@[i]));
                assert(x == (if v@[i] == ONE {
                    0nat
                } else {
                    1
                }));
                assert(y == (if w@[i] == ONE {
                    0nat
                } else {
                    1
                }));
                assert(turn == 2);
            }
        }
    }
}

/// Unbinding turns each phase back by the role's: the difference of the phases,
/// with a full turn added where it would be negative.
pub proof fn unbinding_takes_the_role_off(
    memory: &Phase,
    role: &Phase,
    r: Result<Phase, VsaError>,
    i: int,
)
    requires
        memory.valid(),
        role.valid(),
        combined(
            memory,
            role,
            taken(memory.levels(), role.levels(), packing::states(memory.bits())),
            r,
        ),
        r is Ok,
        0 <= i < memory.size(),
    ensures
        ({
            let x = memory.levels()[i];
            let y = role.levels()[i];
            let z = r->Ok_0.levels()[i];
            let turn = packing::states(memory.bits());
            &&& z == (if x >= y {
                x - y
            } else {
                x - y + turn
            })
            &&& z < turn
        }),
{
    levels_bounded(memory);
    levels_bounded(role);
    let x = memory.levels()[i];
    let y = role.levels()[i];
    let turn = packing::states(memory.bits());
    assert(x < turn && y < turn);
    vstd::arithmetic::div_mod::lemma_fundamental_div_mod_converse(
        x - y,
        turn as int,
        if x >= y {
            0
        } else {
            -1
        },
        if x >= y {
            x - y
        } else {
            x - y + turn
        },
    );
}

/// The message for the phases of a key is the key's own bytes, a colon, the
/// dimension in eight bytes, the least significant first, and the width.
pub proof fn phases_are_derived_from_key_dimension_and_width(key: Seq<char>, dim: nat, k: u8)
    requires
        dim <= u64::MAX,
    ensures
        ({
            let m = phase_message(key, dim, k);
            let n = vstd::utf8::encode_utf8(key).len() as int;
            &&& m.len() == n + 10
            &&& m.take(n) == vstd::utf8::encode_utf8(key)
            &&& m[n] == 0x3a
            &&& bytes::le_number(m.subrange(n + 1, n + 9)) == dim
            &&& m.last() == k
        }),
{
    let m = phase_message(key, dim, k);
    let n = vstd::utf8::encode_utf8(key).len() as int;
    assert(vstd::arithmetic::power::pow(256, 8) == 0x1_0000_0000_0000_0000) by {
        reveal(vstd::arithmetic::power::pow);
        reveal_with_fuel(vstd::arithmetic::power::pow, 9);
    }
    bytes::le_number_of_le_bytes(dim, 8);
    assert(m.take(n) =~= vstd::utf8::encode_utf8(key));
    assert(m.subrange(n + 1, n + 9) =~= bytes::le_bytes(dim, 8));
}

/// A random entry is a word's remainder by the number of states, so it is one of
/// them, and equal words give equal entries.
pub proof fn random_entries_are_remainders(words: Seq<u32>, n: nat, i: int)
    requires
        n > 0,
        0 <= i < words.len(),
    ensures
        reduced(words, n).len() == words.len(),
        reduced(words, n)[i] < n,
        exists|q: int| words[i] == #[trigger] (q * n) + reduced(words, n)[i],
{
    let w = words[i] as int;
    vstd::arithmetic::div_mod::lemma_fundamental_div_mod(w, n as int);
    vstd::arithmetic::div_mod::lemma_mod_bound(w, n as int);
    let q = w / n as int;
    assert(n * q == q * n) by (nonlinear_arith);
    assert(words[i] == (q * n) + reduced(words, n)[i]);
}

/// Unbinding the role that a value was bound to gives the value back, entry by
/// entry, for every width.
pub proof fn unbind_undoes_bind(
    role: &Phase,
    value: &Phase,
    memory: &Phase,
    recovered: Result<Phase, VsaError>,
)
    requires
        role.valid(),
        value.valid(),
        combined(
            role,
            value,
            added(role.levels(), value.levels(), packing::states(role.bits())),
            Ok(*memory),
        ),
        combined(
            memory,
            role,
            taken(memory.levels(), role.levels(), packing::states(memory.bits())),
            recovered,
        ),
    ensures
        recovered is Ok,
        recovered->Ok_0.levels() == value.levels(),
{
    levels_bounded(role);
    levels_bounded(value);
    levels_bounded(memory);
    let n = packing::states(role.bits());
    assert forall|i: int| 0 <= i < value.size() implies recovered->Ok_0.levels()[i]
        == value.levels()[i] by {
        assert(role.levels()[i] < n);
        assert(value.levels()[i] < n);
        difference_undoes_sum(role.levels()[i], value.levels()[i], n);
        assert(memory.levels()[i] == (role.levels()[i] + value.levels()[i]) % n);
    }
    levels_bounded(&recovered->Ok_0);
    assert(recovered->Ok_0.levels() =~= value.levels());
}

/// Tells whether two vectors fit together.
fn check_compat(a: &Phase, b: &Phase) -> (r: Result<(), VsaError>)
    ensures
        a.size() != b.size() ==> r == Err::<(), VsaError>(
            VsaError::DimMismatch { lhs: a.size() as usize, rhs: b.size() as usize },
        ),
        a.size() == b.size() && a.bits() != b.bits() ==> r == Err::<(), VsaError>(
            VsaError::KMismatch { lhs: a.bits(), rhs: b.bits() },
        ),
        a.size() == b.size() && a.bits() == b.bits() ==> r is Ok,
{
    if a.dim() != b.dim() {
        return Err(VsaError::DimMismatch { lhs: a.dim(), rhs: b.dim() });
    }
    if a.k() != b.k() {
        return Err(VsaError::KMismatch { lhs: a.k(), rhs: b.k() });
    }
    Ok(())
}

/// The product of two bipolar vectors.
fn multiply_signs(a: &Vec<u32>, b: &Vec<u32>) -> (r: Vec<u32>)
    requires
        a@.len() == b@.len(),
        hlb::all_bipolar(a@),
        hlb::all_bipolar(b@),
    ensures
        hlb::all_bipolar(r@),
        r@.len() == a@.len(),
        sign_levels(r@) == added(sign_levels(a@), sign_levels(b@), 2),
        sign_levels(r@) == taken(sign_levels(a@), sign_levels(b@), 2),
{
    let mut out: Vec<u32> = Vec::with_capacity(a.len());
    let mut i: usize = 0;
    while i < a.len()
        invariant
            i <= a@.len() == b@.len(),
            hlb::all_bipolar(a@),
            hlb::all_bipolar(b@),
            out@.len() == i,
            forall|j: int|
                0 <= j < i ==> (#[trigger] out@[j]) == if a@[j] == b@[j] {
                    ONE
                } else {
                    MINUS_ONE
                },
        decreases a@.len() - i,
    {
        assert(crate::score::bipolar(a@[i as int]) && crate::score::bipolar(b@[i as int]));
        out.push(
            if a[i] == b[i] {
                ONE
            } else {
                MINUS_ONE
            },
        );
        i += 1;
    }
    assert forall|j: int| 0 <= j < a@.len() implies sign_levels(out@)[j] == added(
        sign_levels(a@),
        sign_levels(b@),
        2,
    )[j] && sign_levels(out@)[j] == taken(sign_levels(a@), sign_levels(b@), 2)[j] by {
        assert(crate::score::bipolar(a@[j]) && crate::score::bipolar(b@[j]));
        assert(out@[j] == if a@[j] == b@[j] {
            ONE
        } else {
            MINUS_ONE
        });
    }
    assert(sign_levels(out@) =~= added(sign_levels(a@), sign_levels(b@), 2));
    assert(sign_levels(out@) =~= taken(sign_levels(a@), sign_levels(b@), 2));
    out
}

/// The number of states for a width.
fn states_of(k: u8) -> (r: u32)
    requires
        1 <= k <= 8,
    ensures
        r == packing::states(k),
        2 <= r <= 256,
{
    assert(1 <= k && k <= 8 ==> 2 <= (1u32 << (k as u32)) && (1u32 << (k as u32)) <= 256)
        by (bit_vector);
    1u32 << (k as u32)
}

/// Packs entries that are all below the number of states for the width.
fn packed(levels: &Vec<u8>, k: u8) -> (r: Phase)
    requires
        1 <= k <= 8 || (levels@.len() == 0 && k < 32),
        levels@.len() * k + 7 <= usize::MAX,
        forall|i: int| 0 <= i < levels@.len() ==> (#[trigger] levels@[i]) < packing::states(k),
    ensures
        r.valid(),
        r is Quantized,
        r.bits() == k,
        r.size() == levels@.len(),
        r.levels() == levels@.map_values(|x: u8| x as nat),
{
    let dim = levels.len();
    let mut phases = zero_bytes(bytes_needed(dim, k));
    let mut i: usize = 0;
    while i < dim
        invariant
            i <= dim == levels@.len(),
            1 <= k <= 8 || dim == 0,
            dim * k + 7 <= usize::MAX,
            phases@.len() == packing::packed_len(dim as nat, k as nat),
            forall|j: int| 0 <= j < dim ==> (#[trigger] levels@[j]) < packing::states(k),
            forall|j: int|
                0 <= j < i ==> #[trigger] packing::item(phases@, j, k as nat) == levels@[j],
        decreases dim - i,
    {
        pack_phase(&mut phases, i, levels[i], k, dim);
        proof {
            vstd::arithmetic::div_mod::lemma_small_mod(
                levels@[i as int] as nat,
                packing::states(k),
            );
        }
        i += 1;
    }
    let r = Phase::Quantized { phases, k, dim };
    assert(r.levels() =~= levels@.map_values(|x: u8| x as nat));
    r
}

/// The entries for random words: each word modulo the number of states.
pub open spec fn reduced(words: Seq<u32>, n: nat) -> Seq<nat> {
    words.map_values(|w: u32| (w as int % n as int) as nat)
}

/// The role for random words.
fn role_of_words(words: &Vec<u32>, k: u8) -> (r: Phase)
    requires
        2 <= k <= 8 || (words@.len() == 0 && k < 32),
        words@.len() * k + 7 <= usize::MAX,
    ensures
        r.valid(),
        r is Quantized,
        r.bits() == k,
        r.size() == words@.len(),
        r.levels() == reduced(words@, packing::states(k)),
{
    let mut levels: Vec<u8> = Vec::with_capacity(words.len());
    let mut i: usize = 0;
    while i < words.len()
        invariant
            i <= words@.len(),
            2 <= k <= 8 || words@.len() == 0,
            levels@.len() == i,
            forall|j: int|
                0 <= j < i ==> (#[trigger] levels@[j]) == words@[j] as nat % packing::states(k),
            forall|j: int| 0 <= j < i ==> (#[trigger] levels@[j]) < packing::states(k),
        decreases words@.len() - i,
    {
        let n = states_of(k);
        levels.push((words[i] % n) as u8);
        i += 1;
    }
    let r = packed(&levels, k);
    assert forall|j: int| 0 <= j < words@.len() implies #[trigger] r.levels()[j] == reduced(
        words@,
        packing::states(k),
    )[j] by {
        assert(r.levels()[j] == levels@[j] as nat);
    }
    assert(r.levels() =~= reduced(words@, packing::states(k)));
    r
}

/// The message that the role of a key is derived from.
pub open spec fn phase_message(key: Seq<char>, dim: nat, k: u8) -> Seq<u8> {
    vstd::utf8::encode_utf8(key) + seq![58u8] + bytes::le_bytes(dim, 8) + seq![k]
}

impl Phase {
    /// The number of entries.
    pub fn dim(&self) -> (r: usize)
        ensures
            r == self.size(),
    {
        match self {
            Phase::Real(v) => v.len(),
            Phase::Quantized { dim, .. } => *dim,
        }
    }

    /// The number of bits per entry.
    pub fn k(&self) -> (r: u8)
        ensures
            r == self.bits(),
    {
        match self {
            Phase::Real(_) => 1,
            Phase::Quantized { k, .. } => *k,
        }
    }

    /// The entry with number `i`.
    pub fn phase_at(&self, i: usize) -> (r: u8)
        requires
            self.valid(),
            i < self.size(),
        ensures
            r == self.levels()[i as int],
    {
        match self {
            Phase::Real(v) => {
                assert(crate::score::bipolar(v@[i as int]));
                if v[i] == ONE {
                    0
                } else {
                    1
                }
            },
            Phase::Quantized { phases, k, dim } => unpack_phase(phases, i, *k, *dim),
        }
    }

    /// The entries, one per byte.
    fn unpacked(&self) -> (r: Vec<u8>)
        requires
            self.valid(),
        ensures
            r@.map_values(|x: u8| x as nat) == self.levels(),
            r@.len() == self.size(),
    {
        let n = self.dim();
        let mut out: Vec<u8> = Vec::with_capacity(n);
        let mut i: usize = 0;
        while i < n
            invariant
                self.valid(),
                i <= n == self.size(),
                out@.len() == i,
                forall|j: int| 0 <= j < i ==> (#[trigger] out@[j]) == self.levels()[j],
            decreases n - i,
        {
            out.push(self.phase_at(i));
            i += 1;
        }
        proof {
            levels_bounded(self);
        }
        assert(out@.map_values(|x: u8| x as nat) =~= self.levels());
        out
    }

    /// A random role, the same for the same seed. Widths other than one, two,
    /// four and eight bits are refused.
    pub fn random_role(dim: usize, k: u8, seed: u64) -> (r: Result<Self, VsaError>)
        requires
            k == 2 || k == 4 || k == 8 ==> dim * k + 7 <= usize::MAX,
        ensures
            if k == 1 {
                r matches Ok(p) && p.valid() && p.size() == dim && (p matches Phase::Real(v) && v@
                    == hlb::poles(entropy::seeded_flips(seed, dim as nat)))
            } else if k == 2 || k == 4 || k == 8 {
                r matches Ok(p) && p.valid() && p is Quantized && p.bits() == k && p.size() == dim
                    && p.levels() == reduced(
                    entropy::seeded_words(seed, dim as nat),
                    packing::states(k),
                )
            } else {
                r == Err::<Phase, VsaError>(VsaError::InvalidK(k))
            },
    {
        if !(k == 1 || k == 2 || k == 4 || k == 8) {
            return Err(VsaError::InvalidK(k));
        }
        if k == 1 {
            let flips = flips_from_seed(seed, dim);
            return Ok(Phase::Real(poles_of(&flips)));
        }
        let words = words_from_seed(seed, dim);
        Ok(role_of_words(&words, k))
    }

    /// The role of a key, the same in every run and on every machine.
    pub fn role_from_key(key: &str, dim: usize, k: u8) -> (r: Result<Self, VsaError>)
        requires
            1 <= k <= 8 || (dim == 0 && k < 32),
            dim * k + 7 <= usize::MAX,
        ensures
            r matches Ok(p) && p.valid() && p.bits() == k && p.size() == dim && if k == 1 {
                p matches Phase::Real(v) && v@ == hlb::poles(
                    entropy::keyed_flips(
                        entropy::digest(phase_message(key@, dim as nat, k)),
                        dim as nat,
                    ),
                )
            } else {
                p is Quantized && p.levels() == reduced(
                    entropy::keyed_words(
                        entropy::digest(phase_message(key@, dim as nat, k)),
                        dim as nat,
                    ),
                    packing::states(k),
                )
            },
    {
        let mut message = utf8(key);
        message.push(58u8);
        push_le_bytes(&mut message, dim as u64);
        message.push(k);
        assert(message@ =~= phase_message(key@, dim as nat, k));
        let seed = sha256(&message);
        if k == 1 {
            let flips = flips_from_key(&seed, dim);
            return Ok(Phase::Real(poles_of(&flips)));
        }
        let words = words_from_key(&seed, dim);
        Ok(role_of_words(&words, k))
    }

    /// Binds two vectors: the sum of their phases.
    pub fn bind(&self, other: &Phase) -> (r: Result<Phase, VsaError>)
        requires
            self.valid(),
            other.valid(),
        ensures
            combined(
                self,
                other,
                added(self.levels(), other.levels(), packing::states(self.bits())),
                r,
            ),
    {
        if let Err(e) = check_compat(self, other) {
            return Err(e);
        }
        proof {
            levels_bounded(self);
            levels_bounded(other);
        }
        match (self, other) {
            (Phase::Real(a), Phase::Real(b)) => {
                assert((1u32 << 1u32) == 2) by (bit_vector);
                Ok(Phase::Real(multiply_signs(a, b)))
            },
            (Phase::Quantized { k, dim, .. }, Phase::Quantized { .. }) => {
                let mut out: Vec<u8> = Vec::with_capacity(*dim);
                let mut i: usize = 0;
                while i < *dim
                    invariant
                        self.valid(),
                        other.valid(),
                        1 <= *k <= 8 || *dim == 0,
                        i <= *dim == self.size() == other.size(),
                        self.bits() == *k,
                        out@.len() == i,
                        forall|j: int|
                            0 <= j < self.size() ==> (#[trigger] self.levels()[j])
                                < packing::states(*k) <= 256,
                        forall|j: int|
                            0 <= j < other.size() ==> (#[trigger] other.levels()[j])
                                < packing::states(*k) <= 256,
                        forall|j: int|
                            0 <= j < i ==> (#[trigger] out@[j]) == (self.levels()[j]
                                + other.levels()[j]) % packing::states(*k),
                        forall|j: int| 0 <= j < i ==> (#[trigger] out@[j]) < packing::states(*k),
                    decreases *dim - i,
                {
                    let n = states_of(*k);
                    let a = self.phase_at(i) as u32;
                    let b = other.phase_at(i) as u32;
                    out.push(((a + b) % n) as u8);
                    i += 1;
                }
                let p = packed(&out, *k);
                assert forall|j: int| 0 <= j < self.size() implies #[trigger] p.levels()[j] == added(
                    self.levels(),
                    other.levels(),
                    packing::states(self.bits()),
                )[j] by {
                    assert(p.levels()[j] == out@[j] as nat);
                }
                assert(p.levels() =~= added(
                    self.levels(),
                    other.levels(),
                    packing::states(self.bits()),
                ));
                Ok(p)
            },
            _ => Err(VsaError::KMismatch { lhs: self.k(), rhs: other.k() }),
        }
    }

    /// Unbinds a role: the difference of the phases.
    pub fn unbind(&self, role: &Phase) -> (r: Result<Phase, VsaError>)
        requires
            self.valid(),
            role.valid(),
        ensures
            combined(
                self,
                role,
                taken(self.levels(), role.levels(), packing::states(self.bits())),
                r,
            ),
    {
        if let Err(e) = check_compat(self, role) {
            return Err(e);
        }
        proof {
            levels_bounded(self);
            levels_bounded(role);
        }
        match (self, role) {
            (Phase::Real(m), Phase::Real(r)) => {
                assert((1u32 << 1u32) == 2) by (bit_vector);
                Ok(Phase::Real(multiply_signs(m, r)))
            },
            (Phase::Quantized { k, dim, .. }, Phase::Quantized { .. }) => {
                let mut out: Vec<u8> = Vec::with_capacity(*dim);
                let mut i: usize = 0;
                while i < *dim
                    invariant
                        self.valid(),
                        role.valid(),
                        1 <= *k <= 8 || *dim == 0,
                        i <= *dim == self.size() == role.size(),
                        self.bits() == *k,
                        out@.len() == i,
                        forall|j: int|
                            0 <= j < self.size() ==> (#[trigger] self.levels()[j])
                                < packing::states(*k) <= 256,
                        forall|j: int|
                            0 <= j < role.size() ==> (#[trigger] role.levels()[j])
                                < packing::states(*k) <= 256,
                        forall|j: int|
                            0 <= j < i ==> (#[trigger] out@[j]) == (self.levels()[j]
                                - role.levels()[j]) % packing::states(*k) as int,
                        forall|j: int| 0 <= j < i ==> (#[trigger] out@[j]) < packing::states(*k),
                    decreases *dim - i,
                {
                    let n = states_of(*k);
                    let m = self.phase_at(i) as u32;
                    let r = role.phase_at(i) as u32;
                    proof {
                        vstd::arithmetic::div_mod::lemma_mod_add_multiples_vanish(
                            m - r,
                            n as int,
                        );
                    }
                    out.push(((m + n - r) % n) as u8);
                    i += 1;
                }
                let p = packed(&out, *k);
                assert forall|j: int| 0 <= j < self.size() implies #[trigger] p.levels()[j] == taken(
                    self.levels(),
                    role.levels(),
                    packing::states(self.bits()),
                )[j] by {
                    assert(p.levels()[j] == out@[j] as nat);
                }
                assert(p.levels() =~= taken(
                    self.levels(),
                    role.levels(),
                    packing::states(self.bits()),
                ));
                Ok(p)
            },
            _ => Err(VsaError::KMismatch { lhs: self.k(), rhs: role.k() }),
        }
    }

    /// The similarity of two vectors: the cosine of bipolar vectors, or the
    /// mean cosine of the angles between packed phases.
    pub fn cosine<K: Kernel>(&self, kernel: &K, other: &Phase) -> (r: Result<u32, VsaError>)
        requires
            self.valid(),
            other.valid(),
        ensures
            if self.size() != other.size() {
                r == Err::<u32, VsaError>(
                    VsaError::DimMismatch {
                        lhs: self.size() as usize,
                        rhs: other.size() as usize,
                    },
                )
            } else if self.bits() != other.bits() || !self.alike(other) {
                r == Err::<u32, VsaError>(
                    VsaError::KMismatch { lhs: self.bits(), rhs: other.bits() },
                )
            } else {
                r matches Ok(c) && similarity_gives(*kernel, self, other, c)
            },
    {
        if let Err(e) = check_compat(self, other) {
            return Err(e);
        }
        match (self, other) {
            (Phase::Real(a), Phase::Real(b)) => {
                let na = norm(kernel, a);
                let nb = norm(kernel, b);
                let dot = inner_product(kernel, a, b);
                Ok(cosine_of_parts(kernel, dot, na, nb))
            },
            (Phase::Quantized { k, .. }, Phase::Quantized { .. }) => {
                let a = self.unpacked();
                let b = other.unpacked();
                let c = kernel.phase_cosine(&a, &b, *k);
                assert(kernel::phase_cosine_gives(*kernel, a@, b@, *k, c));
                Ok(c)
            },
            _ => Err(VsaError::KMismatch { lhs: self.k(), rhs: other.k() }),
        }
    }

    /// How many bytes the entries take in this form.
    pub fn storage_bytes(&self) -> (r: usize)
        requires
            self is Real ==> self.size() * 4 <= usize::MAX,
        ensures
            r == match self {
                Phase::Real(v) => v@.len() * 4,
                Phase::Quantized { phases, .. } => phases@.len(),
            },
    {
        match self {
            Phase::Real(v) => v.len() * 4,
            Phase::Quantized { phases, .. } => phases.len(),
        }
    }
}

/// `c` is a similarity of two vectors of one form.
pub open spec fn similarity_gives<K: Kernel>(k: K, a: &Phase, b: &Phase, c: u32) -> bool {
    match (a, b) {
        (Phase::Real(x), Phase::Real(y)) => hlb::cosine_gives(k, x@, y@, c),
        _ => exists|x: Seq<u8>, y: Seq<u8>|
            x.map_values(|v: u8| v as nat) == a.levels() && y.map_values(|v: u8| v as nat)
                == b.levels() && #[trigger] kernel::phase_cosine_gives(k, x, y, a.bits(), c),
    }
}

/// The similarity of bipolar vectors is a cosine, and that of packed ones the mean
/// cosine of the angles between their entries, one for one, at their own width.
pub proof fn a_similarity_is_of_the_entries<K: Kernel>(k: K, a: &Phase, b: &Phase, c: u32) -> (
    entries: (Seq<u8>, Seq<u8>))
    requires
        similarity_gives(k, a, b, c),
    ensures
        a matches Phase::Real(x) ==> (b matches Phase::Real(y) ==> hlb::cosine_gives(
            k,
            x@,
            y@,
            c,
        )),
        a matches Phase::Quantized { k: width, .. } ==> {
            &&& kernel::phase_cosine_gives(k, entries.0, entries.1, *width, c)
            &&& entries.0.len() == a.levels().len()
            &&& entries.1.len() == b.levels().len()
            &&& forall|i: int| 0 <= i < entries.0.len() ==> #[trigger] entries.0[i] == a.levels()[i]
            &&& forall|i: int| 0 <= i < entries.1.len() ==> #[trigger] entries.1[i] == b.levels()[i]
        },
{
    let (x, y) = choose|x: Seq<u8>, y: Seq<u8>|
        x.map_values(|v: u8| v as nat) == a.levels() && y.map_values(|v: u8| v as nat)
            == b.levels() && #[trigger] kernel::phase_cosine_gives(k, x, y, a.bits(), c);
    if a is Quantized {
        assert(x.map_values(|v: u8| v as nat).len() == x.len());
        assert(y.map_values(|v: u8| v as nat).len() == y.len());
        assert forall|i: int| 0 <= i < x.len() implies #[trigger] x[i] == a.levels()[i] by {
            assert(x.map_values(|v: u8| v as nat)[i] == x[i] as nat);
        }
        assert forall|i: int| 0 <= i < y.len() implies #[trigger] y[i] == b.levels()[i] by {
            assert(y.map_values(|v: u8| v as nat)[i] == y[i] as nat);
        }
    }
    (x, y)
}

} // verus!
