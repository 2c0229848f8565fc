//! Small numbers packed into a stream of bits.
//!
//! Bit number `n` of a buffer is bit `n % 8` of byte `n / 8`. Item number `i`
//! of width `k` takes the `k` bits from number `i * k` on, the least
//! significant first.

use vstd::prelude::*;

verus! {

/// Bit number `t` of a byte.
pub open spec fn byte_bit(x: u8, t: int) -> bool {
    (x >> (t as u8)) & 1u8 == 1u8
}

/// Bit number `n` of a buffer.
pub open spec fn bit(buf: Seq<u8>, n: int) -> bool {
    byte_bit(buf[n / 8], n % 8)
}

/// The number held by the `n` bits from number `pos` on.
pub open spec fn stream(buf: Seq<u8>, pos: int, n: nat) -> nat
    decreases n,
{
    if n == 0 {
        0
    } else {
        (if bit(buf, pos) {
            1nat
        } else {
            0
        }) + 2 * stream(buf, pos + 1, (n - 1) as nat)
    }
}

/// Item number `i` of width `k`.
pub open spec fn item(buf: Seq<u8>, i: int, k: nat) -> nat {
    stream(buf, i * k, k)
}

/// How many values an item of width `k` can have.
pub open spec fn states(k: u8) -> nat {
    (1u32 << (k as u32)) as nat
}

/// How many bytes hold `dim` items of width `k`.
pub open spec fn packed_len(dim: nat, k: nat) -> nat {
    (dim * k + 7) / 8
}

/// The mask of the `k` low-order bits of a byte.
pub open spec fn mask(k: u8) -> u8 {
    ((1u32 << (k as u32)) - 1) as u8
}

// ---------------------------------------------------------------------
// Lemmas
// ---------------------------------------------------------------------

/// Two buffers that agree on a range of bits hold the same number there.
proof fn stream_agrees(a: Seq<u8>, b: Seq<u8>, pos: int, n: nat)
    requires
        forall|t: int| pos <= t < pos + n ==> bit(a, t) == #[trigger] bit(b, t),
    ensures
        stream(a, pos, n) == stream(b, pos, n),
    decreases n,
{
    if n > 0 {
        assert(bit(a, pos) == bit(b, pos));
        stream_agrees(a, b, pos + 1, (n - 1) as nat);
    }
}

/// A range that holds the bits of `p` holds the number `p`.
proof fn stream_of_bits(buf: Seq<u8>, pos: int, k: u8, p: u8)
    requires
        k <= 8,
        (p as u32) < (1u32 << (k as u32)),
        forall|t: int| 0 <= t < k ==> bit(buf, pos + t) == #[trigger] byte_bit(p, t),
    ensures
        stream(buf, pos, k as nat) == p,
    decreases k,
{
    if k == 0 {
        assert((1u32 << 0u32) == 1) by (bit_vector);
    } else {
        let q = p >> 1u8;
        let j = (k - 1) as u8;
        assert(q == p >> 1u8 && (p as u32) < (1u32 << (k as u32)) && k > 0 && k <= 8 && j == k - 1
            ==> (q as u32) < (1u32 << (j as u32))) by (bit_vector);
        assert forall|t: int| 0 <= t < j implies bit(buf, pos + 1 + t) == #[trigger] byte_bit(q, t) by {
            let u = t as u8;
            let w = (t + 1) as u8;
            assert(bit(buf, pos + (t + 1)) == byte_bit(p, t + 1));
            assert(u < 7 && w == u + 1 && q == p >> 1u8 ==> (q >> u) & 1u8 == (p >> w) & 1u8)
                by (bit_vector);
        }
        stream_of_bits(buf, pos + 1, j, q);
        assert(bit(buf, pos + 0) == byte_bit(p, 0));
        assert(p >> 0u8 == p) by (bit_vector);
        assert(p == (p & 1u8) + 2 * (p >> 1u8)) by (bit_vector);
        assert(p & 1u8 == 0u8 || p & 1u8 == 1u8) by (bit_vector);
    }
}

/// The low-order bits of a byte hold its remainder by the number of states.
proof fn masked_number(p: u8, k: u8)
    requires
        1 <= k <= 8,
    ensures
        p & mask(k) == p as nat % states(k),
        p & mask(k) < states(k),
        forall|t: int| 0 <= t < k ==> byte_bit(p & mask(k), t) == #[trigger] byte_bit(p, t),
{
    let m = mask(k);
    let q = p & m;
    assert(1 <= k <= 8 && m == (((1u32 << (k as u32)) - 1) as u8) && q == p & m ==> (q as u32) == (
    p as u32) % (1u32 << (k as u32)) && (q as u32) < (1u32 << (k as u32))) by (bit_vector);
    assert forall|t: int| 0 <= t < k implies byte_bit(q, t) == #[trigger] byte_bit(p, t) by {
        let u = t as u8;
        assert(u < k && k <= 8 && m == (((1u32 << (k as u32)) - 1) as u8) && q == p & m ==> (q >> u)
            & 1u8 == (p >> u) & 1u8) by (bit_vector);
    }
}

/// A range of bits within one byte.
proof fn stream_in_byte(buf: Seq<u8>, pos: int, n: nat)
    requires
        0 <= pos,
        pos % 8 + n <= 8,
    ensures
        stream(buf, pos, n) == (buf[pos / 8] >> ((pos % 8) as u8)) & mask(n as u8),
    decreases n,
{
    let x = buf[pos / 8];
    let off = (pos % 8) as u8;
    let k = n as u8;
    if n == 0 {
        assert((x >> off) & (((1u32 << 0u32) - 1) as u8) == 0) by (bit_vector);
    } else {
        let j = (k - 1) as u8;
        let next = (off + 1) as u8;
        assert(off < 8 && k > 0 && off + k <= 8 && j == k - 1 && next == off + 1 ==> (x >> off) & (((
        1u32 << (k as u32)) - 1) as u8) == ((x >> off) & 1u8) + 2 * ((x >> next) & (((1u32 << (
        j as u32)) - 1) as u8))) by (bit_vector);
        assert((x >> off) & 1u8 == 0u8 || (x >> off) & 1u8 == 1u8) by (bit_vector);
        assert(byte_bit(x, pos % 8) == bit(buf, pos));
        if n == 1 {
            assert((x >> next) & (((1u32 << 0u32) - 1) as u8) == 0) by (bit_vector);
            assert(stream(buf, pos + 1, 0) == 0);
        } else {
            assert((pos + 1) / 8 == pos / 8 && (pos + 1) % 8 == pos % 8 + 1);
            stream_in_byte(buf, pos + 1, (n - 1) as nat);
            assert(((pos + 1) % 8) as u8 == next);
            assert((n - 1) as u8 == j);
        }
        assert(mask(k) == (((1u32 << (k as u32)) - 1) as u8));
        assert(mask(j) == (((1u32 << (j as u32)) - 1) as u8));
    }
}

/// A range of bits is its first part and what follows.
proof fn stream_splits(buf: Seq<u8>, pos: int, a: u8, b: nat)
    requires
        a <= 8,
    ensures
        stream(buf, pos, (a + b) as nat) == stream(buf, pos, a as nat) + states(a) * stream(
            buf,
            pos + a,
            b,
        ),
    decreases a,
{
    let rest = stream(buf, pos + a, b);
    if a == 0 {
        assert((1u32 << 0u32) == 1) by (bit_vector);
        assert(states(a) * rest == rest) by (nonlinear_arith)
            requires
                states(a) == 1,
        ;
    } else {
        let c = (a - 1) as u8;
        stream_splits(buf, pos + 1, c, b);
        assert(pos + 1 + c == pos + a);
        assert((a + b) as nat - 1 == (c + b) as nat);
        assert(a > 0 && a <= 8 && c == a - 1 ==> (1u32 << (a as u32)) == 2 * (1u32 << (c as u32)))
            by (bit_vector);
        assert(2 * (states(c) * rest) == states(a) * rest) by (nonlinear_arith)
            requires
                states(a) == 2 * states(c),
        ;
    }
}

/// An item is below the number of its states.
pub proof fn stream_bounded(buf: Seq<u8>, pos: int, k: u8)
    requires
        k <= 8,
    ensures
        stream(buf, pos, k as nat) < states(k) <= 256,
    decreases k,
{
    if k == 0 {
        assert((1u32 << 0u32) == 1) by (bit_vector);
    } else {
        let c = (k - 1) as u8;
        stream_bounded(buf, pos + 1, c);
        assert(k > 0 && k <= 8 && c == k - 1 ==> (1u32 << (k as u32)) == 2 * (1u32 << (c as u32))
            && (1u32 << (k as u32)) <= 256) by (bit_vector);
    }
}

/// Items fill bytes from the low end: one of eight bits is a byte, and of two with
/// four bits in a byte the first is the lower half.
pub proof fn items_fill_bytes_from_the_low_end(buf: Seq<u8>, i: int)
    requires
        0 <= i,
    ensures
        item(buf, i, 8) == buf[i],
        item(buf, 2 * i, 4) == buf[i] % 16,
        item(buf, 2 * i + 1, 4) == buf[i] / 16,
        item(buf, 8 * i, 1) == buf[i] % 2,
        item(buf, 8 * i + 7, 1) == buf[i] / 128,
{
    let x = buf[i];
    stream_in_byte(buf, 8 * i, 8);
    stream_in_byte(buf, 8 * i, 4);
    stream_in_byte(buf, 8 * i + 4, 4);
    stream_in_byte(buf, 8 * i, 1);
    stream_in_byte(buf, 8 * i + 7, 1);
    assert((8 * i) / 8 == i && (8 * i) % 8 == 0);
    assert((8 * i + 4) / 8 == i && (8 * i + 4) % 8 == 4);
    assert((8 * i + 7) / 8 == i && (8 * i + 7) % 8 == 7);
    assert(((1u32 << 8u32) - 1) as u8 == 255u8) by (bit_vector);
    assert(((1u32 << 4u32) - 1) as u8 == 15u8) by (bit_vector);
    assert(((1u32 << 1u32) - 1) as u8 == 1u8) by (bit_vector);
    assert((x >> 0u8) & 255u8 == x && (x >> 0u8) & 15u8 == x % 16u8 && (x >> 4u8) & 15u8 == x / 16u8
        && (x >> 0u8) & 1u8 == x % 2u8 && (x >> 7u8) & 1u8 == x / 128u8) by (bit_vector);
}

/// Items take the fewest bytes that hold their bits.
pub proof fn items_take_the_fewest_bytes(dim: nat, k: nat)
    ensures
        dim * k <= 8 * packed_len(dim, k),
        packed_len(dim, k) > 0 ==> 8 * (packed_len(dim, k) - 1) < dim * k,
{
}

/// The bits of item `i` lie within the buffer.
proof fn item_in_range(dim: nat, k: nat, i: int)
    requires
        0 <= i < dim,
        1 <= k <= 8,
    ensures
        0 <= i * k,
        i * k + k <= dim * k,
        i * k + k <= 8 * packed_len(dim, k),
        (i * k) / 8 < packed_len(dim, k),
        (i * k) % 8 + k > 8 ==> (i * k) / 8 + 1 < packed_len(dim, k),
{
    assert(0 <= i * k && i * k + k <= dim * k) by (nonlinear_arith)
        requires
            0 <= i < dim,
            1 <= k,
    ;
}

/// Two different items share no bit.
proof fn items_apart(i: int, j: int, k: nat)
    requires
        i != j,
        1 <= k,
    ensures
        i * k + k <= j * k || j * k + k <= i * k,
{
    assert(i * k + k <= j * k || j * k + k <= i * k) by (nonlinear_arith)
        requires
            i != j,
            1 <= k,
    ;
}

// ---------------------------------------------------------------------
// Executable code
// ---------------------------------------------------------------------

/// How many bytes hold `dim` items of width `k`.
pub fn bytes_needed(dim: usize, k: u8) -> (r: usize)
    requires
        dim * k + 7 <= usize::MAX,
    ensures
        r == packed_len(dim as nat, k as nat),
{
    (dim * (k as usize) + 7) / 8
}

/// The exec form of [`mask`] for widths that fit a byte.
fn mask_of(k: u8) -> (r: u8)
    requires
        k <= 8,
    ensures
        r == mask(k),
{
    assert(k <= 8 ==> (1u32 << (k as u32)) >= 1 && (1u32 << (k as u32)) <= 256) by (bit_vector);
    ((1u32 << (k as u32)) - 1) as u8
}

/// Replaces bits `off..off + n` of a byte by the low-order bits of `p`.
fn set_bits(x: u8, off: u8, n: u8, p: u8) -> (r: u8)
    requires
        off < 8,
        n <= 8,
        off + n <= 8,
    ensures
        forall|t: int|
            0 <= t < 8 ==> #[trigger] byte_bit(r, t) == if off <= t < off + n {
                byte_bit(p, t - off)
            } else {
                byte_bit(x, t)
            },
{
    let m = mask_of(n);
    let r: u8 = (x & !(m << off)) | ((p & m) << off);
    assert forall|t: int| 0 <= t < 8 implies #[trigger] byte_bit(r, t) == if off <= t < off + n {
        byte_bit(p, t - off)
    } else {
        byte_bit(x, t)
    } by {
        let u = t as u8;
        if off <= t < off + n {
            let d = (t - off) as u8;
            assert(off < 8 && n <= 8 && off + n <= 8 && u < off + n && d + off == u && m == (((1u32
                << (n as u32)) - 1) as u8) && r == (x & !(m << off)) | ((p & m) << off) ==> (r >> u)
                & 1u8 == (p >> d) & 1u8) by (bit_vector);
        } else {
            assert(off < 8 && n <= 8 && off + n <= 8 && u < 8 && (u < off || off + n <= u) && m == (((
            1u32 << (n as u32)) - 1) as u8) && r == (x & !(m << off)) | ((p & m) << off) ==> (r
                >> u) & 1u8 == (x >> u) & 1u8) by (bit_vector);
        }
    }
    r
}

/// Writes the `k` low-order bits of `p` to item number `i` of width `k`. All
/// other bits stay. An item of one, two, four or eight bits lies in one byte.
pub fn pack_phase(buf: &mut Vec<u8>, i: usize, p: u8, k: u8, dim: usize)
    requires
        1 <= k <= 8,
        i < dim,
        dim * k + 7 <= usize::MAX,
        old(buf)@.len() >= packed_len(dim as nat, k as nat),
    ensures
        final(buf)@.len() == old(buf)@.len(),
        item(final(buf)@, i as int, k as nat) == p as nat % states(k),
        forall|j: int|
            0 <= j < dim && j != i ==> #[trigger] item(final(buf)@, j, k as nat) == item(
                old(buf)@,
                j,
                k as nat,
            ),
        forall|t: int|
            0 <= t < 8 * old(buf)@.len() && !(i * k <= t < i * k + k) ==> #[trigger] bit(
                final(buf)@,
                t,
            ) == bit(old(buf)@, t),
        forall|b: int|
            0 <= b < old(buf)@.len() && !((i * k) / 8 <= b <= (i * k + k - 1) / 8)
                ==> #[trigger] final(buf)@[b] == old(buf)@[b],
        k == 1 || k == 2 || k == 4 || k == 8 ==> forall|b: int|
            0 <= b < old(buf)@.len() && b != (i * k) / 8 ==> #[trigger] final(buf)@[b] == old(
                buf,
            )@[b],
{
    let ghost before = buf@;
    proof {
        item_in_range(dim as nat, k as nat, i as int);
    }
    let bit_pos = i * (k as usize);
    let byte_idx = bit_pos / 8;
    let bit_off = (bit_pos % 8) as u8;
    if bit_off + k <= 8 {
        let x = set_bits(buf[byte_idx], bit_off, k, p);
        buf.set(byte_idx, x);
    } else {
        let low_bits: u8 = 8 - bit_off;
        let high_bits: u8 = k - low_bits;
        let x = set_bits(buf[byte_idx], bit_off, low_bits, p);
        buf.set(byte_idx, x);
        let rest = p >> low_bits;
        let y = set_bits(buf[byte_idx + 1], 0, high_bits, rest);
        buf.set(byte_idx + 1, y);
        assert forall|t: int| 0 <= t < high_bits implies #[trigger] byte_bit(rest, t) == byte_bit(
            p,
            t + low_bits,
        ) by {
            let u = t as u8;
            let w = (t + low_bits) as u8;
            assert(low_bits <= 8 && u < 8 && w == u + low_bits && w < 8 && rest == p >> low_bits ==> (
            rest >> u) & 1u8 == (p >> w) & 1u8) by (bit_vector);
        }
    }
    proof {
        let pos = bit_pos as int;
        let n = 8 * before.len();
        assert forall|t: int| 0 <= t < n implies #[trigger] bit(buf@, t) == if pos <= t < pos + k {
            byte_bit(p, t - pos)
        } else {
            bit(before, t)
        } by {
            let b = t / 8;
            let o = t % 8;
            if b == byte_idx {
                assert(byte_bit(buf@[b], o) == if bit_off <= o < bit_off + k {
                    byte_bit(p, o - bit_off)
                } else {
                    byte_bit(before[b], o)
                });
            } else if bit_off + k > 8 && b == byte_idx + 1 {
                let high = k - (8 - bit_off);
                if o < high {
                    assert(byte_bit(p >> ((8 - bit_off) as u8), o) == byte_bit(p, o + (8 - bit_off)));
                }
            }
        }
        assert forall|t: int| 0 <= t < k implies bit(buf@, pos + t) == #[trigger] byte_bit(
            p & mask(k),
            t,
        ) by {
            masked_number(p, k);
            assert(bit(buf@, pos + t) == byte_bit(p, (pos + t) - pos));
        }
        if k == 1 || k == 2 || k == 4 || k == 8 {
            assert((i * k) % 8 + k <= 8) by {
                if k == 1 {
                    assert((i * 1) % 8 + 1 <= 8);
                } else if k == 2 {
                    assert((i * 2) % 8 + 2 <= 8);
                } else if k == 4 {
                    assert((i * 4) % 8 + 4 <= 8);
                } else {
                    assert((i * 8) % 8 + 8 <= 8);
                }
            }
        }
        let q = p & mask(k);
        masked_number(p, k);
        stream_of_bits(buf@, pos, k, q);
        assert forall|j: int| 0 <= j < dim && j != i implies #[trigger] item(buf@, j, k as nat)
            == item(before, j, k as nat) by {
            item_in_range(dim as nat, k as nat, j);
            items_apart(i as int, j, k as nat);
            stream_agrees(before, buf@, j * k, k as nat);
        }
    }
}

/// Reads item number `i` of width `k`.
pub fn unpack_phase(buf: &Vec<u8>, i: usize, k: u8, dim: usize) -> (r: u8)
    requires
        1 <= k <= 8,
        i < dim,
        dim * k + 7 <= usize::MAX,
        buf@.len() >= packed_len(dim as nat, k as nat),
    ensures
        r == item(buf@, i as int, k as nat),
        r < states(k),
{
    proof {
        item_in_range(dim as nat, k as nat, i as int);
        stream_bounded(buf@, i * k, k);
    }
    let bit_pos = i * (k as usize);
    let byte_idx = bit_pos / 8;
    let bit_off = (bit_pos % 8) as u8;
    if bit_off + k <= 8 {
        proof {
            stream_in_byte(buf@, bit_pos as int, k as nat);
        }
        (buf[byte_idx] >> bit_off) & mask_of(k)
    } else {
        let low_bits: u8 = 8 - bit_off;
        let high_bits: u8 = k - low_bits;
        let low: u8 = (buf[byte_idx] >> bit_off) & mask_of(low_bits);
        let high: u8 = buf[byte_idx + 1] & mask_of(high_bits);
        proof {
            stream_splits(buf@, bit_pos as int, low_bits, high_bits as nat);
            stream_in_byte(buf@, bit_pos as int, low_bits as nat);
            stream_in_byte(buf@, bit_pos + low_bits, high_bits as nat);
            let z = buf@[byte_idx + 1];
            assert(z >> 0u8 == z) by (bit_vector);
            let ml = mask(low_bits);
            let mh = mask(high_bits);
            let xl = buf@[byte_idx as int] >> bit_off;
            assert(low_bits <= 8 && high_bits <= 8 && low_bits + high_bits <= 8 && ml == (((1u32 << (
            low_bits as u32)) - 1) as u8) && mh == (((1u32 << (high_bits as u32)) - 1) as u8)
                && low == xl & ml && high == z & mh ==> (low | (high << low_bits)) as u32 == (
            low as u32) + (1u32 << (low_bits as u32)) * (high as u32)) by (bit_vector);
        }
        low | (high << low_bits)
    }
}

/// A buffer of zero bytes.
pub fn zero_bytes(n: usize) -> (r: Vec<u8>)
    ensures
        r@.len() == n,
        forall|i: int| 0 <= i < n ==> r@[i] == 0,
{
    let mut out: Vec<u8> = Vec::with_capacity(n);
    let mut i: usize = 0;
    while i < n
        invariant
            i <= n,
            out@.len() == i,
            forall|j: int| 0 <= j < i ==> out@[j] == 0,
        decreases n - i,
    {
        out.push(0);
        i += 1;
    }
    out
}

} // verus!
