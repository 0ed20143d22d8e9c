//! Bit-level model of the 64-square board masks, and the lemmas that connect
//! the executable mask operations to it.
use vstd::prelude::*;
use vstd::std_specs::bits::u64_trailing_zeros;

verus! {

/// Square `i` (numbered `rank * 8 + file`) is set in mask `m`.
/// Out-of-range squares are never set.
pub open spec fn bit(m: u64, i: int) -> bool {
    0 <= i < 64 && (m >> (i as u64)) & 1u64 == 1u64
}

/// How the executable mask operations read at the level of single squares.
pub proof fn lemma_bit_basics()
    by (bit_vector)
    ensures
        forall|m: u64, i: u64|
            i < 64 ==> ((#[trigger] (m & (1u64 << i))) != 0) == ((m >> i) & 1u64 == 1u64),
        forall|m: u64, i: u64|
            i < 64 ==> ((#[trigger] ((1u64 << i) & m)) != 0) == ((m >> i) & 1u64 == 1u64),
        forall|a: u64, b: u64, i: u64|
            i < 64 ==> ((#[trigger] ((a | b) >> i)) & 1u64 == 1u64) == (((a >> i) & 1u64 == 1u64)
                || ((b >> i) & 1u64 == 1u64)),
        forall|a: u64, b: u64, i: u64|
            i < 64 ==> ((#[trigger] ((a & b) >> i)) & 1u64 == 1u64) == (((a >> i) & 1u64 == 1u64)
                && ((b >> i) & 1u64 == 1u64)),
        forall|a: u64, i: u64|
            i < 64 ==> ((#[trigger] ((!a) >> i)) & 1u64 == 1u64) == !((a >> i) & 1u64 == 1u64),
        forall|i: u64, j: u64|
            i < 64 && j < 64 ==> ((#[trigger] ((1u64 << i) >> j)) & 1u64 == 1u64) == (i == j),
        forall|i: u64| i < 64 ==> (0u64 >> i) & 1u64 == 0u64,
{
}

/// The same facts, phrased over [`bit`].
pub proof fn lemma_bit()
    ensures
        forall|m: u64, i: u64|
            i < 64 ==> ((#[trigger] (m & (1u64 << i))) != 0) == bit(m, i as int),
        forall|m: u64, i: u64|
            i < 64 ==> ((#[trigger] ((1u64 << i) & m)) != 0) == bit(m, i as int),
        forall|a: u64, b: u64, i: int| #[trigger] bit(a | b, i) == (bit(a, i) || bit(b, i)),
        forall|a: u64, b: u64, i: int| #[trigger] bit(a & b, i) == (bit(a, i) && bit(b, i)),
        forall|a: u64, i: int| #[trigger] bit(!a, i) == (0 <= i < 64 && !bit(a, i)),
        forall|i: u64, j: int| i < 64 ==> #[trigger] bit(1u64 << i, j) == (j == i as int),
        forall|i: int| !bit(0u64, i),
{
    lemma_bit_basics();
    assert forall|i: u64, j: int| i < 64 implies #[trigger] bit(1u64 << i, j) == (j == i as int) by {
        if 0 <= j < 64 {
            assert((((1u64 << i) >> (j as u64)) & 1u64 == 1u64) == (i == j as u64));
        }
    }
}

/// Popping the lowest set bit: `m & (m - 1)` clears exactly the square
/// numbered `m.trailing_zeros()`, which is the lowest one set.
pub proof fn lemma_pop_lsb(m: u64)
    requires
        m != 0,
    ensures
        u64_trailing_zeros(m) < 64,
        bit(m, u64_trailing_zeros(m) as int),
        forall|j: int| j < u64_trailing_zeros(m) ==> !bit(m, j),
        (m & ((m - 1) as u64)) < m,
        forall|j: int|
            #[trigger] bit(m & ((m - 1) as u64), j) == (bit(m, j) && j != u64_trailing_zeros(
                m,
            ) as int),
{
    broadcast use vstd::std_specs::bits::axiom_u64_trailing_zeros;

    let t = u64_trailing_zeros(m) as u64;
    let s = (64 - t) as u64;
    assert(m << s == 0);
    assert((m & ((m - 1) as u64)) < m && forall|j: u64|
        j < 64 ==> (((m & ((m - 1) as u64)) >> j) & 1u64 == 1u64) == (((m >> j) & 1u64 == 1u64) && j
            != t) && (j < t ==> (m >> j) & 1u64 == 0u64)) by (bit_vector)
        requires
            m != 0,
            t < 64,
            s <= 64,
            t + s == 64,
            (m >> t) & 1u64 == 1u64,
            m << s == 0,
    ;
}

/// Distinct squares have distinct single-square masks.
pub proof fn lemma_shift_injective()
    ensures
        forall|a: int, b: int|
            #![trigger (1u64 << (a as u64)), (1u64 << (b as u64))]
            0 <= a < 64 && 0 <= b < 64 && a != b ==> (1u64 << (a as u64)) != (1u64 << (b as u64)),
{
    lemma_bit();
    assert forall|a: int, b: int|
        #![trigger (1u64 << (a as u64)), (1u64 << (b as u64))]
        0 <= a < 64 && 0 <= b < 64 && a != b implies (1u64 << (a as u64)) != (1u64 << (
    b as u64)) by {
        assert(bit(1u64 << (a as u64), a));
        assert(!bit(1u64 << (b as u64), a));
    }
}

/// The lowest set bit of a single-square mask is that square.
pub proof fn lemma_tz_single(i: u64)
    requires
        i < 64,
    ensures
        u64_trailing_zeros(1u64 << i) == i,
{
    broadcast use vstd::std_specs::bits::axiom_u64_trailing_zeros;

    lemma_bit_basics();
    let m = 1u64 << i;
    assert(((1u64 << i) >> i) & 1u64 == 1u64);
    assert(m != 0) by {
        if m == 0 {
            assert((0u64 >> i) & 1u64 == 0u64);
        }
    }
    let t = u64_trailing_zeros(m);
    assert((m >> (t as u64)) & 1u64 == 1u64);
    assert(t as u64 == i);
}

/// How exclusive-or reads at the level of single squares.
proof fn lemma_xor_bits()
    by (bit_vector)
    ensures
        forall|a: u64, b: u64| ((#[trigger] (a ^ b)) == 0) == (a == b),
        forall|a: u64, b: u64, j: u64|
            j < 64 ==> (((#[trigger] ((a ^ b) >> j)) & 1u64) == 1u64) == (((a >> j) & 1u64 == 1u64)
                != ((b >> j) & 1u64 == 1u64)),
{
}

/// Two masks that agree on every square are equal.
pub proof fn lemma_u64_ext(m1: u64, m2: u64)
    requires
        forall|j: int| #[trigger] bit(m1, j) == bit(m2, j),
    ensures
        m1 == m2,
{
    broadcast use vstd::std_specs::bits::axiom_u64_trailing_zeros;

    lemma_xor_bits();
    if m1 != m2 {
        let d = m1 ^ m2;
        assert(d != 0);
        let t = u64_trailing_zeros(d) as u64;
        assert(t < 64);
        assert((d >> t) & 1u64 == 1u64);
        assert(bit(m1, t as int) != bit(m2, t as int));
        assert(false);
    }
}

/// The number of set squares in a mask.
pub open spec fn pc(m: u64) -> nat
    decreases m,
{
    if m == 0 {
        0
    } else {
        (if m % 2 == 1 {
            1nat
        } else {
            0nat
        }) + pc(m / 2)
    }
}

proof fn lemma_pc_bound_rec(m: u64, n: nat)
    requires
        m < vstd::arithmetic::power2::pow2(n),
    ensures
        pc(m) <= n,
    decreases n,
{
    vstd::arithmetic::power2::lemma_pow2_pos(n);
    if m > 0 {
        assert(n > 0) by {
            if n == 0 {
                vstd::arithmetic::power2::lemma2_to64();
            }
        }
        assert(vstd::arithmetic::power2::pow2(n) == 2 * vstd::arithmetic::power2::pow2(
            (n - 1) as nat,
        )) by {
            vstd::arithmetic::power2::lemma_pow2_unfold(n);
        }
        lemma_pc_bound_rec(m / 2, (n - 1) as nat);
    }
}

/// A 64-bit mask holds at most 64 set squares.
pub proof fn lemma_pc_bound(m: u64)
    ensures
        pc(m) <= 64,
{
    vstd::arithmetic::power2::lemma2_to64_rest();
    lemma_pc_bound_rec(m, 64);
}

/// Count the set squares of a mask.
pub fn count_bits(m: u64) -> (r: u32)
    ensures
        r == pc(m),
        r <= 64,
{
    proof {
        lemma_pc_bound(m);
    }
    let mut x = m;
    let mut c: u32 = 0;
    while x != 0
        invariant
            c + pc(x) == pc(m),
            pc(m) <= 64,
        decreases x,
    {
        assert(x & 1 == x % 2 && x >> 1u64 == x / 2) by (bit_vector);
        c = c + (x & 1) as u32;
        x = x >> 1u64;
    }
    c
}

} // verus!
