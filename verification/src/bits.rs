//! Facts about shifts, masks and low bits of machine words, stated over `pow2`.
use crate::machine::trailing_zeros;
use vstd::arithmetic::div_mod::*;
use vstd::arithmetic::mul::*;
use vstd::arithmetic::power2::*;
use vstd::bits::*;
use vstd::prelude::*;

verus! {

/// `1 << n` is `2^n` for a 128-bit word.
pub proof fn lemma_one_shl_u128(n: u128)
    requires
        n < 128,
    ensures
        (1u128 << n) as nat == pow2(n as nat),
    decreases n,
{
    if n == 0 {
        assert(1u128 << 0u128 == 1u128) by (bit_vector);
        lemma2_to64();
    } else {
        let m = (n - 1) as u128;
        lemma_one_shl_u128(m);
        assert(1u128 << n == 2 * (1u128 << m)) by (bit_vector)
            requires
                n < 128,
                m == n - 1,
        ;
        lemma_pow2_unfold(n as nat);
    }
}

/// `x << n` is `x * 2^n` for a 128-bit word when nothing is shifted out.
pub proof fn lemma_shl_u128(x: u128, n: u128)
    requires
        n < 128,
        x * pow2(n as nat) <= u128::MAX,
    ensures
        (x << n) as nat == x * pow2(n as nat),
    decreases n,
{
    if n == 0 {
        assert(x << 0u128 == x) by (bit_vector);
        lemma2_to64();
    } else {
        let m = (n - 1) as u128;
        lemma_pow2_unfold(n as nat);
        lemma_pow2_pos(m as nat);
        assert(x * pow2(m as nat) <= x * pow2(n as nat)) by (nonlinear_arith)
            requires
                pow2(n as nat) == 2 * pow2(m as nat),
        ;
        lemma_shl_u128(x, m);
        assert((x << m) as nat * 2 <= u128::MAX) by (nonlinear_arith)
            requires
                (x << m) as nat == x * pow2(m as nat),
                x * pow2(n as nat) <= u128::MAX,
                pow2(n as nat) == 2 * pow2(m as nat),
        ;
        let y = x << m;
        assert(x << n == y << 1u128) by (bit_vector)
            requires
                y == x << m,
                m == n - 1,
                0 < n < 128,
        ;
        assert(y << 1u128 == 2 * y) by (bit_vector)
            requires
                y <= u128::MAX / 2,
        ;
        assert(x * pow2(n as nat) == 2 * (x * pow2(m as nat))) by (nonlinear_arith)
            requires
                pow2(n as nat) == 2 * pow2(m as nat),
        ;
    }
}

/// Masking with `2^n - 1` is reduction modulo `2^n`.
pub proof fn lemma_mask_u128(x: u128, n: u128)
    requires
        n < 128,
    ensures
        (x & (((1u128 << n) - 1) as u128)) as nat == x as nat % pow2(n as nat),
        (1u128 << n) as nat == pow2(n as nat),
    decreases n,
{
    lemma_one_shl_u128(n);
    if n == 0 {
        assert(x & (((1u128 << 0u128) - 1) as u128) == 0) by (bit_vector);
        lemma2_to64();
    } else {
        let m = (n - 1) as u128;
        lemma_mask_u128(x / 2, m);
        lemma_one_shl_u128(m);
        lemma_pow2_unfold(n as nat);
        lemma_pow2_pos(m as nat);
        let big = (((1u128 << n) - 1) as u128);
        let small = (((1u128 << m) - 1) as u128);
        assert(big == 2 * small + 1);
        assert(x & big == 2 * ((x / 2) & small) + x % 2) by (bit_vector)
            requires
                big == 2 * small + 1,
        ;
        lemma_mod_breakdown(x as int, 2, pow2(m as nat) as int);
    }
}

/// `x >> n` is `x / 2^n` for a 128-bit word.
pub proof fn lemma_shr_u128(x: u128, n: u128)
    requires
        n < 128,
    ensures
        (x >> n) as nat == x as nat / pow2(n as nat),
{
    lemma_u128_shr_is_div(x, n);
}

/// `x & !(x - 1)` is the lowest set bit of a nonzero word.
pub proof fn lemma_lowest_bit_u128(x: u128)
    requires
        x != 0,
    ensures
        (x & !((x - 1) as u128)) as nat == pow2(trailing_zeros(x as nat)),
    decreases x,
{
    if x % 2 == 1 {
        assert(x & !((x - 1) as u128) == 1u128) by (bit_vector)
            requires
                x % 2 == 1,
        ;
        lemma2_to64();
    } else {
        let y = x / 2;
        assert(y != 0);
        lemma_lowest_bit_u128(y);
        assert(x & !((x - 1) as u128) == 2 * (y & !((y - 1) as u128))) by (bit_vector)
            requires
                x % 2 == 0,
                x != 0,
                y == x / 2,
        ;
        lemma_pow2_unfold(trailing_zeros(x as nat));
        assert(trailing_zeros(x as nat) == 1 + trailing_zeros(y as nat));
    }
}

/// The lowest set bit is at most the value.
pub proof fn lemma_trailing_zeros_bound(v: nat)
    requires
        v > 0,
    ensures
        pow2(trailing_zeros(v)) <= v,
        v % pow2(trailing_zeros(v)) == 0,
    decreases v,
{
    if v % 2 == 1 {
        lemma2_to64();
    } else {
        lemma_trailing_zeros_bound(v / 2);
        lemma_pow2_unfold(trailing_zeros(v));
        let t = trailing_zeros(v / 2);
        lemma_pow2_pos(t);
        assert(v % pow2(trailing_zeros(v)) == 0) by {
            lemma_fundamental_div_mod((v / 2) as int, pow2(t) as int);
            assert(v == 2 * (v / 2));
            assert(v == (2 * pow2(t)) * ((v / 2) / pow2(t))) by (nonlinear_arith)
                requires
                    v == 2 * (v / 2),
                    (v / 2) as int == pow2(t) * ((v / 2) as int / pow2(t) as int) + (v / 2) as int
                        % pow2(t) as int,
                    (v / 2) % pow2(t) == 0,
            ;
            lemma_mod_multiples_basic(((v / 2) / pow2(t)) as int, (2 * pow2(t)) as int);
        }
    }
}

/// Trailing zeros are unchanged by adding a multiple of a higher power of two.
pub proof fn lemma_trailing_zeros_mod(v: nat, k: nat)
    requires
        v % pow2(k) != 0,
    ensures
        trailing_zeros(v) == trailing_zeros(v % pow2(k)),
        trailing_zeros(v) < k,
    decreases k,
{
    lemma_pow2_pos(k);
    if v == 0 {
        lemma_small_mod(0, pow2(k));
    }
    assert(v != 0);
    if k == 0 {
        lemma2_to64();
        assert(v % 1 == 0);
    } else {
        lemma_pow2_unfold(k);
        let p = pow2((k - 1) as nat);
        lemma_pow2_pos((k - 1) as nat);
        // v % 2p == 2 * ((v/2) % p) + v % 2
        lemma_mod_breakdown(v as int, 2, p as int);
        if v % 2 == 1 {
            let w = v % pow2(k);
            assert(w == 2 * ((v / 2) % p) + 1);
            assert(w % 2 == 1);
            assert(trailing_zeros(w) == 0);
            assert(trailing_zeros(v) == 0);
        } else {
            assert((v / 2) % p != 0);
            lemma_trailing_zeros_mod(v / 2, (k - 1) as nat);
            let w = v % pow2(k);
            assert(w == 2 * ((v / 2) % p));
            assert(w % 2 == 0 && w != 0);
            assert(w / 2 == (v / 2) % p);
            assert(trailing_zeros(w) == 1 + trailing_zeros(w / 2));
            assert(trailing_zeros(v) == 1 + trailing_zeros(v / 2));
        }
    }
}

} // verus!
