//! Values of little-endian limb sequences, and bit lengths.
use crate::machine::{bit_length, trailing_zeros};
use vstd::arithmetic::div_mod::*;
use vstd::arithmetic::mul::*;
use vstd::arithmetic::power2::*;
use vstd::prelude::*;

verus! {

/// The value of little-endian 32-bit limbs.
pub open spec fn limbs_value(s: Seq<u32>) -> nat
    decreases s.len(),
{
    if s.len() == 0 {
        0
    } else {
        s[0] as nat + pow2(32) * limbs_value(s.drop_first())
    }
}

/// The value of little-endian 64-bit limbs.
pub open spec fn wide_value(s: Seq<u64>) -> nat
    decreases s.len(),
{
    if s.len() == 0 {
        0
    } else {
        s[0] as nat + pow2(64) * wide_value(s.drop_first())
    }
}

pub proof fn lemma_limbs_push(s: Seq<u32>, x: u32)
    ensures
        limbs_value(s.push(x)) == limbs_value(s) + pow2(32 * s.len()) * x,
    decreases s.len(),
{
    if s.len() == 0 {
        assert(s.push(x).drop_first() =~= Seq::<u32>::empty());
        lemma2_to64();
        assert(limbs_value(Seq::<u32>::empty()) == 0);
        assert(pow2(32) * 0 == 0);
    } else {
        assert(s.push(x).drop_first() =~= s.drop_first().push(x));
        lemma_limbs_push(s.drop_first(), x);
        lemma_pow2_adds(32, 32 * (s.len() - 1) as nat);
        assert(32 * s.len() == 32 + 32 * (s.len() - 1));
        let a = limbs_value(s.drop_first());
        let p = pow2(32 * (s.len() - 1) as nat);
        assert(pow2(32) * (a + p * x) == pow2(32) * a + (pow2(32) * p) * x) by (nonlinear_arith);
    }
}

pub proof fn lemma_wide_push(s: Seq<u64>, x: u64)
    ensures
        wide_value(s.push(x)) == wide_value(s) + pow2(64 * s.len()) * x,
    decreases s.len(),
{
    if s.len() == 0 {
        assert(s.push(x).drop_first() =~= Seq::<u64>::empty());
        lemma2_to64();
        assert(wide_value(Seq::<u64>::empty()) == 0);
        assert(pow2(64) * 0 == 0);
    } else {
        assert(s.push(x).drop_first() =~= s.drop_first().push(x));
        lemma_wide_push(s.drop_first(), x);
        lemma_pow2_adds(64, 64 * (s.len() - 1) as nat);
        assert(64 * s.len() == 64 + 64 * (s.len() - 1));
        let a = wide_value(s.drop_first());
        let p = pow2(64 * (s.len() - 1) as nat);
        assert(pow2(64) * (a + p * x) == pow2(64) * a + (pow2(64) * p) * x) by (nonlinear_arith);
    }
}

/// Splitting limbs at `j` splits the value.
pub proof fn lemma_limbs_split(s: Seq<u32>, j: int)
    requires
        0 <= j <= s.len(),
    ensures
        limbs_value(s) == limbs_value(s.take(j)) + pow2(32 * j as nat) * limbs_value(s.skip(j)),
        limbs_value(s.take(j)) < pow2(32 * j as nat),
    decreases j,
{
    if j == 0 {
        assert(s.take(0) =~= Seq::<u32>::empty());
        assert(s.skip(0) =~= s);
        lemma2_to64();
        assert(limbs_value(s.take(0)) == 0);
        assert(32 * j as nat == 0);
        assert(pow2(0) * limbs_value(s) == limbs_value(s));
    } else {
        let t = s.drop_first();
        lemma_limbs_split(t, j - 1);
        assert(s.take(j).drop_first() =~= t.take(j - 1));
        assert(s.skip(j) =~= t.skip(j - 1));
        lemma_pow2_adds(32, 32 * (j - 1) as nat);
        assert(32 * j == 32 + 32 * (j - 1));
        let a = limbs_value(t.take(j - 1));
        let b = limbs_value(t.skip(j - 1));
        let p = pow2(32 * (j - 1) as nat);
        let q = pow2(32);
        lemma2_to64();
        assert(limbs_value(s.take(j)) == s[0] as nat + q * a);
        assert(s[0] as nat + q * (a + p * b) == (s[0] as nat + q * a) + (q * p) * b)
            by (nonlinear_arith);
        assert(q * p == pow2(32 * j as nat));
        assert(limbs_value(s) == s[0] as nat + q * limbs_value(t));
        assert(s[0] as nat + q * a < q * p) by (nonlinear_arith)
            requires
                (s[0] as nat) < q,
                a < p,
                a >= 0,
        ;
    }
}

/// The value of limbs is below `2^(32 * len)`.
pub proof fn lemma_limbs_bound(s: Seq<u32>)
    ensures
        limbs_value(s) < pow2(32 * s.len()),
{
    lemma_limbs_split(s, s.len() as int);
    assert(s.take(s.len() as int) =~= s);
}

/// The limbs from `j` on are the limb at `j` plus `2^32` times the rest.
pub proof fn lemma_limbs_skip(s: Seq<u32>, j: int)
    requires
        0 <= j < s.len(),
    ensures
        limbs_value(s.skip(j)) == s[j] as nat + pow2(32) * limbs_value(s.skip(j + 1)),
{
    assert(s.skip(j).drop_first() =~= s.skip(j + 1));
}

/// Replacing limb `i` changes the value by the difference at weight `2^(32 i)`.
pub proof fn lemma_limbs_update(s: Seq<u32>, i: int, x: u32)
    requires
        0 <= i < s.len(),
    ensures
        limbs_value(s.update(i, x)) + pow2(32 * i as nat) * s[i] == limbs_value(s) + pow2(
            32 * i as nat,
        ) * x,
{
    let t = s.update(i, x);
    lemma_limbs_split(s, i);
    lemma_limbs_split(t, i);
    assert(t.take(i) =~= s.take(i));
    lemma_limbs_skip(s, i);
    lemma_limbs_skip(t, i);
    assert(t.skip(i + 1) =~= s.skip(i + 1));
    let p = pow2(32 * i as nat);
    let r = limbs_value(s.skip(i + 1));
    assert(p * (x as nat + pow2(32) * r) + p * s[i] == p * (s[i] as nat + pow2(32) * r) + p * x)
        by (nonlinear_arith);
}

/// Trailing zero limbs do not change the value.
pub proof fn lemma_limbs_drop_zero(s: Seq<u32>)
    requires
        s.len() > 0,
        s.last() == 0,
    ensures
        limbs_value(s.drop_last()) == limbs_value(s),
{
    assert(s.drop_last().push(0) =~= s);
    lemma_limbs_push(s.drop_last(), 0);
}

/// A positive value lies between `2^(bit_length - 1)` and `2^bit_length`.
pub proof fn lemma_bit_length_bounds(x: nat)
    ensures
        x < pow2(bit_length(x)),
        x > 0 ==> bit_length(x) >= 1 && pow2((bit_length(x) - 1) as nat) <= x,
        x == 0 ==> bit_length(x) == 0,
    decreases x,
{
    lemma2_to64();
    if x > 0 {
        lemma_bit_length_bounds(x / 2);
        lemma_pow2_unfold(bit_length(x));
        if x / 2 > 0 {
            lemma_pow2_unfold((bit_length(x) - 1) as nat);
        }
    }
}

/// The bit length is the `n` with `2^(n-1) <= x < 2^n`.
pub proof fn lemma_bit_length_unique(x: nat, n: nat)
    requires
        x < pow2(n),
        n >= 1 ==> pow2((n - 1) as nat) <= x,
    ensures
        bit_length(x) == n,
    decreases n,
{
    lemma2_to64();
    if n == 0 {
        assert(x == 0);
    } else {
        lemma_pow2_unfold(n);
        lemma_pow2_pos((n - 1) as nat);
        assert(x > 0);
        if n >= 2 {
            lemma_pow2_unfold((n - 1) as nat);
        }
        lemma_bit_length_unique(x / 2, (n - 1) as nat);
    }
}

/// Dropping `o` low bits of a value shortens it by `o` bits.
pub proof fn lemma_bit_length_shift(x: nat, o: nat)
    requires
        o < bit_length(x),
    ensures
        bit_length(x / pow2(o)) == bit_length(x) - o,
        x / pow2(o) > 0,
{
    lemma_bit_length_bounds(x);
    let n = bit_length(x);
    lemma_pow2_pos(o);
    lemma_pow2_adds(o, (n - o) as nat);
    lemma_pow2_adds(o, (n - 1 - o) as nat);
    let d = pow2(o) as int;
    assert(x / pow2(o) < pow2((n - o) as nat)) by {
        lemma_div_strictly_bounded(x as int, d, pow2((n - o) as nat) as int);
    }
    assert(x / pow2(o) >= pow2((n - 1 - o) as nat)) by {
        lemma_div_is_ordered((pow2((n - 1 - o) as nat) * pow2(o)) as int, x as int, d);
        lemma_div_multiples_vanish(pow2((n - 1 - o) as nat) as int, d);
        lemma_mul_is_commutative(pow2((n - 1 - o) as nat) as int, d);
    }
    lemma_pow2_pos((n - 1 - o) as nat);
    lemma_bit_length_unique(x / pow2(o), (n - o) as nat);
}

pub proof fn lemma_div_strictly_bounded(x: int, d: int, q: int)
    requires
        d > 0,
        q > 0,
        0 <= x < d * q,
    ensures
        x / d < q,
{
    lemma_div_strictly_bounded_by_multiple(x, d, q);
}

proof fn lemma_div_strictly_bounded_by_multiple(x: int, d: int, q: int)
    requires
        d > 0,
        q > 0,
        0 <= x < d * q,
    ensures
        x / d < q,
{
    lemma_fundamental_div_mod(x, d);
    if x / d >= q {
        lemma_mul_inequality(q, x / d, d);
        lemma_mul_is_commutative(q, d);
        lemma_mul_is_commutative(x / d, d);
    }
}

/// The bit length of limbs with a nonzero top limb.
pub proof fn lemma_limbs_bit_length(s: Seq<u32>)
    requires
        s.len() > 0,
        s.last() != 0,
    ensures
        bit_length(limbs_value(s)) == 32 * (s.len() - 1) + bit_length(s.last() as nat),
{
    let j = s.len() - 1;
    lemma_limbs_split(s, j);
    assert(s.skip(j) =~= seq![s.last()]);
    assert(limbs_value(seq![s.last()]) == s.last() as nat + pow2(32) * limbs_value(
        seq![s.last()].drop_first(),
    ));
    assert(seq![s.last()].drop_first() =~= Seq::<u32>::empty());
    let low = limbs_value(s.take(j));
    let top = s.last() as nat;
    let p = pow2(32 * j as nat);
    assert(pow2(32) * 0 == 0);
    assert(limbs_value(s) == low + p * top);
    lemma_bit_length_bounds(top);
    let n = bit_length(top);
    lemma_pow2_adds(32 * j as nat, n);
    lemma_pow2_adds(32 * j as nat, (n - 1) as nat);
    lemma_pow2_pos(32 * j as nat);
    assert(low + p * top < p * pow2(n)) by (nonlinear_arith)
        requires
            low < p,
            top < pow2(n),
            top + 1 <= pow2(n),
    ;
    assert(p * pow2((n - 1) as nat) <= p * top) by (nonlinear_arith)
        requires
            pow2((n - 1) as nat) <= top,
            p > 0,
    ;
    lemma_bit_length_unique(limbs_value(s), (32 * j + n) as nat);
}

/// A value with `t` trailing zeros has a one at bit `t`.
pub proof fn lemma_trailing_zeros_unique(x: nat, t: nat)
    requires
        x % pow2(t) == 0,
        (x / pow2(t)) % 2 == 1,
    ensures
        trailing_zeros(x) == t,
    decreases t,
{
    lemma2_to64();
    if t == 0 {
        assert(x / 1 == x);
    } else {
        lemma_pow2_unfold(t);
        let p = pow2((t - 1) as nat);
        lemma_pow2_pos((t - 1) as nat);
        lemma_mod_breakdown(x as int, 2, p as int);
        assert(x % 2 == 0) by {
            lemma_mod_mod(x as int, 2, p as int);
        }
        assert((x / 2) % p == 0);
        lemma_div_denominator(x as int, 2, p as int);
        assert(x != 0) by {
            if x == 0 {
                assert(0nat / pow2(t) == 0) by {
                    lemma_div_of0(pow2(t) as int);
                }
            }
        }
        lemma_trailing_zeros_unique(x / 2, (t - 1) as nat);
    }
}

/// Dropping `l` low bits of `x + 2^k y` (with `l <= k`) drops them from `x` alone.
pub proof fn lemma_shift_split(x: nat, y: nat, l: nat, k: nat)
    requires
        l <= k,
    ensures
        (x + pow2(k) * y) / pow2(l) == x / pow2(l) + pow2((k - l) as nat) * y,
{
    lemma_pow2_adds(l, (k - l) as nat);
    lemma_pow2_pos(l);
    let d = pow2(l) as int;
    let z = pow2((k - l) as nat) * y;
    lemma_fundamental_div_mod(x as int, d);
    let q = x as int / d;
    let r = x as int % d;
    assert(pow2(k) * y == d * z) by {
        lemma_mul_is_associative(d, pow2((k - l) as nat) as int, y as int);
    }
    assert(x + pow2(k) * y == d * (q + z) + r) by {
        lemma_mul_is_distributive_add(d, q, z as int);
    }
    lemma_div_multiples_vanish_fancy(q + z, r, d);
}

/// Adding a multiple of `2^k` leaves the low `m <= k` bits alone.
pub proof fn lemma_low_bits_agree(b: nat, y: nat, k: nat, m: nat)
    requires
        m <= k,
    ensures
        (b + pow2(k) * y) % pow2(m) == b % pow2(m),
{
    lemma_pow2_adds(m, (k - m) as nat);
    lemma_pow2_pos(m);
    assert(pow2(k) * y == pow2(m) * (pow2((k - m) as nat) * y)) by {
        lemma_mul_is_associative(pow2(m) as int, pow2((k - m) as nat) as int, y as int);
    }
    lemma_mod_multiples_vanish((pow2((k - m) as nat) * y) as int, b as int, pow2(m) as int);
}

/// A value below `2^n` needs at most `n` bits.
pub proof fn lemma_bit_length_le(x: nat, n: nat)
    requires
        x < pow2(n),
    ensures
        bit_length(x) <= n,
{
    lemma_bit_length_bounds(x);
    if bit_length(x) > n {
        if bit_length(x) - 1 > n {
            lemma_pow2_strictly_increases(n, (bit_length(x) - 1) as nat);
        }
    }
}


/// Splitting wide limbs at `j` splits the value.
pub proof fn lemma_wide_split(s: Seq<u64>, j: int)
    requires
        0 <= j <= s.len(),
    ensures
        wide_value(s) == wide_value(s.take(j)) + pow2(64 * j as nat) * wide_value(s.skip(j)),
        wide_value(s.take(j)) < pow2(64 * j as nat),
    decreases j,
{
    if j == 0 {
        assert(s.take(0) =~= Seq::<u64>::empty());
        assert(s.skip(0) =~= s);
        lemma2_to64();
        assert(wide_value(s.take(0)) == 0);
        assert(64 * j as nat == 0);
        assert(pow2(0) * wide_value(s) == wide_value(s));
    } else {
        let t = s.drop_first();
        lemma_wide_split(t, j - 1);
        assert(s.take(j).drop_first() =~= t.take(j - 1));
        assert(s.skip(j) =~= t.skip(j - 1));
        lemma_pow2_adds(64, 64 * (j - 1) as nat);
        assert(64 * j == 64 + 64 * (j - 1));
        let a = wide_value(t.take(j - 1));
        let b = wide_value(t.skip(j - 1));
        let p = pow2(64 * (j - 1) as nat);
        let q = pow2(64);
        lemma2_to64_rest();
        assert(wide_value(s.take(j)) == s[0] as nat + q * a);
        assert(s[0] as nat + q * (a + p * b) == (s[0] as nat + q * a) + (q * p) * b)
            by (nonlinear_arith);
        assert(q * p == pow2(64 * j as nat));
        assert(wide_value(s) == s[0] as nat + q * wide_value(t));
        assert(s[0] as nat + q * a < q * p) by (nonlinear_arith)
            requires
                (s[0] as nat) < q,
                a < p,
                a >= 0,
        ;
    }
}

} // verus!
