//! The register machine run on an explicit value held as 32-bit limbs.
use crate::limbs::{
    lemma_bit_length_bounds, lemma_bit_length_shift, lemma_bit_length_unique,
    lemma_limbs_bit_length, lemma_limbs_bound, lemma_limbs_drop_zero, lemma_limbs_push,
    lemma_limbs_skip, lemma_limbs_split, lemma_limbs_update, lemma_trailing_zeros_unique,
    lemma_wide_push, limbs_value, wide_value, lemma_bit_length_le, lemma_shift_split, lemma_low_bits_agree,
};
use crate::bits::{lemma_trailing_zeros_mod, lemma_trailing_zeros_bound};
use crate::machine::{
    bit_length, front, moved_queue, next_register, odd_digits, register_move, terminal, trailing_zeros,
    Register,
};
use crate::normalizer::{summary_register, Summary};
use std::collections::VecDeque;
use vstd::arithmetic::div_mod::*;
use vstd::arithmetic::mul::*;
use vstd::arithmetic::power2::*;
use vstd::bits::{lemma_u32_shr_is_div, lemma_u64_shr_is_div};
use vstd::std_specs::bits::{axiom_u32_leading_zeros, axiom_u32_trailing_zeros, u32_leading_zeros, u32_trailing_zeros};
use vstd::prelude::*;

verus! {

/// A positive value: the limbs shifted right by `offset` bits; `top` is the bit length
/// of the limbs.
struct Bits {
    words: Vec<u32>,
    offset: usize,
    top: usize,
}

impl Bits {
    spec fn whole(&self) -> nat {
        limbs_value(self.words@)
    }

    spec fn value(&self) -> nat {
        self.whole() / pow2(self.offset as nat)
    }

    spec fn wf(&self) -> bool {
        &&& self.words.len() > 0
        &&& self.words@.last() != 0
        &&& self.top == bit_length(self.whole())
        &&& self.offset < self.top
        &&& self.top + 64 <= usize::MAX
    }
}

proof fn lemma_u32_bit_length(x: u32)
    requires
        x != 0,
    ensures
        bit_length(x as nat) == 32 - x.leading_zeros(),
        x.leading_zeros() < 32,
{
    axiom_u32_leading_zeros(x);
    let z = u32_leading_zeros(x);
    lemma2_to64();
    let t = (31 - z) as u32;
    lemma_u32_shr_is_div(x, t);
    assert((x >> t) & 1u32 != 0u32 ==> (x >> t) != 0u32) by (bit_vector);
    assert(x as nat / pow2(t as nat) >= 1);
    lemma_pow2_pos(t as nat);
    assert(x as nat >= pow2(t as nat)) by {
        lemma_fundamental_div_mod(x as int, pow2(t as nat) as int);
        lemma_mul_inequality(1, x as int / pow2(t as nat) as int, pow2(t as nat) as int);
    }
    if z == 0 {
        assert(x < pow2(32));
    } else {
        let u = (32 - z) as u32;
        lemma_u32_shr_is_div(x, u);
        assert(x >> u == 0u32);
        lemma_pow2_pos(u as nat);
        assert(x < pow2(u as nat)) by {
            lemma_fundamental_div_mod(x as int, pow2(u as nat) as int);
        }
    }
    lemma_bit_length_unique(x as nat, (32 - z) as nat);
}

proof fn lemma_u32_trailing_zeros(x: u32)
    requires
        x != 0,
    ensures
        trailing_zeros(x as nat) == x.trailing_zeros(),
        x.trailing_zeros() < 32,
{
    axiom_u32_trailing_zeros(x);
    let t = u32_trailing_zeros(x);
    let tt = t as u32;
    lemma2_to64();
    lemma_u32_shr_is_div(x, tt);
    let y = x >> tt;
    assert(y & 1u32 == 1u32 ==> y % 2 == 1) by (bit_vector);
    assert(x << ((32 - tt) as u32) == 0u32 ==> (x >> tt) << tt == x) by (bit_vector)
        requires
            tt < 32,
    ;
    assert(x << ((32 - t) as u32) == 0u32);
    lemma_pow2_pos(t as nat);
    assert(y as nat * pow2(t as nat) <= x) by {
        lemma_fundamental_div_mod(x as int, pow2(t as nat) as int);
        lemma_mul_is_commutative(y as int, pow2(t as nat) as int);
    }
    vstd::bits::lemma_u32_shl_is_mul(y, tt);
    assert(x as nat == y as nat * pow2(t as nat));
    assert(x as nat % pow2(t as nat) == 0) by {
        lemma_mod_multiples_basic(y as int, pow2(t as nat) as int);
    }
    lemma_trailing_zeros_unique(x as nat, t as nat);
}

proof fn lemma_split_u64(x: u64)
    ensures
        x as nat == (x as u32) as nat + pow2(32) * ((x >> 32u64) as u32) as nat,
{
    lemma2_to64();
    assert(x == (x as u32) as u64 + ((x >> 32u64) as u32) as u64 * 0x1_0000_0000u64)
        by (bit_vector);
}

impl Bits {
    fn from_words(source: &[u64]) -> (r: Bits)
        requires
            wide_value(source@) > 0,
            64 * source.len() + 128 <= usize::MAX,
        ensures
            r.wf(),
            r.offset == 0,
            r.value() == wide_value(source@),
    {
        let mut words: Vec<u32> = Vec::new();
        let mut i: usize = 0;
        while i < source.len()
            invariant
                i <= source.len(),
                words.len() == 2 * i,
                limbs_value(words@) == wide_value(source@.take(i as int)),
                64 * source.len() + 128 <= usize::MAX,
            decreases source.len() - i,
        {
            let x = source[i];
            let lo = x as u32;
            let hi = (x >> 32u64) as u32;
            proof {
                lemma_limbs_push(words@, lo);
                lemma_limbs_push(words@.push(lo), hi);
                assert(source@.take(i + 1) =~= source@.take(i as int).push(x));
                lemma_wide_push(source@.take(i as int), x);
                lemma_split_u64(x);
                lemma_pow2_adds(32 * (2 * i) as nat, 32);
                assert(32 * (2 * i) == 64 * i);
                let p = pow2(64 * i as nat);
                assert(p * x == p * lo + (p * pow2(32)) * hi) by (nonlinear_arith)
                    requires
                        x as nat == lo as nat + pow2(32) * hi as nat,
                ;
            }
            words.push(lo);
            words.push(hi);
            i = i + 1;
        }
        proof {
            assert(source@.take(source.len() as int) =~= source@);
        }
        while words.len() > 0 && words[words.len() - 1] == 0
            invariant
                limbs_value(words@) == wide_value(source@),
                words.len() <= 2 * source.len(),
            decreases words.len(),
        {
            proof {
                lemma_limbs_drop_zero(words@);
            }
            words.pop();
        }
        if words.len() == 0 {
            proof {
                assert(limbs_value(words@) == 0);
            }
        }
        let last = words[words.len() - 1];
        proof {
            lemma_u32_bit_length(last);
            lemma_limbs_bit_length(words@);
            lemma_bit_length_bounds(limbs_value(words@));
            lemma2_to64();
        }
        let top = 32 * (words.len() - 1) + (32 - last.leading_zeros()) as usize;
        proof {
            assert(pow2(0) == 1);
        }
        Bits { words, offset: 0, top }
    }

    fn length(&self) -> (r: usize)
        requires
            self.wf(),
        ensures
            r == bit_length(self.value()),
            r > 0,
    {
        proof {
            lemma_bit_length_shift(self.whole(), self.offset as nat);
        }
        self.top - self.offset
    }

    fn low(&self) -> (r: u32)
        requires
            self.wf(),
        ensures
            r as nat == self.value() % pow2(32),
    {
        let at = self.offset / 32;
        let shift = self.offset % 32;
        proof {
            lemma_limbs_bit_length(self.words@);
            lemma2_to64();
            lemma_bit_length_le(self.words@.last() as nat, 32);
            assert(at < self.words.len());
        }
        let w0: u32 = self.words[at];
        let w1: u32 = if at + 1 < self.words.len() {
            self.words[at + 1]
        } else {
            0
        };
        let mut value = w0 >> shift;
        if shift > 0 {
            value = value | (w1 << (32 - shift));
        }
        proof {
            let s = self.words@;
            let o = self.offset as nat;
            let a = at as int;
            let sh = shift as nat;
            lemma_limbs_split(s, a);
            lemma_limbs_skip(s, a);
            let r1 = limbs_value(s.skip(a + 1));
            let r2: nat = if a + 1 < s.len() {
                lemma_limbs_skip(s, a + 1);
                limbs_value(s.skip(a + 2))
            } else {
                0
            };
            assert(r1 == w1 as nat + pow2(32) * r2) by {
                if a + 1 >= s.len() {
                    assert(s.skip(a + 1) =~= Seq::<u32>::empty());
                    assert(pow2(32) * 0 == 0);
                }
            }
            let t: u64 = ((w0 as u64) + (w1 as u64) * 0x1_0000_0000u64) as u64;
            lemma_pow2_adds(32, 32);
            let rr = limbs_value(s.skip(a));
            assert(rr == t as nat + pow2(64) * r2) by {
                assert(rr == w0 as nat + pow2(32) * (w1 as nat + pow2(32) * r2));
                assert(pow2(32) * (w1 as nat + pow2(32) * r2) == pow2(32) * w1 as nat + (pow2(
                    32,
                ) * pow2(32)) * r2) by (nonlinear_arith);
            }
            // the whole value is low limbs plus 2^(32 a) times rr
            lemma_pow2_adds(32 * a as nat, sh);
            assert(o == 32 * a + sh);
            lemma_pow2_pos(32 * a as nat);
            lemma_pow2_pos(sh);
            let low_part = limbs_value(s.take(a));
            let pa = pow2(32 * a as nat);
            assert(self.whole() / pa == rr) by {
                lemma_div_multiples_vanish_fancy(rr as int, low_part as int, pa as int);
            }
            assert(self.value() == rr / pow2(sh)) by {
                lemma_div_denominator(self.whole() as int, pa as int, pow2(sh) as int);
            }
            lemma_shift_split(t as nat, r2, sh, 64);
            lemma_low_bits_agree(t as nat / pow2(sh), r2, (64 - sh) as nat, 32);
            lemma_u64_shr_is_div(t, shift as u64);
            let y = t >> (shift as u64);
            assert((y as u32) as u64 == y % 0x1_0000_0000u64) by (bit_vector);
            if shift > 0 {
                assert(((t >> (shift as u64)) as u32) == ((w0 >> shift) | (w1 << ((32 - shift) as u32))))
                    by (bit_vector)
                    requires
                        t == (w0 as u64) + (w1 as u64) * 0x1_0000_0000u64,
                        0 < shift < 32,
                ;
            } else {
                assert(((t >> 0u64) as u32) == (w0 >> 0u32)) by (bit_vector)
                    requires
                        t == (w0 as u64) + (w1 as u64) * 0x1_0000_0000u64,
                ;
            }
        }
        value
    }

    fn small(&self, n: u32) -> (r: bool)
        requires
            self.wf(),
        ensures
            r == (self.value() == n),
    {
        let len = self.length();
        proof {
            lemma_bit_length_bounds(self.value());
            lemma2_to64();
            if len <= 32 {
                if len < 32 {
                    lemma_pow2_strictly_increases(len as nat, 32);
                }
                lemma_small_mod(self.value(), pow2(32));
            } else if len > 33 {
                lemma_pow2_strictly_increases(32, (len - 1) as nat);
            }
        }
        len <= 32 && self.low() == n
    }

    fn shift(&mut self, count: usize)
        requires
            old(self).wf(),
            old(self).offset + count < old(self).top,
        ensures
            final(self).wf(),
            final(self).words == old(self).words,
            final(self).top == old(self).top,
            final(self).offset == old(self).offset + count,
            final(self).value() == old(self).value() / pow2(count as nat),
    {
        proof {
            lemma_pow2_pos(self.offset as nat);
            lemma_pow2_pos(count as nat);
            lemma_div_denominator(
                self.whole() as int,
                pow2(self.offset as nat) as int,
                pow2(count as nat) as int,
            );
            lemma_pow2_adds(self.offset as nat, count as nat);
        }
        self.offset = self.offset + count;
    }

    fn low_bit(&self) -> (r: usize)
        requires
            self.wf(),
        ensures
            r == trailing_zeros(self.value()),
    {
        let first = self.offset / 32;
        let shift = self.offset % 32;
        proof {
            lemma_limbs_bit_length(self.words@);
            lemma2_to64();
            lemma_bit_length_le(self.words@.last() as nat, 32);
        }
        let w = self.words[first];
        let low = w >> shift;
        let ghost s = self.words@;
        let ghost o = self.offset as nat;
        let ghost f = first as int;
        let ghost sh = shift as nat;
        proof {
            lemma_limbs_split(s, f);
            lemma_limbs_skip(s, f);
            lemma_pow2_adds(32 * f as nat, sh);
            lemma_pow2_pos(32 * f as nat);
            lemma_pow2_pos(sh);
            let pa = pow2(32 * f as nat);
            let rr = limbs_value(s.skip(f));
            assert(self.whole() / pa == rr) by {
                lemma_div_multiples_vanish_fancy(rr as int, limbs_value(s.take(f)) as int, pa as int);
            }
            assert(self.value() == rr / pow2(sh)) by {
                lemma_div_denominator(self.whole() as int, pa as int, pow2(sh) as int);
            }
            lemma_u32_shr_is_div(w, shift as u32);
            lemma_shift_split(w as nat, limbs_value(s.skip(f + 1)), sh, 32);
            lemma_bit_length_shift(self.whole(), o);
        }
        if low != 0 {
            proof {
                lemma_u32_trailing_zeros(low);
                lemma_low_bits_agree(low as nat, limbs_value(s.skip(f + 1)), (32 - sh) as nat, (32 - sh) as nat);
                assert(low < pow2((32 - sh) as nat)) by {
                    lemma_pow2_adds(sh, (32 - sh) as nat);
                    lemma_div_strictly_bounded_local(w as int, pow2(sh) as int, pow2((32 - sh) as nat) as int);
                }
                lemma_small_mod(low as nat, pow2((32 - sh) as nat));
                lemma_trailing_zeros_mod(self.value(), (32 - sh) as nat);
            }
            return low.trailing_zeros() as usize;
        }
        let mut at = first + 1;
        proof {
            // the limbs below `at` hold less than 2^offset
            assert(w as nat / pow2(sh) == 0);
            assert(w < pow2(sh)) by {
                lemma_fundamental_div_mod(w as int, pow2(sh) as int);
            }
            assert(s.take(f + 1) =~= s.take(f).push(w));
            lemma_limbs_push(s.take(f), w);
            assert(limbs_value(s.take(f)) + pow2(32 * f as nat) * w < pow2(o)) by (nonlinear_arith)
                requires
                    limbs_value(s.take(f)) < pow2(32 * f as nat),
                    (w as nat) + 1 <= pow2(sh),
                    pow2(o) == pow2(32 * f as nat) * pow2(sh),
            ;
            assert(self.value() > 0);
            if f + 1 >= s.len() {
                assert(s.take(f + 1) =~= s);
                lemma_small_div_local(self.whole(), pow2(o));
            }
        }
        while self.words[at] == 0
            invariant
                self.wf(),
                s == self.words@,
                f < at < s.len(),
                limbs_value(s.take(at as int)) < pow2(o),
                o == self.offset,
                o <= 32 * at,
            decreases s.len() - at,
        {
            proof {
                assert(s.take(at + 1) =~= s.take(at as int).push(0u32));
                lemma_limbs_push(s.take(at as int), 0u32);
                assert(pow2(32 * at as nat) * 0 == 0);
                if at + 1 >= s.len() {
                    assert(at == s.len() - 1);
                    assert(s[at as int] == s.last());
                }
            }
            at = at + 1;
        }
        let wa = self.words[at];
        proof {
            lemma_u32_trailing_zeros(wa);
            let a = at as int;
            lemma_limbs_split(s, a);
            lemma_limbs_skip(s, a);
            let rr = limbs_value(s.skip(a));
            let lowp = limbs_value(s.take(a));
            let j = (32 * a - o) as nat;
            lemma_pow2_adds(o, j);
            lemma_pow2_pos(o);
            // whole = lowp + 2^o * (2^j * rr), lowp < 2^o
            assert(pow2(32 * a as nat) * rr == pow2(o) * (pow2(j) * rr)) by {
                lemma_mul_is_associative(pow2(o) as int, pow2(j) as int, rr as int);
            }
            assert(self.value() == pow2(j) * rr) by {
                lemma_div_multiples_vanish_fancy((pow2(j) * rr) as int, lowp as int, pow2(o) as int);
            }
            lemma_low_bits_agree(wa as nat, limbs_value(s.skip(a + 1)), 32, 32);
            lemma_small_mod(wa as nat, pow2(32));
            lemma_trailing_zeros_mod(rr, 32);
            lemma_trailing_zeros_shift(rr, j);
            lemma_limbs_bound(s);
        }
        32 * at + wa.trailing_zeros() as usize - self.offset
    }

    fn add_at(&mut self, value: u32, relative_bit: usize)
        requires
            old(self).wf(),
            old(self).offset + relative_bit < old(self).top,
            old(self).top + 128 <= usize::MAX,
        ensures
            final(self).wf(),
            final(self).offset == old(self).offset,
            final(self).whole() == old(self).whole() + value * pow2(
                (old(self).offset + relative_bit) as nat,
            ),
            final(self).top <= old(self).top + 34,
    {
        let position = self.offset + relative_bit;
        let mut at = position / 32;
        proof {
            lemma2_to64();
            vstd::bits::lemma_u64_pow2_no_overflow((position % 32) as nat);
            lemma_pow2_strictly_increases((position % 32) as nat, 32);
            if position % 32 < 31 {
                lemma_pow2_strictly_increases((position % 32) as nat, 31);
            }
            lemma_pow2_pos((position % 32) as nat);
            assert(value * pow2((position % 32) as nat) < pow2(32) * pow2(31)) by (nonlinear_arith)
                requires
                    value < pow2(32),
                    pow2((position % 32) as nat) <= pow2(31),
                    pow2((position % 32) as nat) > 0,
            ;
            lemma_pow2_adds(32, 31);
            lemma_pow2_strictly_increases(63, 64);
            vstd::bits::lemma_u64_shl_is_mul(value as u64, (position % 32) as u64);
        }
        let mut carry: u64 = (value as u64) << ((position % 32) as u64);
        let ghost w0 = self.whole();
        let ghost len0 = self.words.len();
        let ghost at0 = at;
        let ghost bound: nat = if len0 > at0 {
            len0 as nat
        } else {
            at0 as nat
        };
        proof {
            lemma_pow2_adds(32 * at as nat, (position % 32) as nat);
            assert(carry * pow2(32 * at as nat) == value * pow2(position as nat)) by {
                lemma_mul_is_associative(value as int, pow2((position % 32) as nat) as int, pow2(32 * at as nat) as int);
                lemma_mul_is_commutative(pow2((position % 32) as nat) as int, pow2(32 * at as nat) as int);
            }
            lemma_pow2_adds(32, 31);
            lemma_limbs_bit_length(self.words@);
            lemma_u32_bit_length(self.words@.last());
        }
        while carry > 0
            invariant
                limbs_value(self.words@) + carry * pow2(32 * at as nat) == w0 + value * pow2(
                    position as nat,
                ),
                self.words.len() > 0,
                self.words@.last() != 0 || carry > 0,
                at < self.words.len() ==> self.words@.last() != 0,
                self.words.len() <= len0 || self.words.len() <= at,
                at0 <= at <= bound + 2,
                at >= bound + 1 ==> carry < pow2(32),
                at >= bound + 2 ==> carry == 0,
                carry < pow2(63),
                bound == (if len0 > at0 {
                    len0 as nat
                } else {
                    at0 as nat
                }),
                bound + 3 < usize::MAX,
                self.offset == old(self).offset,
                self.top == old(self).top,
            decreases bound + 2 - at,
        {
            let ghost before = self.words@;
            proof {
                lemma2_to64();
                lemma_pow2_adds(32, 31);
                lemma_pow2_unfold(64);
            }
            while self.words.len() <= at
                invariant
                    limbs_value(self.words@) == limbs_value(before),
                    self.words.len() > 0,
                    self.words.len() <= before.len() || self.words.len() <= at + 1,
                    self.words.len() >= before.len(),
                    forall|i: int| 0 <= i < before.len() ==> self.words@[i] == before[i],
                    forall|i: int| before.len() <= i < self.words.len() ==> self.words@[i] == 0,
                    at + 1 < usize::MAX,
                    self.offset == old(self).offset,
                    self.top == old(self).top,
                decreases at + 1 - self.words.len(),
            {
                proof {
                    lemma_limbs_push(self.words@, 0u32);
                    assert(pow2(32 * self.words.len() as nat) * 0 == 0);
                }
                self.words.push(0);
            }
            let old_word = self.words[at];
            let sum = old_word as u64 + carry;
            proof {
                if at >= len0 {
                    assert(before.len() <= at);
                    assert(old_word == 0);
                }
                lemma_limbs_update(self.words@, at as int, sum as u32);
                lemma_u64_shr_is_div(sum, 32);
                assert((sum as u32) as u64 == sum % 0x1_0000_0000u64) by (bit_vector);
                lemma_fundamental_div_mod(sum as int, pow2(32) as int);
                lemma_pow2_adds(32 * at as nat, 32);
                let p = pow2(32 * at as nat);
                let q = sum as nat / pow2(32);
                assert(p * (sum as u32) + q * (p * pow2(32)) == p * sum) by (nonlinear_arith)
                    requires
                        sum == pow2(32) * q + (sum as u32) as nat,
                ;
            }
            let ghost mid = self.words@;
            let ghost carry_in = carry;
            self.words.set(at, sum as u32);
            carry = sum >> 32u64;
            proof {
                let p = pow2(32 * at as nat);
                assert(limbs_value(self.words@) + p * old_word == limbs_value(mid) + p * (sum as u32));
                assert(carry as nat == sum as nat / pow2(32));
                assert(pow2(32 * (at + 1) as nat) == p * pow2(32));
                assert(limbs_value(mid) + carry_in * p == w0 + value * pow2(position as nat));
                assert(sum == old_word + carry_in);
                assert(limbs_value(self.words@) + carry * pow2(32 * (at + 1) as nat) == limbs_value(mid) + carry_in * p) by (nonlinear_arith)
                    requires
                        limbs_value(self.words@) + p * old_word == limbs_value(mid) + p * (sum as u32),
                        p * (sum as u32) + (sum as nat / pow2(32)) * (p * pow2(32)) == p * sum,
                        carry as nat == sum as nat / pow2(32),
                        pow2(32 * (at + 1) as nat) == p * pow2(32),
                        sum == old_word + carry_in,
                ;
                assert(32 * (at + 1) == 32 * at + 32);
                assert(sum > 0 ==> ((sum as u32) != 0u32 || (sum >> 32u64) > 0u64)) by (bit_vector);
                if self.words.len() == at + 1 {
                    assert(self.words@.last() == sum as u32);
                } else {
                    assert(self.words.len() == before.len());
                    assert(self.words@.last() == before.last());
                }
            }
            at = at + 1;
        }
        proof {
            assert(carry * pow2(32 * at as nat) == 0);
        }
        let last = self.words[self.words.len() - 1];
        proof {
            lemma_u32_bit_length(last);
            lemma_limbs_bit_length(self.words@);
            let wn = self.whole();
            let t = old(self).top as nat;
            lemma_bit_length_bounds(w0);
            lemma_pow2_pos((position + 32) as nat);
            lemma_pow2_pos(position as nat);
            assert(value * pow2(position as nat) < pow2(32) * pow2(position as nat)) by (nonlinear_arith)
                requires
                    value < pow2(32),
                    pow2(position as nat) > 0,
            ;
            lemma_pow2_adds(32, position as nat);
            lemma_pow2_strictly_increases((position + 32) as nat, t + 33);
            lemma_pow2_strictly_increases(t, t + 33);
            lemma_pow2_unfold(t + 34);
            lemma_bit_length_le(wn, t + 34);
            lemma_bit_length_bounds(wn);
            assert(wn >= w0);
            if bit_length(wn) < t {
                lemma_pow2_strictly_increases(bit_length(wn), t);
                if t > 0 {
                    lemma_pow2_unfold(t);
                }
                assert(pow2((t - 1) as nat) <= w0);
                lemma_pow2_strictly_increases(bit_length(wn), (t - 1) as nat);
            }
        }
        self.top = 32 * (self.words.len() - 1) + (32 - last.leading_zeros()) as usize;
    }
}

proof fn lemma_div_strictly_bounded_local(x: int, d: int, q: int)
    requires
        d > 0,
        q > 0,
        0 <= x < d * q,
    ensures
        x / d < q,
{
    lemma_fundamental_div_mod(x, d);
    if x / d >= q {
        lemma_mul_inequality(q, x / d, d);
        lemma_mul_is_commutative(q, d);
        lemma_mul_is_commutative(x / d, d);
    }
}

proof fn lemma_small_div_local(x: nat, d: nat)
    requires
        x < d,
    ensures
        x / d == 0,
{
    lemma_basic_div(x as int, d as int);
}

/// Multiplying by `2^j` adds `j` trailing zeros.
proof fn lemma_trailing_zeros_shift(y: nat, j: nat)
    requires
        y > 0,
    ensures
        trailing_zeros(pow2(j) * y) == j + trailing_zeros(y),
    decreases j,
{
    lemma2_to64();
    if j == 0 {
    } else {
        lemma_pow2_unfold(j);
        lemma_pow2_pos((j - 1) as nat);
        lemma_trailing_zeros_shift(y, (j - 1) as nat);
        let z = pow2((j - 1) as nat) * y;
        assert(pow2(j) * y == 2 * z) by {
            lemma_mul_is_associative(2, pow2((j - 1) as nat) as int, y as int);
        }
        assert(pow2((j - 1) as nat) * y > 0) by (nonlinear_arith)
            requires
                pow2((j - 1) as nat) > 0,
                y > 0,
        ;
        assert((2 * z) % 2 == 0 && (2 * z) / 2 == z);
    }
}

impl Bits {
    /// Adds `value << relative_bit` to the value, then drops `count` low bits.
    fn add_then_shift(&mut self, value: u32, relative_bit: usize, count: usize)
        requires
            old(self).wf(),
            old(self).offset + relative_bit < old(self).top,
            old(self).top + 128 <= usize::MAX,
            old(self).value() + value * pow2(relative_bit as nat) >= pow2(count as nat),
            count <= 2,
        ensures
            final(self).wf(),
            final(self).offset == old(self).offset + count,
            final(self).value() == (old(self).value() + value * pow2(relative_bit as nat)) as nat
                / pow2(count as nat),
    {
        let ghost o = self.offset as nat;
        let ghost w = self.whole();
        self.add_at(value, relative_bit);
        proof {
            lemma_shift_split(w, value as nat, o, o + relative_bit as nat);
            lemma_mul_is_commutative(value as int, pow2(o + relative_bit as nat) as int);
            assert(self.value() == w / pow2(o) + pow2(relative_bit as nat) * value);
            lemma_mul_is_commutative(value as int, pow2(relative_bit as nat) as int);
            assert(self.value() == old(self).value() + value * pow2(relative_bit as nat));
            lemma_bit_length_shift(self.whole(), o);
            lemma_bit_length_bounds(self.value());
            lemma_pow2_pos(count as nat);
            if bit_length(self.value()) <= count {
                if bit_length(self.value()) < count {
                    lemma_pow2_strictly_increases(bit_length(self.value()), count as nat);
                }
            }
            lemma2_to64();
        }
        if count > 0 {
            self.shift(count);
        } else {
            proof {
                assert(pow2(0) == 1);
                assert(self.value() / 1 == self.value());
            }
        }
    }
}

proof fn lemma_low_zeros(v: nat)
    requires
        v > 0,
        v % 4 == 0,
    ensures
        trailing_zeros(v) >= 2,
{
    assert(v % 2 == 0);
    assert((v / 2) % 2 == 0);
    assert(v / 2 > 0);
    assert(trailing_zeros(v) == 1 + trailing_zeros(v / 2));
    assert(trailing_zeros(v / 2) == 1 + trailing_zeros(v / 4));
}

proof fn lemma_bit_length_le_tz(v: nat)
    requires
        v > 0,
    ensures
        trailing_zeros(v) < bit_length(v),
{
    lemma_trailing_zeros_bound(v);
    lemma_bit_length_bounds(v);
    if trailing_zeros(v) >= bit_length(v) {
        if trailing_zeros(v) > bit_length(v) {
            lemma_pow2_strictly_increases(bit_length(v), trailing_zeros(v));
        }
    }
}

/// Counters of a run of the machine.
pub struct Tally {
    pub loss: nat,
    pub base: nat,
    pub returned: nat,
    pub operations: nat,
}

/// The counters before any operation.
pub open spec fn zero_tally() -> Tally {
    Tally { loss: 0, base: 0, returned: 0, operations: 0 }
}

/// The machine run from a register with the counters so far, at most `fuel` operations,
/// keeping `loss + bit_length(value) + 4 <= width`.  `None` where the width bound, the
/// counters or the machine's word size would be exceeded.
pub open spec fn run_from(reg: Register, t: Tally, width: nat, fuel: nat) -> Option<(Register, Tally)>
    decreases fuel,
{
    if terminal(reg) {
        Some((reg, t))
    } else if fuel == 0 || t.loss + bit_length(reg.value) + 4 > width || t.loss + bit_length(
        reg.value,
    ) + 128 > usize::MAX {
        None
    } else {
        let m = register_move(reg);
        let t2 = Tally {
            loss: t.loss + m.loss,
            base: t.base + m.base,
            returned: t.returned + m.returned,
            operations: t.operations + 1,
        };
        if t2.base > u64::MAX || t2.returned > u64::MAX {
            None
        } else {
            run_from(next_register(reg), t2, width, (fuel - 1) as nat)
        }
    }
}

/// The register a normalization starts from.
pub open spec fn start_register(input: Seq<u64>, head: u8, word: Seq<u8>) -> Register {
    Register { head, odd: word, value: wide_value(input) }
}

/// The outcome of normalizing `input` with the given head, queue and width.
pub open spec fn normalized(input: Seq<u64>, head: u8, word: Seq<u8>, width: u64) -> Option<
    (Register, Tally),
> {
    run_from(start_register(input, head, word), zero_tally(), width as nat, u64::MAX as nat)
}

/// A summary records a register and counters.
pub open spec fn summarizes(s: Summary, reg: Register, t: Tally) -> bool {
    &&& summary_register(s) == reg
    &&& s.loss == t.loss
    &&& s.base == t.base
    &&& s.returned == t.returned
    &&& s.operations == t.operations
}

/// Number of `1` digits in a queue.
pub open spec fn ones_in(s: Seq<u8>) -> nat
    decreases s.len(),
{
    if s.len() == 0 {
        0
    } else {
        ones_in(s.drop_last()) + if s.last() == 1 {
            1nat
        } else {
            0nat
        }
    }
}

proof fn lemma_ones_front(s: Seq<u8>)
    requires
        s.len() > 0,
    ensures
        ones_in(s) == ones_in(s.subrange(1, s.len() as int)) + if s[0] == 1 {
            1nat
        } else {
            0nat
        },
    decreases s.len(),
{
    if s.len() == 1 {
        assert(s.subrange(1, 1) =~= Seq::<u8>::empty());
        assert(s.drop_last() =~= Seq::<u8>::empty());
    } else {
        lemma_ones_front(s.drop_last());
        assert(s.subrange(1, s.len() as int).drop_last() =~= s.drop_last().subrange(
            1,
            s.len() - 1,
        ));
    }
}

proof fn lemma_ones_le(s: Seq<u8>)
    ensures
        ones_in(s) <= s.len(),
    decreases s.len(),
{
    if s.len() > 0 {
        lemma_ones_le(s.drop_last());
    }
}

proof fn lemma_ones_zero(s: Seq<u8>)
    requires
        odd_digits(s),
    ensures
        (ones_in(s) == 0) == (forall|i: int| 0 <= i < s.len() ==> #[trigger] s[i] == 3),
    decreases s.len(),
{
    if s.len() > 0 {
        lemma_ones_zero(s.drop_last());
        if forall|i: int| 0 <= i < s.len() ==> #[trigger] s[i] == 3 {
            assert forall|i: int| 0 <= i < s.drop_last().len() implies #[trigger] s.drop_last()[i]
                == 3 by {
                assert(s[i] == 3);
            }
            assert(s[s.len() - 1] == 3);
        }
        if ones_in(s) == 0 {
            assert forall|i: int| 0 <= i < s.len() implies #[trigger] s[i] == 3 by {
                if i < s.len() - 1 {
                    assert(s.drop_last()[i] == 3);
                }
            }
        }
    }
}

fn stopped(head: u8, odd: &VecDeque<u8>, ones: usize, value: &Bits) -> (r: bool)
    requires
        value.wf(),
        odd_digits(odd@),
        ones == ones_in(odd@),
    ensures
        r == terminal(Register { head, odd: odd@, value: value.value() }),
{
    proof {
        lemma_ones_zero(odd@);
    }
    if odd.len() == 0 && ((head == 2 && value.small(2)) || (head == 0 && value.small(4)) || (head
        == 1 && value.small(3))) {
        return true;
    }
    head == 1 && odd.len() != 0 && ones == 0 && value.small(1)
}

/// Runs the machine on the value of `input` (little-endian 64-bit limbs) from the given
/// head and odd queue until it reaches a terminal register, and summarizes it; `None`
/// where a register outgrows `width` bits or a counter overflows (see `normalized`).
#[verifier::rlimit(60)]
pub fn normalize_checked(input: &[u64], start: u8, word: &[u8], width: u64) -> (r: Option<Summary>)
    requires
        start <= 4,
        odd_digits(word@),
        wide_value(input@) > 0,
        64 * input.len() + 128 <= usize::MAX,
    ensures
        match normalized(input@, start, word@, width) {
            None => r is None,
            Some((reg, t)) => r matches Some(s) && summarizes(s, reg, t),
        },
{
    let ghost goal = normalized(input@, start, word@, width);
    let mut head = start;
    let mut odd: VecDeque<u8> = VecDeque::new();
    let mut ones: usize = 0;
    let mut i: usize = 0;
    while i < word.len()
        invariant
            i <= word.len(),
            odd@ == word@.take(i as int),
            ones == ones_in(odd@),
            ones <= i,
        decreases word.len() - i,
    {
        proof {
            assert(word@.take(i + 1) =~= word@.take(i as int).push(word[i as int]));
            assert(word@.take(i + 1).drop_last() =~= word@.take(i as int));
        }
        odd.push_back(word[i]);
        if word[i] == 1 {
            ones = ones + 1;
        }
        i = i + 1;
    }
    proof {
        assert(word@.take(word.len() as int) =~= word@);
    }
    let mut value = Bits::from_words(input);
    let mut loss: u64 = 0;
    let mut base: u64 = 0;
    let mut returned: u64 = 0;
    let mut operations: u64 = 0;
    proof {
        assert(pow2(0) == 1) by {
            lemma2_to64();
        }
    }
    while !stopped(head, &odd, ones, &value)
        invariant
            value.wf(),
            head <= 4,
            odd_digits(odd@),
            ones == ones_in(odd@),
            loss == value.offset,
            run_from(
                Register { head, odd: odd@, value: value.value() },
                Tally { loss: loss as nat, base: base as nat, returned: returned as nat, operations: operations as nat },
                width as nat,
                (u64::MAX - operations) as nat,
            ) == goal,
            goal == normalized(input@, start, word@, width),
        decreases u64::MAX - operations,
    {
        let ghost reg = Register { head, odd: odd@, value: value.value() };
        let ghost m = register_move(reg);
        let ghost v = value.value();
        let ghost odd0 = odd@;
        let ghost t = Tally { loss: loss as nat, base: base as nat, returned: returned as nat, operations: operations as nat };
        proof {
            lemma_bit_length_shift(value.whole(), value.offset as nat);
            lemma_bit_length_bounds(v);
            assert(run_from(reg, t, width as nat, (u64::MAX - operations) as nat) == goal);
        }
        let length = value.length();
        if operations == u64::MAX || loss as u128 + length as u128 + 4 > width as u128
            || loss as u128 + length as u128 + 128 > usize::MAX as u128 {
            proof {
                assert(!terminal(reg));
                assert(run_from(reg, t, width as nat, (u64::MAX - operations) as nat) is None);
            }
            return None;
        }
        operations = operations + 1;
        let lw = value.low();
        let r = (lw & 3) as u8;
        proof {
            assert(lw & 3u32 == lw % 4) by (bit_vector);
            lemma2_to64();
            lemma_mod_mod(v as int, 4, 1073741824);
            assert(r as nat == v % 4);
        }
        let nonempty = odd.len() != 0;
        let first: u8 = if nonempty {
            odd[0]
        } else {
            3
        };
        proof {
            assert(first == front(odd0));
        }
        let tail_base: u64 = if head == 0 || head == 2 {
            if nonempty {
                3
            } else {
                2 + (r % 2) as u64
            }
        } else if head == 1 || head == 3 {
            if r == 2 {
                3
            } else {
                2
            }
        } else if nonempty && first == 1 {
            if r % 2 == 1 {
                6
            } else if r == 2 {
                4
            } else {
                3
            }
        } else if r == 3 {
            5
        } else {
            6
        };
        let extra_returned: u64 = if head == 4 && r == 2 {
            2
        } else {
            1
        };
        if base > u64::MAX - tail_base || returned > u64::MAX - extra_returned {
            proof {
                assert(!terminal(reg));
                assert(m.base == tail_base);
                assert(m.returned == extra_returned);
                assert(run_from(reg, t, width as nat, (u64::MAX - (operations - 1)) as nat) is None);
            }
            return None;
        }
        base = base + tail_base;
        returned = returned + 1;
        let mut pop = false;
        let mut append: [u8; 2] = [0, 0];
        let appended: usize;
        if head == 0 || head == 2 {
            if nonempty {
                head = first + if head == 0 {
                    1
                } else {
                    0
                };
                pop = true;
                value.add_then_shift(1, 0, 0);
            } else {
                head = (if head == 0 {
                    3
                } else {
                    2
                }) - 2 * (r % 2);
                value.add_then_shift(1, 0, 1);
                loss = loss + 1;
            }
            appended = 0;
        } else if head == 1 || head == 3 {
            if r % 2 == 1 {
                head = head - 1;
                value.add_then_shift(1, 0, 0);
                appended = 0;
            } else {
                head = first + if head == 1 {
                    1
                } else {
                    0
                };
                pop = nonempty;
                if nonempty {
                    append[0] = 3;
                    append[1] = 3 - r;
                    appended = 2;
                } else {
                    append[0] = 3 - r;
                    appended = 1;
                }
                value.add_then_shift(3, 0, 2);
                loss = loss + 2;
            }
        } else if nonempty && first == 1 {
            head = 3;
            pop = true;
            if r % 2 == 1 {
                value.add_then_shift(2, 0, 0);
                appended = 0;
            } else {
                append = [3, 3 - r];
                appended = 2;
                value.add_then_shift(3, 0, 2);
                loss = loss + 2;
                if r == 2 {
                    returned = returned + 1;
                }
            }
        } else {
            head = 1;
            pop = nonempty;
            let last: u8 = if r == 3 {
                3
            } else {
                1
            };
            if nonempty {
                append = [3, last];
                appended = 2;
            } else {
                append[0] = last;
                appended = 1;
            }
            if r % 2 == 1 {
                value.add_then_shift(3, 0, 2);
            } else if r == 2 {
                value.add_then_shift(8, 0, 2);
                returned = returned + 1;
            } else {
                let bit = value.low_bit();
                proof {
                    lemma_low_zeros(v);
                    lemma_trailing_zeros_bound(v);
                    lemma_bit_length_le_tz(v);
                }
                value.add_then_shift(3, bit, 2);
            }
            loss = loss + 2;
        }
        if pop {
            let ghost before = odd@;
            let d = odd.pop_front();
            proof {
                lemma_ones_front(before);
            }
            if d == Some(1u8) {
                ones = ones - 1;
            }
        }
        if appended >= 1 {
            let ghost before = odd@;
            odd.push_back(append[0]);
            proof {
                assert(odd@.drop_last() =~= before);
                assert(odd.len() == odd@.len());
                lemma_ones_le(before);
            }
            if append[0] == 1 {
                ones = ones + 1;
            }
        }
        if appended >= 2 {
            let ghost before = odd@;
            odd.push_back(append[1]);
            proof {
                assert(odd@.drop_last() =~= before);
                assert(odd.len() == odd@.len());
                lemma_ones_le(before);
            }
            if append[1] == 1 {
                ones = ones + 1;
            }
        }
        proof {
            assert(head == m.head);
            assert(pop == m.pop);
            assert(appended == m.append.len());
            assert(odd@ =~= moved_queue(odd0, m));
            assert(value.value() == next_register(reg).value);
            assert(odd_digits(odd@));
        }
    }
    let mut out: Vec<u8> = Vec::new();
    let mut k: usize = 0;
    while k < odd.len()
        invariant
            k <= odd@.len(),
            out@ == odd@.take(k as int),
        decreases odd@.len() - k,
    {
        out.push(odd[k]);
        proof {
            assert(odd@.take(k + 1) =~= odd@.take(k as int).push(odd@[k as int]));
        }
        k = k + 1;
    }
    proof {
        assert(odd@.take(odd@.len() as int) =~= odd@);
        lemma2_to64();
        assert(value.value() <= 4);
        lemma_small_mod(value.value(), pow2(32));
        assert(pow2(0) == 1);
    }
    Some(Summary { head, word: out, value: value.low() as u64, loss, base, returned, operations })
}

/// Runs the machine on the value of `input` from the given head and odd queue until it
/// reaches a terminal register, and summarizes it; the run must stay within `width`
/// bits (see `normalize_checked`).
pub fn normalize(input: &[u64], head: u8, word: &[u8], width: u64) -> (s: Summary)
    requires
        head <= 4,
        odd_digits(word@),
        wide_value(input@) > 0,
        64 * input.len() + 128 <= usize::MAX,
        normalized(input@, head, word@, width) is Some,
    ensures
        normalized(input@, head, word@, width) matches Some((reg, t)) && summarizes(s, reg, t),
{
    normalize_checked(input, head, word, width).unwrap()
}

} // verus!
