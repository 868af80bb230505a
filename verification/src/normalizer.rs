//! Terminal register summaries and the mode they name.
use crate::limbs::{lemma_div_strictly_bounded, lemma_low_bits_agree, lemma_shift_split, lemma_wide_split, wide_value};
use crate::machine::{Register, terminal};
use crate::machine::bit_length;
use crate::prefix::{closed_state, cost_sum, digit_at, fed, prefix_terminal, queue, register_of, settle_closed, settle_open, step_limit, well_formed, zero_cost, Cost, Prefix};
use vstd::arithmetic::div_mod::*;
use vstd::arithmetic::mul::*;
use vstd::arithmetic::power2::*;
use vstd::bits::{lemma_u64_low_bits_mask_is_mod, lemma_u64_shl_is_mul, lemma_u64_shr_is_div, low_bits_mask};
use vstd::prelude::*;

verus! {

/// The four shapes a terminal register can take.
#[derive(Clone, Copy, Debug, PartialEq, Eq, Hash, Structural)]
pub enum Mode {
    N202,
    N0002,
    N122,
    H,
}

/// Period of the zero-run loop of a mode.
pub open spec fn mode_period(m: Mode) -> u64 {
    match m {
        Mode::N202 => 4,
        Mode::H => 2,
        _ => 3,
    }
}

/// Growth of the two-run per zero-run loop of a mode.
pub open spec fn mode_growth(m: Mode) -> i64 {
    match m {
        Mode::N202 => 14,
        Mode::H => 10,
        _ => 12,
    }
}

impl Mode {
    /// The period of the mode's zero-run loop.
    pub fn period(self) -> (r: u64)
        ensures
            r == mode_period(self),
    {
        match self {
            Mode::N202 => 4,
            Mode::H => 2,
            _ => 3,
        }
    }

    /// The growth of the mode's zero-run loop.
    pub fn growth(self) -> (r: i64)
        ensures
            r == mode_growth(self),
    {
        match self {
            Mode::N202 => 14,
            Mode::H => 10,
            _ => 12,
        }
    }
}

/// A terminal register and the costs accumulated reaching it.
#[derive(Clone, Debug, PartialEq, Eq, Hash)]
pub struct Summary {
    pub head: u8,
    pub word: Vec<u8>,
    pub value: u64,
    pub loss: u64,
    pub base: u64,
    pub returned: u64,
    pub operations: u64,
}

/// The register a summary records.
pub open spec fn summary_register(s: Summary) -> Register {
    Register { head: s.head, odd: s.word@, value: s.value as nat }
}

/// The mode of a terminal register.
pub open spec fn register_mode(reg: Register) -> Mode {
    if reg.odd.len() == 0 {
        if reg.head == 2 {
            Mode::N202
        } else if reg.head == 0 {
            Mode::N0002
        } else {
            Mode::N122
        }
    } else {
        Mode::H
    }
}

impl Summary {
    /// The mode of the terminal register the summary records.
    pub fn mode(&self) -> (m: Mode)
        requires
            terminal(summary_register(*self)),
        ensures
            m == register_mode(summary_register(*self)),
    {
        if self.word.len() == 0 {
            if self.head == 2 && self.value == 2 {
                Mode::N202
            } else if self.head == 0 && self.value == 4 {
                Mode::N0002
            } else {
                Mode::N122
            }
        } else {
            Mode::H
        }
    }
}


/// Bits of input summarized by one link row.
pub const BLOCK: usize = 4096;

/// Link rows folded into one summary row.
pub const FOLD: usize = 32;

/// Inputs shorter than this many bits are normalized without row summaries.
pub const MINIMUM_BITS: usize = 8192;

/// The longest input, in bits, that row summaries are asked for.
pub const MAX_GPU_INPUT_BITS: usize = 4293918720;

/// The `count` bits of a little-endian word sequence from bit `at` up.
pub open spec fn bits_at(words: Seq<u64>, at: nat, count: nat) -> nat {
    (wide_value(words) / pow2(at)) % pow2(count)
}

proof fn lemma_bits_at(words: Seq<u64>, at: nat, count: nat)
    requires
        1 <= count <= 64,
        at / 64 < words.len(),
    ensures
        ({
            let i = (at / 64) as int;
            let s = at % 64;
            let w = words[i] as nat;
            let n: nat = if i + 1 < words.len() { words[i + 1] as nat } else { 0 };
            bits_at(words, at, count) == (w / pow2(s) + pow2((64 - s) as nat) * n) % pow2(count)
        }),
{
    let i = (at / 64) as int;
    let s = at % 64;
    let w = words[i] as nat;
    let n: nat = if i + 1 < words.len() { words[i + 1] as nat } else { 0 };
    let v = wide_value(words);
    lemma_wide_split(words, i);
    let a = wide_value(words.take(i));
    let y = wide_value(words.skip(i));
    assert(words.skip(i)[0] == words[i]);
    assert(words.skip(i).drop_first() =~= words.skip(i + 1));
    let w1 = wide_value(words.skip(i + 1));
    let r = if i + 1 < words.len() { wide_value(words.skip(i + 2)) } else { 0 };
    if i + 1 < words.len() {
        assert(words.skip(i + 1)[0] == words[i + 1]);
        assert(words.skip(i + 1).drop_first() =~= words.skip(i + 2));
    } else {
        assert(words.skip(i + 1) =~= Seq::<u64>::empty());
    }
    assert(w1 == n + pow2(64) * r);
    let d = pow2(64 * i as nat);
    lemma_pow2_pos(64 * i as nat);
    lemma_pow2_pos(s);
    assert(v == a + d * y);
    assert(v / d == y) by {
        lemma_div_multiples_vanish_fancy(y as int, a as int, d as int);
    }
    assert(at == 64 * i + s);
    lemma_pow2_adds(64 * i as nat, s);
    lemma_div_denominator(v as int, d as int, pow2(s) as int);
    assert(v / pow2(at) == y / pow2(s));
    lemma_shift_split(w, w1, s, 64);
    assert(y / pow2(s) == w / pow2(s) + pow2((64 - s) as nat) * w1);
    let b = w / pow2(s) + pow2((64 - s) as nat) * n;
    assert(pow2((64 - s) as nat) * w1 == pow2((64 - s) as nat) * n + pow2((128 - s) as nat) * r) by {
        lemma_pow2_adds((64 - s) as nat, 64);
        assert(pow2((64 - s) as nat) * (n + pow2(64) * r) == pow2((64 - s) as nat) * n + (pow2((64 - s) as nat) * pow2(64)) * r) by (nonlinear_arith);
    }
    lemma_low_bits_agree(b, r, (128 - s) as nat, count);
}

/// The `count` bits of the words from bit `at` up (see `bits_at`).
fn chunk(words: &[u64], at: usize, count: usize) -> (r: u64)
    requires
        1 <= count <= 64,
        at / 64 < words@.len(),
    ensures
        r as nat == bits_at(words@, at as nat, count as nat),
{
    proof {
        lemma_bits_at(words@, at as nat, count as nat);
    }
    let shift = at % 64;
    let i = at / 64;
    let w = words[i];
    let n: u64 = if i + 1 < words.len() {
        words[i + 1]
    } else {
        0
    };
    let ghost s = shift as nat;
    let mut low = w >> (shift as u64);
    proof {
        lemma_u64_shr_is_div(w, shift as u64);
        lemma_pow2_pos(s);
        lemma2_to64();
        lemma2_to64_rest();
    }
    let ghost joined: nat = (w as nat / pow2(s) + pow2((64 - s) as nat) * n as nat) % pow2(64);
    if shift != 0 {
        let sh = (64 - shift) as u64;
        proof {
            lemma_u64_pow2_no_overflow_local(s);
            lemma_u64_shl_is_mul(1, shift as u64);
        }
        let mask: u64 = (1u64 << (shift as u64)) - 1;
        let m = n & mask;
        proof {
            lemma_u64_low_bits_mask_is_mod(n, s);
            assert(m == n % (pow2(s) as u64));
            assert(m as nat * pow2((64 - s) as nat) < pow2(64)) by {
                lemma_pow2_adds(s, (64 - s) as nat);
                lemma_mul_strict_inequality(m as int, pow2(s) as int, pow2((64 - s) as nat) as int);
            }
            lemma_u64_shl_is_mul(m, sh);
        }
        let high = n << sh;
        assert(high == m << sh) by (bit_vector)
            requires
                0 < shift < 64,
                sh == 64 - shift,
                high == n << sh,
                mask == ((1u64 << (shift as u64)) - 1) as u64,
                m == n & mask,
        ;
        let low0 = low;
        low = low0 | high;
        proof {
            assert(low0 < pow2((64 - s) as nat)) by {
                lemma_pow2_adds(s, (64 - s) as nat);
                lemma_div_strictly_bounded(w as int, pow2(s) as int, pow2((64 - s) as nat) as int);
            }
            lemma_u64_pow2_no_overflow_local((64 - s) as nat);
            lemma_u64_shl_is_mul(1, sh);
            assert(low0 < (1u64 << sh));
            assert(low == low0 + high) by (bit_vector)
                requires
                    0 < sh < 64,
                    low0 < (1u64 << sh),
                    high == m << sh,
                    low == low0 | high,
            ;
            let q = n as nat / pow2(s);
            lemma_fundamental_div_mod(n as int, pow2(s) as int);
            assert(pow2((64 - s) as nat) * n as nat == pow2((64 - s) as nat) * m as nat + pow2(64) * q) by {
                lemma_pow2_adds(s, (64 - s) as nat);
                assert(n as nat == pow2(s) * q + m as nat);
                assert(pow2((64 - s) as nat) * (pow2(s) * q + m as nat) == pow2((64 - s) as nat) * m as nat + (pow2((64 - s) as nat) * pow2(s)) * q) by (nonlinear_arith);
            }
            assert(high as nat == m as nat * pow2((64 - s) as nat));
            assert(low0 as nat == w as nat / pow2(s));
            lemma_mul_is_commutative(m as int, pow2((64 - s) as nat) as int);
            assert(low as nat == w as nat / pow2(s) + pow2((64 - s) as nat) * m as nat);
            lemma_low_bits_agree(low as nat, q, 64, 64);
            lemma_small_mod(low as nat, pow2(64));
            assert(joined == low as nat);
        }
    } else {
        proof {
            assert(s == 0);
            assert(pow2(0) == 1);
            assert(pow2(s) == 1);
            assert(w as nat / 1 == w as nat);
            assert(w as nat / pow2(s) == w as nat);
            assert((64 - s) as nat == 64);
            lemma_low_bits_agree(w as nat, n as nat, 64, 64);
            lemma_small_mod(w as nat, pow2(64));
            assert(low == w);
            assert(joined == (w as nat + pow2(64) * n as nat) % pow2(64));
            assert(joined == low as nat);
        }
    }
    if count < 64 {
        proof {
            lemma_u64_shl_is_mul(1, count as u64);
            lemma_u64_low_bits_mask_is_mod(low, count as nat);
            lemma_u64_pow2_no_overflow_local(count as nat);
        }
        low = low & ((1u64 << (count as u64)) - 1);
        proof {
            lemma_mod_mod((w as nat / pow2(s) + pow2((64 - s) as nat) * n as nat) as int, pow2(count as nat) as int, pow2((64 - count) as nat) as int);
            lemma_pow2_adds(count as nat, (64 - count) as nat);
        }
    } else {
        proof {
            assert(count == 64);
        }
    }
    low
}

proof fn lemma_u64_pow2_no_overflow_local(n: nat)
    requires
        n < 64,
    ensures
        0 < pow2(n) < u64::MAX,
        1 * pow2(n) == pow2(n),
        low_bits_mask(n) == pow2(n) - 1,
{
    vstd::bits::lemma_u64_pow2_no_overflow(n);
}

/// Feeding the bits of `words` from `at` to `end`, at most 64 at a time, into a state and
/// settling after each chunk.
pub open spec fn repaired(words: Seq<u64>, at: nat, end: nat, p: Prefix, c: Cost) -> Option<(Prefix, Cost)>
    decreases end - at,
{
    if at >= end {
        Some((p, c))
    } else {
        let count: nat = if end - at < 64 { (end - at) as nat } else { 64 };
        match fed(p, bits_at(words, at, count) as u64, count as u8) {
            None => None,
            Some(q) => match settle_open(q, c, step_limit()) {
                None => None,
                Some((p2, c2)) => repaired(words, at + count, end, p2, c2),
            },
        }
    }
}

/// Feeds the input bits from `start` to `end` into the state (see `repaired`).
fn repair(words: &[u64], start: usize, end: usize, state: &mut Prefix, cost: &mut Cost) -> (r: Option<()>)
    requires
        end <= 64 * words@.len(),
    ensures
        match repaired(words@, start as nat, end as nat, *old(state), *old(cost)) {
            None => r is None,
            Some((p, c)) => r is Some && *final(state) == p && *final(cost) == c,
        },
{
    let ghost goal = repaired(words@, start as nat, end as nat, *state, *cost);
    let mut at = start;
    while at < end
        invariant
            end <= 64 * words@.len(),
            goal == repaired(words@, at as nat, end as nat, *state, *cost),
            goal == repaired(words@, start as nat, end as nat, *old(state), *old(cost)),
        decreases end - at,
    {
        let count = if end - at < 64 {
            end - at
        } else {
            64
        };
        let low = chunk(words, at, count);
        proof {
            assert(low == bits_at(words@, at as nat, count as nat) as u64);
            assert(goal == match fed(*state, low, count as u8) {
                None => None,
                Some(q) => match settle_open(q, *cost, step_limit()) {
                    None => None,
                    Some((p2, c2)) => repaired(words@, (at + count) as nat, end as nat, p2, c2),
                },
            });
        }
        if state.feed(low, count as u8, cost).is_none() {
            return None;
        }
        at = at + count;
    }
    Some(())
}


/// Whether two states are the same, field by field.
fn same_prefix(x: Prefix, y: Prefix) -> (r: bool)
    ensures
        r == (x == y),
{
    x.head == y.head && x.word == y.word && x.len == y.len && x.k == y.k && x.b == y.b
}

/// The state a summary row records from word `base` on: the queue word in words `0..2`,
/// the known value in `2..4`, then head, queue length and known bit count; `None` unless
/// it is a valid state with a value below `2^60`.
pub open spec fn row_state(rows: Seq<u32>, base: int) -> Option<Prefix> {
    if rows[base + 4] > 4 || rows[base + 5] > 63 || rows[base + 6] > 56 {
        None
    } else {
        let p = Prefix {
            word: (rows[base] + rows[base + 1] * 0x1_0000_0000) as u128,
            b: (rows[base + 2] + rows[base + 3] * 0x1_0000_0000) as u128,
            head: rows[base + 4] as u8,
            len: rows[base + 5] as u8,
            k: rows[base + 6] as u8,
        };
        if well_formed(p) && p.b < pow2(60) {
            Some(p)
        } else {
            None
        }
    }
}

/// The costs a row records in words `8..12`.
pub open spec fn row_cost(rows: Seq<u32>, base: int) -> Cost {
    Cost {
        loss: rows[base + 8] as u64,
        base: rows[base + 9] as u64,
        returned: rows[base + 10] as u64,
        operations: rows[base + 11] as u64,
    }
}

/// Reads the state a row records (see `row_state`).
fn row_prefix(rows: &[u32], base: usize) -> (r: Option<Prefix>)
    requires
        base + 7 <= rows@.len(),
    ensures
        r == row_state(rows@, base as int),
{
    let _len = rows.len();
    if rows[base + 4] > 4 || rows[base + 5] > 63 || rows[base + 6] > 56 {
        return None;
    }
    let w0 = rows[base] as u128;
    let w1 = rows[base + 1] as u128;
    let b0 = rows[base + 2] as u128;
    let b1 = rows[base + 3] as u128;
    let word = w0 | (w1 << 32u128);
    let b = b0 | (b1 << 32u128);
    assert(word == w0 + w1 * 0x1_0000_0000 && b == b0 + b1 * 0x1_0000_0000) by (bit_vector)
        requires
            w0 < 0x1_0000_0000,
            w1 < 0x1_0000_0000,
            b0 < 0x1_0000_0000,
            b1 < 0x1_0000_0000,
            word == w0 | (w1 << 32u128),
            b == b0 | (b1 << 32u128),
    ;
    let state = Prefix {
        word,
        b,
        head: rows[base + 4] as u8,
        len: rows[base + 5] as u8,
        k: rows[base + 6] as u8,
    };
    proof {
        crate::bits::lemma_one_shl_u128(60);
    }
    if state.valid() && state.b < (1u128 << 60u128) {
        Some(state)
    } else {
        None
    }
}

/// The endpoint a link row records for a block of `length` bits: `None` where the row is
/// malformed, `Some(None)` where it records none.
pub open spec fn link_end(rows: Seq<u32>, base: int, length: nat) -> Option<Option<Prefix>> {
    if rows[base + 13] > 1 || rows[base + 14] > 1 || rows[base + 13] > rows[base + 14] {
        None
    } else if rows[base + 14] == 0 {
        Some(None)
    } else if rows[base + 12] != length {
        None
    } else {
        match row_state(rows, base) {
            None => None,
            Some(p) => Some(Some(p)),
        }
    }
}

/// Reads a link row's endpoint (see `link_end`).
fn link_endpoint(rows: &[u32], base: usize, length: usize) -> (r: Option<Option<Prefix>>)
    requires
        base + 16 <= rows@.len(),
    ensures
        r == link_end(rows@, base as int, length as nat),
{
    let _len = rows.len();
    if rows[base + 13] > 1 || rows[base + 14] > 1 || rows[base + 13] > rows[base + 14] {
        return None;
    }
    if rows[base + 14] == 0 {
        return Some(None);
    }
    if rows[base + 12] as usize != length {
        return None;
    }
    match row_prefix(rows, base) {
        None => None,
        Some(p) => Some(Some(p)),
    }
}

/// The bits of the input block `index` covers: up to `BLOCK`, ending before the input's
/// top bit.
pub open spec fn block_length(index: nat, bits: nat) -> nat {
    let rest = bits - 1 - index * 4096;
    if rest < 4096 {
        rest as nat
    } else {
        4096
    }
}

/// Walking link rows `index..stop`: where a row's start agrees with the current state it is
/// taken whole, otherwise its block is fed bit by bit.
pub open spec fn fold_from(
    rows: Seq<u32>,
    index: nat,
    stop: nat,
    words: Seq<u64>,
    bits: nat,
    previous: Option<Prefix>,
    p: Prefix,
    c: Cost,
) -> Option<(Prefix, Cost)>
    decreases stop - index,
{
    if index >= stop {
        Some((p, c))
    } else {
        let start = index * 4096;
        let length = block_length(index, bits);
        match link_end(rows, 16 * index as int, length) {
            None => None,
            Some(endpoint) => {
                let step = if rows[16 * index as int + 13] == 1 && previous == Some(p) {
                    match endpoint {
                        None => None,
                        Some(e) => match cost_sum(c, row_cost(rows, 16 * index as int)) {
                            None => None,
                            Some(c2) => Some((e, c2)),
                        },
                    }
                } else {
                    repaired(words, start, start + length, p, c)
                };
                match step {
                    None => None,
                    Some((p2, c2)) => fold_from(rows, index + 1, stop, words, bits, endpoint, p2, c2),
                }
            },
        }
    }
}

/// Folding `count` link rows from `begin` into a state (see `fold_from`); the row before
/// `begin` gives the first row's expected start.
pub open spec fn folded(
    rows: Seq<u32>,
    begin: nat,
    count: nat,
    words: Seq<u64>,
    bits: nat,
    p: Prefix,
    c: Cost,
) -> Option<(Prefix, Cost)> {
    let previous = if begin == 0 {
        Some(Some(p))
    } else {
        link_end(rows, 16 * (begin - 1), 4096)
    };
    match previous {
        None => None,
        Some(prev) => fold_from(rows, begin, begin + count, words, bits, prev, p, c),
    }
}

/// Folds link rows into the state (see `folded`).
fn fold_rows(
    rows: &[u32],
    begin: usize,
    count: usize,
    words: &[u64],
    bits: usize,
    state: &mut Prefix,
    cost: &mut Cost,
) -> (r: Option<()>)
    requires
        16 * (begin + count) <= rows@.len(),
        (begin + count) * 4096 < bits + 4095,
        bits <= 64 * words@.len() + 1,
        bits <= 0x1_0000_0000,
    ensures
        match folded(rows@, begin as nat, count as nat, words@, bits as nat, *old(state), *old(cost)) {
            None => r is None,
            Some((p, c)) => r is Some && *final(state) == p && *final(cost) == c,
        },
{
    let ghost goal = folded(rows@, begin as nat, count as nat, words@, bits as nat, *state, *cost);
    let mut previous = if begin == 0 {
        Some(*state)
    } else {
        match link_endpoint(rows, 16 * (begin - 1), BLOCK) {
            None => return None,
            Some(e) => e,
        }
    };
    let mut index = begin;
    while index < begin + count
        invariant
            begin <= index <= begin + count,
            16 * (begin + count) <= rows@.len(),
            (begin + count) * 4096 < bits + 4095,
            bits <= 64 * words@.len() + 1,
            bits <= 0x1_0000_0000,
            goal == folded(rows@, begin as nat, count as nat, words@, bits as nat, *old(state), *old(cost)),
            goal == fold_from(rows@, index as nat, (begin + count) as nat, words@, bits as nat, previous, *state, *cost),
        decreases begin + count - index,
    {
        let start = index * BLOCK;
        let rest = bits - 1 - start;
        let length = if rest < BLOCK {
            rest
        } else {
            BLOCK
        };
        let endpoint = match link_endpoint(rows, 16 * index, length) {
            None => return None,
            Some(e) => e,
        };
        let fresh = match previous {
            Some(p) => same_prefix(p, *state),
            None => false,
        };
        if rows[16 * index + 13] == 1 && fresh {
            let e = match endpoint {
                None => return None,
                Some(e) => e,
            };
            let row = Cost {
                loss: rows[16 * index + 8] as u64,
                base: rows[16 * index + 9] as u64,
                returned: rows[16 * index + 10] as u64,
                operations: rows[16 * index + 11] as u64,
            };
            let next = match cost.add(row) {
                None => return None,
                Some(c) => c,
            };
            *state = e;
            *cost = next;
        } else {
            if repair(words, start, start + length, state, cost).is_none() {
                return None;
            }
        }
        previous = endpoint;
        index = index + 1;
    }
    Some(())
}


/// The queue word of odd digits: bit `i` set where digit `i` is `3`.
pub open spec fn odd_word(odd: Seq<u8>) -> nat
    decreases odd.len(),
{
    if odd.len() == 0 {
        0
    } else {
        odd_word(odd.drop_last()) + if odd.last() == 3 {
            pow2((odd.len() - 1) as nat)
        } else {
            0
        }
    }
}

/// The state a row summary starts from: the head, the odd digits as queue word, nothing
/// known; `None` for more than 63 digits or an invalid state.
pub open spec fn start_of(head: u8, odd: Seq<u8>) -> Option<Prefix> {
    if odd.len() > 63 {
        None
    } else {
        let p = Prefix { head, word: odd_word(odd) as u128, len: odd.len() as u8, k: 0, b: 0 };
        if well_formed(p) {
            Some(p)
        } else {
            None
        }
    }
}

proof fn lemma_odd_word_bound(odd: Seq<u8>)
    ensures
        odd_word(odd) < pow2(odd.len()),
    decreases odd.len(),
{
    if odd.len() > 0 {
        lemma_odd_word_bound(odd.drop_last());
        lemma_pow2_unfold(odd.len());
    } else {
        lemma2_to64();
    }
}

/// The state a row summary starts from (see `start_of`).
pub fn start_state(head: u8, odd: &[u8]) -> (r: Option<Prefix>)
    ensures
        r == start_of(head, odd@),
{
    if odd.len() > 63 {
        return None;
    }
    let mut word: u128 = 0;
    let mut i: usize = 0;
    proof {
        assert(odd@.take(0) =~= Seq::<u8>::empty());
    }
    while i < odd.len()
        invariant
            i <= odd@.len() <= 63,
            word as nat == odd_word(odd@.take(i as int)),
        decreases odd@.len() - i,
    {
        proof {
            lemma_odd_word_bound(odd@.take(i as int));
            crate::bits::lemma_one_shl_u128(i as u128);
            assert(odd@.take(i + 1).drop_last() =~= odd@.take(i as int));
            assert(odd@.take(i + 1).last() == odd@[i as int]);
        }
        if odd[i] == 3 {
            let bit = 1u128 << (i as u128);
            let w0 = word;
            word = w0 | bit;
            assert(word == w0 + bit) by (bit_vector)
                requires
                    i < 63,
                    bit == 1u128 << (i as u128),
                    w0 < bit,
                    word == w0 | bit,
            ;
        }
        i = i + 1;
    }
    proof {
        assert(odd@.take(odd@.len() as int) =~= odd@);
    }
    let state = Prefix { head, word, len: odd.len() as u8, k: 0, b: 0 };
    if state.valid() {
        Some(state)
    } else {
        None
    }
}

/// Law: for odd digits, the start state holds exactly those digits in its queue.
pub proof fn lemma_start_queue(head: u8, odd: Seq<u8>)
    requires
        crate::machine::odd_digits(odd),
        start_of(head, odd) is Some,
    ensures
        queue(start_of(head, odd).unwrap()) == odd,
{
    let p = start_of(head, odd).unwrap();
    assert forall|i: int| 0 <= i < odd.len() implies digit_at(p.word, i) == odd[i] by {
        lemma_odd_word_digit(odd, i);
    }
    assert(queue(p) =~= odd);
}

proof fn lemma_digit_at_div(x: u128, i: int)
    requires
        0 <= i < 128,
    ensures
        digit_at(x, i) == (if (x as nat / pow2(i as nat)) % 2 == 1 {
            3u8
        } else {
            1u8
        }),
{
    crate::bits::lemma_shr_u128(x, i as u128);
    let y = x >> (i as u128);
    assert(y & 1u128 == y % 2) by (bit_vector);
}

proof fn lemma_odd_word_digit(odd: Seq<u8>, i: int)
    requires
        crate::machine::odd_digits(odd),
        odd.len() <= 127,
        0 <= i < odd.len(),
    ensures
        digit_at(odd_word(odd) as u128, i) == odd[i],
    decreases odd.len(),
{
    lemma_odd_word_bound(odd);
    let w = odd_word(odd);
    let n = (odd.len() - 1) as int;
    lemma_odd_word_bound(odd.drop_last());
    let rest = odd_word(odd.drop_last());
    assert(pow2(128) == u128::MAX + 1) by {
        lemma2_to64_rest();
        lemma_pow2_adds(64, 64);
    }
    if odd.len() < 128 {
        lemma_pow2_strictly_increases(odd.len(), 128);
    }
    assert(crate::machine::odd_digits(odd.drop_last())) by {
        assert forall|j: int| 0 <= j < odd.drop_last().len() implies (#[trigger] odd.drop_last()[j] == 1 || odd.drop_last()[j] == 3) by {
            assert(odd.drop_last()[j] == odd[j]);
        }
    }
    assert(odd[n] == 1 || odd[n] == 3);
    let top: nat = if odd[n] == 3 { 1 } else { 0 };
    lemma_pow2_pos(n as nat);
    lemma_pow2_pos(i as nat);
    assert(w == rest + pow2(n as nat) * top);
    lemma_digit_at_div(w as u128, i);
    if i == n {
        assert(w / pow2(n as nat) == top) by {
            lemma_div_multiples_vanish_fancy(top as int, rest as int, pow2(n as nat) as int);
        }
    } else {
        lemma_odd_word_digit(odd.drop_last(), i);
        assert(odd.drop_last()[i] == odd[i]);
        lemma_digit_at_div(rest as u128, i);
        crate::limbs::lemma_shift_split(rest, top, i as nat, n as nat);
        let a = rest / pow2(i as nat);
        let b = pow2((n - i - 1) as nat) * top;
        assert(pow2((n - i) as nat) * top == 2 * b) by {
            lemma_pow2_adds(1, (n - i - 1) as nat);
            lemma2_to64();
            assert(pow2((n - i) as nat) == 2 * pow2((n - i - 1) as nat));
            assert(pow2((n - i) as nat) * top == 2 * (pow2((n - i - 1) as nat) * top)) by (nonlinear_arith)
                requires
                    pow2((n - i) as nat) == 2 * pow2((n - i - 1) as nat),
            ;
        }
        assert(w / pow2(i as nat) == a + 2 * b);
        lemma_mod_multiples_vanish(b as int, a as int, 2);
        assert((2 * b + a) % 2 == a % 2);
        assert((w / pow2(i as nat)) % 2 == a % 2);
    }
}


/// The link rows an input of `bits` bits has: one per block below its top bit.
pub open spec fn blocks_of(bits: nat) -> nat {
    ((bits - 1) + 4095) as nat / 4096
}

/// The summary rows: one per `FOLD` link rows.
pub open spec fn groups_of(blocks: nat) -> nat {
    (blocks + 31) / 32
}

/// One summary row `index`: taken whole where its seed agrees with the state, otherwise
/// its link rows are folded in (see `folded`).  `None` where the row is malformed.
pub open spec fn group_step(
    rows: Seq<u32>,
    links: Seq<u32>,
    index: nat,
    words: Seq<u64>,
    bits: nat,
    blocks: nat,
    p: Prefix,
    c: Cost,
) -> Option<(Prefix, Cost)> {
    let base = 32 * index as int;
    let start = index * 32 * 4096;
    let end: nat = if start + 32 * 4096 < bits - 1 {
        start + 32 * 4096
    } else {
        (bits - 1) as nat
    };
    let count: nat = if blocks - index * 32 < 32 {
        (blocks - index * 32) as nat
    } else {
        32
    };
    if rows[base + 13] > 1 || rows[base + 14] > 1 || rows[base + 13] != rows[base + 14] {
        None
    } else if rows[base + 13] == 1 {
        match row_state(rows, base) {
            None => None,
            Some(endpoint) => match row_state(rows, base + 16) {
                None => None,
                Some(seed) => if rows[base + 12] != end - start || rows[base + 15] != count
                    || rows[base + 24] + rows[base + 25] != count {
                    None
                } else if p == seed {
                    match cost_sum(c, row_cost(rows, base)) {
                        None => None,
                        Some(c2) => Some((endpoint, c2)),
                    }
                } else {
                    folded(links, index * 32, count, words, bits, p, c)
                },
            },
        }
    } else {
        folded(links, index * 32, count, words, bits, p, c)
    }
}

/// The summary rows from `index` on, one after another (see `group_step`).
pub open spec fn groups_from(
    rows: Seq<u32>,
    links: Seq<u32>,
    index: nat,
    groups: nat,
    words: Seq<u64>,
    bits: nat,
    blocks: nat,
    p: Prefix,
    c: Cost,
) -> Option<(Prefix, Cost)>
    decreases groups - index,
{
    if index >= groups {
        Some((p, c))
    } else {
        match group_step(rows, links, index, words, bits, blocks, p, c) {
            None => None,
            Some((p2, c2)) => groups_from(rows, links, index + 1, groups, words, bits, blocks, p2, c2),
        }
    }
}

/// The terminal state and costs row summaries of an input of `bits` bits lead to from
/// `start`: the summary rows, then the closing bit and the operations up to a terminal
/// register.  `None` where the rows are malformed or do not match the input's size, an
/// operation fails, the register needs more than `width` bits, or its value does not fit
/// 64 bits.
pub open spec fn combined(
    start: Prefix,
    words: Seq<u64>,
    bits: nat,
    rows: Seq<u32>,
    links: Seq<u32>,
    width: u64,
) -> Option<(Prefix, Cost)> {
    if bits == 0 || bits > 4293918720 {
        None
    } else {
        let blocks = blocks_of(bits);
        if rows.len() != 32 * groups_of(blocks) || rows.len() > 134217728 {
            None
        } else {
            match groups_from(rows, links, 0, groups_of(blocks), words, bits, blocks, start, zero_cost()) {
                None => None,
                Some((p, c)) => match closed_state(p) {
                    None => None,
                    Some(q) => match settle_closed(q, c, step_limit()) {
                        None => None,
                        Some((p2, c2)) => {
                            let wide: nat = if bits >= bit_length(2 * c2.operations as nat) {
                                bits
                            } else {
                                bit_length(2 * c2.operations as nat)
                            };
                            if c2.loss + wide + 5 > width || p2.b > u64::MAX {
                                None
                            } else {
                                Some((p2, c2))
                            }
                        },
                    },
                },
            }
        }
    }
}

/// The number of bits needed to write `x`.
fn bit_len(x: u128) -> (r: u32)
    ensures
        r == bit_length(x as nat),
{
    let mut y = x;
    let mut n: u32 = 0;
    proof {
        assert(pow2(128) == u128::MAX + 1) by {
            lemma2_to64_rest();
            lemma_pow2_adds(64, 64);
        }
        crate::limbs::lemma_bit_length_le(x as nat, 128);
    }
    while y > 0
        invariant
            n + bit_length(y as nat) == bit_length(x as nat),
            bit_length(x as nat) <= 128,
        decreases y,
    {
        assert(y >> 1u128 == y / 2) by (bit_vector);
        y = y >> 1u128;
        n = n + 1;
    }
    n
}

/// A closed settling from a state with a queue shorter than 128 ends on a terminal
/// register with such a queue.
pub proof fn lemma_settle_closed_terminal(p: Prefix, c: Cost, fuel: nat)
    requires
        settle_closed(p, c, fuel) is Some,
        p.len < 128,
    ensures
        settle_closed(p, c, fuel) matches Some((q, _)) && prefix_terminal(q) && q.len < 128,
    decreases fuel,
{
    if !prefix_terminal(p) {
        match crate::prefix::prefix_step(p, c, true) {
            None => {},
            Some((moved, q, d)) => {
                lemma_settle_closed_terminal(q, d, (fuel - 1) as nat);
            },
        }
    }
}

/// Combines the row summaries an accelerator returned for an input into the summary of
/// the terminal register (see `combined`): `words` are the input's bits, `rows` the
/// summary rows and `links` the link rows.
pub fn combine_rows(start: Prefix, words: &[u64], bits: usize, rows: &[u32], links: &[u32], width: u64) -> (r: Option<Summary>)
    requires
        bits >= 1 ==> links@.len() == 16 * blocks_of(bits as nat),
        bits >= 1 ==> 64 * words@.len() >= bits,
    ensures
        match combined(start, words@, bits as nat, rows@, links@, width) {
            None => r is None,
            Some((p, c)) => r matches Some(s) && s.head == p.head && s.word@ == queue(p) && s.value
                == p.b && s.loss == c.loss && s.base == c.base && s.returned == c.returned
                && s.operations == c.operations && terminal(summary_register(s)),
        },
{
    if bits == 0 || bits > MAX_GPU_INPUT_BITS {
        return None;
    }
    let blocks = (bits - 1 + (BLOCK - 1)) / BLOCK;
    let groups = (blocks + (FOLD - 1)) / FOLD;
    if rows.len() != 32 * groups || rows.len() > 134217728 {
        return None;
    }
    let mut state = start;
    let mut cost = Cost::zero();
    let ghost goal = combined(start, words@, bits as nat, rows@, links@, width);
    let mut index: usize = 0;
    while index < groups
        invariant
            1 <= bits <= 4293918720,
            blocks == blocks_of(bits as nat),
            groups == groups_of(blocks as nat),
            rows@.len() == 32 * groups,
            links@.len() == 16 * blocks,
            64 * words@.len() >= bits,
            index <= groups,
            groups_from(rows@, links@, 0, groups as nat, words@, bits as nat, blocks as nat, start, zero_cost())
                == groups_from(rows@, links@, index as nat, groups as nat, words@, bits as nat, blocks as nat, state, cost),
        decreases groups - index,
    {
        let base = 32 * index;
        let first = index * FOLD * BLOCK;
        let end = if first + FOLD * BLOCK < bits - 1 {
            first + FOLD * BLOCK
        } else {
            bits - 1
        };
        let count = if blocks - index * FOLD < FOLD {
            blocks - index * FOLD
        } else {
            FOLD
        };
        if rows[base + 13] > 1 || rows[base + 14] > 1 || rows[base + 13] != rows[base + 14] {
            return None;
        }
        let mut accepted = false;
        if rows[base + 13] == 1 {
            let endpoint = match row_prefix(rows, base) {
                None => return None,
                Some(p) => p,
            };
            let seed = match row_prefix(rows, base + 16) {
                None => return None,
                Some(p) => p,
            };
            if rows[base + 12] as usize != end - first || rows[base + 15] as usize != count
                || rows[base + 24] as u64 + rows[base + 25] as u64 != count as u64 {
                return None;
            }
            if same_prefix(state, seed) {
                let row = Cost {
                    loss: rows[base + 8] as u64,
                    base: rows[base + 9] as u64,
                    returned: rows[base + 10] as u64,
                    operations: rows[base + 11] as u64,
                };
                cost = match cost.add(row) {
                    None => return None,
                    Some(c) => c,
                };
                state = endpoint;
                accepted = true;
            }
        }
        if !accepted {
            if fold_rows(links, index * FOLD, count, words, bits, &mut state, &mut cost).is_none() {
                return None;
            }
        }
        index = index + 1;
    }
    let ghost open_state = state;
    let ghost open_cost = cost;
    if state.close(&mut cost).is_none() {
        return None;
    }
    proof {
        let q = closed_state(open_state).unwrap();
        lemma_settle_closed_terminal(q, open_cost, step_limit());
    }
    let extra = bit_len(2 * cost.operations as u128);
    let wide: u64 = if bits as u64 >= extra as u64 {
        bits as u64
    } else {
        extra as u64
    };
    let required = match cost.loss.checked_add(wide) {
        None => return None,
        Some(x) => match x.checked_add(5) {
            None => return None,
            Some(y) => y,
        },
    };
    if required > width {
        return None;
    }
    if state.b > u64::MAX as u128 {
        return None;
    }
    let mut word: Vec<u8> = Vec::new();
    let mut i: u8 = 0;
    while i < state.len
        invariant
            i <= state.len < 128,
            word@ == queue(state).take(i as int),
        decreases state.len - i,
    {
        let d: u8 = if (state.word >> (i as u128)) & 1u128 == 1u128 {
            3
        } else {
            1
        };
        proof {
            assert(queue(state).take(i + 1) =~= queue(state).take(i as int).push(d));
        }
        word.push(d);
        i = i + 1;
    }
    proof {
        assert(queue(state).take(state.len as int) =~= queue(state));
    }
    Some(
        Summary {
            head: state.head,
            word,
            value: state.b as u64,
            loss: cost.loss,
            base: cost.base,
            returned: cost.returned,
            operations: cost.operations,
        },
    )
}

} // verus!
