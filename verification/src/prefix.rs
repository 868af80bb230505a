//! The register machine run on a value of which only the low bits are known.
//!
//! A `Prefix` holds the head, the odd queue (bit `i` of `word` set means digit `3` at
//! position `i`, clear means digit `1`) and a partial value: the register's value is
//! `b + 2^k * h` for a high part `h` not read yet.  Operations are taken only while the
//! known bits decide them; `feed` supplies more bits and `close` supplies the final one.
use crate::bits::{lemma_one_shl_u128, lemma_shl_u128, lemma_mask_u128, lemma_shr_u128, lemma_lowest_bit_u128, lemma_trailing_zeros_bound, lemma_trailing_zeros_mod};
use crate::limbs::{lemma_shift_split, lemma_low_bits_agree};
use crate::machine::{front, odd_digits, plan, terminal, trailing_zeros, Move, Register, next_register, register_move, moved_queue};
use vstd::arithmetic::div_mod::*;
use vstd::arithmetic::mul::*;
use vstd::arithmetic::power2::*;
use vstd::bits::{lemma_u64_shl_is_mul, lemma_u64_pow2_no_overflow};
use vstd::prelude::*;

verus! {

/// The state of a prefix normalizer.
#[derive(Clone, Copy, Debug, PartialEq, Eq)]
pub struct Prefix {
    pub head: u8,
    pub word: u128,
    pub len: u8,
    pub k: u8,
    pub b: u128,
}

/// Counters accumulated by the operations taken.
#[derive(Clone, Copy, Debug, PartialEq, Eq)]
pub struct Cost {
    pub loss: u64,
    pub base: u64,
    pub returned: u64,
    pub operations: u64,
}

/// The sum of two cost records, when no counter overflows.
pub open spec fn cost_sum(a: Cost, b: Cost) -> Option<Cost> {
    if a.loss + b.loss <= u64::MAX && a.base + b.base <= u64::MAX && a.returned + b.returned
        <= u64::MAX && a.operations + b.operations <= u64::MAX {
        Some(
            Cost {
                loss: (a.loss + b.loss) as u64,
                base: (a.base + b.base) as u64,
                returned: (a.returned + b.returned) as u64,
                operations: (a.operations + b.operations) as u64,
            },
        )
    } else {
        None
    }
}

/// The cost record with every counter zero.
pub open spec fn zero_cost() -> Cost {
    Cost { loss: 0, base: 0, returned: 0, operations: 0 }
}

impl Cost {
    /// The all-zero record.
    pub fn zero() -> (c: Cost)
        ensures
            c == zero_cost(),
    {
        Cost { loss: 0, base: 0, returned: 0, operations: 0 }
    }

    /// Adds two records counter by counter; `None` when a counter overflows.
    pub fn add(self, other: Self) -> (r: Option<Self>)
        ensures
            r == cost_sum(self, other),
    {
        let loss = match self.loss.checked_add(other.loss) {
            Some(x) => x,
            None => return None,
        };
        let base = match self.base.checked_add(other.base) {
            Some(x) => x,
            None => return None,
        };
        let returned = match self.returned.checked_add(other.returned) {
            Some(x) => x,
            None => return None,
        };
        let operations = match self.operations.checked_add(other.operations) {
            Some(x) => x,
            None => return None,
        };
        Some(Cost { loss, base, returned, operations })
    }
}

/// The digit stored at position `i` of a queue word.
pub open spec fn digit_at(word: u128, i: int) -> u8 {
    if (word >> (i as u128)) & 1u128 == 1u128 {
        3
    } else {
        1
    }
}

/// The odd queue a prefix holds.
pub open spec fn queue(p: Prefix) -> Seq<u8> {
    Seq::new(p.len as nat, |i: int| digit_at(p.word, i))
}

/// The register a prefix stands for once the unread high part is `high`.
pub open spec fn register_of(p: Prefix, high: nat) -> Register {
    Register { head: p.head, odd: queue(p), value: p.b as nat + pow2(p.k as nat) * high }
}

/// The bounds a prefix state keeps.
pub open spec fn well_formed(p: Prefix) -> bool {
    &&& p.head <= 4
    &&& p.len < 128
    &&& p.k <= 112
    &&& p.word < pow2(p.len as nat)
    &&& p.b < pow2(120)
}

/// The prefix state with an empty queue, head 2 and nothing known.
pub open spec fn empty_prefix() -> Prefix {
    Prefix { head: 2, word: 0, len: 0, k: 0, b: 0 }
}

/// The registers on which a closed prefix stops.
pub open spec fn prefix_terminal(p: Prefix) -> bool {
    p.k == 0 && terminal(register_of(p, 0))
}

/// The known bits decide the next operation, whatever the unread high part is.
pub open spec fn decided(p: Prefix) -> bool {
    let nonempty = p.len != 0;
    let first = front(queue(p));
    let r = p.b % 4;
    let low = p.b as nat % pow2(p.k as nat);
    &&& pow2(p.k as nat) + p.b >= 9
    &&& (p.head == 0 || p.head == 2) ==> (nonempty || p.k >= 1)
    &&& !(p.head == 0 || p.head == 2) ==> p.k >= 1
    &&& !(p.head == 0 || p.head == 2) && (r % 2 == 0 || p.head == 4 && (!nonempty || first == 3))
        ==> p.k >= 2
    &&& !(p.head == 4 && (!nonempty || first == 3) && r == 0 && low == 0)
}

/// The move a prefix makes; `closed` means the value is exactly `b`.
pub open spec fn prefix_move(p: Prefix, closed: bool) -> Move {
    plan(
        p.head,
        queue(p),
        (p.b % 4) as nat,
        if closed {
            p.b as nat
        } else {
            p.b as nat % pow2(p.k as nat)
        },
    )
}

/// Sets position `len` of a queue word to the given digit.
pub open spec fn push_digit(word: u128, len: nat, d: u8) -> u128 {
    if d == 3 {
        word | (1u128 << (len as u128))
    } else {
        word
    }
}

/// Appends up to two digits to a queue word of length `len`.
pub open spec fn push_digits(word: u128, len: nat, digits: Seq<u8>) -> u128 {
    if digits.len() == 0 {
        word
    } else if digits.len() == 1 {
        push_digit(word, len, digits[0])
    } else {
        push_digit(push_digit(word, len, digits[0]), len + 1, digits[1])
    }
}

/// One operation of the prefix normalizer: `None` where it fails, `Some((false, ..))`
/// with the state unchanged where the known bits do not decide it.
pub open spec fn prefix_step(p: Prefix, c: Cost, closed: bool) -> Option<(bool, Prefix, Cost)> {
    if !well_formed(p) {
        None
    } else if !closed && !decided(p) {
        Some((false, p, c))
    } else if closed && p.b == 0 {
        None
    } else {
        let m = prefix_move(p, closed);
        let len1: nat = if m.pop {
            (p.len - 1) as nat
        } else {
            p.len as nat
        };
        let word1 = if m.pop {
            p.word >> 1u128
        } else {
            p.word
        };
        if p.b + m.addition > u128::MAX {
            None
        } else if !closed && p.k < m.loss {
            None
        } else if len1 + m.append.len() > 127 {
            None
        } else {
            match cost_sum(
                c,
                Cost {
                    loss: m.loss as u64,
                    base: m.base as u64,
                    returned: m.returned as u64,
                    operations: 1,
                },
            ) {
                None => None,
                Some(c2) => Some(
                    (
                        true,
                        Prefix {
                            head: m.head,
                            word: push_digits(word1, len1, m.append),
                            len: (len1 + m.append.len()) as u8,
                            k: if closed {
                                p.k
                            } else {
                                (p.k - m.loss) as u8
                            },
                            b: ((p.b + m.addition) as nat / pow2(m.loss)) as u128,
                        },
                        c2,
                    ),
                ),
            }
        }
    }
}

/// Operations taken while the known bits decide them, at most `fuel` of them.
pub open spec fn settle_open(p: Prefix, c: Cost, fuel: nat) -> Option<(Prefix, Cost)>
    decreases fuel,
{
    if fuel == 0 || !well_formed(p) {
        None
    } else {
        match prefix_step(p, c, false) {
            None => None,
            Some((moved, q, d)) => if !moved {
                Some((q, d))
            } else {
                settle_open(q, d, (fuel - 1) as nat)
            },
        }
    }
}

/// Operations on the closed value until a terminal register, at most `fuel` of them.
pub open spec fn settle_closed(p: Prefix, c: Cost, fuel: nat) -> Option<(Prefix, Cost)>
    decreases fuel,
{
    if fuel == 0 {
        None
    } else if prefix_terminal(p) {
        Some((p, c))
    } else {
        match prefix_step(p, c, true) {
            None => None,
            Some((moved, q, d)) => if !moved {
                None
            } else {
                settle_closed(q, d, (fuel - 1) as nat)
            },
        }
    }
}

/// The state after `bits` more low bits `low` arrive, before any operation.
pub open spec fn fed(p: Prefix, low: u64, bits: u8) -> Option<Prefix> {
    if bits > 64 || p.k + bits > 112 {
        None
    } else if bits < 64 && low >= pow2(bits as nat) {
        None
    } else if p.b + low * pow2(p.k as nat) > u128::MAX {
        None
    } else {
        Some(Prefix { b: (p.b + low * pow2(p.k as nat)) as u128, k: (p.k + bits) as u8, ..p })
    }
}

/// The state once the final one bit above the known bits is added.
pub open spec fn closed_state(p: Prefix) -> Option<Prefix> {
    if !well_formed(p) || p.b + pow2(p.k as nat) > u128::MAX {
        None
    } else {
        Some(Prefix { b: (p.b + pow2(p.k as nat)) as u128, k: 0, ..p })
    }
}

/// The number of operations `epsilon` and `close` take at most.
pub open spec fn step_limit() -> nat {
    1_000_000
}

pub proof fn lemma_digit_pop(w: u128, i: int)
    requires
        0 <= i < 127,
    ensures
        digit_at(w >> 1u128, i) == digit_at(w, i + 1),
{
    let j = i as u128;
    assert(((w >> 1u128) >> j) & 1u128 == (w >> ((j + 1) as u128)) & 1u128) by (bit_vector)
        requires
            j < 127,
    ;
}

proof fn lemma_digit_push(w: u128, len: u128, d: u8, i: int)
    requires
        len < 127,
        w < (1u128 << len),
        0 <= i <= len,
    ensures
        digit_at(push_digit(w, len as nat, d), i) == (if i == len {
            if d == 3 {
                3u8
            } else {
                1u8
            }
        } else {
            digit_at(w, i)
        }),
        push_digit(w, len as nat, d) < (1u128 << ((len + 1) as u128)),
{
    let j = i as u128;
    assert(((w | (1u128 << len)) >> j) & 1u128 == (if j == len {
        1u128
    } else {
        (w >> j) & 1u128
    })) by (bit_vector)
        requires
            len < 127,
            w < (1u128 << len),
            j <= len,
    ;
    assert((w >> len) & 1u128 == 0u128) by (bit_vector)
        requires
            len < 127,
            w < (1u128 << len),
    ;
    assert((w | (1u128 << len)) < (1u128 << ((len + 1) as u128))) by (bit_vector)
        requires
            len < 127,
            w < (1u128 << len),
    ;
    assert(w < (1u128 << ((len + 1) as u128))) by (bit_vector)
        requires
            len < 127,
            w < (1u128 << len),
    ;
}

proof fn lemma_all_threes(w: u128, n: u128)
    requires
        n < 128,
        w < (1u128 << n),
    ensures
        (w == ((1u128 << n) - 1) as u128) <==> (forall|j: int| 0 <= j < n ==> #[trigger] digit_at(w, j) == 3),
    decreases n,
{
    if n == 0 {
        assert(w < (1u128 << 0u128) ==> w == ((1u128 << 0u128) - 1) as u128) by (bit_vector);
    } else {
        let m = (n - 1) as u128;
        let v = w >> 1u128;
        assert(v < (1u128 << m)) by (bit_vector)
            requires
                w < (1u128 << n),
                m == n - 1,
                0 < n < 128,
                v == w >> 1u128,
        ;
        lemma_all_threes(v, m);
        assert((w == ((1u128 << n) - 1) as u128) <==> (w & 1u128 == 1u128 && v == ((1u128 << m) - 1) as u128)) by (bit_vector)
            requires
                w < (1u128 << n),
                m == n - 1,
                0 < n < 128,
                v == w >> 1u128,
        ;
        assert(w & 1u128 == (w >> 0u128) & 1u128) by (bit_vector);
        assert forall|j: int| 0 <= j < m implies digit_at(v, j) == digit_at(w, j + 1) by {
            lemma_digit_pop(w, j);
        }
        if forall|j: int| 0 <= j < n ==> #[trigger] digit_at(w, j) == 3 {
            assert(digit_at(w, 0) == 3);
            assert forall|j: int| 0 <= j < m implies #[trigger] digit_at(v, j) == 3 by {
                assert(digit_at(w, j + 1) == 3);
            }
        }
        if w == ((1u128 << n) - 1) as u128 {
            assert forall|j: int| 0 <= j < n implies #[trigger] digit_at(w, j) == 3 by {
                if j > 0 {
                    assert(digit_at(v, j - 1) == 3);
                }
            }
        }
    }
}

/// Popping the front of a queue word drops the front digit.
pub proof fn lemma_queue_pop(p: Prefix)
    requires
        p.len > 0,
        p.len < 128,
    ensures
        Seq::new((p.len - 1) as nat, |i: int| digit_at(p.word >> 1u128, i)) == queue(
            p,
        ).drop_first(),
{
    assert forall|i: int| 0 <= i < p.len - 1 implies #[trigger] digit_at(p.word >> 1u128, i)
        == queue(p).drop_first()[i] by {
        lemma_digit_pop(p.word, i);
    }
    assert(Seq::new((p.len - 1) as nat, |i: int| digit_at(p.word >> 1u128, i)) =~= queue(
        p,
    ).drop_first());
}

/// Pushing digits onto a queue word appends them.
pub proof fn lemma_queue_push(w: u128, len: nat, digits: Seq<u8>)
    requires
        len + digits.len() <= 127,
        digits.len() <= 2,
        w < pow2(len),
    ensures
        Seq::new((len + digits.len()) as nat, |i: int| digit_at(push_digits(w, len, digits), i))
            == Seq::new(len, |i: int| digit_at(w, i)) + digits.map_values(
            |d: u8|
                if d == 3 {
                    3u8
                } else {
                    1u8
                },
        ),
        push_digits(w, len, digits) < pow2(len + digits.len()),
{
    lemma_one_shl_u128(len as u128);
    if digits.len() == 0 {
        assert(Seq::new((len + digits.len()) as nat, |i: int| digit_at(push_digits(w, len, digits), i))
            =~= Seq::new(len, |i: int| digit_at(w, i)) + digits.map_values(
            |d: u8|
                if d == 3 {
                    3u8
                } else {
                    1u8
                },
        ));
    } else {
        let w1 = push_digit(w, len, digits[0]);
        assert forall|i: int| 0 <= i <= len implies #[trigger] digit_at(w1, i) == (if i == len {
            if digits[0] == 3 {
                3u8
            } else {
                1u8
            }
        } else {
            digit_at(w, i)
        }) by {
            lemma_digit_push(w, len as u128, digits[0], i);
        }
        lemma_digit_push(w, len as u128, digits[0], 0);
        lemma_one_shl_u128((len + 1) as u128);
        if digits.len() == 1 {
            assert(Seq::new((len + digits.len()) as nat, |i: int| digit_at(push_digits(w, len, digits), i))
                =~= Seq::new(len, |i: int| digit_at(w, i)) + digits.map_values(
                |d: u8|
                    if d == 3 {
                        3u8
                    } else {
                        1u8
                    },
            ));
        } else {
            assert forall|i: int| 0 <= i <= len + 1 implies #[trigger] digit_at(
                push_digit(w1, len + 1, digits[1]),
                i,
            ) == (if i == len + 1 {
                if digits[1] == 3 {
                    3u8
                } else {
                    1u8
                }
            } else {
                digit_at(w1, i)
            }) by {
                lemma_digit_push(w1, (len + 1) as u128, digits[1], i);
            }
            lemma_digit_push(w1, (len + 1) as u128, digits[1], 0);
            lemma_one_shl_u128((len + 2) as u128);
            assert(Seq::new((len + digits.len()) as nat, |i: int| digit_at(push_digits(w, len, digits), i))
                =~= Seq::new(len, |i: int| digit_at(w, i)) + digits.map_values(
                |d: u8|
                    if d == 3 {
                        3u8
                    } else {
                        1u8
                    },
            ));
        }
    }
}

impl Prefix {
    /// The state with an empty queue, head 2 and no known bits.
    pub fn empty() -> (p: Prefix)
        ensures
            p == empty_prefix(),
            well_formed(p),
    {
        proof {
            lemma2_to64();
            lemma_pow2_pos(120);
        }
        Prefix { head: 2, word: 0, len: 0, k: 0, b: 0 }
    }

    /// Whether the state keeps its bounds.
    pub fn valid(&self) -> (r: bool)
        ensures
            r == well_formed(*self),
    {
        if !(self.head <= 4 && self.len < 128 && self.k <= 112) {
            return false;
        }
        proof {
            lemma_one_shl_u128(self.len as u128);
            lemma_one_shl_u128(120);
        }
        self.word < (1u128 << (self.len as u128)) && self.b < (1u128 << 120u128)
    }

    /// Whether the closed state is a register on which the machine stops.
    fn terminal(&self) -> (r: bool)
        requires
            self.len < 128,
            self.word < pow2(self.len as nat),
        ensures
            r == prefix_terminal(*self),
    {
        proof {
            lemma_one_shl_u128(self.len as u128);
            lemma2_to64();
        }
        let r = self.k == 0 && (if self.len == 0 {
            (self.head == 2 && self.b == 2) || (self.head == 0 && self.b == 4) || (self.head == 1
                && self.b == 3)
        } else {
            self.head == 1 && self.b == 1 && self.word == (1u128 << (self.len as u128)) - 1
        });
        proof {
            let p = *self;
            assert(pow2(p.k as nat) * 0 == 0);
            assert(register_of(p, 0).value == p.b);
            assert(register_of(p, 0).odd.len() == p.len);
            if p.len > 0 {
                lemma_all_threes(p.word, p.len as u128);
                assert(forall|i: int| 0 <= i < queue(p).len() ==> #[trigger] queue(p)[i] == digit_at(p.word, i));
                if forall|i: int| 0 <= i < queue(p).len() ==> #[trigger] queue(p)[i] == 3 {
                    assert forall|j: int| 0 <= j < p.len implies #[trigger] digit_at(p.word, j) == 3 by {
                        assert(queue(p)[j] == 3);
                    }
                }
                if forall|j: int| 0 <= j < p.len ==> #[trigger] digit_at(p.word, j) == 3 {
                    assert forall|i: int| 0 <= i < queue(p).len() implies #[trigger] queue(p)[i] == 3 by {
                        assert(digit_at(p.word, i) == 3);
                    }
                }
                assert((forall|i: int| 0 <= i < queue(p).len() ==> #[trigger] queue(p)[i] == 3) == (p.word == ((1u128 << (p.len as u128)) - 1) as u128));
                assert(terminal(register_of(p, 0)) == (p.head == 1 && p.b == 1 && p.word == ((1u128 << (p.len as u128)) - 1) as u128));
            } else {
                assert(terminal(register_of(p, 0)) == ((p.head == 2 && p.b == 2) || (p.head == 0 && p.b == 4) || (p.head == 1 && p.b == 3)));
            }
        }
        r
    }

    /// One operation on the known bits; `closed` means the value is exactly `b`.
    /// Where it returns `None` the costs are untouched; the state too when it is not valid
    /// or is closed with nothing known, and otherwise it may be left partly updated.
    fn scalar(&mut self, cost: &mut Cost, closed: bool) -> (result: Option<bool>)
        ensures
            match prefix_step(*old(self), *old(cost), closed) {
                None => result is None,
                Some((moved, p, c)) => result == Some(moved) && *final(self) == p && *final(cost)
                    == c,
            },
            result is None ==> *final(cost) == *old(cost),
            !well_formed(*old(self)) || (closed && old(self).b == 0) ==> *final(self) == *old(self),
    {
        let ghost p0 = *self;
        let ghost c0 = *cost;
        if !self.valid() {
            return None;
        }
        let nonempty = self.len != 0;
        let first: u8 = if !nonempty || self.word & 1 != 0 {
            3
        } else {
            1
        };
        let r = (self.b & 3) as u8;
        proof {
            let w = p0.word;
            let b = p0.b;
            assert(w & 1u128 == (w >> 0u128) & 1u128) by (bit_vector);
            assert(w & 1u128 != 0 <==> (w >> 0u128) & 1u128 == 1u128) by (bit_vector);
            if nonempty {
                assert(queue(p0)[0] == digit_at(w, 0));
            }
            assert(first == front(queue(p0)));
            assert(b & 3u128 == b % 4) by (bit_vector);
            assert(r as nat == b as nat % 4);
            lemma_one_shl_u128(p0.k as u128);
            lemma_mask_u128(b, p0.k as u128);
            lemma_pow2_strictly_increases(p0.k as nat, 127);
            lemma_pow2_strictly_increases(120, 127);
            lemma_pow2_unfold(128);
            lemma_pow2_pos(p0.k as nat);
            assert(pow2(128) == u128::MAX + 1) by {
                lemma2_to64();
                lemma2_to64_rest();
                lemma_pow2_adds(64, 64);
            }
        }
        if !closed {
            if (1u128 << (self.k as u128)) + self.b < 9 {
                return Some(false);
            }
            if self.head == 0 || self.head == 2 {
                if !nonempty && self.k < 1 {
                    return Some(false);
                }
            } else {
                if self.k < 1 {
                    return Some(false);
                }
                if (r % 2 == 0 || self.head == 4 && (!nonempty || first == 3)) && self.k < 2 {
                    return Some(false);
                }
            }
            if self.head == 4 && (!nonempty || first == 3) && r == 0 && self.b & ((1u128 << (
            self.k as u128)) - 1) == 0 {
                return Some(false);
            }
        } else if self.b == 0 {
            return None;
        }
        let ghost m = prefix_move(p0, closed);
        let base: u8 = if self.head == 0 || self.head == 2 {
            if nonempty {
                3
            } else {
                2 + r % 2
            }
        } else if self.head == 1 || self.head == 3 {
            if r == 2 {
                3
            } else {
                2
            }
        } else if self.head == 4 && nonempty && first == 1 {
            if r % 2 == 1 {
                6
            } else if r == 2 {
                4
            } else {
                3
            }
        } else if self.head == 4 {
            if r == 3 {
                5
            } else {
                6
            }
        } else {
            return None;
        };
        let mut pop = false;
        let mut append: [u8; 2] = [0, 0];
        let count: usize;
        let addition: u128;
        let mut loss: u8 = 0;
        let mut returned: u64 = 1;
        if self.head == 0 || self.head == 2 {
            addition = 1;
            if nonempty {
                self.head = first + if self.head == 0 {
                    1
                } else {
                    0
                };
                pop = true;
            } else {
                self.head = (if self.head == 0 {
                    3
                } else {
                    2
                }) - 2 * (r % 2);
                loss = 1;
            }
            count = 0;
        } else if (self.head == 1 || self.head == 3) && r % 2 == 1 {
            self.head = self.head - 1;
            addition = 1;
            count = 0;
        } else if self.head == 1 || self.head == 3 {
            self.head = first + if self.head == 1 {
                1
            } else {
                0
            };
            pop = nonempty;
            if nonempty {
                append = [3, 3 - r];
                count = 2;
            } else {
                append[0] = 3 - r;
                count = 1;
            }
            addition = 3;
            loss = 2;
        } else if nonempty && first == 1 {
            self.head = 3;
            pop = true;
            if r % 2 == 1 {
                addition = 2;
                count = 0;
            } else {
                append = [3, 3 - r];
                count = 2;
                addition = 3;
                loss = 2;
                if r == 2 {
                    returned = returned + 1;
                }
            }
        } else {
            self.head = 1;
            pop = nonempty;
            let last: u8 = if r == 3 {
                3
            } else {
                1
            };
            if nonempty {
                append = [3, last];
                count = 2;
            } else {
                append[0] = last;
                count = 1;
            }
            addition = if r % 2 == 1 {
                3
            } else if r == 2 {
                returned = returned + 1;
                8
            } else {
                let low = if closed {
                    self.b
                } else {
                    self.b & ((1u128 << (self.k as u128)) - 1)
                };
                if low == 0 {
                    return None;
                }
                proof {
                    lemma_lowest_bit_u128(low);
                }
                match 3u128.checked_mul(low & !(low - 1)) {
                    Some(x) => x,
                    None => return None,
                }
            };
            loss = 2;
        }
        proof {
            assert(self.head == m.head);
            assert(pop == m.pop);
            assert(addition as nat == m.addition);
            assert(loss as nat == m.loss);
            assert(base as nat == m.base);
            assert(returned as nat == m.returned);
            assert(count == m.append.len());
            assert(forall|i: int| 0 <= i < count ==> append[i] == m.append[i]);
        }
        let sum = match self.b.checked_add(addition) {
            Some(x) => x,
            None => return None,
        };
        proof {
            lemma_shr_u128(sum, loss as u128);
        }
        self.b = sum >> (loss as u128);
        if !closed {
            self.k = match self.k.checked_sub(loss) {
                Some(x) => x,
                None => return None,
            };
        }
        if pop {
            self.word = self.word >> 1u128;
            self.len = self.len - 1;
        }
        let ghost word1 = self.word;
        let ghost len1 = self.len;
        if count >= 1 {
            if self.len >= 127 {
                return None;
            }
            let bit: u128 = if append[0] == 3 {
                1
            } else {
                0
            };
            proof {
                let w = self.word;
                let n = self.len as u128;
                assert(w | (0u128 << n) == w) by (bit_vector);
            }
            self.word = self.word | (bit << (self.len as u128));
            self.len = self.len + 1;
        }
        if count >= 2 {
            if self.len >= 127 {
                return None;
            }
            let bit: u128 = if append[1] == 3 {
                1
            } else {
                0
            };
            proof {
                let w = self.word;
                let n = self.len as u128;
                assert(w | (0u128 << n) == w) by (bit_vector);
            }
            self.word = self.word | (bit << (self.len as u128));
            self.len = self.len + 1;
        }
        proof {
            assert(self.word == push_digits(word1, len1 as nat, m.append));
        }
        let next = match cost.add(
            Cost { loss: loss as u64, base: base as u64, returned, operations: 1 },
        ) {
            Some(c) => c,
            None => return None,
        };
        *cost = next;
        Some(true)
    }

    /// Takes operations while the known bits decide them; `None` when an operation fails
    /// or a million operations do not settle.
    pub fn epsilon(&mut self, cost: &mut Cost) -> (r: Option<()>)
        ensures
            match settle_open(*old(self), *old(cost), step_limit()) {
                None => r is None,
                Some((p, c)) => r is Some && *final(self) == p && *final(cost) == c,
            },
            !well_formed(*old(self)) ==> *final(self) == *old(self) && *final(cost) == *old(cost),
    {
        let ghost goal = settle_open(*self, *cost, step_limit());
        assert(goal == settle_open(*old(self), *old(cost), step_limit()));
        let mut i: u32 = 0;
        while i < 1_000_000
            invariant
                i <= 1_000_000,
                settle_open(*self, *cost, (1_000_000 - i) as nat) == goal,
                goal == settle_open(*old(self), *old(cost), step_limit()),
                !well_formed(*old(self)) ==> *self == *old(self) && *cost == *old(cost),
            decreases 1_000_000 - i,
        {
            if !self.valid() {
                assert(settle_open(*self, *cost, (1_000_000 - i) as nat) is None);
                return None;
            }
            let ghost before = *self;
            let ghost cbefore = *cost;
            match self.scalar(cost, false) {
                None => return None,
                Some(moved) => {
                    if !moved {
                        return Some(());
                    }
                },
            }
            i = i + 1;
        }
        None
    }

    /// Adds `bits` more known low bits `low` above the known ones, then settles.
    pub fn feed(&mut self, low: u64, bits: u8, cost: &mut Cost) -> (r: Option<()>)
        ensures
            match fed(*old(self), low, bits) {
                None => r is None,
                Some(q) => match settle_open(q, *old(cost), step_limit()) {
                    None => r is None,
                    Some((p, c)) => r is Some && *final(self) == p && *final(cost) == c,
                },
            },
            fed(*old(self), low, bits) is None ==> *final(self) == *old(self) && *final(cost) == *old(cost),
    {
        if bits > 64 || self.k as u16 + bits as u16 > 112 {
            return None;
        }
        if bits < 64 {
            proof {
                lemma_u64_pow2_no_overflow(bits as nat);
                assert(1 * pow2(bits as nat) == pow2(bits as nat));
                lemma_u64_shl_is_mul(1, bits as u64);
            }
            if low >= (1u64 << bits) {
                return None;
            }
        }
        proof {
            let k = self.k as nat;
            lemma_pow2_adds(bits as nat, k);
            lemma2_to64();
            lemma_pow2_strictly_increases(112, 128);
            if bits < 64 {
                assert(low < pow2(bits as nat));
            } else {
                assert(low < pow2(64)) by {
                    lemma2_to64_rest();
                }
            }
            lemma_pow2_pos(k);
            assert(low * pow2(k) < pow2(bits as nat) * pow2(k)) by (nonlinear_arith)
                requires
                    low < pow2(bits as nat),
                    pow2(k) > 0,
            ;
            if k + bits < 112 {
                lemma_pow2_strictly_increases((k + bits) as nat, 112);
            }
            assert(pow2(128) == u128::MAX + 1) by {
                lemma2_to64_rest();
                lemma_pow2_adds(64, 64);
            }
            lemma_shl_u128(low as u128, self.k as u128);
        }
        let shifted = (low as u128) << (self.k as u128);
        self.b = match self.b.checked_add(shifted) {
            Some(x) => x,
            None => return None,
        };
        self.k = self.k + bits;
        self.epsilon(cost)
    }

    /// Adds the final one bit above the known bits and runs the machine on the now
    /// exact value until it reaches a terminal register; `None` when an operation
    /// fails or a million operations do not reach one.
    pub fn close(&mut self, cost: &mut Cost) -> (r: Option<()>)
        ensures
            match closed_state(*old(self)) {
                None => r is None,
                Some(q) => match settle_closed(q, *old(cost), step_limit()) {
                    None => r is None,
                    Some((p, c)) => r is Some && *final(self) == p && *final(cost) == c,
                },
            },
            closed_state(*old(self)) is None ==> *final(self) == *old(self) && *final(cost) == *old(cost),
    {
        if !self.valid() {
            return None;
        }
        proof {
            lemma_one_shl_u128(self.k as u128);
        }
        self.b = match self.b.checked_add(1u128 << (self.k as u128)) {
            Some(x) => x,
            None => return None,
        };
        self.k = 0;
        let ghost goal = settle_closed(*self, *cost, step_limit());
        assert(closed_state(*old(self)) == Some(*self));
        let mut i: u32 = 0;
        while i < 1_000_000
            invariant
                i <= 1_000_000,
                settle_closed(*self, *cost, (1_000_000 - i) as nat) == goal,
                closed_state(*old(self)) matches Some(q) && goal == settle_closed(q, *old(cost), step_limit()),
                self.len < 128,
                self.word < pow2(self.len as nat),
            decreases 1_000_000 - i,
        {
            if self.terminal() {
                return Some(());
            }
            let ghost before = *self;
            let ghost cbefore = *cost;
            match self.scalar(cost, true) {
                None => return None,
                Some(moved) => {
                    if !moved {
                        return None;
                    }
                },
            }
            proof {
                lemma_step_queue(before, cbefore, true);
            }
            i = i + 1;
        }
        None
    }
}

/// A successful operation leaves a queue word within its length, holding the queue of
/// the move.
pub proof fn lemma_step_queue(p: Prefix, c: Cost, closed: bool)
    requires
        prefix_step(p, c, closed) matches Some((true, _, _)),
    ensures
        prefix_step(p, c, closed) matches Some((_, q, _)) && q.len < 128 && q.word < pow2(
            q.len as nat,
        ) && queue(q) == moved_queue(queue(p), prefix_move(p, closed)).map_values(
            |d: u8|
                if d == 3 {
                    3u8
                } else {
                    1u8
                },
        ),
{
    let m = prefix_move(p, closed);
    let len1: nat = if m.pop {
        (p.len - 1) as nat
    } else {
        p.len as nat
    };
    let word1 = if m.pop {
        p.word >> 1u128
    } else {
        p.word
    };
    let q0 = Seq::new(len1, |i: int| digit_at(word1, i));
    if m.pop {
        lemma_queue_pop(p);
        lemma_shr_u128(p.word, 1);
        lemma2_to64();
        lemma_pow2_unfold(p.len as nat);
        assert(p.word as nat / 2 < pow2(len1));
    }
    assert(q0 == (if m.pop {
        queue(p).drop_first()
    } else {
        queue(p)
    }));
    assert(m.append.len() <= 2);
    lemma_queue_push(word1, len1, m.append);
    assert(odd_digits(queue(p)) ==> true);
    let mv = moved_queue(queue(p), m);
    assert forall|i: int| 0 <= i < queue(p).len() implies #[trigger] queue(p)[i] == 1 || queue(
        p,
    )[i] == 3 by {
    }
    assert(mv.map_values(
        |d: u8|
            if d == 3 {
                3u8
            } else {
                1u8
            },
    ) =~= q0 + m.append.map_values(
        |d: u8|
            if d == 3 {
                3u8
            } else {
                1u8
            },
    ));
}

/// The cost record of a single move.
pub open spec fn move_cost(m: Move) -> Cost {
    Cost { loss: m.loss as u64, base: m.base as u64, returned: m.returned as u64, operations: 1 }
}

proof fn lemma_plan_agrees(head: u8, odd: Seq<u8>, r1: nat, r2: nat, low1: nat, low2: nat)
    requires
        r1 < 4,
        r2 < 4,
        !((head == 0 || head == 2) && odd.len() > 0) ==> r1 % 2 == r2 % 2,
        !(head == 0 || head == 2) && r1 % 2 == 0 ==> r1 == r2,
        !(head == 0 || head == 2 || head == 1 || head == 3) && !(odd.len() > 0 && front(odd)
            == 1) ==> r1 == r2 && (r1 == 0 ==> trailing_zeros(low1) == trailing_zeros(low2)),
    ensures
        plan(head, odd, r1, low1) == plan(head, odd, r2, low2),
{
}

/// Law: an operation that the known bits decide is the operation the machine takes on
/// every register the prefix can stand for (any unread high part of at least one), and it
/// is charged the same costs; such a register is never terminal.
pub proof fn lemma_open_step_follows_machine(p: Prefix, c: Cost, high: nat)
    requires
        high >= 1,
        prefix_step(p, c, false) matches Some((true, _, _)),
    ensures
        prefix_step(p, c, false) matches Some((_, q, d)) && {
            let reg = register_of(p, high);
            &&& !terminal(reg)
            &&& next_register(reg) == register_of(q, high)
            &&& cost_sum(c, move_cost(register_move(reg))) == Some(d)
        },
{
    let reg = register_of(p, high);
    let k = p.k as nat;
    let b = p.b as nat;
    let v = reg.value;
    lemma_pow2_pos(k);
    assert(pow2(k) * high >= pow2(k)) by (nonlinear_arith)
        requires
            high >= 1,
            pow2(k) > 0,
    ;
    assert(v >= 9);
    let m = prefix_move(p, false);
    lemma2_to64();
    if k >= 1 {
        lemma_low_bits_agree(b, high, k, 1);
    }
    if k >= 2 {
        lemma_low_bits_agree(b, high, k, 2);
    }
    lemma_low_bits_agree(b, high, k, k);
    assert(v % 2 == (v % 4) % 2) by {
        lemma_mod_mod(v as int, 2, 2);
    }
    assert(b % 2 == (b % 4) % 2) by {
        lemma_mod_mod(b as int, 2, 2);
    }
    if p.head == 4 && !(p.len > 0 && front(queue(p)) == 1) && b % 4 == 0 {
        lemma_mod_twice(b as int, pow2(k) as int);
        lemma_trailing_zeros_mod(v, k);
        lemma_trailing_zeros_mod(b % pow2(k), k);
    }
    lemma_plan_agrees(p.head, queue(p), v % 4, b % 4, v, b % pow2(k));
    assert(register_move(reg) == m);
    lemma_step_queue(p, c, false);
    let q = prefix_step(p, c, false).unwrap().1;
    lemma_shift_split((b + m.addition) as nat, high, m.loss, k);
    assert(queue(q) == moved_queue(queue(p), m)) by {
        lemma_odd_map(moved_queue(queue(p), m));
    }
    assert(next_register(reg).value == q.b + pow2(q.k as nat) * high);
}

/// Law: on a closed prefix (the value is exactly `b`) an operation is the machine's
/// operation on the register `(head, queue, b)`, charged the same costs.
pub proof fn lemma_closed_step_follows_machine(p: Prefix, c: Cost)
    requires
        prefix_step(p, c, true) matches Some((true, _, _)),
    ensures
        prefix_step(p, c, true) matches Some((_, q, d)) && {
            let reg = register_of(p, 0);
            &&& next_register(reg) == register_of(q, 0)
            &&& cost_sum(c, move_cost(register_move(reg))) == Some(d)
        },
{
    let m = prefix_move(p, true);
    assert(pow2(p.k as nat) * 0 == 0);
    lemma_step_queue(p, c, true);
    let q = prefix_step(p, c, true).unwrap().1;
    assert(pow2(q.k as nat) * 0 == 0);
    assert(queue(q) == moved_queue(queue(p), m)) by {
        lemma_odd_map(moved_queue(queue(p), m));
    }
    let reg = register_of(p, 0);
    assert(reg.value == p.b as nat);
    assert(register_move(reg) == m);
    lemma_pow2_pos(m.loss);
    lemma_div_is_ordered_by_denominator((p.b + m.addition) as int, 1, pow2(m.loss) as int);
    assert(next_register(reg).value == q.b);
}

/// Law: on a closed prefix with a nonzero value and room left in the queue, an operation
/// is never refused: it applies, and it is the machine's operation on the register
/// `(head, queue, b)`, charged the same costs.
pub proof fn lemma_closed_step_applies(p: Prefix, c: Cost)
    requires
        well_formed(p),
        p.b > 0,
        p.len <= 126,
        c.loss <= u64::MAX - 8,
        c.base <= u64::MAX - 8,
        c.returned <= u64::MAX - 8,
        c.operations <= u64::MAX - 8,
    ensures
        prefix_step(p, c, true) matches Some((true, q, d)) && {
            let reg = register_of(p, 0);
            &&& next_register(reg) == register_of(q, 0)
            &&& cost_sum(c, move_cost(register_move(reg))) == Some(d)
        },
{
    let m = prefix_move(p, true);
    lemma_trailing_zeros_bound(p.b as nat);
    assert(m.addition <= 3 * p.b + 8);
    assert(p.b + m.addition <= u128::MAX) by {
        lemma_pow2_strictly_increases(120, 128);
        lemma_pow2_unfold(128);
        lemma_pow2_unfold(122);
        assert(pow2(128) == u128::MAX + 1) by {
            lemma2_to64();
            lemma2_to64_rest();
            lemma_pow2_adds(64, 64);
        }
        lemma_pow2_adds(120, 2);
        lemma2_to64();
        lemma_pow2_strictly_increases(122, 128);
    }
    assert(m.append.len() <= 2);
    assert(!m.pop ==> m.append.len() <= 1);
    assert(m.loss <= 2 && m.base <= 6 && m.returned <= 2);
    lemma_closed_step_follows_machine(p, c);
}

proof fn lemma_odd_map(s: Seq<u8>)
    requires
        forall|i: int| 0 <= i < s.len() ==> (#[trigger] s[i] == 1 || s[i] == 3),
    ensures
        s.map_values(
            |d: u8|
                if d == 3 {
                    3u8
                } else {
                    1u8
                },
        ) == s,
{
    assert(s.map_values(
        |d: u8|
            if d == 3 {
                3u8
            } else {
                1u8
            },
    ) =~= s);
}

} // verus!