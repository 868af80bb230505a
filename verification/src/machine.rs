//! The register machine that both normalizers run.
//!
//! A register is a head symbol in `0..=4`, a queue of odd digits (each `1` or `3`)
//! and a positive value.  One operation looks at the value modulo four, adds a small
//! amount to the value, drops up to two low bits, and moves digits through the queue.
//! `scalar` runs this machine on an explicit value; `prefix` runs it on a value of which
//! only the low bits are known so far.
use vstd::arithmetic::power2::{lemma2_to64, lemma_pow2_pos, pow2};
use vstd::prelude::*;

verus! {

/// Number of trailing zero bits of `v` (zero for `v == 0`).
pub open spec fn trailing_zeros(v: nat) -> nat
    decreases v,
{
    if v == 0 || v % 2 == 1 {
        0
    } else {
        1 + trailing_zeros(v / 2)
    }
}

/// Number of bits needed to write `v` (zero for `v == 0`).
pub open spec fn bit_length(v: nat) -> nat
    decreases v,
{
    if v == 0 {
        0
    } else {
        1 + bit_length(v / 2)
    }
}

/// Number of one bits of `v`.
pub open spec fn population(v: nat) -> nat
    decreases v,
{
    if v == 0 {
        0
    } else {
        (v % 2) + population(v / 2)
    }
}

/// The digit at the front of the queue, or `3` when the queue is empty.
pub open spec fn front(odd: Seq<u8>) -> u8 {
    if odd.len() > 0 {
        odd[0]
    } else {
        3
    }
}

/// Every digit of the queue is `1` or `3`.
pub open spec fn odd_digits(odd: Seq<u8>) -> bool {
    forall|i: int| 0 <= i < odd.len() ==> (#[trigger] odd[i] == 1 || odd[i] == 3)
}

/// What one operation does, given the head, the queue, the value modulo four and the
/// value whose lowest set bit the head-four case adds (the value itself, or the known
/// low bits of it).
pub struct Move {
    pub head: u8,
    pub pop: bool,
    pub append: Seq<u8>,
    pub addition: nat,
    pub loss: nat,
    pub base: nat,
    pub returned: nat,
}

pub open spec fn plan(head: u8, odd: Seq<u8>, r: nat, low: nat) -> Move {
    let nonempty = odd.len() > 0;
    let first = front(odd);
    if head == 0 || head == 2 {
        if nonempty {
            Move {
                head: (first + (if head == 0 { 1u8 } else { 0u8 })) as u8,
                pop: true,
                append: seq![],
                addition: 1,
                loss: 0,
                base: 3,
                returned: 1,
            }
        } else {
            Move {
                head: ((if head == 0 { 3int } else { 2int }) - 2 * (r % 2)) as u8,
                pop: false,
                append: seq![],
                addition: 1,
                loss: 1,
                base: 2 + r % 2,
                returned: 1,
            }
        }
    } else if head == 1 || head == 3 {
        if r % 2 == 1 {
            Move {
                head: (head - 1) as u8,
                pop: false,
                append: seq![],
                addition: 1,
                loss: 0,
                base: 2,
                returned: 1,
            }
        } else {
            Move {
                head: (first + (if head == 1 { 1u8 } else { 0u8 })) as u8,
                pop: nonempty,
                append: if nonempty {
                    seq![3u8, (3 - r) as u8]
                } else {
                    seq![(3 - r) as u8]
                },
                addition: 3,
                loss: 2,
                base: if r == 2 { 3 } else { 2 },
                returned: 1,
            }
        }
    } else if nonempty && first == 1 {
        if r % 2 == 1 {
            Move {
                head: 3,
                pop: true,
                append: seq![],
                addition: 2,
                loss: 0,
                base: 6,
                returned: 1,
            }
        } else {
            Move {
                head: 3,
                pop: true,
                append: seq![3u8, (3 - r) as u8],
                addition: 3,
                loss: 2,
                base: if r == 2 { 4 } else { 3 },
                returned: if r == 2 { 2 } else { 1 },
            }
        }
    } else {
        let last: u8 = if r == 3 { 3 } else { 1 };
        Move {
            head: 1,
            pop: nonempty,
            append: if nonempty {
                seq![3u8, last]
            } else {
                seq![last]
            },
            addition: if r % 2 == 1 {
                3
            } else if r == 2 {
                8
            } else {
                3 * pow2(trailing_zeros(low))
            },
            loss: 2,
            base: if r == 3 { 5 } else { 6 },
            returned: if r == 2 { 2 } else { 1 },
        }
    }
}

/// The queue after a move.
pub open spec fn moved_queue(odd: Seq<u8>, m: Move) -> Seq<u8> {
    (if m.pop {
        odd.drop_first()
    } else {
        odd
    }) + m.append
}

/// A register of the machine.
pub struct Register {
    pub head: u8,
    pub odd: Seq<u8>,
    pub value: nat,
}

/// The move the machine makes on a register.
pub open spec fn register_move(reg: Register) -> Move {
    plan(reg.head, reg.odd, reg.value % 4, reg.value)
}

/// One operation of the machine.
pub open spec fn next_register(reg: Register) -> Register {
    let m = register_move(reg);
    Register {
        head: m.head,
        odd: moved_queue(reg.odd, m),
        value: (reg.value + m.addition) / pow2(m.loss),
    }
}

/// The registers on which the machine stops.
pub open spec fn terminal(reg: Register) -> bool {
    ||| reg.odd.len() == 0 && ((reg.head == 2 && reg.value == 2) || (reg.head == 0 && reg.value
        == 4) || (reg.head == 1 && reg.value == 3))
    ||| reg.head == 1 && reg.odd.len() > 0 && (forall|i: int|
        0 <= i < reg.odd.len() ==> #[trigger] reg.odd[i] == 3) && reg.value == 1
}

/// Law: an operation keeps a positive value positive.
pub proof fn lemma_next_positive(reg: Register)
    requires
        reg.value > 0,
    ensures
        next_register(reg).value > 0,
{
    lemma2_to64();
    let m = register_move(reg);
    lemma_pow2_pos(trailing_zeros(reg.value));
    assert(reg.value + m.addition >= pow2(m.loss));
    let d = pow2(m.loss);
    let x = reg.value + m.addition;
    assert(x / d >= 1) by (nonlinear_arith)
        requires
            x >= d,
            d > 0,
    ;
}

/// Law: a terminal register's value has at most three bits.
pub proof fn lemma_terminal_small(reg: Register)
    requires
        terminal(reg),
    ensures
        1 <= reg.value <= 4,
        bit_length(reg.value) <= 3,
{
    reveal_with_fuel(bit_length, 4);
}

/// Law: an operation counts two returns exactly when the head is 4 and the value is 2
/// modulo 4, whatever the queue holds, and one return otherwise.
pub proof fn lemma_returns_counted(head: u8, odd: Seq<u8>, r: nat, low: nat)
    requires
        head <= 4,
        r < 4,
    ensures
        plan(head, odd, r, low).returned == if head == 4 && r == 2 {
            2nat
        } else {
            1nat
        },
{
}

/// Law: a machine operation on a register counts two returns exactly when its head is 4
/// and its value is 2 modulo 4.
pub proof fn lemma_register_returns(reg: Register)
    requires
        reg.head <= 4,
    ensures
        register_move(reg).returned == if reg.head == 4 && reg.value % 4 == 2 {
            2nat
        } else {
            1nat
        },
{
    lemma_returns_counted(reg.head, reg.odd, reg.value % 4, reg.value);
}

/// Law: what an operation charges besides its returns.  From head 0 or 2 it loses no bit
/// and costs 3 with a queue, and with an empty queue loses one bit and costs 2 plus the
/// value's parity.  From head 1 or 3 an odd value loses nothing and costs 2, an even one
/// loses two bits and costs 2, or 3 when it is 2 modulo 4.  From head 4 with a front `1`
/// an odd value loses nothing and costs 6, an even one loses two bits and costs 3, or 4
/// when it is 2 modulo 4; from head 4 otherwise it loses two bits and costs 6, or 5 when
/// the value is 3 modulo 4.
pub proof fn lemma_move_charges(head: u8, odd: Seq<u8>, r: nat, low: nat)
    requires
        head <= 4,
        r < 4,
    ensures
        ({
            let m = plan(head, odd, r, low);
            let queued = odd.len() > 0;
            &&& (head == 0 || head == 2) && queued ==> m.loss == 0 && m.base == 3
            &&& (head == 0 || head == 2) && !queued ==> m.loss == 1 && m.base == 2 + r % 2
            &&& (head == 1 || head == 3) && r % 2 == 1 ==> m.loss == 0 && m.base == 2
            &&& (head == 1 || head == 3) && r % 2 == 0 ==> m.loss == 2 && m.base == if r == 2 { 3nat } else { 2 }
            &&& head == 4 && queued && odd[0] == 1 && r % 2 == 1 ==> m.loss == 0 && m.base == 6
            &&& head == 4 && queued && odd[0] == 1 && r % 2 == 0 ==> m.loss == 2 && m.base == if r == 2 { 4nat } else { 3 }
            &&& head == 4 && !(queued && odd[0] == 1) ==> m.loss == 2 && m.base == if r == 3 { 5nat } else { 6 }
        }),
{
}

} // verus!
