//! The machine's single path from a register, and the law that the prefix normalizer and
//! the scalar normalizer stop on the same register with the same counters.
use crate::bits::lemma_one_shl_u128;
use crate::limbs::wide_value;
use crate::machine::{next_register, register_move, terminal, Register};
use crate::prefix::{
    closed_state, cost_sum, decided, digit_at, fed, lemma_closed_step_follows_machine, lemma_digit_pop,
    lemma_step_queue, well_formed, lemma_open_step_follows_machine,
    prefix_step, prefix_terminal, queue, register_of, settle_closed, settle_open, step_limit,
    zero_cost, Cost, Prefix,
};
use crate::normalizer::{
    bits_at, block_length, blocks_of, combined, fold_from, folded, group_step, groups_from,
    groups_of, link_end, repaired, row_cost, row_state,
};
use crate::scalar::{normalized, run_from, start_register, zero_tally, Tally};
use vstd::arithmetic::div_mod::*;
use vstd::arithmetic::mul::*;
use vstd::arithmetic::power2::*;
use vstd::prelude::*;

verus! {

/// The register `n` operations after `reg`.
pub open spec fn after(reg: Register, n: nat) -> Register
    decreases n,
{
    if n == 0 {
        reg
    } else {
        after(next_register(reg), (n - 1) as nat)
    }
}

/// Counters added together.
pub open spec fn tally_plus(a: Tally, b: Tally) -> Tally {
    Tally {
        loss: a.loss + b.loss,
        base: a.base + b.base,
        returned: a.returned + b.returned,
        operations: a.operations + b.operations,
    }
}

/// The counters the first `n` operations from `reg` charge.
pub open spec fn tally_after(reg: Register, n: nat) -> Tally
    decreases n,
{
    if n == 0 {
        zero_tally()
    } else {
        let m = register_move(reg);
        tally_plus(
            Tally { loss: m.loss, base: m.base, returned: m.returned, operations: 1 },
            tally_after(next_register(reg), (n - 1) as nat),
        )
    }
}

/// A cost record's counters.
pub open spec fn tally_of(c: Cost) -> Tally {
    Tally { loss: c.loss as nat, base: c.base as nat, returned: c.returned as nat, operations: c.operations as nat }
}

/// No register before the `n`th from `reg` is terminal.
pub open spec fn running(reg: Register, n: nat) -> bool {
    forall|i: nat| i < n ==> !terminal(#[trigger] after(reg, i))
}

/// The machine first stops `n` operations after `reg`.
pub open spec fn stops_after(reg: Register, n: nat) -> bool {
    running(reg, n) && terminal(after(reg, n))
}

/// Law: the machine stops at most once along its path.
pub proof fn lemma_stop_unique(reg: Register, n1: nat, n2: nat)
    requires
        stops_after(reg, n1),
        stops_after(reg, n2),
    ensures
        n1 == n2,
{
    if n1 < n2 {
        assert(!terminal(after(reg, n1)));
    } else if n2 < n1 {
        assert(!terminal(after(reg, n2)));
    }
}

proof fn lemma_after_split(reg: Register, a: nat, b: nat)
    ensures
        after(reg, a + b) == after(after(reg, a), b),
        tally_after(reg, a + b) == tally_plus(tally_after(reg, a), tally_after(after(reg, a), b)),
    decreases a,
{
    if a > 0 {
        lemma_after_split(next_register(reg), (a - 1) as nat, b);
        assert((a + b - 1) as nat == (a - 1) as nat + b);
    }
}

proof fn lemma_running_split(reg: Register, a: nat, b: nat)
    requires
        running(reg, a),
        running(after(reg, a), b),
    ensures
        running(reg, a + b),
{
    assert forall|i: nat| i < a + b implies !terminal(#[trigger] after(reg, i)) by {
        if i >= a {
            lemma_after_split(reg, a, (i - a) as nat);
            assert(!terminal(after(after(reg, a), (i - a) as nat)));
        }
    }
}

/// Law: where the scalar normalizer's run succeeds, it stops on the first terminal register
/// of the machine's path, charging the counters of the operations on the way.
pub proof fn lemma_run_stops(reg: Register, t: Tally, width: nat, fuel: nat) -> (n: nat)
    requires
        run_from(reg, t, width, fuel) is Some,
    ensures
        run_from(reg, t, width, fuel) matches Some((r, t2)) && stops_after(reg, n) && r == after(reg, n)
            && t2 == tally_plus(t, tally_after(reg, n)),
    decreases fuel,
{
    if terminal(reg) {
        assert(running(reg, 0));
        0
    } else {
        let m = register_move(reg);
        let t2 = Tally {
            loss: t.loss + m.loss,
            base: t.base + m.base,
            returned: t.returned + m.returned,
            operations: t.operations + 1,
        };
        let k = lemma_run_stops(next_register(reg), t2, width, (fuel - 1) as nat);
        assert forall|i: nat| i < k + 1 implies !terminal(#[trigger] after(reg, i)) by {
            if i > 0 {
                assert(after(reg, i) == after(next_register(reg), (i - 1) as nat));
            }
        }
        k + 1
    }
}

/// Law: operations the known bits decide are the machine's operations on every register
/// the state can stand for (any unread high part of at least one): settling takes it
/// along the machine's path, past no terminal register, charging the same counters.
pub proof fn lemma_settle_open_follows(p: Prefix, c: Cost, fuel: nat, high: nat) -> (n: nat)
    requires
        high >= 1,
        settle_open(p, c, fuel) is Some,
    ensures
        settle_open(p, c, fuel) matches Some((q, d)) && running(register_of(p, high), n) && after(
            register_of(p, high),
            n,
        ) == register_of(q, high) && tally_of(d) == tally_plus(tally_of(c), tally_after(register_of(p, high), n)),
    decreases fuel,
{
    let reg = register_of(p, high);
    match prefix_step(p, c, false) {
        None => {
            assert(false);
            0
        },
        Some((moved, q, d)) => {
            if !moved {
                assert(running(reg, 0));
                0
            } else {
                lemma_open_step_follows_machine(p, c, high);
                let k = lemma_settle_open_follows(q, d, (fuel - 1) as nat, high);
                assert forall|i: nat| i < k + 1 implies !terminal(#[trigger] after(reg, i)) by {
                    if i > 0 {
                        assert(after(reg, i) == after(next_register(reg), (i - 1) as nat));
                    }
                }
                k + 1
            }
        },
    }
}

/// Law: on a closed state the operations are the machine's on its register: settling takes
/// it along the machine's path to the first terminal register, charging the same counters.
pub proof fn lemma_settle_closed_follows(p: Prefix, c: Cost, fuel: nat) -> (n: nat)
    requires
        p.k == 0,
        settle_closed(p, c, fuel) is Some,
    ensures
        settle_closed(p, c, fuel) matches Some((q, d)) && stops_after(register_of(p, 0), n) && after(
            register_of(p, 0),
            n,
        ) == register_of(q, 0) && tally_of(d) == tally_plus(tally_of(c), tally_after(register_of(p, 0), n)),
    decreases fuel,
{
    let reg = register_of(p, 0);
    if prefix_terminal(p) {
        assert(running(reg, 0));
        0
    } else {
        match prefix_step(p, c, true) {
            None => {
                assert(false);
                0
            },
            Some((moved, q, d)) => {
                lemma_closed_step_follows_machine(p, c);
                assert(q.k == 0);
                let k = lemma_settle_closed_follows(q, d, (fuel - 1) as nat);
                assert(!terminal(reg));
                assert forall|i: nat| i < k + 1 implies !terminal(#[trigger] after(reg, i)) by {
                    if i > 0 {
                        assert(after(reg, i) == after(next_register(reg), (i - 1) as nat));
                    }
                }
                k + 1
            },
        }
    }
}

/// Law: feeding the bits of a positive value below its top bit to a state that knows no
/// bits yet, settling, closing and settling again stops on the register the scalar
/// normalizer stops on, with the same counters.
pub proof fn lemma_prefix_matches_scalar(
    start: Prefix,
    low: u64,
    bits: u8,
    input: Seq<u64>,
    width: u64,
)
    requires
        start.k == 0,
        start.b == 0,
        wide_value(input) == low + pow2(bits as nat),
        fed(start, low, bits) matches Some(q) && settle_open(q, zero_cost(), step_limit()) matches Some((
            p1,
            c1,
        )) && closed_state(p1) matches Some(p2) && settle_closed(p2, c1, step_limit()) is Some,
        normalized(input, start.head, crate::prefix::queue(start), width) is Some,
    ensures
        ({
            let q = fed(start, low, bits).unwrap();
            let (p1, c1) = settle_open(q, zero_cost(), step_limit()).unwrap();
            let p2 = closed_state(p1).unwrap();
            let (p3, c3) = settle_closed(p2, c1, step_limit()).unwrap();
            let (reg, t) = normalized(input, start.head, crate::prefix::queue(start), width).unwrap();
            &&& register_of(p3, 0) == reg
            &&& c3.loss == t.loss
            &&& c3.base == t.base
            &&& c3.returned == t.returned
            &&& c3.operations == t.operations
        }),
{
    let q = fed(start, low, bits).unwrap();
    let (p1, c1) = settle_open(q, zero_cost(), step_limit()).unwrap();
    let p2 = closed_state(p1).unwrap();
    let (p3, c3) = settle_closed(p2, c1, step_limit()).unwrap();
    let reg0 = start_register(input, start.head, crate::prefix::queue(start));
    assert(pow2(0) == 1) by {
        lemma2_to64();
    }
    assert(register_of(q, 1) == reg0);
    let n1 = lemma_settle_open_follows(q, zero_cost(), step_limit(), 1);
    assert(register_of(p2, 0) == register_of(p1, 1));
    let n2 = lemma_settle_closed_follows(p2, c1, step_limit());
    lemma_after_split(reg0, n1, n2);
    lemma_running_split(reg0, n1, n2);
    assert(stops_after(reg0, n1 + n2));
    let n = lemma_run_stops(reg0, zero_tally(), width as nat, u64::MAX as nat);
    lemma_stop_unique(reg0, n, n1 + n2);
}


/// Feeding chunks `(low, bits)` one after another, settling after each: `None` where one
/// fails.
pub open spec fn fed_chunks(p: Prefix, c: Cost, chunks: Seq<(u64, u8)>) -> Option<(Prefix, Cost)>
    decreases chunks.len(),
{
    if chunks.len() == 0 {
        Some((p, c))
    } else {
        match fed(p, chunks[0].0, chunks[0].1) {
            None => None,
            Some(q) => match settle_open(q, c, step_limit()) {
                None => None,
                Some((p2, c2)) => fed_chunks(p2, c2, chunks.drop_first()),
            },
        }
    }
}

/// The number of bits the chunks hold.
pub open spec fn chunk_bits(chunks: Seq<(u64, u8)>) -> nat
    decreases chunks.len(),
{
    if chunks.len() == 0 {
        0
    } else {
        chunks[0].1 as nat + chunk_bits(chunks.drop_first())
    }
}

/// The value the chunks hold, the first chunk lowest.
pub open spec fn chunk_value(chunks: Seq<(u64, u8)>) -> nat
    decreases chunks.len(),
{
    if chunks.len() == 0 {
        0
    } else {
        chunks[0].0 as nat + pow2(chunks[0].1 as nat) * chunk_value(chunks.drop_first())
    }
}

/// Law: feeding chunks one after another takes the state along the machine's path from
/// the register the chunks (and any unread high part `h >= 1` above them) give it, past no
/// terminal register, charging the same counters.
pub proof fn lemma_chunks_follow(p: Prefix, c: Cost, chunks: Seq<(u64, u8)>, h: nat) -> (n: nat)
    requires
        h >= 1,
        fed_chunks(p, c, chunks) is Some,
    ensures
        fed_chunks(p, c, chunks) matches Some((q, d)) && ({
            let reg = register_of(p, chunk_value(chunks) + pow2(chunk_bits(chunks)) * h);
            &&& running(reg, n)
            &&& after(reg, n) == register_of(q, h)
            &&& tally_of(d) == tally_plus(tally_of(c), tally_after(reg, n))
        }),
    decreases chunks.len(),
{
    if chunks.len() == 0 {
        assert(pow2(0) == 1) by {
            lemma2_to64();
        }
        assert(chunk_value(chunks) == 0 && chunk_bits(chunks) == 0);
        assert(pow2(0) * h == h) by (nonlinear_arith)
            requires
                pow2(0) == 1,
        ;
        let reg = register_of(p, chunk_value(chunks) + pow2(chunk_bits(chunks)) * h);
        assert(reg == register_of(p, h));
        assert(running(reg, 0));
        assert(tally_plus(tally_of(c), tally_after(reg, 0)) == tally_of(c));
        0
    } else {
        let low = chunks[0].0;
        let bits = chunks[0].1;
        let rest = chunks.drop_first();
        let q = fed(p, low, bits).unwrap();
        let (p2, c2) = settle_open(q, c, step_limit()).unwrap();
        let h2 = chunk_value(rest) + pow2(chunk_bits(rest)) * h;
        lemma_pow2_pos(chunk_bits(rest));
        assert(pow2(chunk_bits(rest)) * h >= 1) by (nonlinear_arith)
            requires
                pow2(chunk_bits(rest)) >= 1,
                h >= 1,
        ;
        let n1 = lemma_settle_open_follows(q, c, step_limit(), h2);
        let n2 = lemma_chunks_follow(p2, c2, rest, h);
        let k = p.k as nat;
        lemma_pow2_adds(k, bits as nat);
        lemma_pow2_adds(bits as nat, chunk_bits(rest));
        assert(register_of(q, h2) == register_of(p, (low + pow2(bits as nat) * h2) as nat)) by {
            assert(p.b + pow2(k) * (low + pow2(bits as nat) * h2) == (p.b + low * pow2(k)) + pow2(k + bits as nat) * h2)
                by (nonlinear_arith)
                requires
                    pow2(k + bits as nat) == pow2(k) * pow2(bits as nat),
            ;
        }
        assert(low + pow2(bits as nat) * h2 == chunk_value(chunks) + pow2(chunk_bits(chunks)) * h) by (nonlinear_arith)
            requires
                h2 == chunk_value(rest) + pow2(chunk_bits(rest)) * h,
                chunk_value(chunks) == low + pow2(bits as nat) * chunk_value(rest),
                chunk_bits(chunks) == bits + chunk_bits(rest),
                pow2(bits as nat + chunk_bits(rest)) == pow2(bits as nat) * pow2(chunk_bits(rest)),
        ;
        let reg = register_of(p, chunk_value(chunks) + pow2(chunk_bits(chunks)) * h);
        lemma_follow_split(reg, n1, register_of(p2, h2), n2);
        let (q2, d2) = fed_chunks(p, c, chunks).unwrap();
        assert(after(reg, n1 + n2) == register_of(q2, h));
        assert(tally_of(d2) == tally_plus(tally_of(c), tally_after(reg, n1 + n2)));
        n1 + n2
    }
}

/// Law: feeding the bits of a positive value below its top bit to a state that knows no
/// bits yet, in any chunks, settling after each, then closing and settling again stops on
/// the register the scalar normalizer stops on, with the same counters.
pub proof fn lemma_chunks_match_scalar(start: Prefix, chunks: Seq<(u64, u8)>, input: Seq<u64>, width: u64)
    requires
        start.k == 0,
        start.b == 0,
        wide_value(input) == chunk_value(chunks) + pow2(chunk_bits(chunks)),
        fed_chunks(start, zero_cost(), chunks) matches Some((p1, c1)) && closed_state(p1) matches Some(
            p2,
        ) && settle_closed(p2, c1, step_limit()) is Some,
        normalized(input, start.head, queue(start), width) is Some,
    ensures
        ({
            let (p1, c1) = fed_chunks(start, zero_cost(), chunks).unwrap();
            let p2 = closed_state(p1).unwrap();
            let (p3, c3) = settle_closed(p2, c1, step_limit()).unwrap();
            let (reg, t) = normalized(input, start.head, queue(start), width).unwrap();
            &&& register_of(p3, 0) == reg
            &&& c3.loss == t.loss
            &&& c3.base == t.base
            &&& c3.returned == t.returned
            &&& c3.operations == t.operations
        }),
{
    let (p1, c1) = fed_chunks(start, zero_cost(), chunks).unwrap();
    let p2 = closed_state(p1).unwrap();
    let reg0 = start_register(input, start.head, queue(start));
    assert(pow2(0) == 1) by {
        lemma2_to64();
    }
    assert(register_of(start, chunk_value(chunks) + pow2(chunk_bits(chunks)) * 1) == reg0);
    let n1 = lemma_chunks_follow(start, zero_cost(), chunks, 1);
    assert(register_of(p2, 0) == register_of(p1, 1));
    let n2 = lemma_settle_closed_follows(p2, c1, step_limit());
    lemma_after_split(reg0, n1, n2);
    lemma_running_split(reg0, n1, n2);
    assert(stops_after(reg0, n1 + n2));
    let n = lemma_run_stops(reg0, zero_tally(), width as nat, u64::MAX as nat);
    lemma_stop_unique(reg0, n, n1 + n2);
}

proof fn lemma_word_from_digits(w1: u128, w2: u128, n: nat)
    requires
        n < 128,
        w1 < pow2(n),
        w2 < pow2(n),
        forall|i: int| 0 <= i < n ==> #[trigger] digit_at(w1, i) == digit_at(w2, i),
    ensures
        w1 == w2,
    decreases n,
{
    lemma_one_shl_u128(n as u128);
    let nn = n as u128;
    if n == 0 {
        lemma2_to64();
    } else {
        let m = (n - 1) as u128;
        let v1 = w1 >> 1u128;
        let v2 = w2 >> 1u128;
        assert(v1 < (1u128 << m) && v2 < (1u128 << m)) by (bit_vector)
            requires
                w1 < (1u128 << nn),
                w2 < (1u128 << nn),
                m == nn - 1,
                0 < nn < 128,
                v1 == w1 >> 1u128,
                v2 == w2 >> 1u128,
        ;
        lemma_one_shl_u128(m);
        assert forall|i: int| 0 <= i < m implies #[trigger] digit_at(v1, i) == digit_at(v2, i) by {
            lemma_digit_pop(w1, i);
            lemma_digit_pop(w2, i);
            assert(digit_at(w1, i + 1) == digit_at(w2, i + 1));
        }
        lemma_word_from_digits(v1, v2, m as nat);
        assert(digit_at(w1, 0) == digit_at(w2, 0));
        assert(w1 == w2) by (bit_vector)
            requires
                w1 >> 1u128 == w2 >> 1u128,
                ((w1 >> 0u128) & 1u128 == 1u128) == ((w2 >> 0u128) & 1u128 == 1u128),
        ;
    }
}

/// Two states that stand for the same registers whatever the unread high part is are the
/// same state.
proof fn lemma_same_registers(a: Prefix, b: Prefix)
    requires
        a.len < 128,
        b.len < 128,
        a.word < pow2(a.len as nat),
        b.word < pow2(b.len as nat),
        register_of(a, 1) == register_of(b, 1),
        register_of(a, 2) == register_of(b, 2),
    ensures
        a == b,
{
    assert(queue(a).len() == a.len && queue(b).len() == b.len);
    assert(a.len == b.len);
    assert forall|i: int| 0 <= i < a.len implies #[trigger] digit_at(a.word, i) == digit_at(b.word, i) by {
        assert(queue(a)[i] == queue(b)[i]);
    }
    lemma_word_from_digits(a.word, b.word, a.len as nat);
    assert(pow2(a.k as nat) == pow2(b.k as nat));
    if a.k < b.k {
        lemma_pow2_strictly_increases(a.k as nat, b.k as nat);
    } else if b.k < a.k {
        lemma_pow2_strictly_increases(b.k as nat, a.k as nat);
    }
}

/// Knowing more bits above the known ones keeps an operation decided.
proof fn lemma_decided_more(x: Prefix, y: Prefix, l: nat)
    requires
        decided(x),
        y.head == x.head,
        y.word == x.word,
        y.len == x.len,
        y.k >= x.k,
        y.b == x.b + l * pow2(x.k as nat),
    ensures
        decided(y),
{
    let k = x.k as nat;
    lemma_pow2_pos(k);
    if y.k > x.k {
        lemma_pow2_strictly_increases(k, y.k as nat);
    }
    assert(l * pow2(k) >= 0) by (nonlinear_arith)
        requires
            pow2(k) > 0,
    ;
    if k >= 1 {
        lemma_pow2_unfold(k);
        assert(y.b % 2 == x.b % 2) by {
            assert(y.b == x.b + (l * pow2((k - 1) as nat)) * 2) by (nonlinear_arith)
                requires
                    y.b == x.b + l * pow2(k),
                    pow2(k) == 2 * pow2((k - 1) as nat),
            ;
            lemma_mod_multiples_vanish((l * pow2((k - 1) as nat)) as int, x.b as int, 2);
        }
    }
    if k >= 2 {
        lemma_pow2_adds(2, (k - 2) as nat);
        lemma2_to64();
        assert(y.b % 4 == x.b % 4) by {
            assert(y.b == x.b + (l * pow2((k - 2) as nat)) * 4) by (nonlinear_arith)
                requires
                    y.b == x.b + l * pow2(k),
                    pow2(k) == pow2(2) * pow2((k - 2) as nat),
                    pow2(2) == 4,
            ;
            lemma_mod_multiples_vanish((l * pow2((k - 2) as nat)) as int, x.b as int, 4);
        }
        let lowx = x.b as nat % pow2(k);
        if lowx != 0 {
            let ky = y.k as nat;
            lemma_pow2_adds(k, (ky - k) as nat);
            lemma_pow2_pos((ky - k) as nat);
            let lowy = y.b as nat % pow2(ky);
            lemma_mod_mod(y.b as int, pow2(k) as int, pow2((ky - k) as nat) as int);
            assert(y.b as int % pow2(k) as int == x.b as int % pow2(k) as int) by {
                lemma_mod_multiples_vanish(l as int, x.b as int, pow2(k) as int);
            }
            if lowy == 0 {
                assert((lowy as int) % (pow2(k) as int) == 0);
            }
        }
    }
}

/// A state fed `bits` more bits stands for the registers the state stands for with the
/// fed bits under the unread high part.
proof fn lemma_fed_register(x: Prefix, l: u64, bits: u8, h: nat)
    requires
        fed(x, l, bits) is Some,
    ensures
        register_of(fed(x, l, bits).unwrap(), h) == register_of(x, (l + pow2(bits as nat) * h) as nat),
{
    let k = x.k as nat;
    lemma_pow2_adds(k, bits as nat);
    assert(x.b + l * pow2(k) + pow2(k + bits as nat) * h == x.b + pow2(k) * (l + pow2(bits as nat) * h)) by (nonlinear_arith)
        requires
            pow2(k + bits as nat) == pow2(k) * pow2(bits as nat),
    ;
}

/// Feeding bits commutes with an operation the known bits already decide: the fed state
/// takes the same operation, at the same cost, to the fed result.
proof fn lemma_step_commutes(x: Prefix, c: Cost, l: u64, bits: u8)
    requires
        prefix_step(x, c, false) matches Some((true, _, _)),
        fed(x, l, bits) is Some,
        prefix_step(fed(x, l, bits).unwrap(), c, false) is Some,
    ensures
        prefix_step(x, c, false) matches Some((_, y, d)) && fed(y, l, bits) matches Some(y2)
            && prefix_step(fed(x, l, bits).unwrap(), c, false) == Some((true, y2, d)),
{
    let x2 = fed(x, l, bits).unwrap();
    let (_, y, d) = prefix_step(x, c, false).unwrap();
    assert(decided(x));
    lemma_pow2_pos(x.k as nat);
    lemma_decided_more(x, x2, l as nat);
    assert(prefix_step(x2, c, false) matches Some((true, _, _)));
    let (_, y1, d1) = prefix_step(x2, c, false).unwrap();
    lemma_step_queue(x, c, false);
    lemma_step_queue(x2, c, false);
    let bb = pow2(bits as nat);
    lemma_pow2_pos(bits as nat);
    lemma_fed_register(x, l, bits, 1);
    lemma_fed_register(x, l, bits, 2);
    lemma_open_step_follows_machine(x, c, (l + bb * 1) as nat);
    lemma_open_step_follows_machine(x, c, (l + bb * 2) as nat);
    lemma_open_step_follows_machine(x2, c, 1);
    lemma_open_step_follows_machine(x2, c, 2);
    assert(register_of(y1, 1) == register_of(y, (l + bb * 1) as nat));
    assert(register_of(y1, 2) == register_of(y, (l + bb * 2) as nat));
    assert(d1 == d);
    let q = pow2(y.k as nat);
    let p1 = pow2(y1.k as nat);
    assert(p1 == q * bb && y1.b == y.b + q * l) by (nonlinear_arith)
        requires
            y1.b + p1 * 1 == y.b + q * (l + bb * 1),
            y1.b + p1 * 2 == y.b + q * (l + bb * 2),
    ;
    lemma_pow2_adds(y.k as nat, bits as nat);
    if y1.k < y.k + bits {
        lemma_pow2_strictly_increases(y1.k as nat, (y.k + bits) as nat);
    } else if y1.k > y.k + bits {
        lemma_pow2_strictly_increases((y.k + bits) as nat, y1.k as nat);
    }
    assert(y1.k == y.k + bits);
    assert(y.k <= x.k);
    assert(l * pow2(y.k as nat) == q * l) by (nonlinear_arith)
        requires
            q == pow2(y.k as nat),
    ;
    let y2 = fed(y, l, bits).unwrap();
    assert(y2.b == y1.b && y2.k == y1.k);
    assert(queue(y1) == queue(y));
    assert forall|i: int| 0 <= i < y.len implies #[trigger] digit_at(y1.word, i) == digit_at(y.word, i) by {
        assert(queue(y1)[i] == queue(y)[i]);
    }
    lemma_word_from_digits(y1.word, y.word, y.len as nat);
    assert(y1 == y2);
}

/// More fuel settles the same way.
proof fn lemma_settle_fuel(x: Prefix, c: Cost, f: nat, g: nat)
    requires
        settle_open(x, c, f) is Some,
        f <= g,
    ensures
        settle_open(x, c, g) == settle_open(x, c, f),
    decreases f,
{
    match prefix_step(x, c, false) {
        None => {},
        Some((moved, y, d)) => {
            if moved {
                lemma_settle_fuel(y, d, (f - 1) as nat, (g - 1) as nat);
            }
        },
    }
}

/// Settling, then feeding, then settling again is settling the fed state, where both
/// succeed.
proof fn lemma_settle_fed(x: Prefix, c: Cost, f1: nat, l: u64, bits: u8, f2: nat) -> (f3: nat)
    requires
        settle_open(x, c, f1) is Some,
        fed(x, l, bits) is Some,
        settle_open(fed(x, l, bits).unwrap(), c, f2) is Some,
    ensures
        settle_open(x, c, f1) matches Some((s, d)) && fed(s, l, bits) matches Some(s2) && f3 <= f2
            && settle_open(fed(x, l, bits).unwrap(), c, f2) == settle_open(s2, d, f3),
    decreases f1,
{
    let x2 = fed(x, l, bits).unwrap();
    match prefix_step(x, c, false) {
        None => {
            assert(false);
            0
        },
        Some((moved, y, d)) => {
            if !moved {
                f2
            } else {
                assert(well_formed(x2));
                assert(prefix_step(x2, c, false) is Some);
                lemma_step_commutes(x, c, l, bits);
                let y2 = fed(y, l, bits).unwrap();
                assert(settle_open(x2, c, f2) == settle_open(y2, d, (f2 - 1) as nat));
                assert(fed(y, l, bits).unwrap() == y2);
                lemma_settle_fed(y, d, (f1 - 1) as nat, l, bits, (f2 - 1) as nat)
            }
        },
    }
}

/// Law: feeding two chunks one after the other, settling after each, gives the state and
/// costs that feeding them as one joined chunk gives, wherever both succeed.
pub proof fn lemma_feeds_join(p: Prefix, c: Cost, l1: u64, b1: u8, l2: u64, b2: u8, joined: u64)
    requires
        b1 + b2 <= 64,
        l1 < pow2(b1 as nat),
        joined == l1 + l2 * pow2(b1 as nat),
        fed_chunks(p, c, seq![(l1, b1), (l2, b2)]) is Some,
        fed_chunks(p, c, seq![(joined, (b1 + b2) as u8)]) is Some,
    ensures
        fed_chunks(p, c, seq![(l1, b1), (l2, b2)]) == fed_chunks(p, c, seq![(joined, (b1 + b2) as u8)]),
{
    let two = seq![(l1, b1), (l2, b2)];
    let one = seq![(joined, (b1 + b2) as u8)];
    assert(two[0] == (l1, b1) && two.drop_first() =~= seq![(l2, b2)]);
    assert(seq![(l2, b2)].drop_first() =~= Seq::<(u64, u8)>::empty());
    assert(one[0] == (joined, (b1 + b2) as u8) && one.drop_first() =~= Seq::<(u64, u8)>::empty());
    let q1 = fed(p, l1, b1).unwrap();
    let (s1, c1) = settle_open(q1, c, step_limit()).unwrap();
    let q = fed(p, joined, (b1 + b2) as u8).unwrap();
    let k = p.k as nat;
    lemma_pow2_adds(k, b1 as nat);
    assert(p.b + joined * pow2(k) == p.b + l1 * pow2(k) + l2 * pow2(k + b1 as nat)) by (nonlinear_arith)
        requires
            joined == l1 + l2 * pow2(b1 as nat),
            pow2(k + b1 as nat) == pow2(k) * pow2(b1 as nat),
    ;
    if b2 < 64 {
        assert(l2 < pow2(b2 as nat)) by {
            lemma_pow2_adds(b1 as nat, b2 as nat);
            lemma_pow2_pos(b1 as nat);
            if b1 + b2 < 64 {
                assert(joined < pow2((b1 + b2) as nat));
            } else {
                lemma2_to64_rest();
                assert(joined < pow2(64));
            }
            assert(l2 * pow2(b1 as nat) < pow2(b2 as nat) * pow2(b1 as nat)) by (nonlinear_arith)
                requires
                    l2 * pow2(b1 as nat) <= joined,
                    joined < pow2((b1 + b2) as nat),
                    pow2((b1 + b2) as nat) == pow2(b1 as nat) * pow2(b2 as nat),
            ;
            if l2 >= pow2(b2 as nat) {
                assert(l2 * pow2(b1 as nat) >= pow2(b2 as nat) * pow2(b1 as nat)) by (nonlinear_arith)
                    requires
                        l2 >= pow2(b2 as nat),
                        pow2(b1 as nat) > 0,
                ;
            }
        }
    }
    assert(fed(q1, l2, b2) == Some(q));
    let f3 = lemma_settle_fed(q1, c, step_limit(), l2, b2, step_limit());
    let s2 = fed(s1, l2, b2).unwrap();
    lemma_settle_fuel(s2, c1, f3, step_limit());
    let (a, d) = settle_open(q, c, step_limit()).unwrap();
    assert(fed_chunks(a, d, Seq::<(u64, u8)>::empty()) == Some((a, d)));
    assert(fed_chunks(p, c, one) == Some((a, d)));
    assert(settle_open(s2, c1, step_limit()) == Some((a, d)));
    assert(fed_chunks(s1, c1, seq![(l2, b2)]) == Some((a, d)));
    assert(fed_chunks(p, c, two) == Some((a, d)));
}

/// The bits from `at` split into the first `c` and the rest.
proof fn lemma_bits_split(words: Seq<u64>, at: nat, c: nat, l: nat)
    requires
        c <= l,
    ensures
        bits_at(words, at, l) == bits_at(words, at, c) + pow2(c) * bits_at(words, at + c, (l - c) as nat),
{
    let v = wide_value(words);
    lemma_pow2_pos(at);
    lemma_pow2_pos(c);
    lemma_pow2_pos((l - c) as nat);
    let x = v / pow2(at);
    lemma_pow2_adds(c, (l - c) as nat);
    lemma_mod_breakdown(x as int, pow2(c) as int, pow2((l - c) as nat) as int);
    lemma_pow2_adds(at, c);
    lemma_div_denominator(v as int, pow2(at) as int, pow2(c) as int);
    assert(x / pow2(c) == v / pow2(at + c));
}

/// Law: feeding the bits of `words` from `at` to `end` chunk by chunk, settling after each
/// chunk, takes a state along the machine's path from the register those bits (and any
/// unread high part `h >= 1` above them) give it, past no terminal register, charging the
/// same counters.
#[verifier::spinoff_prover]
pub proof fn lemma_repair_follows(words: Seq<u64>, at: nat, end: nat, p: Prefix, c: Cost, h: nat) -> (n: nat)
    requires
        h >= 1,
        at <= end,
        repaired(words, at, end, p, c) is Some,
    ensures
        repaired(words, at, end, p, c) matches Some((q, d)) && ({
            let reg = register_of(p, bits_at(words, at, (end - at) as nat) + pow2((end - at) as nat) * h);
            &&& running(reg, n)
            &&& after(reg, n) == register_of(q, h)
            &&& tally_of(d) == tally_plus(tally_of(c), tally_after(reg, n))
        }),
    decreases end - at,
{
    let l = (end - at) as nat;
    if at >= end {
        assert(pow2(0) == 1) by {
            lemma2_to64();
        }
        assert(bits_at(words, at, 0) == 0);
        assert(running(register_of(p, h), 0));
        0
    } else {
        let count: nat = if end - at < 64 { (end - at) as nat } else { 64 };
        let low = bits_at(words, at, count);
        assert(low < pow2(64)) by {
            lemma_pow2_pos(count);
            lemma_mod_bound((wide_value(words) / pow2(at)) as int, pow2(count) as int);
            if count < 64 {
                lemma_pow2_strictly_increases(count, 64);
            }
        }
        assert(pow2(64) == u64::MAX + 1) by {
            lemma2_to64_rest();
        }
        assert((low as u64) as nat == low);
        let q = fed(p, low as u64, count as u8).unwrap();
        assert(q.b == p.b + low * pow2(p.k as nat));
        assert(q.k == p.k + count);
        let (p2, c2) = settle_open(q, c, step_limit()).unwrap();
        let rest = (l - count) as nat;
        let h2 = bits_at(words, at + count, rest) + pow2(rest) * h;
        lemma_pow2_pos(rest);
        assert(pow2(rest) * h >= 1) by (nonlinear_arith)
            requires
                pow2(rest) >= 1,
                h >= 1,
        ;
        let n1 = lemma_settle_open_follows(q, c, step_limit(), h2);
        let n2 = lemma_repair_follows(words, at + count, end, p2, c2, h);
        lemma_bits_split(words, at, count, l);
        lemma_pow2_adds(count, rest);
        let k = p.k as nat;
        lemma_pow2_adds(k, count);
        assert(low + pow2(count) * h2 == bits_at(words, at, l) + pow2(l) * h) by (nonlinear_arith)
            requires
                bits_at(words, at, l) == low + pow2(count) * bits_at(words, at + count, rest),
                h2 == bits_at(words, at + count, rest) + pow2(rest) * h,
                pow2(l) == pow2(count) * pow2(rest),
        ;
        assert(register_of(q, h2) == register_of(p, low + pow2(count) * h2)) by {
            assert(p.b + pow2(k) * (low + pow2(count) * h2) == (p.b + low * pow2(k)) + pow2(k + count) * h2)
                by (nonlinear_arith)
                requires
                    pow2(k + count) == pow2(k) * pow2(count),
            ;
        }
        let reg = register_of(p, bits_at(words, at, l) + pow2(l) * h);
        lemma_follow_split(reg, n1, register_of(p2, h2), n2);
        let (q2, d2) = repaired(words, at, end, p, c).unwrap();
        assert(after(reg, n1 + n2) == register_of(q2, h));
        assert(tally_of(d2) == tally_plus(tally_of(c), tally_after(reg, n1 + n2)));
        n1 + n2
    }
}


/// Where the input bits covered from link row `index` on begin: block `index`'s first bit,
/// or the top bit once the blocks run out.
pub open spec fn span_start(index: nat, bits: nat) -> nat {
    if index * 4096 < bits - 1 {
        index * 4096
    } else {
        (bits - 1) as nat
    }
}

/// A recorded jump for the unread high part `h`: from `p`, the `l` input bits from `at`
/// (and `h` above them) take the machine through `c.operations` operations, past no
/// terminal register, to the register of `q`, charging the counters of `c`.
pub open spec fn jump_at(p: Prefix, words: Seq<u64>, at: nat, l: nat, q: Prefix, c: Cost, h: nat) -> bool {
    let reg = register_of(p, bits_at(words, at, l) + pow2(l) * h);
    &&& running(reg, c.operations as nat)
    &&& after(reg, c.operations as nat) == register_of(q, h)
    &&& tally_of(c) == tally_after(reg, c.operations as nat)
}

/// A recorded jump that holds whatever the unread high part (of at least one) is.
pub open spec fn jump_holds(p: Prefix, words: Seq<u64>, at: nat, l: nat, q: Prefix, c: Cost) -> bool {
    forall|h: nat| h >= 1 ==> #[trigger] jump_at(p, words, at, l, q, c, h)
}

proof fn lemma_tally_operations(reg: Register, n: nat)
    ensures
        tally_after(reg, n).operations == n,
    decreases n,
{
    if n > 0 {
        lemma_tally_operations(next_register(reg), (n - 1) as nat);
    }
}

/// Law: the jump the prefix normalizer itself makes over some input bits, from nothing
/// charged, holds: such a row is an honest one.
pub proof fn lemma_repaired_jump(words: Seq<u64>, at: nat, end: nat, p: Prefix)
    requires
        at <= end,
        repaired(words, at, end, p, zero_cost()) is Some,
    ensures
        repaired(words, at, end, p, zero_cost()) matches Some((q, c)) && jump_holds(
            p,
            words,
            at,
            (end - at) as nat,
            q,
            c,
        ),
{
    let (q, c) = repaired(words, at, end, p, zero_cost()).unwrap();
    let l = (end - at) as nat;
    assert forall|h: nat| h >= 1 implies #[trigger] jump_at(p, words, at, l, q, c, h) by {
        let n = lemma_repair_follows(words, at, end, p, zero_cost(), h);
        let reg = register_of(p, bits_at(words, at, l) + pow2(l) * h);
        lemma_tally_operations(reg, n);
        assert(tally_of(c) == tally_after(reg, n));
        assert(n == c.operations);
    }
}

/// The state a link row starts from: the given start state for the first row, otherwise
/// the endpoint the row before records.
pub open spec fn link_seed(links: Seq<u32>, start: Prefix, i: nat) -> Option<Option<Prefix>> {
    if i == 0 {
        Some(Some(start))
    } else {
        link_end(links, 16 * (i - 1), 4096)
    }
}

/// A link row that, where it may be taken whole, records a jump from its start state over
/// its block that holds.
pub open spec fn honest_link(links: Seq<u32>, words: Seq<u64>, bits: nat, start: Prefix, i: nat) -> bool {
    match (link_end(links, 16 * i as int, block_length(i, bits)), link_seed(links, start, i)) {
        (Some(Some(e)), Some(Some(s))) => links[16 * i as int + 13] == 1 ==> jump_holds(
            s,
            words,
            i * 4096,
            block_length(i, bits),
            e,
            row_cost(links, 16 * i as int),
        ),
        _ => true,
    }
}

/// A summary row that, where it may be taken whole, records a jump from its seed over its
/// group's bits that holds.
pub open spec fn honest_group(rows: Seq<u32>, words: Seq<u64>, bits: nat, g: nat) -> bool {
    match (row_state(rows, 32 * g as int), row_state(rows, 32 * g as int + 16)) {
        (Some(e), Some(s)) => rows[32 * g as int + 13] == 1 ==> jump_holds(
            s,
            words,
            span_start(32 * g, bits),
            (span_start(32 * (g + 1), bits) - span_start(32 * g, bits)) as nat,
            e,
            row_cost(rows, 32 * g as int),
        ),
        _ => true,
    }
}

/// A link row that records no endpoint.
pub open spec fn silent_link(links: Seq<u32>, i: int) -> bool {
    links[16 * i + 13] == 0 && links[16 * i + 14] == 0
}

/// A summary row that is not to be taken whole.
pub open spec fn silent_group(rows: Seq<u32>, g: int) -> bool {
    rows[32 * g + 13] == 0 && rows[32 * g + 14] == 0
}

/// Following `n` more operations after `m` operations of a path: the counters add up and
/// no terminal register is passed.
proof fn lemma_follow_split(reg: Register, n1: nat, mid: Register, n2: nat)
    requires
        after(reg, n1) == mid,
        running(reg, n1),
        running(mid, n2),
    ensures
        running(reg, n1 + n2),
        after(reg, n1 + n2) == after(mid, n2),
        tally_after(reg, n1 + n2) == tally_plus(tally_after(reg, n1), tally_after(mid, n2)),
{
    lemma_after_split(reg, n1, n2);
    lemma_running_split(reg, n1, n2);
}

/// Law: walking link rows whose jumps hold feeds their blocks' bits one after the other,
/// which takes the state along the machine's path from the register those bits (and any
/// unread high part `h >= 1` above them) give it.
pub proof fn lemma_fold_follows(
    links: Seq<u32>,
    index: nat,
    stop: nat,
    words: Seq<u64>,
    bits: nat,
    start: Prefix,
    previous: Option<Prefix>,
    p: Prefix,
    c: Cost,
    h: nat,
) -> (n: nat)
    requires
        h >= 1,
        bits >= 1,
        index <= stop,
        stop * 4096 < bits + 4095,
        index < stop ==> Some(previous) == link_seed(links, start, index),
        forall|i: nat| index <= i < stop ==> #[trigger] honest_link(links, words, bits, start, i),
        fold_from(links, index, stop, words, bits, previous, p, c) is Some,
    ensures
        fold_from(links, index, stop, words, bits, previous, p, c) matches Some((q, d)) && ({
            let a = span_start(index, bits);
            let l = (span_start(stop, bits) - a) as nat;
            let reg = register_of(p, bits_at(words, a, l) + pow2(l) * h);
            &&& running(reg, n)
            &&& after(reg, n) == register_of(q, h)
            &&& tally_of(d) == tally_plus(tally_of(c), tally_after(reg, n))
        }),
    decreases stop - index,
{
    let a = span_start(index, bits);
    if index >= stop {
        assert(pow2(0) == 1) by {
            lemma2_to64();
        }
        assert(bits_at(words, a, 0) == 0);
        assert(span_start(stop, bits) == a);
        let reg = register_of(p, bits_at(words, a, 0) + pow2(0) * h);
        assert(reg == register_of(p, h));
        assert(running(reg, 0));
        assert(after(reg, 0) == register_of(p, h));
        assert(tally_plus(tally_of(c), tally_after(reg, 0)) == tally_of(c));
        0
    } else {
        let start_bit = index * 4096;
        let length = block_length(index, bits);
        assert(index * 4096 < bits - 1) by (nonlinear_arith)
            requires
                index < stop,
                stop * 4096 < bits + 4095,
        ;
        let endpoint = link_end(links, 16 * index as int, length).unwrap();
        let taken = links[16 * index as int + 13] == 1 && previous == Some(p);
        let b = span_start(index + 1, bits);
        assert(b == start_bit + length);
        let e = span_start(stop, bits);
        assert(e >= b) by (nonlinear_arith)
            requires
                b == span_start(index + 1, bits),
                e == span_start(stop, bits),
                index + 1 <= stop,
        ;
        let l = (e - a) as nat;
        let rest = (e - b) as nat;
        let h2 = bits_at(words, b, rest) + pow2(rest) * h;
        lemma_pow2_pos(rest);
        assert(pow2(rest) * h >= 1) by (nonlinear_arith)
            requires
                pow2(rest) >= 1,
                h >= 1,
        ;
        let reg1 = register_of(p, bits_at(words, start_bit, length) + pow2(length) * h2);
        let (p2, c2) = if taken {
            let q1 = endpoint.unwrap();
            let rc = row_cost(links, 16 * index as int);
            assert(honest_link(links, words, bits, start, index));
            assert(jump_at(p, words, start_bit, length, q1, rc, h2));
            (q1, cost_sum(c, rc).unwrap())
        } else {
            repaired(words, start_bit, start_bit + length, p, c).unwrap()
        };
        let n1: nat = if taken {
            row_cost(links, 16 * index as int).operations as nat
        } else {
            lemma_repair_follows(words, start_bit, start_bit + length, p, c, h2)
        };
        assert(running(reg1, n1) && after(reg1, n1) == register_of(p2, h2) && tally_of(c2)
            == tally_plus(tally_of(c), tally_after(reg1, n1)));
        assert(fold_from(links, index + 1, stop, words, bits, endpoint, p2, c2) == fold_from(
            links,
            index,
            stop,
            words,
            bits,
            previous,
            p,
            c,
        ));
        if index + 1 < stop {
            assert((index + 1) * 4096 < bits - 1) by (nonlinear_arith)
                requires
                    index + 1 < stop,
                    stop * 4096 < bits + 4095,
            ;
            assert(length == 4096);
        }
        let n2 = lemma_fold_follows(links, index + 1, stop, words, bits, start, endpoint, p2, c2, h);
        lemma_bits_split(words, a, length, l);
        lemma_pow2_adds(length, rest);
        assert(bits_at(words, a, length) + pow2(length) * h2 == bits_at(words, a, l) + pow2(l) * h) by (nonlinear_arith)
            requires
                bits_at(words, a, l) == bits_at(words, a, length) + pow2(length) * bits_at(words, b, rest),
                h2 == bits_at(words, b, rest) + pow2(rest) * h,
                pow2(l) == pow2(length) * pow2(rest),
        ;
        let reg = register_of(p, bits_at(words, a, l) + pow2(l) * h);
        assert(reg == reg1);
        lemma_follow_split(reg, n1, register_of(p2, h2), n2);
        let (q, d) = fold_from(links, index, stop, words, bits, previous, p, c).unwrap();
        assert(after(reg, n1 + n2) == register_of(q, h));
        assert(tally_of(d) == tally_plus(tally_of(c), tally_after(reg, n1 + n2)));
        n1 + n2
    }
}

/// Law: summary rows and link rows whose jumps hold leave the state where feeding the
/// whole input bit by bit would: along the machine's path from the register the input bits
/// below the top one (and any unread high part `h >= 1` above them) give it.
pub proof fn lemma_groups_follow(
    rows: Seq<u32>,
    links: Seq<u32>,
    g: nat,
    groups: nat,
    words: Seq<u64>,
    bits: nat,
    blocks: nat,
    start: Prefix,
    p: Prefix,
    c: Cost,
    h: nat,
) -> (n: nat)
    requires
        h >= 1,
        bits >= 1,
        blocks == blocks_of(bits),
        groups == groups_of(blocks),
        g <= groups,
        g == 0 ==> p == start,
        forall|x: nat| g <= x < groups ==> #[trigger] honest_group(rows, words, bits, x),
        forall|i: nat| 32 * g <= i < blocks ==> #[trigger] honest_link(links, words, bits, start, i),
        groups_from(rows, links, g, groups, words, bits, blocks, p, c) is Some,
    ensures
        groups_from(rows, links, g, groups, words, bits, blocks, p, c) matches Some((q, d)) && ({
            let a = span_start(32 * g, bits);
            let l = (bits - 1 - a) as nat;
            let reg = register_of(p, bits_at(words, a, l) + pow2(l) * h);
            &&& running(reg, n)
            &&& after(reg, n) == register_of(q, h)
            &&& tally_of(d) == tally_plus(tally_of(c), tally_after(reg, n))
        }),
    decreases groups - g,
{
    let a = span_start(32 * g, bits);
    assert(blocks * 4096 >= bits - 1 && blocks * 4096 < bits + 4095) by (nonlinear_arith)
        requires
            blocks == ((bits - 1) + 4095) as nat / 4096,
            bits >= 1,
    ;
    assert(32 * groups >= blocks && (groups == 0 || 32 * (groups - 1) < blocks)) by (nonlinear_arith)
        requires
            groups == (blocks + 31) / 32,
    ;
    if g >= groups {
        assert((32 * g) * 4096 >= bits - 1) by (nonlinear_arith)
            requires
                g >= groups,
                32 * groups >= blocks,
                blocks * 4096 >= bits - 1,
        ;
        assert(a == bits - 1);
        assert(pow2(0) == 1) by {
            lemma2_to64();
        }
        assert(bits_at(words, a, 0) == 0);
        let reg = register_of(p, bits_at(words, a, 0) + pow2(0) * h);
        assert(reg == register_of(p, h));
        assert(running(reg, 0));
        assert(after(reg, 0) == register_of(p, h));
        assert(tally_plus(tally_of(c), tally_after(reg, 0)) == tally_of(c));
        0
    } else {
        assert(32 * g < blocks) by (nonlinear_arith)
            requires
                g < groups,
                groups == 0 || 32 * (groups - 1) < blocks,
        ;
        let count: nat = if blocks - g * 32 < 32 { (blocks - g * 32) as nat } else { 32 };
        let stop = g * 32 + count;
        let b = span_start(stop, bits);
        if count < 32 {
            assert(stop == blocks);
            assert(stop * 4096 >= bits - 1);
            assert((32 * (g + 1)) * 4096 >= bits - 1) by (nonlinear_arith)
                requires
                    32 * (g + 1) >= blocks,
                    blocks * 4096 >= bits - 1,
            ;
        } else {
            assert(stop == 32 * (g + 1));
        }
        assert(b == span_start(32 * (g + 1), bits));
        assert((32 * g) * 4096 < bits - 1) by (nonlinear_arith)
            requires
                32 * g < blocks,
                blocks * 4096 < bits + 4095,
        ;
        assert(a == g * 32 * 4096);
        let l = (bits - 1 - a) as nat;
        let rest = (bits - 1 - b) as nat;
        let h2 = bits_at(words, b, rest) + pow2(rest) * h;
        lemma_pow2_pos(rest);
        assert(pow2(rest) * h >= 1) by (nonlinear_arith)
            requires
                pow2(rest) >= 1,
                h >= 1,
        ;
        let length = (b - a) as nat;
        assert(a <= b && b <= bits - 1);
        let reg1 = register_of(p, bits_at(words, a, length) + pow2(length) * h2);
        let base = 32 * g as int;
        let taken = rows[base + 13] == 1 && row_state(rows, base + 16) == Some(p);
        let (p2, c2) = group_step(rows, links, g, words, bits, blocks, p, c).unwrap();
        let n1: nat = if taken {
            let e = row_state(rows, base).unwrap();
            let rc = row_cost(rows, base);
            assert(honest_group(rows, words, bits, g));
            assert(jump_at(p, words, a, length, e, rc, h2));
            assert(p2 == e && c2 == cost_sum(c, rc).unwrap());
            rc.operations as nat
        } else {
            assert(group_step(rows, links, g, words, bits, blocks, p, c) == folded(links, g * 32, count, words, bits, p, c));
            let previous: Option<Prefix> = if g * 32 == 0 {
                Some(p)
            } else {
                link_end(links, 16 * (g * 32 - 1), 4096).unwrap()
            };
            assert(folded(links, g * 32, count, words, bits, p, c) == fold_from(links, g * 32, stop, words, bits, previous, p, c));
            assert(stop * 4096 < bits + 4095) by (nonlinear_arith)
                requires
                    stop <= blocks,
                    blocks * 4096 < bits + 4095,
            ;
            lemma_fold_follows(links, g * 32, stop, words, bits, start, previous, p, c, h2)
        };
        assert(running(reg1, n1) && after(reg1, n1) == register_of(p2, h2) && tally_of(c2)
            == tally_plus(tally_of(c), tally_after(reg1, n1)));
        let n2 = lemma_groups_follow(rows, links, g + 1, groups, words, bits, blocks, start, p2, c2, h);
        lemma_bits_split(words, a, length, l);
        lemma_pow2_adds(length, rest);
        assert(bits_at(words, a, length) + pow2(length) * h2 == bits_at(words, a, l) + pow2(l) * h) by (nonlinear_arith)
            requires
                bits_at(words, a, l) == bits_at(words, a, length) + pow2(length) * bits_at(words, b, rest),
                h2 == bits_at(words, b, rest) + pow2(rest) * h,
                pow2(l) == pow2(length) * pow2(rest),
        ;
        let reg = register_of(p, bits_at(words, a, l) + pow2(l) * h);
        assert(reg == reg1);
        lemma_follow_split(reg, n1, register_of(p2, h2), n2);
        let (q, d) = groups_from(rows, links, g, groups, words, bits, blocks, p, c).unwrap();
        assert(after(reg, n1 + n2) == register_of(q, h));
        assert(tally_of(d) == tally_plus(tally_of(c), tally_after(reg, n1 + n2)));
        n1 + n2
    }
}

/// Law: where every summary row and link row that may be taken whole records a jump that
/// holds, combining the rows of a value whose top bit is bit `bits - 1` stops on the
/// register the scalar normalizer stops on, with the same counters.
pub proof fn lemma_honest_rows_match_scalar(
    start: Prefix,
    words: Seq<u64>,
    bits: nat,
    rows: Seq<u32>,
    links: Seq<u32>,
    width: u64,
)
    requires
        start.k == 0,
        start.b == 0,
        bits >= 1,
        pow2((bits - 1) as nat) <= wide_value(words) < pow2(bits),
        forall|x: nat| x < groups_of(blocks_of(bits)) ==> #[trigger] honest_group(rows, words, bits, x),
        forall|i: nat| i < blocks_of(bits) ==> #[trigger] honest_link(links, words, bits, start, i),
        combined(start, words, bits, rows, links, width) is Some,
        normalized(words, start.head, queue(start), width) is Some,
    ensures
        ({
            let (p, c) = combined(start, words, bits, rows, links, width).unwrap();
            let (reg, t) = normalized(words, start.head, queue(start), width).unwrap();
            &&& register_of(p, 0) == reg
            &&& c.loss == t.loss
            &&& c.base == t.base
            &&& c.returned == t.returned
            &&& c.operations == t.operations
        }),
{
    let blocks = blocks_of(bits);
    let groups = groups_of(blocks);
    let l = (bits - 1) as nat;
    let v = wide_value(words);
    lemma_pow2_pos(l);
    assert(pow2(bits) == 2 * pow2(l)) by {
        lemma_pow2_unfold(bits);
    }
    assert(pow2(0) == 1) by {
        lemma2_to64();
    }
    assert(bits_at(words, 0, l) + pow2(l) == v) by {
        lemma_fundamental_div_mod_converse(v as int, pow2(l) as int, 1, v - pow2(l));
    }
    assert(span_start(0, bits) == 0);
    let n1 = lemma_groups_follow(rows, links, 0, groups, words, bits, blocks, start, start, zero_cost(), 1);
    let reg0 = start_register(words, start.head, queue(start));
    assert(register_of(start, bits_at(words, 0, l) + pow2(l) * 1) == reg0);
    let (p1, c1) = groups_from(rows, links, 0, groups, words, bits, blocks, start, zero_cost()).unwrap();
    let p2 = closed_state(p1).unwrap();
    assert(register_of(p2, 0) == register_of(p1, 1));
    let n2 = lemma_settle_closed_follows(p2, c1, step_limit());
    lemma_after_split(reg0, n1, n2);
    lemma_running_split(reg0, n1, n2);
    assert(stops_after(reg0, n1 + n2));
    let n = lemma_run_stops(reg0, zero_tally(), width as nat, u64::MAX as nat);
    lemma_stop_unique(reg0, n, n1 + n2);
}

/// Law: where no summary row and no link row records an endpoint, combining the rows of a
/// value whose top bit is bit `bits - 1` stops on the register the scalar normalizer stops
/// on, with the same counters.
pub proof fn lemma_silent_rows_match_scalar(
    start: Prefix,
    words: Seq<u64>,
    bits: nat,
    rows: Seq<u32>,
    links: Seq<u32>,
    width: u64,
)
    requires
        start.k == 0,
        start.b == 0,
        bits >= 1,
        pow2((bits - 1) as nat) <= wide_value(words) < pow2(bits),
        forall|x: int| 0 <= x < groups_of(blocks_of(bits)) ==> #[trigger] silent_group(rows, x),
        forall|i: int| 0 <= i < blocks_of(bits) ==> #[trigger] silent_link(links, i),
        combined(start, words, bits, rows, links, width) is Some,
        normalized(words, start.head, queue(start), width) is Some,
    ensures
        ({
            let (p, c) = combined(start, words, bits, rows, links, width).unwrap();
            let (reg, t) = normalized(words, start.head, queue(start), width).unwrap();
            &&& register_of(p, 0) == reg
            &&& c.loss == t.loss
            &&& c.base == t.base
            &&& c.returned == t.returned
            &&& c.operations == t.operations
        }),
{
    assert forall|x: nat| x < groups_of(blocks_of(bits)) implies #[trigger] honest_group(rows, words, bits, x) by {
        assert(silent_group(rows, x as int));
    }
    assert forall|i: nat| i < blocks_of(bits) implies #[trigger] honest_link(links, words, bits, start, i) by {
        assert(silent_link(links, i as int));
    }
    lemma_honest_rows_match_scalar(start, words, bits, rows, links, width);
}

/// Costs `d1` and `d2` add the same to `c1` and `c2`.
pub open spec fn same_charges(c1: Cost, d1: Cost, c2: Cost, d2: Cost) -> bool {
    &&& d1.loss - c1.loss == d2.loss - c2.loss
    &&& d1.base - c1.base == d2.base - c2.base
    &&& d1.returned - c1.returned == d2.returned - c2.returned
    &&& d1.operations - c1.operations == d2.operations - c2.operations
}

/// Settling does not depend on the costs charged so far, where it succeeds.
proof fn lemma_settle_costs(x: Prefix, c1: Cost, c2: Cost, f: nat)
    requires
        settle_open(x, c1, f) is Some,
        settle_open(x, c2, f) is Some,
    ensures
        settle_open(x, c1, f).unwrap().0 == settle_open(x, c2, f).unwrap().0,
        same_charges(c1, settle_open(x, c1, f).unwrap().1, c2, settle_open(x, c2, f).unwrap().1),
    decreases f,
{
    match prefix_step(x, c1, false) {
        None => {},
        Some((moved, y, d1)) => {
            let (_, y2, d2) = prefix_step(x, c2, false).unwrap();
            if moved {
                assert(y2 == y);
                lemma_settle_costs(y, d1, d2, (f - 1) as nat);
            }
        },
    }
}

/// Feeding bits chunk by chunk does not depend on the costs charged so far, where it
/// succeeds.
proof fn lemma_repaired_costs(words: Seq<u64>, at: nat, end: nat, p: Prefix, c1: Cost, c2: Cost)
    requires
        repaired(words, at, end, p, c1) is Some,
        repaired(words, at, end, p, c2) is Some,
    ensures
        repaired(words, at, end, p, c1).unwrap().0 == repaired(words, at, end, p, c2).unwrap().0,
        same_charges(c1, repaired(words, at, end, p, c1).unwrap().1, c2, repaired(words, at, end, p, c2).unwrap().1),
    decreases end - at,
{
    if at < end {
        let count: nat = if end - at < 64 { (end - at) as nat } else { 64 };
        let q = fed(p, bits_at(words, at, count) as u64, count as u8).unwrap();
        lemma_settle_costs(q, c1, c2, step_limit());
        let (p1, d1) = settle_open(q, c1, step_limit()).unwrap();
        let (p2, d2) = settle_open(q, c2, step_limit()).unwrap();
        lemma_repaired_costs(words, at + count, end, p1, d1, d2);
    }
}

/// Feeding up to a whole number of 64-bit chunks, then on, is feeding all the way.
proof fn lemma_repaired_split(words: Seq<u64>, a: nat, b: nat, e: nat, p: Prefix, x: Cost)
    requires
        a <= b <= e,
        (b - a) % 64 == 0,
    ensures
        repaired(words, a, e, p, x) == match repaired(words, a, b, p, x) {
            None => None,
            Some((q, y)) => repaired(words, b, e, q, y),
        },
    decreases b - a,
{
    if a < b {
        assert(b - a >= 64);
        let q = fed(p, bits_at(words, a, 64) as u64, 64u8);
        if q is Some {
            match settle_open(q.unwrap(), x, step_limit()) {
                None => {},
                Some((p2, c2)) => {
                    lemma_repaired_split(words, a + 64, b, e, p2, c2);
                },
            }
        }
    }
}

/// A link row that, where it may be taken whole, records what feeding its block's bits
/// from its start state gives, from nothing charged.
pub open spec fn exact_link(links: Seq<u32>, words: Seq<u64>, bits: nat, start: Prefix, i: nat) -> bool {
    match (link_end(links, 16 * i as int, block_length(i, bits)), link_seed(links, start, i)) {
        (Some(Some(e)), Some(Some(s))) => links[16 * i as int + 13] == 1 ==> repaired(
            words,
            i * 4096,
            i * 4096 + block_length(i, bits),
            s,
            zero_cost(),
        ) == Some((e, row_cost(links, 16 * i as int))),
        _ => true,
    }
}

/// Law: walking link rows that record what feeding their blocks gives leaves the state and
/// costs that feeding the blocks' bits chunk by chunk gives, where both succeed.
pub proof fn lemma_fold_feeds(
    links: Seq<u32>,
    index: nat,
    stop: nat,
    words: Seq<u64>,
    bits: nat,
    start: Prefix,
    previous: Option<Prefix>,
    p: Prefix,
    c: Cost,
)
    requires
        bits >= 1,
        index <= stop,
        stop * 4096 < bits + 4095,
        index < stop ==> Some(previous) == link_seed(links, start, index),
        forall|i: nat| index <= i < stop ==> #[trigger] exact_link(links, words, bits, start, i),
        fold_from(links, index, stop, words, bits, previous, p, c) is Some,
        repaired(words, span_start(index, bits), span_start(stop, bits), p, c) is Some,
    ensures
        fold_from(links, index, stop, words, bits, previous, p, c) == repaired(
            words,
            span_start(index, bits),
            span_start(stop, bits),
            p,
            c,
        ),
    decreases stop - index,
{
    if index < stop {
        let start_bit = index * 4096;
        let length = block_length(index, bits);
        assert(index * 4096 < bits - 1) by (nonlinear_arith)
            requires
                index < stop,
                stop * 4096 < bits + 4095,
        ;
        let a = span_start(index, bits);
        let b = span_start(index + 1, bits);
        let e = span_start(stop, bits);
        assert(a == start_bit && b == start_bit + length);
        assert(e >= b) by (nonlinear_arith)
            requires
                b == span_start(index + 1, bits),
                e == span_start(stop, bits),
                index + 1 <= stop,
        ;
        let endpoint = link_end(links, 16 * index as int, length).unwrap();
        let taken = links[16 * index as int + 13] == 1 && previous == Some(p);
        if index + 1 < stop {
            assert((index + 1) * 4096 < bits - 1) by (nonlinear_arith)
                requires
                    index + 1 < stop,
                    stop * 4096 < bits + 4095,
            ;
            assert(length == 4096);
            lemma_repaired_split(words, a, b, e, p, c);
        } else {
            assert(b == e) by (nonlinear_arith)
                requires
                    b == span_start(index + 1, bits),
                    e == span_start(stop, bits),
                    index + 1 == stop,
            ;
            assert(repaired(words, b, e, repaired(words, a, b, p, c).unwrap().0, repaired(words, a, b, p, c).unwrap().1)
                == Some(repaired(words, a, b, p, c).unwrap()));
        }
        let (q, y) = repaired(words, a, b, p, c).unwrap();
        if taken {
            let s = p;
            let e1 = endpoint.unwrap();
            let rc = row_cost(links, 16 * index as int);
            assert(exact_link(links, words, bits, start, index));
            assert(repaired(words, a, b, s, zero_cost()) == Some((e1, rc)));
            lemma_repaired_costs(words, a, b, p, c, zero_cost());
            assert(q == e1);
            assert(cost_sum(c, rc) == Some(y));
        }
        assert(fold_from(links, index, stop, words, bits, previous, p, c) == fold_from(links, index + 1, stop, words, bits, endpoint, q, y));
        lemma_fold_feeds(links, index + 1, stop, words, bits, start, endpoint, q, y);
    }
}

} // verus!
