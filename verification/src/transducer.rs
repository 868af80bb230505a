//! The byte transducer: every prefix state reachable from the two start states by
//! feeding whole bytes, with the edge each byte takes, packed into the table the
//! accelerator loads.
use crate::limbs::lemma_bit_length_le;
use crate::machine::{bit_length, front, plan, population, Move};
use crate::bits::{lemma_one_shl_u128, lemma_shr_u128};
use crate::prefix::{
    cost_sum, digit_at, empty_prefix, fed, prefix_move, prefix_step, push_digit, queue, settle_open,
    step_limit, well_formed, zero_cost, Cost, Prefix,
};
use std::collections::BTreeMap;
use vstd::arithmetic::power2::*;
use vstd::prelude::*;

verus! {

broadcast use vstd::std_specs::btree::group_btree_axioms, vstd::laws_cmp::group_laws_cmp;

/// The 64-bit key of a state: queue word in bits `0..24`, queue length in `24..29`, head
/// in `29..32`, known bit count in `32..37` and known value from bit `37` up.
pub open spec fn key_of(s: Prefix) -> int {
    s.word + s.len * 0x100_0000 + s.head * 0x2000_0000 + s.k * 0x1_0000_0000 + s.b
        * 0x20_0000_0000
}

/// The states a key can be given to: valid, with a queue shorter than 24, fewer than 32
/// known bits and a known value below `2^27`.
pub open spec fn keyable(s: Prefix) -> bool {
    well_formed(s) && s.len < 24 && s.k < 32 && s.b < 0x800_0000
}

/// Packs a state into its key.
fn encode(s: Prefix) -> (r: u64)
    requires
        keyable(s),
    ensures
        r == key_of(s),
{
    proof {
        lemma_key_fields(s);
    }
    let w = s.word as u64;
    let l = s.len as u64;
    let h = s.head as u64;
    let k = s.k as u64;
    let b = s.b as u64;
    let r = w | (l << 24u64) | (h << 29u64) | (k << 32u64) | (b << 37u64);
    assert(r == w + l * 0x100_0000 + h * 0x2000_0000 + k * 0x1_0000_0000 + b * 0x20_0000_0000)
        by (bit_vector)
        requires
            w < 0x100_0000,
            l < 32,
            h < 8,
            k < 32,
            b < 0x800_0000,
            r == w | (l << 24u64) | (h << 29u64) | (k << 32u64) | (b << 37u64),
    ;
    r
}

proof fn lemma_key_fields(s: Prefix)
    requires
        keyable(s),
    ensures
        s.word < 0x100_0000,
        0 <= key_of(s) <= u64::MAX,
{
    lemma2_to64();
    if s.len < 24 {
        lemma_pow2_strictly_increases(s.len as nat, 24);
    }
}

/// Law: different keyable states have different keys.
pub proof fn lemma_key_injective(s: Prefix, t: Prefix)
    requires
        keyable(s),
        keyable(t),
        key_of(s) == key_of(t),
    ensures
        s == t,
{
    lemma_key_fields(s);
    lemma_key_fields(t);
    let ws = s.word as int;
    let wt = t.word as int;
    let rest_s = s.len * 0x100_0000 + s.head * 0x2000_0000 + s.k * 0x1_0000_0000 + s.b * 0x20_0000_0000;
    let rest_t = t.len * 0x100_0000 + t.head * 0x2000_0000 + t.k * 0x1_0000_0000 + t.b * 0x20_0000_0000;
    assert(rest_s % 0x100_0000 == 0 && rest_t % 0x100_0000 == 0) by (nonlinear_arith)
        requires
            rest_s == s.len * 0x100_0000 + s.head * 0x2000_0000 + s.k * 0x1_0000_0000 + s.b * 0x20_0000_0000,
            rest_t == t.len * 0x100_0000 + t.head * 0x2000_0000 + t.k * 0x1_0000_0000 + t.b * 0x20_0000_0000,
    ;
    assert(ws == wt) by (nonlinear_arith)
        requires
            ws + rest_s == wt + rest_t,
            0 <= ws < 0x100_0000,
            0 <= wt < 0x100_0000,
            rest_s % 0x100_0000 == 0,
            rest_t % 0x100_0000 == 0,
    ;
    assert(s.len == t.len && s.head == t.head && s.k == t.k && s.b == t.b) by (nonlinear_arith)
        requires
            s.len * 0x100_0000 + s.head * 0x2000_0000 + s.k * 0x1_0000_0000 + s.b * 0x20_0000_0000
                == t.len * 0x100_0000 + t.head * 0x2000_0000 + t.k * 0x1_0000_0000 + t.b
                * 0x20_0000_0000,
            s.len < 32,
            t.len < 32,
            s.head < 8,
            t.head < 8,
            s.k < 32,
            t.k < 32,
    ;
}

/// The probe start of a key: its halves mixed by two multiplications modulo `2^32`.
pub open spec fn hash_of(key: u64) -> u32 {
    let x0 = ((key % 0x1_0000_0000) as u32) ^ (((key / 0x1_0000_0000) as nat * 0x9e3779b9nat)
        % 0x1_0000_0000) as u32;
    let x1 = x0 ^ (x0 >> 16u32);
    let x2 = ((x1 as nat * 0x7feb352dnat) % 0x1_0000_0000) as u32;
    x2 ^ (x2 >> 15u32)
}

/// Mixes a key into a probe start.
fn hash(key: u64) -> (r: u32)
    ensures
        r == hash_of(key),
{
    let low = key as u32;
    let high = (key >> 32u64) as u32;
    assert(low == (key % 0x1_0000_0000) as u32 && high == (key / 0x1_0000_0000) as u32)
        by (bit_vector)
        requires
            low == key as u32,
            high == (key >> 32u64) as u32,
    ;
    let mut x = low ^ high.wrapping_mul(0x9e3779b9);
    x = x ^ (x >> 16u32);
    x = x.wrapping_mul(0x7feb352d);
    x = x ^ (x >> 15u32);
    x
}

/// The potential of a state: a weight of its head, four per queued digit, and one more
/// per queued `3`.
pub open spec fn potential_of(s: Prefix) -> int {
    (s.head / 2 + 2 * (s.head % 2)) + 4 * s.len + population(s.word as nat)
}

proof fn lemma_population_le(v: nat)
    ensures
        population(v) <= bit_length(v),
    decreases v,
{
    if v > 0 {
        lemma_population_le(v / 2);
    }
}

/// The number of one bits of a word.
fn ones(word: u128) -> (r: u32)
    ensures
        r == population(word as nat),
{
    proof {
        lemma_population_le(word as nat);
        assert(pow2(128) == u128::MAX + 1) by {
            lemma2_to64_rest();
            lemma_pow2_adds(64, 64);
        }
        lemma_bit_length_le(word as nat, 128);
    }
    let mut w = word;
    let mut count: u32 = 0;
    while w != 0
        invariant
            count + population(w as nat) == population(word as nat),
            population(word as nat) <= 128,
        decreases w,
    {
        let bit = w & 1u128;
        assert(bit == w % 2 && w >> 1u128 == w / 2) by (bit_vector)
            requires
                bit == w & 1u128,
        ;
        count = count + bit as u32;
        w = w >> 1u128;
    }
    count
}

/// The potential of a state (see `potential_of`).
fn potential(s: Prefix) -> (r: i64)
    requires
        s.len < 128,
    ensures
        r == potential_of(s),
{
    let pop = ones(s.word);
    (s.head / 2 + 2 * (s.head % 2)) as i64 + 4 * s.len as i64 + pop as i64
}


/// Law: the settling operations consume exactly the known bits they count as lost.
pub proof fn lemma_settle_counts_loss(p: Prefix, c: Cost, fuel: nat)
    requires
        settle_open(p, c, fuel) is Some,
    ensures
        settle_open(p, c, fuel) matches Some((q, d)) && d.loss + q.k == c.loss + p.k
            && well_formed(q),
    decreases fuel,
{
    match prefix_step(p, c, false) {
        None => {},
        Some((moved, q, d)) => {
            if moved {
                lemma_settle_counts_loss(q, d, (fuel - 1) as nat);
            }
        },
    }
}

/// The weight of a head in the potential.
pub open spec fn head_weight(head: u8) -> int {
    head / 2 + 2 * (head % 2)
}

/// The number of `3` digits among up to two digits.
pub open spec fn threes(digits: Seq<u8>) -> int {
    (if digits.len() >= 1 && digits[0] == 3 { 1int } else { 0int }) + (if digits.len() >= 2
        && digits[1] == 3 { 1int } else { 0int })
}

/// The charge of a move: its base cost less twice its loss, plus what it adds to the
/// potential (the head's weight, four per digit and one per `3`).
pub open spec fn move_charge(head: u8, odd: Seq<u8>, m: Move) -> int {
    let popped: int = if m.pop {
        4 + if front(odd) == 3 { 1int } else { 0int }
    } else {
        0
    };
    m.base - 2 * m.loss + head_weight(m.head) - head_weight(head) + 4 * m.append.len() + threes(
        m.append,
    ) - popped
}

proof fn lemma_plan_charge(head: u8, odd: Seq<u8>, r: nat, low: nat)
    requires
        head <= 4,
        r < 4,
        front(odd) == 1 || front(odd) == 3,
    ensures
        ({
            let m = plan(head, odd, r, low);
            &&& move_charge(head, odd, m) >= 0
            &&& move_charge(head, odd, m) % 3 == 0
            &&& m.pop ==> odd.len() > 0
            &&& m.append.len() <= 2
        }),
{
}

proof fn lemma_population_top(w: nat, len: nat)
    requires
        w < pow2(len),
    ensures
        population(w + pow2(len)) == population(w) + 1,
    decreases len,
{
    if len == 0 {
        lemma2_to64();
        assert(population(1) == 1 + population(0));
    } else {
        lemma_pow2_unfold(len);
        let half = pow2((len - 1) as nat);
        let v = w + pow2(len);
        assert(v % 2 == w % 2 && v / 2 == w / 2 + half);
        lemma_population_top(w / 2, (len - 1) as nat);
    }
}

/// Setting bit `len` of a word below `2^len` adds one to its population.
proof fn lemma_push_population(w: u128, len: nat, d: u8)
    requires
        len < 127,
        w < pow2(len),
    ensures
        push_digit(w, len, d) as nat == w + if d == 3 { pow2(len) } else { 0 },
        population(push_digit(w, len, d) as nat) == population(w as nat) + if d == 3 { 1int } else { 0int },
        push_digit(w, len, d) < pow2(len + 1),
{
    let n = len as u128;
    lemma_one_shl_u128(n);
    lemma_one_shl_u128((n + 1) as u128);
    assert(w | (1u128 << n) == w + (1u128 << n) && w + (1u128 << n) < (1u128 << ((n + 1) as u128))) by (bit_vector)
        requires
            n < 127,
            w < (1u128 << n),
    ;
    assert(w < (1u128 << ((n + 1) as u128))) by (bit_vector)
        requires
            n < 127,
            w < (1u128 << n),
    ;
    if d == 3 {
        lemma_population_top(w as nat, len);
    }
}

/// The charge of one step of the prefix normalizer (see `move_charge`) is what it adds to
/// the base cost less twice what it adds to the loss, plus the change in potential.
proof fn lemma_step_charge(p: Prefix, c: Cost, closed: bool)
    requires
        prefix_step(p, c, closed) matches Some((true, _, _)),
    ensures
        prefix_step(p, c, closed) matches Some((_, q, d)) && ({
            let x = (d.base - c.base) - 2 * (d.loss - c.loss) + potential_of(q) - potential_of(p);
            x >= 0 && x % 3 == 0
        }),
{
    let m = prefix_move(p, closed);
    let odd = queue(p);
    assert(front(odd) == 1 || front(odd) == 3);
    lemma_plan_charge(p.head, odd, (p.b % 4) as nat, if closed {
        p.b as nat
    } else {
        p.b as nat % pow2(p.k as nat)
    });
    let len1: nat = if m.pop {
        (p.len - 1) as nat
    } else {
        p.len as nat
    };
    let word1 = if m.pop {
        p.word >> 1u128
    } else {
        p.word
    };
    let popped: int = if m.pop {
        if front(odd) == 3 { 1int } else { 0int }
    } else {
        0
    };
    if m.pop {
        lemma_shr_u128(p.word, 1);
        lemma2_to64();
        lemma_pow2_unfold(p.len as nat);
        assert(front(odd) == digit_at(p.word, 0));
        let w = p.word;
        assert(((w >> 0u128) & 1u128 == 1u128) == (w % 2 == 1)) by (bit_vector);
        assert(population(p.word as nat) == p.word % 2 + population(p.word as nat / 2));
    }
    assert(word1 < pow2(len1));
    assert(population(word1 as nat) == population(p.word as nat) - popped);
    let (_, q, d) = prefix_step(p, c, closed).unwrap();
    if m.append.len() >= 1 {
        lemma_push_population(word1, len1, m.append[0]);
    }
    if m.append.len() == 2 {
        lemma_push_population(push_digit(word1, len1, m.append[0]), len1 + 1, m.append[1]);
    }
    assert(population(q.word as nat) == population(word1 as nat) + threes(m.append));
}

/// Settling charges a nonnegative multiple of three: what it adds to the base cost less
/// twice what it adds to the loss, plus the change in potential.
proof fn lemma_settle_charge(p: Prefix, c: Cost, fuel: nat)
    requires
        settle_open(p, c, fuel) is Some,
    ensures
        settle_open(p, c, fuel) matches Some((q, d)) && ({
            let x = (d.base - c.base) - 2 * (d.loss - c.loss) + potential_of(q) - potential_of(p);
            x >= 0 && x % 3 == 0
        }),
    decreases fuel,
{
    match prefix_step(p, c, false) {
        None => {},
        Some((moved, q, d)) => {
            if moved {
                lemma_step_charge(p, c, false);
                lemma_settle_charge(q, d, (fuel - 1) as nat);
                let (q2, d2) = settle_open(q, d, (fuel - 1) as nat).unwrap();
                let x1 = (d.base - c.base) - 2 * (d.loss - c.loss) + potential_of(q) - potential_of(p);
                let x2 = (d2.base - d.base) - 2 * (d2.loss - d.loss) + potential_of(q2) - potential_of(q);
                assert((x1 + x2) % 3 == 0) by (nonlinear_arith)
                    requires
                        x1 % 3 == 0,
                        x2 % 3 == 0,
                ;
            }
        },
    }
}

/// Law: feeding a byte charges a whole, nonnegative number of thirds: the base cost less
/// twice the loss, less the source's potential, plus the target's, is a nonnegative
/// multiple of three.
pub proof fn lemma_transition_charge(s: Prefix, low: u64)
    requires
        transition(s, low) is Some,
    ensures
        transition(s, low) matches Some((t, c)) && ({
            let x = c.base - 2 * c.loss - potential_of(s) + potential_of(t);
            x >= 0 && x % 3 == 0
        }),
{
    let q = fed(s, low, 8).unwrap();
    assert(potential_of(q) == potential_of(s));
    lemma_settle_charge(q, zero_cost(), step_limit());
}

/// What feeding one byte `low` to a state yields: the settled state and the costs of the
/// operations taken.
pub open spec fn transition(s: Prefix, low: u64) -> Option<(Prefix, Cost)> {
    match fed(s, low, 8) {
        None => None,
        Some(q) => settle_open(q, zero_cost(), step_limit()),
    }
}

/// The states the table keeps as its own: short queues, few known bits, small values.
pub open spec fn common_state(s: Prefix) -> bool {
    s.len <= 14 && s.k <= 8 && s.b <= 64
}

/// The second start state: head 1 and a queue of one `3`.
pub open spec fn odd_start() -> Prefix {
    Prefix { head: 1, word: 1, len: 1, k: 0, b: 0 }
}

/// The weight of an edge from `s` to `t` with costs `c`: the amortized cost
/// `(base - 2 loss - potential(s) + potential(t)) / 3` in bits `16..22`, the operations in
/// bits `22..28`, and the returns beyond one per operation in bits `28..32`.  `None` where
/// a field does not fit or the amortized cost is not a whole nonnegative number.
pub open spec fn edge_weight(s: Prefix, t: Prefix, c: Cost) -> Option<int> {
    let num = c.base - 2 * c.loss - potential_of(s) + potential_of(t);
    if num >= 0 && num % 3 == 0 && num / 3 < 64 && c.operations < 64 && c.returned
        >= c.operations && c.returned - c.operations < 16 {
        Some((num / 3) * 0x1_0000 + c.operations * 0x40_0000 + (c.returned - c.operations)
            * 0x1000_0000)
    } else {
        None
    }
}

/// The edge a byte takes from a state: to `all[e.0]`, with weight `e.1`.
pub open spec fn edge_to(all: Seq<Prefix>, s: Prefix, low: u64, e: (u32, u32)) -> bool {
    match transition(s, low) {
        None => false,
        Some((t, c)) => e.0 < all.len() && all[e.0 as int] == t && edge_weight(s, t, c) == Some(
            e.1 as int,
        ),
    }
}

/// The explored states (the `common` table states first, then the escapes), and the 256
/// edges of each table state, in order of state and byte.
pub open spec fn explored(all: Seq<Prefix>, common: nat, edges: Seq<(u32, u32)>) -> bool {
    &&& 2 <= common <= all.len() < 65535
    &&& all[0] == empty_prefix()
    &&& all[1] == odd_start()
    &&& forall|i: int| 0 <= i < all.len() ==> #[trigger] keyable(all[i])
    &&& forall|i: int| 0 <= i < all.len() ==> (#[trigger] common_state(all[i]) <==> i < common)
    &&& forall|i: int, j: int|
        0 <= i < all.len() && 0 <= j < all.len() && i != j ==> #[trigger] key_of(all[i])
            != #[trigger] key_of(all[j])
    &&& edges.len() == 256 * common
    &&& forall|i: int, low: int|
        0 <= i < common && 0 <= low < 256 ==> #[trigger] edge_to(
            all,
            all[i],
            low as u64,
            edges[256 * i + low],
        )
}

/// Some edge before position `y` reaches state `i`.
pub open spec fn reached_before(edges: Seq<(u32, u32)>, i: int, y: int) -> bool {
    exists|z: int| 0 <= z < y && z < edges.len() && #[trigger] edges[z].0 == i
}

/// The states are numbered in the order the edges first reach them: each state after the
/// two start states is reached by an edge of an earlier table state, and no edge reaches a
/// table state (or an escape) before some edge has reached every lower-numbered one of its
/// kind.
pub open spec fn numbered_by_discovery(all: Seq<Prefix>, common: nat, edges: Seq<(u32, u32)>) -> bool {
    &&& forall|i: int| 2 <= i < common ==> #[trigger] reached_before(edges, i, 256 * i)
    &&& forall|i: int| common <= i < all.len() ==> #[trigger] reached_before(edges, i, edges.len() as int)
    &&& forall|i: int, y: int|
        0 <= y < edges.len() && (2 <= i < edges[y].0 < common || common <= i < edges[y].0 < all.len())
            ==> #[trigger] reached_before(edges, i, y)
}

/// During exploration: raw edges reach the table states and escapes found so far in the
/// order they were numbered.
spec fn discovery_order(raw: Seq<(u32, u32)>, n: int, m: int) -> bool {
    &&& forall|i: int| 2 <= i < n ==> #[trigger] reached_before(raw, i, 256 * i)
    &&& forall|i: int| 0x8000_0000 <= i < 0x8000_0000 + m ==> #[trigger] reached_before(raw, i, raw.len() as int)
    &&& forall|i: int, y: int|
        0 <= y < raw.len() && (2 <= i < raw[y].0 < 0x8000_0000 || 0x8000_0000 <= i < raw[y].0)
            ==> #[trigger] reached_before(raw, i, y)
}

proof fn lemma_reached_grows(raw: Seq<(u32, u32)>, more: Seq<(u32, u32)>, i: int, y: int, y2: int)
    requires
        reached_before(raw, i, y),
        y <= y2 || raw.len() <= y2,
        raw.len() <= more.len(),
        forall|z: int| 0 <= z < raw.len() ==> more[z] == raw[z],
    ensures
        reached_before(more, i, y2),
{
    let z = choose|z: int| 0 <= z < y && z < raw.len() && #[trigger] raw[z].0 == i;
    assert(more[z].0 == i);
}

/// Pushing the edge to a table state or escape found so far, or to the next new one, keeps
/// the discovery order.
proof fn lemma_discovery_push(raw: Seq<(u32, u32)>, n: int, m: int, at: int, e: (u32, u32), n2: int, m2: int)
    requires
        discovery_order(raw, n, m),
        2 <= n < 0x7000_0000,
        0 <= at < n,
        raw.len() < 256 * (at + 1),
        0 <= m < 0x7000_0000,
        forall|y: int| 0 <= y < raw.len() ==> #[trigger] raw[y].0 < n || 0x8000_0000 <= raw[y].0 < 0x8000_0000 + m,
        (e.0 < n && n2 == n && m2 == m) || (e.0 == n && n2 == n + 1 && m2 == m) || (0x8000_0000
            <= e.0 < 0x8000_0000 + m && n2 == n && m2 == m) || (e.0 == 0x8000_0000 + m && n2 == n
            && m2 == m + 1),
    ensures
        discovery_order(raw.push(e), n2, m2),
{
    let more = raw.push(e);
    let y0 = raw.len() as int;
    assert forall|z: int| 0 <= z < raw.len() implies more[z] == raw[z] by {}
    assert forall|i: int| 2 <= i < n2 implies #[trigger] reached_before(more, i, 256 * i) by {
        if i < n {
            lemma_reached_grows(raw, more, i, 256 * i, 256 * i);
        } else {
            assert(more[y0].0 == i);
        }
    }
    assert forall|i: int| 0x8000_0000 <= i < 0x8000_0000 + m2 implies #[trigger] reached_before(more, i, more.len() as int) by {
        if i < 0x8000_0000 + m {
            lemma_reached_grows(raw, more, i, raw.len() as int, more.len() as int);
        } else {
            assert(more[y0].0 == i);
        }
    }
    assert forall|i: int, y: int|
        0 <= y < more.len() && (2 <= i < more[y].0 < 0x8000_0000 || 0x8000_0000 <= i < more[y].0)
            implies #[trigger] reached_before(more, i, y) by {
        if y < y0 {
            assert(more[y] == raw[y]);
            lemma_reached_grows(raw, more, i, y, y);
        } else if e.0 < 0x8000_0000 {
            assert(y == y0 && more[y] == e);
            if e.0 < n {
                assert(reached_before(raw, e.0 as int, 256 * e.0));
                let z1 = choose|z: int| 0 <= z < 256 * e.0 && z < raw.len() && #[trigger] raw[z].0 == e.0;
                assert(reached_before(raw, i, z1));
                lemma_reached_grows(raw, more, i, z1, y);
            } else {
                assert(reached_before(raw, i, 256 * i));
                lemma_reached_grows(raw, more, i, 256 * i, y);
            }
        } else {
            assert(y == y0 && more[y] == e);
            assert(reached_before(raw, i, raw.len() as int));
            if e.0 < 0x8000_0000 + m {
                assert(reached_before(raw, e.0 as int, raw.len() as int));
                let z1 = choose|z: int| 0 <= z < raw.len() && z < raw.len() && #[trigger] raw[z].0 == e.0;
                assert(reached_before(raw, i, z1));
                lemma_reached_grows(raw, more, i, z1, y);
            } else {
                lemma_reached_grows(raw, more, i, raw.len() as int, y);
            }
        }
    }
}

/// Renumbering the escapes after the table states keeps the discovery order.
proof fn lemma_discovery_edges(
    raw: Seq<(u32, u32)>,
    edges: Seq<(u32, u32)>,
    table: Seq<Prefix>,
    escapes: Seq<Prefix>,
    all: Seq<Prefix>,
)
    requires
        all == table + escapes,
        2 <= table.len(),
        all.len() < 65535,
        raw.len() == edges.len(),
        discovery_order(raw, table.len() as int, escapes.len() as int),
        forall|y: int|
            0 <= y < raw.len() ==> #[trigger] raw[y].0 < table.len() || 0x8000_0000 <= raw[y].0 < 0x8000_0000
                + escapes.len(),
        forall|y: int|
            0 <= y < raw.len() ==> if raw[y].0 < 0x8000_0000 {
                #[trigger] edges[y].0 == raw[y].0
            } else {
                edges[y].0 == table.len() + raw[y].0 - 0x8000_0000
            },
    ensures
        numbered_by_discovery(all, table.len() as nat, edges),
{
    let common = table.len() as int;
    assert forall|i: int| 2 <= i < common implies #[trigger] reached_before(edges, i, 256 * i) by {
        assert(reached_before(raw, i, 256 * i));
        let z = choose|z: int| 0 <= z < 256 * i && z < raw.len() && #[trigger] raw[z].0 == i;
        assert(edges[z].0 == i);
    }
    assert forall|i: int| common <= i < all.len() implies #[trigger] reached_before(edges, i, edges.len() as int) by {
        let i2 = 0x8000_0000 + (i - common);
        assert(reached_before(raw, i2, raw.len() as int));
        let z = choose|z: int| 0 <= z < raw.len() && z < raw.len() && #[trigger] raw[z].0 == i2;
        assert(edges[z].0 == i);
    }
    assert forall|i: int, y: int|
        0 <= y < edges.len() && (2 <= i < edges[y].0 < common || common <= i < edges[y].0 < all.len())
            implies #[trigger] reached_before(edges, i, y) by {
        if edges[y].0 < common {
            assert(raw[y].0 < 0x8000_0000);
            assert(reached_before(raw, i, y));
            let z = choose|z: int| 0 <= z < y && z < raw.len() && #[trigger] raw[z].0 == i;
            assert(edges[z].0 == i);
        } else {
            assert(raw[y].0 >= 0x8000_0000);
            let i2 = 0x8000_0000 + (i - common);
            assert(reached_before(raw, i2, y));
            let z = choose|z: int| 0 <= z < y && z < raw.len() && #[trigger] raw[z].0 == i2;
            assert(edges[z].0 == i);
        }
    }
}

/// Law: an edge gives back the costs of its byte: the operations and the returns from
/// their fields, the loss from the known bit counts of its two states, and the base cost
/// from the amortized field and the two potentials.
pub proof fn lemma_edge_decodes(all: Seq<Prefix>, common: nat, edges: Seq<(u32, u32)>, i: int, low: int)
    requires
        explored(all, common, edges),
        0 <= i < common,
        0 <= low < 256,
    ensures
        transition(all[i], low as u64) matches Some((t, c)) && ({
            let e = edges[256 * i + low];
            let w = e.1 as int;
            let j = (w / 0x1_0000) % 64;
            let ops = (w / 0x40_0000) % 64;
            let extra = w / 0x1000_0000;
            &&& all[e.0 as int] == t
            &&& c.operations == ops
            &&& c.returned == ops + extra
            &&& c.loss == 8 + all[i].k - t.k
            &&& c.base == 3 * j + 2 * c.loss + potential_of(all[i]) - potential_of(t)
        }),
{
    let s = all[i];
    assert(edge_to(all, s, low as u64, edges[256 * i + low]));
    let (t, c) = transition(s, low as u64).unwrap();
    let q = fed(s, low as u64, 8).unwrap();
    lemma_settle_counts_loss(q, zero_cost(), step_limit());
    let num = c.base - 2 * c.loss - potential_of(s) + potential_of(t);
    let j0 = num / 3;
    let ops0 = c.operations as int;
    let extra0 = c.returned - c.operations;
    let w = edges[256 * i + low].1 as int;
    assert(w == j0 * 0x1_0000 + ops0 * 0x40_0000 + extra0 * 0x1000_0000);
    assert((w / 0x1_0000) % 64 == j0 && (w / 0x40_0000) % 64 == ops0 && w / 0x1000_0000 == extra0) by (nonlinear_arith)
        requires
            w == j0 * 0x1_0000 + ops0 * 0x40_0000 + extra0 * 0x1000_0000,
            0 <= j0 < 64,
            0 <= ops0 < 64,
            0 <= extra0 < 16,
    ;
}

/// A whole table of states and edges: explored, and numbered in order of discovery.
pub open spec fn table_of_states(all: Seq<Prefix>, common: nat, edges: Seq<(u32, u32)>) -> bool {
    explored(all, common, edges) && numbered_by_discovery(all, common, edges)
}

/// A raw edge names the state an edge of the table names.
spec fn raw_names(r: (u32, u32), e: (u32, u32), common: nat) -> bool {
    if r.0 < 0x8000_0000 {
        e.0 == r.0
    } else {
        e.0 == common + r.0 - 0x8000_0000
    }
}

/// What the exploration has found so far is a beginning of the table: its table states
/// and escapes, in order, and the states its raw edges name.
spec fn begins(
    states: Seq<Prefix>,
    escapes: Seq<Prefix>,
    raw: Seq<(u32, u32)>,
    all: Seq<Prefix>,
    common: nat,
    edges: Seq<(u32, u32)>,
) -> bool {
    &&& states.len() <= common
    &&& common + escapes.len() <= all.len()
    &&& forall|i: int| 0 <= i < states.len() ==> all[i] == #[trigger] states[i]
    &&& forall|e: int| 0 <= e < escapes.len() ==> all[common + e] == #[trigger] escapes[e]
    &&& raw.len() <= edges.len()
    &&& forall|y: int| 0 <= y < raw.len() ==> #[trigger] raw_names(raw[y], edges[y], common)
}

/// The byte `low` from table state `at`: the table's edge for it exists, so the byte can be
/// fed, its weight fits and its target can be keyed.
proof fn lemma_table_edge(
    all: Seq<Prefix>,
    common: nat,
    edges: Seq<(u32, u32)>,
    states: Seq<Prefix>,
    escapes: Seq<Prefix>,
    raw: Seq<(u32, u32)>,
    at: int,
    low: int,
)
    requires
        table_of_states(all, common, edges),
        begins(states, escapes, raw, all, common, edges),
        0 <= at < states.len(),
        0 <= low < 256,
    ensures
        transition(states[at], low as u64) matches Some((t, c)) && edge_weight(states[at], t, c)
            == Some(edges[256 * at + low].1 as int) && keyable(t) && all[edges[256 * at + low].0 as int]
            == t && edges[256 * at + low].0 < all.len(),
{
    assert(all[at] == states[at]);
    assert(edge_to(all, all[at], low as u64, edges[256 * at + low]));
    let t = transition(states[at], low as u64).unwrap().0;
    assert(keyable(all[edges[256 * at + low].0 as int]));
}

/// Filing the target of the next raw edge, as a known or a new table state or escape, keeps
/// the exploration a beginning of the table.
proof fn lemma_begins_push(
    all: Seq<Prefix>,
    common: nat,
    edges: Seq<(u32, u32)>,
    states0: Seq<Prefix>,
    escapes0: Seq<Prefix>,
    raw0: Seq<(u32, u32)>,
    states1: Seq<Prefix>,
    escapes1: Seq<Prefix>,
    t: Prefix,
    id: u32,
    w: u32,
    at: int,
    low: int,
)
    requires
        table_of_states(all, common, edges),
        begins(states0, escapes0, raw0, all, common, edges),
        2 <= states0.len(),
        0 <= at < states0.len(),
        0 <= low < 256,
        raw0.len() == 256 * at + low,
        forall|y: int|
            0 <= y < raw0.len() ==> #[trigger] raw0[y].0 < states0.len() || 0x8000_0000 <= raw0[y].0
                < 0x8000_0000 + escapes0.len(),
        transition(states0[at], low as u64) matches Some((x, _)) && x == t,
        common_state(t) ==> {
            ||| (id < states0.len() && states0[id as int] == t && states1 == states0)
            ||| (id == states0.len() && (forall|i: int| 0 <= i < states0.len() ==> key_of(#[trigger] states0[i]) != key_of(t))
                && states1 == states0.push(t))
        } && escapes1 == escapes0,
        !common_state(t) ==> {
            ||| (0x8000_0000 <= id < 0x8000_0000 + escapes0.len() && escapes0[id - 0x8000_0000] == t
                && escapes1 == escapes0)
            ||| (id == 0x8000_0000 + escapes0.len() && (forall|e: int| 0 <= e < escapes0.len() ==> key_of(#[trigger] escapes0[e]) != key_of(t))
                && escapes1 == escapes0.push(t))
        } && states1 == states0,
    ensures
        begins(states1, escapes1, raw0.push((id, w)), all, common, edges),
{
    lemma_table_edge(all, common, edges, states0, escapes0, raw0, at, low);
    let y = 256 * at + low;
    let j = edges[y].0 as int;
    let n = states0.len() as int;
    let m = escapes0.len() as int;
    assert(all[j] == t);
    assert(y < edges.len()) by (nonlinear_arith)
        requires
            y == 256 * at + low,
            0 <= low < 256,
            at < n,
            n <= common,
            edges.len() == 256 * common,
    ;
    assert(common_state(t) <==> j < common);
    let raw1 = raw0.push((id, w));
    if common_state(t) {
        if id < n && states0[id as int] == t {
            assert(all[id as int] == states0[id as int]);
            if j != id {
                assert(key_of(all[j]) != key_of(all[id as int]));
            }
        } else {
            assert forall|i: int| 0 <= i < n implies j != i && #[trigger] states0[i] == all[i] by {
                assert(all[i] == states0[i]);
                assert(key_of(states0[i]) != key_of(t));
            }
            if j < n {
                assert(states0[j] == all[j]);
            }
            if j > n {
                assert(reached_before(edges, n, y));
                let z = choose|z: int| 0 <= z < y && z < edges.len() && #[trigger] edges[z].0 == n;
                assert(raw_names(raw0[z], edges[z], common));
            }
            assert(j == n);
            assert forall|i: int| 0 <= i < states1.len() implies all[i] == #[trigger] states1[i] by {
                if i < n {
                    assert(states1[i] == states0[i]);
                }
            }
        }
    } else {
        let e0 = id - 0x8000_0000;
        if 0x8000_0000 <= id < 0x8000_0000 + m && escapes0[e0] == t {
            assert(all[common + e0] == escapes0[e0]);
            if j != common + e0 {
                assert(key_of(all[j]) != key_of(all[common + e0]));
            }
        } else {
            assert forall|e: int| 0 <= e < m implies j != common + e && #[trigger] escapes0[e] == all[common + e] by {
                assert(all[common + e] == escapes0[e]);
                assert(key_of(escapes0[e]) != key_of(t));
            }
            if common <= j < common + m {
                assert(escapes0[j - common] == all[common + (j - common)]);
            }
            if j > common + m {
                assert(reached_before(edges, common + m, y));
                let z = choose|z: int| 0 <= z < y && z < edges.len() && #[trigger] edges[z].0 == common + m;
                assert(raw_names(raw0[z], edges[z], common));
            }
            assert(j == common + m);
            assert forall|e: int| 0 <= e < escapes1.len() implies all[common + e] == #[trigger] escapes1[e] by {
                if e < m {
                    assert(escapes1[e] == escapes0[e]);
                }
            }
        }
    }
    assert forall|z: int| 0 <= z < raw1.len() implies #[trigger] raw_names(raw1[z], edges[z], common) by {
        if z < raw0.len() {
            assert(raw1[z] == raw0[z]);
        }
    }
}

/// A raw edge during exploration: table states by index, escapes by `2^31` plus index.
spec fn raw_edge(states: Seq<Prefix>, escapes: Seq<Prefix>, s: Prefix, low: u64, e: (u32, u32)) -> bool {
    match transition(s, low) {
        None => false,
        Some((t, c)) => edge_weight(s, t, c) == Some(e.1 as int) && if e.0 < 0x8000_0000 {
            e.0 < states.len() && states[e.0 as int] == t
        } else {
            e.0 - 0x8000_0000 < escapes.len() && escapes[e.0 - 0x8000_0000] == t
        },
    }
}

/// The indices under which states are filed by key.
spec fn filed(ids: Map<u64, u32>, states: Seq<Prefix>) -> bool {
    &&& forall|k: u64| #[trigger] ids.contains_key(k) ==> ids[k] < states.len() && key_of(
        states[ids[k] as int],
    ) == k
    &&& forall|i: int|
        0 <= i < states.len() ==> ids.contains_key(#[trigger] key_of(states[i]) as u64) && ids[key_of(
            states[i],
        ) as u64] == i
    &&& forall|i: int| 0 <= i < states.len() ==> #[trigger] keyable(states[i])
}

proof fn lemma_filed_distinct(ids: Map<u64, u32>, states: Seq<Prefix>, i: int, j: int)
    requires
        filed(ids, states),
        0 <= i < states.len(),
        0 <= j < states.len(),
        i != j,
    ensures
        key_of(states[i]) != key_of(states[j]),
{
    lemma_key_fields(states[i]);
    lemma_key_fields(states[j]);
    assert(ids[key_of(states[i]) as u64] == i);
    assert(ids[key_of(states[j]) as u64] == j);
}

/// The edge weight (see `edge_weight`), `None` where it does not fit.
fn weight(source: Prefix, target: Prefix, cost: Cost) -> (r: Option<u32>)
    requires
        source.len < 128,
        target.len < 128,
    ensures
        match edge_weight(source, target, cost) {
            None => r is None,
            Some(w) => r == Some(w as u32) && 0 <= w <= u32::MAX,
        },
{
    let numerator: i128 = cost.base as i128 - 2 * cost.loss as i128 - potential(source) as i128
        + potential(target) as i128;
    if numerator < 0 || numerator % 3 != 0 {
        return None;
    }
    let j = numerator / 3;
    if !(j < 64 && cost.operations < 64 && cost.returned >= cost.operations && cost.returned
        - cost.operations < 16) {
        return None;
    }
    let j = j as u32;
    let ops = cost.operations as u32;
    let extra = (cost.returned - cost.operations) as u32;
    Some(j * 0x1_0000 + ops * 0x40_0000 + extra * 0x1000_0000)
}

/// Explores every state reachable from the two start states by feeding bytes, keeping
/// the common ones as table states and the others as escapes (see `explored`).  `None`
/// where it fails: a byte overruns the prefix bounds, an edge weight does not
/// fit, an escape cannot be keyed, or 65535 states are reached.
fn explore() -> (r: Option<(Vec<Prefix>, usize, Vec<(u32, u32)>)>)
    ensures
        r matches Some((all, common, edges)) ==> explored(all@, common as nat, edges@)
            && numbered_by_discovery(all@, common as nat, edges@),
        r is None ==> forall|all: Seq<Prefix>, common: nat, edges: Seq<(u32, u32)>| !#[trigger] table_of_states(all, common, edges),
{
    let mut states: Vec<Prefix> = Vec::new();
    states.push(Prefix::empty());
    states.push(Prefix { head: 1, word: 1, len: 1, k: 0, b: 0 });
    proof {
        lemma2_to64();
        lemma_pow2_pos(120);
        lemma_pow2_strictly_increases(27, 120);
        assert(keyable(states@[1])) by {
            assert(pow2(1) == 2) by {
                lemma2_to64();
            }
        }
    }
    let mut ids: BTreeMap<u64, u32> = BTreeMap::new();
    ids.insert(encode(states[0]), 0);
    ids.insert(encode(states[1]), 1);
    let mut escapes: Vec<Prefix> = Vec::new();
    let mut escape_ids: BTreeMap<u64, u32> = BTreeMap::new();
    let mut raw: Vec<(u32, u32)> = Vec::new();
    proof {
        assert(key_of(states@[0]) != key_of(states@[1]));
        assert(filed(ids@, states@));
        assert(filed(escape_ids@, escapes@));
        assert forall|all: Seq<Prefix>, common: nat, edges: Seq<(u32, u32)>| table_of_states(all, common, edges) implies #[trigger] begins(states@, escapes@, raw@, all, common, edges) by {
            assert forall|i: int| 0 <= i < states@.len() implies all[i] == #[trigger] states@[i] by {}
        }
    }
    let mut at: usize = 0;
    while at < states.len()
        invariant
            2 <= states@.len(),
            states@.len() + escapes@.len() < 65535,
            at <= states@.len(),
            states@[0] == empty_prefix(),
            states@[1] == odd_start(),
            filed(ids@, states@),
            filed(escape_ids@, escapes@),
            forall|i: int| 0 <= i < states@.len() ==> #[trigger] common_state(states@[i]),
            forall|i: int| 0 <= i < escapes@.len() ==> !#[trigger] common_state(escapes@[i]),
            raw@.len() == 256 * at,
            forall|all: Seq<Prefix>, common: nat, edges: Seq<(u32, u32)>| table_of_states(all, common, edges) ==> #[trigger] begins(states@, escapes@, raw@, all, common, edges),
            discovery_order(raw@, states@.len() as int, escapes@.len() as int),
            forall|y: int|
                0 <= y < raw@.len() ==> #[trigger] raw@[y].0 < states@.len() || 0x8000_0000 <= raw@[y].0
                    < 0x8000_0000 + escapes@.len(),
            forall|i: int, low: int|
                0 <= i < at && 0 <= low < 256 ==> #[trigger] raw_edge(
                    states@,
                    escapes@,
                    states@[i],
                    low as u64,
                    raw@[256 * i + low],
                ),
        decreases 65535 - at,
    {
        let source = states[at];
        let mut low: u32 = 0;
        while low < 256
            invariant
                2 <= states@.len(),
                states@.len() + escapes@.len() < 65535 + low,
                at < states@.len(),
                low <= 256,
                source == states@[at as int],
                states@[0] == empty_prefix(),
                states@[1] == odd_start(),
                filed(ids@, states@),
                filed(escape_ids@, escapes@),
                forall|i: int| 0 <= i < states@.len() ==> #[trigger] common_state(states@[i]),
                forall|i: int| 0 <= i < escapes@.len() ==> !#[trigger] common_state(escapes@[i]),
                raw@.len() == 256 * at + low,
                forall|all: Seq<Prefix>, common: nat, edges: Seq<(u32, u32)>| table_of_states(all, common, edges) ==> #[trigger] begins(states@, escapes@, raw@, all, common, edges),
                discovery_order(raw@, states@.len() as int, escapes@.len() as int),
                forall|y: int|
                    0 <= y < raw@.len() ==> #[trigger] raw@[y].0 < states@.len() || 0x8000_0000 <= raw@[y].0
                        < 0x8000_0000 + escapes@.len(),
                forall|i: int, l: int|
                    0 <= i < at && 0 <= l < 256 ==> #[trigger] raw_edge(
                        states@,
                        escapes@,
                        states@[i],
                        l as u64,
                        raw@[256 * i + l],
                    ),
                forall|l: int|
                    0 <= l < low ==> #[trigger] raw_edge(
                        states@,
                        escapes@,
                        source,
                        l as u64,
                        raw@[256 * at + l],
                    ),
            decreases 256 - low,
        {
            let mut target = source;
            let mut cost = Cost::zero();
            if target.feed(low as u64, 8, &mut cost).is_none() {
                proof {
                    assert forall|all: Seq<Prefix>, common: nat, edges: Seq<(u32, u32)>| !#[trigger] table_of_states(all, common, edges) by {
                        if table_of_states(all, common, edges) {
                            assert(begins(states@, escapes@, raw@, all, common, edges));
                            lemma_table_edge(all, common, edges, states@, escapes@, raw@, at as int, low as int);
                        }
                    }
                }
                return None;
            }
            proof {
                let q = fed(source, low as u64, 8).unwrap();
                lemma_settle_counts_loss(q, zero_cost(), step_limit());
                assert(transition(source, low as u64) == Some((target, cost)));
            }
            let w = match weight(source, target, cost) {
                Some(w) => w,
                None => {
                    proof {
                        assert forall|all: Seq<Prefix>, common: nat, edges: Seq<(u32, u32)>| !#[trigger] table_of_states(all, common, edges) by {
                            if table_of_states(all, common, edges) {
                                assert(begins(states@, escapes@, raw@, all, common, edges));
                                lemma_table_edge(all, common, edges, states@, escapes@, raw@, at as int, low as int);
                            }
                        }
                    }
                    return None;
                },
            };
            let ghost states0 = states@;
            let ghost escapes0 = escapes@;
            let id: u32;
            if target.len <= 14 && target.k <= 8 && target.b <= 64 {
                proof {
                    lemma_pow2_strictly_increases(27, 120);
                }
                let key = encode(target);
                match ids.get(&key) {
                    Some(i) => {
                        id = *i;
                        proof {
                            lemma_key_fields(target);
                            lemma_key_fields(states@[id as int]);
                            lemma_key_injective(target, states@[id as int]);
                        }
                    },
                    None => {
                        let next = states.len() as u32;
                        ids.insert(key, next);
                        states.push(target);
                        id = next;
                        proof {
                            assert forall|k: u64| #[trigger] ids@.contains_key(k) implies ids@[k]
                                < states@.len() && key_of(states@[ids@[k] as int]) == k by {
                                if k != key {
                                    assert(states0[ids@[k] as int] == states@[ids@[k] as int]);
                                }
                            }
                            assert forall|i: int| 0 <= i < states@.len() implies ids@.contains_key(
                                #[trigger] key_of(states@[i]) as u64,
                            ) && ids@[key_of(states@[i]) as u64] == i by {
                                if i < states0.len() {
                                    assert(states@[i] == states0[i]);
                                    lemma_key_fields(states0[i]);
                                    if key_of(states0[i]) as u64 == key {
                                        assert(key_of(states0[i]) == key_of(target));
                                    }
                                }
                            }
                        }
                    },
                }
            } else {
                if !(target.len < 24 && target.k < 32 && target.b < 0x800_0000) {
                    proof {
                        assert forall|all: Seq<Prefix>, common: nat, edges: Seq<(u32, u32)>| !#[trigger] table_of_states(all, common, edges) by {
                            if table_of_states(all, common, edges) {
                                assert(begins(states@, escapes@, raw@, all, common, edges));
                                lemma_table_edge(all, common, edges, states@, escapes@, raw@, at as int, low as int);
                            }
                        }
                    }
                    return None;
                }
                let key = encode(target);
                match escape_ids.get(&key) {
                    Some(i) => {
                        id = 0x8000_0000 + *i;
                        proof {
                            lemma_key_fields(target);
                            lemma_key_fields(escapes@[*i as int]);
                            lemma_key_injective(target, escapes@[*i as int]);
                        }
                    },
                    None => {
                        let next = escapes.len() as u32;
                        escape_ids.insert(key, next);
                        escapes.push(target);
                        id = 0x8000_0000 + next;
                        proof {
                            assert forall|k: u64| #[trigger] escape_ids@.contains_key(k) implies escape_ids@[k]
                                < escapes@.len() && key_of(escapes@[escape_ids@[k] as int]) == k by {
                                if k != key {
                                    assert(escapes0[escape_ids@[k] as int] == escapes@[escape_ids@[k] as int]);
                                }
                            }
                            assert forall|i: int| 0 <= i < escapes@.len() implies escape_ids@.contains_key(
                                #[trigger] key_of(escapes@[i]) as u64,
                            ) && escape_ids@[key_of(escapes@[i]) as u64] == i by {
                                if i < escapes0.len() {
                                    assert(escapes@[i] == escapes0[i]);
                                    lemma_key_fields(escapes0[i]);
                                    if key_of(escapes0[i]) as u64 == key {
                                        assert(key_of(escapes0[i]) == key_of(target));
                                    }
                                }
                            }
                        }
                    },
                }
            }
            let ghost raw0 = raw@;
            raw.push((id, w));
            proof {
                assert forall|all: Seq<Prefix>, common: nat, edges: Seq<(u32, u32)>| table_of_states(all, common, edges) implies #[trigger] begins(states@, escapes@, raw@, all, common, edges) by {
                    assert(begins(states0, escapes0, raw0, all, common, edges));
                    lemma_begins_push(all, common, edges, states0, escapes0, raw0, states@, escapes@, target, id, w, at as int, low as int);
                }
                lemma_discovery_push(
                    raw0,
                    states0.len() as int,
                    escapes0.len() as int,
                    at as int,
                    (id, w),
                    states@.len() as int,
                    escapes@.len() as int,
                );
                assert forall|y: int| 0 <= y < raw@.len() implies #[trigger] raw@[y].0 < states@.len()
                    || 0x8000_0000 <= raw@[y].0 < 0x8000_0000 + escapes@.len() by {
                    if y < raw0.len() {
                        assert(raw@[y] == raw0[y]);
                    }
                }
                assert(raw_edge(states@, escapes@, source, low as u64, (id, w)));
                assert forall|i: int, l: int|
                    0 <= i < at && 0 <= l < 256 implies #[trigger] raw_edge(
                        states@,
                        escapes@,
                        states@[i],
                        l as u64,
                        raw@[256 * i + l],
                    ) by {
                    assert(raw_edge(states0, escapes0, states0[i], l as u64, raw0[256 * i + l]));
                    assert(0 <= 256 * i + l < 256 * at) by (nonlinear_arith)
                        requires
                            0 <= i < at,
                            0 <= l < 256,
                    ;
                    assert(raw@[256 * i + l] == raw0[256 * i + l]);
                    assert(states@[i] == states0[i]);
                }
                assert forall|l: int| 0 <= l < low + 1 implies #[trigger] raw_edge(
                    states@,
                    escapes@,
                    source,
                    l as u64,
                    raw@[256 * at + l],
                ) by {
                    if l < low {
                        assert(raw_edge(states0, escapes0, source, l as u64, raw0[256 * at + l]));
                        assert(raw@[256 * at + l] == raw0[256 * at + l]);
                    }
                }
            }
            low = low + 1;
        }
        proof {
            assert forall|i: int, l: int|
                0 <= i < at + 1 && 0 <= l < 256 implies #[trigger] raw_edge(
                    states@,
                    escapes@,
                    states@[i],
                    l as u64,
                    raw@[256 * i + l],
                ) by {
                if i == at {
                    assert(raw_edge(states@, escapes@, source, l as u64, raw@[256 * at + l]));
                }
            }
        }
        at = at + 1;
        if states.len() + escapes.len() >= 65535 {
            proof {
                assert forall|all: Seq<Prefix>, common: nat, edges: Seq<(u32, u32)>| !#[trigger] table_of_states(all, common, edges) by {
                    if table_of_states(all, common, edges) {
                        assert(begins(states@, escapes@, raw@, all, common, edges));
                    }
                }
            }
            return None;
        }
    }
    let common = states.len();
    let mut all = states;
    let ghost table = all@;
    let mut e: usize = 0;
    while e < escapes.len()
        invariant
            e <= escapes@.len(),
            all@ == table + escapes@.take(e as int),
        decreases escapes@.len() - e,
    {
        all.push(escapes[e]);
        proof {
            assert(escapes@.take(e + 1) =~= escapes@.take(e as int).push(escapes@[e as int]));
        }
        e = e + 1;
    }
    proof {
        assert(escapes@.take(escapes@.len() as int) =~= escapes@);
    }
    let mut edges: Vec<(u32, u32)> = Vec::new();
    let mut x: usize = 0;
    while x < raw.len()
        invariant
            common == table.len(),
            all@ == table + escapes@,
            x <= raw@.len(),
            raw@.len() == 256 * common,
            edges@.len() == x,
            all@.len() < 65535,
            forall|y: int|
                0 <= y < x ==> #[trigger] edges@[y].1 == raw@[y].1 && (if raw@[y].0 < 0x8000_0000 {
                    edges@[y].0 == raw@[y].0
                } else {
                    edges@[y].0 == common + raw@[y].0 - 0x8000_0000
                }),
        decreases raw@.len() - x,
    {
        let (id, w) = raw[x];
        let endpoint: u32 = if id < 0x8000_0000 {
            id
        } else {
            (common as u32) + (id - 0x8000_0000)
        };
        edges.push((endpoint, w));
        x = x + 1;
    }
    proof {
        assert forall|y: int| 0 <= y < raw@.len() implies if raw@[y].0 < 0x8000_0000 {
            #[trigger] edges@[y].0 == raw@[y].0
        } else {
            edges@[y].0 == table.len() + raw@[y].0 - 0x8000_0000
        } by {
            assert(edges@[y].1 == raw@[y].1);
        }
        lemma_discovery_edges(raw@, edges@, table, escapes@, all@);
        assert forall|i: int, low: int| 0 <= i < common && 0 <= low < 256 implies #[trigger] edge_to(
            all@,
            all@[i],
            low as u64,
            edges@[256 * i + low],
        ) by {
            assert(0 <= 256 * i + low < 256 * common) by (nonlinear_arith)
                requires
                    0 <= i < common,
                    0 <= low < 256,
            ;
            let y = 256 * i + low;
            assert(raw_edge(table, escapes@, table[i], low as u64, raw@[y]));
            assert(all@[i] == table[i]);
            assert(edges@[y].1 == raw@[y].1);
            if raw@[y].0 >= 0x8000_0000 {
                assert(all@[common + raw@[y].0 - 0x8000_0000] == escapes@[raw@[y].0 - 0x8000_0000]);
            } else {
                assert(all@[raw@[y].0 as int] == table[raw@[y].0 as int]);
            }
        }
        assert forall|i: int| 0 <= i < all@.len() implies #[trigger] keyable(all@[i]) by {
            if i >= common {
                assert(all@[i] == escapes@[i - common]);
            }
        }
        assert forall|i: int| 0 <= i < all@.len() implies (#[trigger] common_state(all@[i]) <==> i
            < common) by {
            if i >= common {
                assert(all@[i] == escapes@[i - common]);
            }
        }
        assert forall|i: int, j: int|
            0 <= i < all@.len() && 0 <= j < all@.len() && i != j implies #[trigger] key_of(all@[i])
                != #[trigger] key_of(all@[j]) by {
            if i < common && j < common {
                lemma_filed_distinct(ids@, table, i, j);
            } else if i >= common && j >= common {
                assert(all@[i] == escapes@[i - common]);
                assert(all@[j] == escapes@[j - common]);
                lemma_filed_distinct(escape_ids@, escapes@, i - common, j - common);
            } else {
                if i >= common {
                    assert(all@[i] == escapes@[i - common]);
                    assert(all@[j] == table[j]);
                    assert(keyable(escapes@[i - common]));
                    assert(keyable(table[j]));
                    assert(!common_state(escapes@[i - common]));
                    assert(common_state(table[j]));
                } else {
                    assert(all@[j] == escapes@[j - common]);
                    assert(all@[i] == table[i]);
                    assert(keyable(escapes@[j - common]));
                    assert(keyable(table[i]));
                    assert(!common_state(escapes@[j - common]));
                    assert(common_state(table[i]));
                }
                if key_of(all@[i]) == key_of(all@[j]) {
                    lemma_key_injective(all@[i], all@[j]);
                }
            }
        }
    }
    Some((all, common, edges))
}


/// Whether `h` is a power of two.
pub open spec fn power_of_two(h: nat) -> bool
    decreases h,
{
    if h <= 1 {
        h == 1
    } else {
        h % 2 == 0 && power_of_two(h / 2)
    }
}

/// The least power of two that is at least `n`.
pub open spec fn least_power_at_least(h: nat, n: nat) -> bool {
    power_of_two(h) && h >= n && (h == 1 || h / 2 < n)
}

/// The slot a state's probe visits at distance `p`.
pub open spec fn probe_slot(s: Prefix, p: int, h: nat) -> int {
    (hash_of(key_of(s) as u64) + p) % (h as int)
}

/// State `i` sits `p` probes from its start, behind slots that hold earlier states only.
pub open spec fn found_at(all: Seq<Prefix>, slots: Seq<u32>, i: int, p: int) -> bool {
    &&& 0 <= p
    &&& slots[probe_slot(all[i], p, slots.len())] == i + 1
    &&& forall|q: int| 0 <= q < p ==> 1 <= slots[#[trigger] probe_slot(all[i], q, slots.len())] <= i
}

/// The state slot `j` holds is found there.
pub open spec fn slot_owned(all: Seq<Prefix>, slots: Seq<u32>, j: int) -> bool {
    exists|p: int| #[trigger] found_at(all, slots, slots[j] - 1, p) && probe_slot(all[slots[j] - 1], p, slots.len()) == j
}

/// The open-addressing table the `common` table states fill when filed one after another
/// by linear probing from their hashes: slot values are `0` (free) or one more than a state
/// index, each state sits within `max_probe` probes behind slots holding earlier states
/// only, every filled slot holds the state found there, and some state needs all
/// `max_probe` probes.
pub open spec fn hashed(all: Seq<Prefix>, common: nat, slots: Seq<u32>, max_probe: nat) -> bool {
    &&& slots.len() > 0
    &&& max_probe <= slots.len()
    &&& forall|j: int| 0 <= j < slots.len() ==> #[trigger] slots[j] <= common
    &&& forall|j: int| 0 <= j < slots.len() && slots[j] != 0 ==> #[trigger] slot_owned(all, slots, j)
    &&& forall|i: int| 0 <= i < common ==> #[trigger] probed(all, slots, i, max_probe)
    &&& exists|i: int| 0 <= i < common && #[trigger] found_at(all, slots, i, max_probe - 1)
}

/// State `i` is found within `max_probe` probes.
pub open spec fn probed(all: Seq<Prefix>, slots: Seq<u32>, i: int, max_probe: nat) -> bool {
    exists|p: int| p < max_probe && #[trigger] found_at(all, slots, i, p)
}

/// The least power of two at least `n`.
fn next_power(n: usize) -> (h: usize)
    requires
        1 <= n <= 0x4_0000,
    ensures
        least_power_at_least(h as nat, n as nat),
        h < 2 * n,
{
    let mut h: usize = 1;
    while h < n
        invariant
            power_of_two(h as nat),
            h == 1 || h / 2 < n,
            1 <= h < 2 * n,
            n <= 0x4_0000,
        decreases 2 * n - h,
    {
        proof {
            assert(power_of_two((2 * h) as nat)) by {
                assert((2 * h) as nat / 2 == h as nat);
            }
        }
        h = 2 * h;
    }
    h
}

proof fn lemma_probe_covers(start: int, j: int, h: int)
    requires
        h > 0,
        0 <= j < h,
        start >= 0,
    ensures
        (start + (j - start) % h) % h == j,
        0 <= (j - start) % h < h,
{
    vstd::arithmetic::div_mod::lemma_add_mod_noop_right(start, j - start, h);
    vstd::arithmetic::div_mod::lemma_mod_bound(j - start, h);
    vstd::arithmetic::div_mod::lemma_small_mod(j as nat, h as nat);
}

/// Slots that all hold distinct values in `1..=count` number at most `count`.
proof fn lemma_full_slots_bound(slots: Seq<u32>, owner: spec_fn(u32) -> int, count: nat)
    requires
        forall|j: int| 0 <= j < slots.len() ==> 1 <= #[trigger] slots[j] <= count,
        forall|j: int| 0 <= j < slots.len() ==> owner(#[trigger] slots[j]) == j,
    ensures
        slots.len() <= count,
{
    let size = slots.len() as int;
    let xs = vstd::set_lib::set_int_range(0, size);
    let f = |j: int| slots[j] - 1;
    vstd::set_lib::lemma_int_range(0, size);
    vstd::set_lib::lemma_int_range(0, count as int);
    assert(vstd::relations::injective_on(f, xs)) by {
        assert forall|a: int, b: int| xs.contains(a) && xs.contains(b) && #[trigger] f(a) == #[trigger] f(b) implies a == b by {
            assert(owner(slots[a]) == a);
            assert(owner(slots[b]) == b);
        }
    }
    vstd::set_lib::lemma_map_size(xs, xs.map(f), f);
    assert(xs.map(f).subset_of(vstd::set_lib::set_int_range(0, count as int))) by {
        assert forall|v: int| #[trigger] xs.map(f).contains(v) implies vstd::set_lib::set_int_range(0, count as int).contains(v) by {
            let j = choose|j: int| xs.contains(j) && f(j) == v;
        }
    }
    vstd::set_lib::lemma_len_subset(xs.map(f), vstd::set_lib::set_int_range(0, count as int));
}

/// States `0..i` filed in order: state `k` sits `pos[k]` probes from its start, and each
/// filled slot holds one of them, found there.
spec fn filed_in_order(all: Seq<Prefix>, slots: Seq<u32>, pos: Seq<int>, i: int) -> bool {
    &&& forall|k: int| 0 <= k < i ==> #[trigger] found_at(all, slots, k, pos[k])
    &&& forall|j: int| 0 <= j < slots.len() ==> (#[trigger] slots[j] == 0 || (1 <= slots[j] <= i
        && probe_slot(all[slots[j] - 1], pos[slots[j] - 1], slots.len()) == j))
}

/// Filing state `i` in the first free slot of its probe keeps the states filed in order.
proof fn lemma_file_next(all: Seq<Prefix>, before: Seq<u32>, after: Seq<u32>, pos: Seq<int>, i: int, size: nat)
    requires
        0 <= i,
        size == before.len(),
        pos.len() == i + 1,
        0 <= pos[i] < size,
        filed_in_order(all, before, pos.take(i), i),
        before[probe_slot(all[i], pos[i], size)] == 0,
        forall|q: int| 0 <= q < pos[i] ==> before[#[trigger] probe_slot(all[i], q, size)] != 0,
        after == before.update(probe_slot(all[i], pos[i], size), (i + 1) as u32),
        i + 1 <= u32::MAX,
    ensures
        filed_in_order(all, after, pos, i + 1),
{
    let slot = probe_slot(all[i], pos[i], size);
    assert(0 <= slot < size);
    assert forall|k: int| 0 <= k < i + 1 implies #[trigger] found_at(all, after, k, pos[k]) by {
        if k < i {
            assert(pos.take(i)[k] == pos[k]);
            assert(found_at(all, before, k, pos[k]));
            assert forall|q: int| 0 <= q < pos[k] implies 1 <= after[#[trigger] probe_slot(all[k], q, after.len())] <= k by {
                assert(1 <= before[probe_slot(all[k], q, size)] <= k);
            }
            assert(after[probe_slot(all[k], pos[k], size)] == k + 1);
        } else {
            assert forall|q: int| 0 <= q < pos[k] implies 1 <= after[#[trigger] probe_slot(all[k], q, after.len())] <= k by {
                let j = probe_slot(all[k], q, size);
                assert(0 <= j < size);
                assert(before[j] != 0);
                assert(before[j] == 0 || 1 <= before[j] <= i);
            }
        }
    }
    assert forall|j: int| 0 <= j < after.len() implies (#[trigger] after[j] == 0 || (1 <= after[j] <= i + 1
        && probe_slot(all[after[j] - 1], pos[after[j] - 1], after.len()) == j)) by {
        if j != slot {
            assert(after[j] == before[j]);
            if before[j] != 0 {
                assert(pos.take(i)[before[j] - 1] == pos[before[j] - 1]);
            }
        }
    }
}

/// Files each table state in an open-addressing table of the least power of two at
/// least four times their number, by linear probing from its hash.  Returns the slots
/// and the longest probe.
fn place(all: &Vec<Prefix>, common: usize) -> (r: (Vec<u32>, usize))
    requires
        2 <= common <= all@.len() < 65535,
        forall|i: int| 0 <= i < all@.len() ==> #[trigger] keyable(all@[i]),
    ensures
        least_power_at_least(r.0@.len(), 4 * common as nat),
        hashed(all@, common as nat, r.0@, r.1 as nat),
{
    let size = next_power(4 * common);
    let mut slots: Vec<u32> = Vec::new();
    while slots.len() < size
        invariant
            slots@.len() <= size,
            forall|j: int| 0 <= j < slots@.len() ==> #[trigger] slots@[j] == 0,
        decreases size - slots@.len(),
    {
        slots.push(0);
    }
    let mut max_probe: usize = 0;
    let ghost mut pos: Seq<int> = Seq::empty();
    let mut i: usize = 0;
    while i < common
        invariant
            i <= common,
            common <= all@.len() < 65535,
            forall|k: int| 0 <= k < all@.len() ==> #[trigger] keyable(all@[k]),
            slots@.len() == size,
            4 * common <= size < 8 * common,
            max_probe <= size,
            pos.len() == i,
            forall|k: int| 0 <= k < i ==> #[trigger] pos[k] < max_probe,
            filed_in_order(all@, slots@, pos, i as int),
            i == 0 ==> max_probe == 0,
            i > 0 ==> exists|k: int| 0 <= k < i && #[trigger] pos[k] + 1 == max_probe,
        decreases common - i,
    {
        let start = hash(encode(all[i])) as u64;
        let ghost h0 = hash_of(key_of(all@[i as int]) as u64) as int;
        let mut probe: usize = 0;
        while probe < size && slots[((start + probe as u64) % size as u64) as usize] != 0
            invariant
                probe <= size,
                size < 0x10_0000,
                start == h0,
                0 <= h0 < 0x1_0000_0000,
                slots@.len() == size,
                forall|q: int| 0 <= q < probe ==> #[trigger] slots@[(h0 + q) % (size as int)] != 0,
            decreases size - probe,
        {
            probe = probe + 1;
        }
        proof {
            if probe == size {
                assert forall|j: int| 0 <= j < size implies 1 <= #[trigger] slots@[j] <= i by {
                    assert(slots@[j] == 0 || 1 <= slots@[j] <= i);
                    lemma_probe_covers(h0, j, size as int);
                    assert(slots@[(h0 + (j - h0) % (size as int)) % (size as int)] != 0);
                }
                let owner = |v: u32| probe_slot(all@[v - 1], pos[v - 1], size as nat);
                lemma_full_slots_bound(slots@, owner, i as nat);
            }
        }
        let slot = ((start + probe as u64) % size as u64) as usize;
        let ghost before = slots@;
        let ghost max_before = max_probe;
        slots.set(slot, (i + 1) as u32);
        if probe + 1 > max_probe {
            max_probe = probe + 1;
        }
        proof {
            let pos_before = pos;
            pos = pos.push(probe as int);
            assert(pos.take(i as int) =~= pos_before);
            if i > 0 && max_probe == max_before {
                let k0 = choose|k: int| 0 <= k < i && #[trigger] pos_before[k] + 1 == max_before;
                assert(pos[k0] == pos_before[k0]);
                assert(pos[k0] + 1 == max_probe);
            } else {
                assert(pos[i as int] + 1 == max_probe);
            }
            assert(probe_slot(all@[i as int], probe as int, size as nat) == slot);
            assert forall|q: int| 0 <= q < probe implies before[#[trigger] probe_slot(all@[i as int], q, size as nat)] != 0 by {
                assert(before[(h0 + q) % (size as int)] != 0);
            }
            lemma_file_next(all@, before, slots@, pos, i as int, size as nat);
        }
        i = i + 1;
    }
    proof {
        assert forall|j: int| 0 <= j < slots@.len() implies #[trigger] slots@[j] <= common by {}
        assert forall|k: int| 0 <= k < common implies #[trigger] probed(all@, slots@, k, max_probe as nat) by {
            assert(pos[k] < max_probe && found_at(all@, slots@, k, pos[k]));
        }
        assert forall|j: int| 0 <= j < slots@.len() && slots@[j] != 0 implies #[trigger] slot_owned(all@, slots@, j) by {
            let v = slots@[j] - 1;
            assert(1 <= slots@[j] <= common && probe_slot(all@[v], pos[v], size as nat) == j);
            assert(found_at(all@, slots@, v, pos[v]));
        }
        let k0 = choose|k: int| 0 <= k < common && #[trigger] pos[k] + 1 == max_probe;
        assert(found_at(all@, slots@, k0, max_probe - 1));
    }
    (slots, max_probe)
}


/// The little-endian 32-bit word at word index `i` of a byte string.
pub open spec fn word_at(b: Seq<u8>, i: int) -> int {
    b[4 * i] + 0x100 * b[4 * i + 1] + 0x1_0000 * b[4 * i + 2] + 0x100_0000 * b[4 * i + 3]
}

/// The sixteen header words of the table.
pub open spec fn header_words(common: nat, total: nat, size: nat, max_probe: nat) -> Seq<int> {
    seq![
        0x42544641int,
        2,
        common as int,
        total as int,
        size as int,
        8,
        8,
        16 + 2 * total as int,
        8 + total as int + size as int / 2,
        14,
        max_probe as int,
        32,
        1,
        16,
        0,
        0,
    ]
}

/// The byte layout of the table: the header; the key of every state as two words, table
/// states first; the slots; then the edge words, each an endpoint plus its weight.
pub open spec fn laid_out(
    b: Seq<u8>,
    all: Seq<Prefix>,
    common: nat,
    slots: Seq<u32>,
    max_probe: nat,
    edges: Seq<(u32, u32)>,
) -> bool {
    let t = all.len();
    let h = slots.len();
    &&& b.len() == 64 + 8 * t + 4 * h + 4 * edges.len()
    &&& forall|k: int| 0 <= k < 16 ==> #[trigger] word_at(b, k) == header_words(common, t, h, max_probe)[k]
    &&& forall|i: int|
        0 <= i < t ==> #[trigger] word_at(b, 16 + 2 * i) + 0x1_0000_0000 * word_at(b, 17 + 2 * i)
            == key_of(all[i])
    &&& forall|j: int| 0 <= j < h ==> #[trigger] word_at(b, 16 + 2 * t + j) == slots[j]
    &&& forall|e: int|
        0 <= e < edges.len() ==> #[trigger] word_at(b, 16 + 2 * t + h + e) == edges[e].0
            + edges[e].1
}

/// The whole transducer table: the explored states and edges, numbered in the order the
/// edges first reach them, their hash slots, and the bytes that lay them out.
pub open spec fn transducer_table(
    b: Seq<u8>,
    all: Seq<Prefix>,
    common: nat,
    slots: Seq<u32>,
    max_probe: nat,
    edges: Seq<(u32, u32)>,
) -> bool {
    &&& explored(all, common, edges)
    &&& numbered_by_discovery(all, common, edges)
    &&& least_power_at_least(slots.len(), 4 * common)
    &&& hashed(all, common, slots, max_probe)
    &&& laid_out(b, all, common, slots, max_probe, edges)
}

/// Whether bytes lay out some transducer table (see `transducer_table`).
pub open spec fn is_transducer_table(b: Seq<u8>) -> bool {
    exists|all: Seq<Prefix>, common: nat, slots: Seq<u32>, max_probe: nat, edges: Seq<(u32, u32)>|
        #[trigger] transducer_table(b, all, common, slots, max_probe, edges)
}

/// Appends a word's four bytes, lowest first.
fn push_word(bytes: &mut Vec<u8>, x: u32)
    ensures
        final(bytes)@.len() == old(bytes)@.len() + 4,
        forall|k: int| 0 <= k < old(bytes)@.len() ==> #[trigger] final(bytes)@[k] == old(bytes)@[k],
        final(bytes)@[old(bytes)@.len() as int] + 0x100 * final(bytes)@[old(bytes)@.len() as int + 1]
            + 0x1_0000 * final(bytes)@[old(bytes)@.len() as int + 2]
            + 0x100_0000 * final(bytes)@[old(bytes)@.len() as int + 3] == x,
{
    let b0 = (x & 0xff) as u8;
    let b1 = ((x >> 8u32) & 0xff) as u8;
    let b2 = ((x >> 16u32) & 0xff) as u8;
    let b3 = (x >> 24u32) as u8;
    assert(b0 + 0x100 * b1 + 0x1_0000 * b2 + 0x100_0000 * b3 == x) by (bit_vector)
        requires
            b0 == (x & 0xff) as u8,
            b1 == ((x >> 8u32) & 0xff) as u8,
            b2 == ((x >> 16u32) & 0xff) as u8,
            b3 == (x >> 24u32) as u8,
    ;
    bytes.push(b0);
    bytes.push(b1);
    bytes.push(b2);
    bytes.push(b3);
}

/// The bytes of words, each lowest byte first.
fn word_bytes(words: &Vec<u32>) -> (b: Vec<u8>)
    requires
        words@.len() < 0x1000_0000,
    ensures
        b@.len() == 4 * words@.len(),
        forall|k: int| 0 <= k < words@.len() ==> #[trigger] word_at(b@, k) == words@[k],
{
    let mut b: Vec<u8> = Vec::new();
    let mut k: usize = 0;
    while k < words.len()
        invariant
            k <= words@.len() < 0x1000_0000,
            b@.len() == 4 * k,
            forall|m: int| 0 <= m < k ==> #[trigger] word_at(b@, m) == words@[m],
        decreases words@.len() - k,
    {
        let ghost before = b@;
        push_word(&mut b, words[k]);
        proof {
            assert forall|m: int| 0 <= m < k + 1 implies #[trigger] word_at(b@, m) == words@[m] by {
                if m < k {
                    assert(word_at(before, m) == words@[m]);
                    assert(b@[4 * m] == before[4 * m]);
                    assert(b@[4 * m + 1] == before[4 * m + 1]);
                    assert(b@[4 * m + 2] == before[4 * m + 2]);
                    assert(b@[4 * m + 3] == before[4 * m + 3]);
                }
            }
        }
        k = k + 1;
    }
    b
}

/// Derives the byte-transducer table: explores the states reachable from the two start
/// states by whole bytes, files the table states in a hash table and lays out header,
/// keys, slots and edge rows (see `transducer_table`).  `None` exactly where no such table
/// exists: a reachable table state takes a byte the prefix bounds refuse, an edge weight
/// does not fit, a reachable state cannot be keyed, or 65535 states are reached.
pub fn derive() -> (r: Option<Vec<u8>>)
    ensures
        r matches Some(b) ==> is_transducer_table(b@),
        r is None ==> forall|b: Seq<u8>| !#[trigger] is_transducer_table(b),
{
    let (all, common, edges) = match explore() {
        Some(x) => x,
        None => {
            proof {
                assert forall|b: Seq<u8>| !#[trigger] is_transducer_table(b) by {
                    if is_transducer_table(b) {
                        let (a, c, sl, mp, e) = choose|a: Seq<Prefix>, c: nat, sl: Seq<u32>, mp: nat, e: Seq<(u32, u32)>|
                            #[trigger] transducer_table(b, a, c, sl, mp, e);
                        assert(!table_of_states(a, c, e));
                    }
                }
            }
            return None;
        },
    };
    let (slots, max_probe) = place(&all, common);
    let total = all.len();
    let size = slots.len();
    proof {
        assert(size >= 8);
        assert(size % 2 == 0);
    }
    let mut words: Vec<u32> = Vec::new();
    words.push(0x42544641);
    words.push(2);
    words.push(common as u32);
    words.push(total as u32);
    words.push(size as u32);
    words.push(8);
    words.push(8);
    words.push((16 + 2 * total) as u32);
    words.push((8 + total + size / 2) as u32);
    words.push(14);
    words.push(max_probe as u32);
    words.push(32);
    words.push(1);
    words.push(16);
    words.push(0);
    words.push(0);
    proof {
        assert forall|k: int| 0 <= k < 16 implies #[trigger] words@[k] == header_words(common as nat, total as nat, size as nat, max_probe as nat)[k] by {}
    }
    let mut i: usize = 0;
    while i < total
        invariant
            total == all@.len() < 65535,
            i <= total,
            words@.len() == 16 + 2 * i,
            forall|k: int| 0 <= k < 16 ==> #[trigger] words@[k] == header_words(common as nat, total as nat, size as nat, max_probe as nat)[k],
            forall|m: int| 0 <= m < all@.len() ==> #[trigger] keyable(all@[m]),
            forall|m: int| 0 <= m < i ==> #[trigger] words@[16 + 2 * m] + 0x1_0000_0000 * words@[17 + 2 * m] == key_of(all@[m]),
        decreases total - i,
    {
        let key = encode(all[i]);
        let lo = #[verifier::truncate] ((key & 0xffff_ffff) as u32);
        let hi = #[verifier::truncate] ((key >> 32u64) as u32);
        assert(lo + 0x1_0000_0000 * hi == key) by (bit_vector)
            requires
                lo == (key & 0xffff_ffff) as u32,
                hi == (key >> 32u64) as u32,
        ;
        words.push(lo);
        words.push(hi);
        i = i + 1;
    }
    let mut j: usize = 0;
    while j < size
        invariant
            total == all@.len() < 65535,
            size == slots@.len() < 0x10_0000,
            j <= size,
            words@.len() == 16 + 2 * total + j,
            forall|k: int| 0 <= k < 16 ==> #[trigger] words@[k] == header_words(common as nat, total as nat, size as nat, max_probe as nat)[k],
            forall|m: int| 0 <= m < total ==> #[trigger] words@[16 + 2 * m] + 0x1_0000_0000 * words@[17 + 2 * m] == key_of(all@[m]),
            forall|m: int| 0 <= m < j ==> #[trigger] words@[16 + 2 * total + m] == slots@[m],
        decreases size - j,
    {
        words.push(slots[j]);
        j = j + 1;
    }
    let mut e: usize = 0;
    while e < edges.len()
        invariant
            explored(all@, common as nat, edges@),
            total == all@.len() < 65535,
            size == slots@.len() < 0x10_0000,
            e <= edges@.len(),
            words@.len() == 16 + 2 * total + size + e,
            forall|k: int| 0 <= k < 16 ==> #[trigger] words@[k] == header_words(common as nat, total as nat, size as nat, max_probe as nat)[k],
            forall|m: int| 0 <= m < total ==> #[trigger] words@[16 + 2 * m] + 0x1_0000_0000 * words@[17 + 2 * m] == key_of(all@[m]),
            forall|m: int| 0 <= m < size ==> #[trigger] words@[16 + 2 * total + m] == slots@[m],
            forall|m: int| 0 <= m < e ==> #[trigger] words@[16 + 2 * total + size + m] == edges@[m].0 + edges@[m].1,
        decreases edges@.len() - e,
    {
        let (endpoint, w) = edges[e];
        proof {
            let i = e as int / 256;
            let low = e as int % 256;
            assert(0 <= i < common && e == 256 * i + low) by (nonlinear_arith)
                requires
                    0 <= e < 256 * common,
                    i == e as int / 256,
                    low == e as int % 256,
            ;
            assert(edge_to(all@, all@[i], low as u64, edges@[256 * i + low]));
        }
        words.push(endpoint + w);
        e = e + 1;
    }
    let bytes = word_bytes(&words);
    proof {
        let b = bytes@;
        assert forall|m: int| 0 <= m < total implies #[trigger] word_at(b, 16 + 2 * m) + 0x1_0000_0000 * word_at(b, 17 + 2 * m) == key_of(all@[m]) by {
            assert(words@[16 + 2 * m] + 0x1_0000_0000 * words@[17 + 2 * m] == key_of(all@[m]));
        }
        assert(laid_out(b, all@, common as nat, slots@, max_probe as nat, edges@));
        assert(transducer_table(b, all@, common as nat, slots@, max_probe as nat, edges@));
        assert(is_transducer_table(b));
    }
    Some(bytes)
}

} // verus!
