//! What one side of the symbolic tape holds at a given `n`: its finite digits, then each
//! block's word repeated its count at `n` times up to the first suffix marker, then zeros;
//! and the laws that popping, normalizing and prepending read and keep those digits, and
//! what the shape checks (aligned blocks, pairs, paired sides, the final shape) read.
use crate::linear::{at, constant, least_n, Linear};
use crate::stack::{
    digits_block, folded, kept_parts, lemma_root_bounds, merged, root_from, normalize_spec, periodic,
    pop_spec, positive, prepend_spec, reduced, root_len, trimmed_blocks,
    trimmed_digits, void_block, zero_block, all_zero, BlockView, StackView, Run, run_block,
    boundary_spec, runs_spec, runs_from, run_step, pushed_run, eaten, aligned_spec, shape_accepts,
    Shape, pairs_from, matches_spec, powers_weight, lemma_pop_two_shrinks,
    lemma_aligned_shrinks,
};
use crate::linear::{linear_sum, linear_scaled};
use crate::linear::{decides, fits, margin_fits, at_least};
use crate::stack::{blank_view, pops, paired_spec, paired_from, paired_step, walk_odd, strided_ones};
use crate::derivation::{final_head, k_shape_spec, popped, TapeView};
use vstd::prelude::*;

verus! {

/// `d` written `k` times.
pub open spec fn repeat(d: Seq<u32>, k: nat) -> Seq<u32>
    decreases k,
{
    if k == 0 {
        seq![]
    } else {
        d + repeat(d, (k - 1) as nat)
    }
}

/// The digits the blocks spell at `n`, up to the first suffix marker repeated at least
/// once, and whether one is reached.
pub open spec fn spelled(powers: Seq<BlockView>, n: int) -> (Seq<u32>, bool)
    decreases powers.len(),
{
    if powers.len() == 0 {
        (seq![], false)
    } else {
        match powers[0].word {
            None => if at(powers[0].count, n) == 0 {
                spelled(powers.drop_first(), n)
            } else {
                (seq![], true)
            },
            Some(d) => {
                let rest = spelled(powers.drop_first(), n);
                (repeat(d, at(powers[0].count, n) as nat) + rest.0, rest.1)
            },
        }
    }
}

/// The digit at position `i` of digits `all` followed by zeros, or by the unknown where
/// `suffix` holds.
pub open spec fn read_at(all: Seq<u32>, suffix: bool, i: int) -> Option<u32> {
    if i < all.len() {
        Some(all[i])
    } else if suffix {
        None
    } else {
        Some(0)
    }
}

/// The digit at position `i` of a side at `n`: `None` past a suffix marker, zero after the
/// last block.
pub open spec fn tape_digit(v: StackView, n: int, i: int) -> Option<u32> {
    read_at(v.finite + spelled(v.powers, n).0, spelled(v.powers, n).1, i)
}

/// Every block's count is at least zero at `n`.
pub open spec fn counts_natural(powers: Seq<BlockView>, n: int) -> bool {
    forall|i: int| 0 <= i < powers.len() ==> at(#[trigger] powers[i].count, n) >= 0
}

proof fn lemma_repeat_add(d: Seq<u32>, a: nat, b: nat)
    ensures
        repeat(d, a + b) == repeat(d, a) + repeat(d, b),
    decreases a,
{
    if a == 0 {
        assert(repeat(d, 0) + repeat(d, b) =~= repeat(d, b));
    } else {
        lemma_repeat_add(d, (a - 1) as nat, b);
        assert((a + b - 1) as nat == (a - 1) as nat + b);
        assert(d + (repeat(d, (a - 1) as nat) + repeat(d, b)) =~= (d + repeat(d, (a - 1) as nat)) + repeat(d, b));
    }
}

proof fn lemma_repeat_mul(r: Seq<u32>, f: nat, c: nat)
    ensures
        repeat(repeat(r, f), c) == repeat(r, f * c),
    decreases c,
{
    if c == 0 {
        assert(f * 0 == 0) by (nonlinear_arith);
    } else {
        lemma_repeat_mul(r, f, (c - 1) as nat);
        assert(f * c == f + f * (c - 1)) by (nonlinear_arith)
            requires
                c >= 1,
        ;
        lemma_repeat_add(r, f, f * (c - 1) as nat);
    }
}

proof fn lemma_repeat_empty(k: nat)
    ensures
        repeat(Seq::<u32>::empty(), k) == Seq::<u32>::empty(),
    decreases k,
{
    if k > 0 {
        lemma_repeat_empty((k - 1) as nat);
        assert(Seq::<u32>::empty() + Seq::<u32>::empty() =~= Seq::<u32>::empty());
    }
}

proof fn lemma_repeat_len(d: Seq<u32>, k: nat)
    ensures
        repeat(d, k).len() == d.len() * k,
    decreases k,
{
    if k > 0 {
        lemma_repeat_len(d, (k - 1) as nat);
        assert(d.len() * k == d.len() + d.len() * (k - 1)) by (nonlinear_arith)
            requires
                k >= 1,
        ;
    } else {
        assert(d.len() * 0 == 0) by (nonlinear_arith);
    }
}

proof fn lemma_repeat_index(r: Seq<u32>, k: nat, i: int)
    requires
        r.len() > 0,
        0 <= i < r.len() * k,
    ensures
        repeat(r, k)[i] == r[i % r.len() as int],
    decreases k,
{
    lemma_repeat_len(r, k);
    if k > 0 {
        lemma_repeat_len(r, (k - 1) as nat);
        if i < r.len() {
            vstd::arithmetic::div_mod::lemma_small_mod(i as nat, r.len());
        } else {
            assert(i - r.len() < r.len() * (k - 1)) by (nonlinear_arith)
                requires
                    i < r.len() * k,
                    k >= 1,
            ;
            lemma_repeat_index(r, (k - 1) as nat, i - r.len());
            vstd::arithmetic::div_mod::lemma_mod_sub_multiples_vanish(i, r.len() as int);
        }
    }
}

proof fn lemma_periodic_repeat(w: Seq<u32>, s: nat)
    requires
        periodic(w, s),
    ensures
        w == repeat(w.take(s as int), w.len() / s),
{
    let r = w.take(s as int);
    let k = w.len() / s;
    vstd::arithmetic::div_mod::lemma_fundamental_div_mod(w.len() as int, s as int);
    assert(w.len() == s * k);
    assert(s <= w.len() || w.len() == 0) by (nonlinear_arith)
        requires
            w.len() == s * k,
            s > 0,
    ;
    if w.len() == 0 {
        assert(k == 0);
        assert(w =~= repeat(r, 0));
    } else {
        lemma_repeat_len(r, k);
        assert(r.len() == s);
        assert forall|i: int| 0 <= i < w.len() implies w[i] == repeat(r, k)[i] by {
            lemma_repeat_index(r, k, i);
            vstd::arithmetic::div_mod::lemma_mod_bound(i, s as int);
        }
        assert(w =~= repeat(r, k));
    }
}

proof fn lemma_repeat_zero(d: Seq<u32>, k: nat)
    requires
        all_zero(d),
    ensures
        all_zero(repeat(d, k)),
    decreases k,
{
    if k > 0 {
        lemma_repeat_zero(d, (k - 1) as nat);
    }
}

/// The blocks of `x` then `y` spell what `x` spells, then (unless `x` reaches a suffix
/// marker) what `y` spells.
proof fn lemma_spelled_concat(x: Seq<BlockView>, y: Seq<BlockView>, n: int)
    ensures
        spelled(x + y, n) == if spelled(x, n).1 {
            spelled(x, n)
        } else {
            (spelled(x, n).0 + spelled(y, n).0, spelled(y, n).1)
        },
    decreases x.len(),
{
    if x.len() == 0 {
        assert(x + y =~= y);
        assert(Seq::<u32>::empty() + spelled(y, n).0 =~= spelled(y, n).0);
    } else {
        assert((x + y).drop_first() =~= x.drop_first() + y);
        assert((x + y)[0] == x[0]);
        lemma_spelled_concat(x.drop_first(), y, n);
        match x[0].word {
            None => {},
            Some(d) => {
                let c = at(x[0].count, n) as nat;
                let t = spelled(x.drop_first(), n);
                assert(repeat(d, c) + (t.0 + spelled(y, n).0) =~= (repeat(d, c) + t.0) + spelled(y, n).0);
            },
        }
    }
}

/// What one block spells.
proof fn lemma_spelled_one(b: BlockView, n: int)
    ensures
        spelled(seq![b], n) == match b.word {
            None => if at(b.count, n) == 0 {
                (Seq::<u32>::empty(), false)
            } else {
                (Seq::<u32>::empty(), true)
            },
            Some(d) => (repeat(d, at(b.count, n) as nat), false),
        },
{
    assert(seq![b].drop_first() =~= Seq::<BlockView>::empty());
    assert(seq![b][0] == b);
    assert(spelled(Seq::<BlockView>::empty(), n) == (Seq::<u32>::empty(), false));
    match b.word {
        None => {},
        Some(d) => {
            assert(repeat(d, at(b.count, n) as nat) + Seq::<u32>::empty() =~= repeat(d, at(b.count, n) as nat));
        },
    }
}

/// A block over its primitive root spells what the block spells.
proof fn lemma_reduced_spells(b: BlockView, n: int)
    requires
        reduced(b) is Some,
        at(b.count, n) >= 0,
        !void_block(b),
    ensures
        reduced(b) matches Some(p) && spelled(seq![p], n).0 == spelled(seq![b], n).0 && spelled(
            seq![p],
            n,
        ).1 == spelled(seq![b], n).1 && at(p.count, n) >= 0,
{
    let p = reduced(b).unwrap();
    lemma_spelled_one(b, n);
    lemma_spelled_one(p, n);
    match b.word {
        None => {
            assert(p == b);
        },
        Some(w) => {
            if w.len() == 0 {
                assert(w =~= Seq::<u32>::empty());
            }
            assert(w.len() > 0);
            let s = root_len(w);
            lemma_root_bounds(w, 1);
            let f = w.len() / s;
            let c = at(b.count, n);
            assert(at(p.count, n) == f * c) by (nonlinear_arith)
                requires
                    p.count.a == b.count.a * f,
                    p.count.b == b.count.b * f,
                    c == b.count.a * n + b.count.b,
            ;
            assert(f * c >= 0) by (nonlinear_arith)
                requires
                    f >= 0,
                    c >= 0,
            ;
            if s == w.len() {
                vstd::arithmetic::div_mod::lemma_div_by_self(w.len() as int);
                assert(f == 1);
                assert(f * c == c) by (nonlinear_arith)
                    requires
                        f == 1,
                ;
                assert(w.take(s as int) =~= w);
            } else {
                lemma_periodic_repeat(w, s);
                lemma_repeat_mul(w.take(s as int), f, c as nat);
            }
            assert(repeat(w.take(s as int), at(p.count, n) as nat) == repeat(w, c as nat));
        },
    }
}

/// Two block lists spell the same digits at `n` and agree on reaching a suffix marker.
pub open spec fn same_spelling(x: Seq<BlockView>, y: Seq<BlockView>, n: int) -> bool {
    spelled(x, n).0 == spelled(y, n).0 && spelled(x, n).1 == spelled(y, n).1
}

/// Spelling the same digits is kept when the same blocks follow.
proof fn lemma_same_spelling_then(x: Seq<BlockView>, y: Seq<BlockView>, z: Seq<BlockView>, n: int)
    requires
        same_spelling(x, y, n),
    ensures
        same_spelling(x + z, y + z, n),
{
    lemma_spelled_concat(x, z, n);
    lemma_spelled_concat(y, z, n);
}

/// Merging a block into the last one with the same digits spells the same digits.
proof fn lemma_merged_spells(out: Seq<BlockView>, p: BlockView, n: int)
    requires
        merged(out, p) is Some,
        counts_natural(out, n),
        at(p.count, n) >= 0,
    ensures
        merged(out, p) matches Some(o) && same_spelling(o, out.push(p), n) && counts_natural(o, n),
{
    let o = merged(out, p).unwrap();
    if out.len() > 0 && out.last().word == p.word && p.word is Some {
        let x = out.drop_last();
        let l = out.last();
        let d = p.word.unwrap();
        let merged_block = o.last();
        assert(o == x.push(merged_block));
        assert(at(l.count, n) >= 0);
        let cl = at(l.count, n) as nat;
        let cp = at(p.count, n) as nat;
        assert(merged_block.count.a == l.count.a + p.count.a && merged_block.count.b == l.count.b + p.count.b);
        assert(at(merged_block.count, n) == at(l.count, n) + at(p.count, n)) by (nonlinear_arith)
            requires
                merged_block.count.a == l.count.a + p.count.a,
                merged_block.count.b == l.count.b + p.count.b,
        ;
        assert(at(merged_block.count, n) == cl + cp);
        lemma_spelled_one(merged_block, n);
        assert(seq![l, p].drop_first() =~= seq![p]);
        assert(seq![l, p][0] == l);
        lemma_spelled_one(p, n);
        lemma_repeat_add(d, cl, cp);
        assert(spelled(seq![l, p], n).0 =~= repeat(d, cl) + repeat(d, cp));
        assert(same_spelling(seq![merged_block], seq![l, p], n));
        lemma_spelled_concat(x, seq![merged_block], n);
        lemma_spelled_concat(x, seq![l, p], n);
        assert(x + seq![merged_block] =~= o);
        assert(x + seq![l, p] =~= out.push(p));
        assert forall|i: int| 0 <= i < o.len() implies at(#[trigger] o[i].count, n) >= 0 by {
            if i < x.len() {
                assert(o[i] == out[i]);
            }
        }
    } else {
        assert forall|i: int| 0 <= i < o.len() implies at(#[trigger] o[i].count, n) >= 0 by {
            if i < out.len() {
                assert(o[i] == out[i]);
            }
        }
    }
}

/// Folding blocks in (dropping void ones, reducing words to their roots and merging
/// neighbours) spells the same digits.
proof fn lemma_folded_spells(out: Seq<BlockView>, rest: Seq<BlockView>, n: int)
    requires
        folded(out, rest) is Some,
        counts_natural(out, n),
        counts_natural(rest, n),
    ensures
        folded(out, rest) matches Some(o) && same_spelling(o, out + rest, n) && counts_natural(o, n),
    decreases rest.len(),
{
    if rest.len() == 0 {
        assert(out + rest =~= out);
    } else {
        let b = rest[0];
        let tail = rest.drop_first();
        assert(rest =~= seq![b] + tail);
        assert(out + rest =~= (out + seq![b]) + tail);
        assert forall|i: int| 0 <= i < tail.len() implies at(#[trigger] tail[i].count, n) >= 0 by {
            assert(tail[i] == rest[i + 1]);
        }
        assert(at(b.count, n) >= 0);
        if void_block(b) {
            lemma_folded_spells(out, tail, n);
            lemma_spelled_one(b, n);
            if b.count == constant(0) {
                assert(b.count.a == 0 && b.count.b == 0);
                assert(at(b.count, n) == 0) by (nonlinear_arith)
                    requires
                        b.count.a == 0,
                        b.count.b == 0,
                ;
            } else {
                lemma_repeat_empty(at(b.count, n) as nat);
            }
            lemma_spelled_concat(out, seq![b], n);
            assert(same_spelling(out + seq![b], out, n)) by {
                assert(spelled(out, n).0 + Seq::<u32>::empty() =~= spelled(out, n).0);
            }
            lemma_same_spelling_then(out + seq![b], out, tail, n);
        } else {
            let p = reduced(b).unwrap();
            lemma_reduced_spells(b, n);
            lemma_merged_spells(out, p, n);
            let o1 = merged(out, p).unwrap();
            lemma_folded_spells(o1, tail, n);
            lemma_same_spelling_then(o1, out.push(p), tail, n);
            lemma_spelled_concat(out, seq![p], n);
            lemma_spelled_concat(out, seq![b], n);
            assert(out.push(p) =~= out + seq![p]);
            assert(same_spelling(out + seq![p], out + seq![b], n));
            lemma_same_spelling_then(out + seq![p], out + seq![b], tail, n);
        }
    }
}

/// Zeros at the end change no digit where zeros follow anyway.
proof fn lemma_read_zeros(a: Seq<u32>, z: Seq<u32>, i: int)
    requires
        all_zero(z),
        0 <= i,
    ensures
        read_at(a + z, false, i) == read_at(a, false, i),
{
    if a.len() <= i < a.len() + z.len() {
        assert((a + z)[i] == z[i - a.len()]);
    }
}

/// Dropping trailing zero blocks keeps the digits before them, drops only zeros, and
/// reaches a suffix marker exactly when the blocks did.
proof fn lemma_trimmed_spells(out: Seq<BlockView>, n: int)
    requires
        counts_natural(out, n),
    ensures
        ({
            let t = spelled(trimmed_blocks(out), n);
            let s = spelled(out, n);
            &&& t.1 == s.1
            &&& t.0.len() <= s.0.len()
            &&& t.0 == s.0.take(t.0.len() as int)
            &&& all_zero(s.0.skip(t.0.len() as int))
            &&& s.1 ==> t.0.len() == s.0.len()
        }),
        counts_natural(trimmed_blocks(out), n),
    decreases out.len(),
{
    if out.len() > 0 && zero_block(out.last()) {
        let x = out.drop_last();
        let l = out.last();
        assert forall|i: int| 0 <= i < x.len() implies at(#[trigger] x[i].count, n) >= 0 by {
            assert(x[i] == out[i]);
        }
        lemma_trimmed_spells(x, n);
        assert(out =~= x + seq![l]);
        lemma_spelled_concat(x, seq![l], n);
        lemma_spelled_one(l, n);
        let d = l.word.unwrap();
        assert(at(l.count, n) >= 0);
        lemma_repeat_zero(d, at(l.count, n) as nat);
        let t = spelled(trimmed_blocks(out), n);
        let sx = spelled(x, n);
        let so = spelled(out, n);
        if !sx.1 {
            let r = repeat(d, at(l.count, n) as nat);
            assert(so.0 == sx.0 + r);
            assert(so.0.take(t.0.len() as int) =~= sx.0.take(t.0.len() as int));
            assert forall|k: int| 0 <= k < so.0.skip(t.0.len() as int).len() implies #[trigger] so.0.skip(t.0.len() as int)[k] == 0 by {
                let j = k + t.0.len();
                if j < sx.0.len() {
                    assert(sx.0.skip(t.0.len() as int)[k] == 0);
                } else {
                    assert(r[j - sx.0.len()] == 0);
                }
            }
        }
    } else {
        assert(spelled(out, n).0.take(spelled(out, n).0.len() as int) =~= spelled(out, n).0);
        assert(spelled(out, n).0.skip(spelled(out, n).0.len() as int) =~= Seq::<u32>::empty());
    }
}

/// Dropping trailing zero digits leaves a prefix followed only by zeros.
proof fn lemma_trimmed_digits(f: Seq<u32>)
    ensures
        trimmed_digits(f).len() <= f.len(),
        trimmed_digits(f) == f.take(trimmed_digits(f).len() as int),
        all_zero(f.skip(trimmed_digits(f).len() as int)),
    decreases f.len(),
{
    if f.len() > 0 && f.last() == 0 {
        lemma_trimmed_digits(f.drop_last());
        let t = trimmed_digits(f);
        assert(f.drop_last().take(t.len() as int) =~= f.take(t.len() as int));
        assert forall|k: int| 0 <= k < f.skip(t.len() as int).len() implies #[trigger] f.skip(t.len() as int)[k] == 0 by {
            if k + t.len() < f.len() - 1 {
                assert(f.drop_last().skip(t.len() as int)[k] == 0);
            }
        }
    } else {
        assert(f.take(f.len() as int) =~= f);
        assert(f.skip(f.len() as int) =~= Seq::<u32>::empty());
    }
}

/// Law: normalizing a side keeps every digit it holds, at every `n` at which its counts are
/// natural numbers.
pub proof fn lemma_normalize_keeps_digits(v: StackView, n: int, i: int)
    requires
        normalize_spec(v) is Some,
        counts_natural(v.powers, n),
        0 <= i,
    ensures
        normalize_spec(v) matches Some(w) && tape_digit(w, n, i) == tape_digit(v, n, i)
            && counts_natural(w.powers, n),
{
    let o = folded(seq![], v.powers).unwrap();
    lemma_folded_spells(seq![], v.powers, n);
    assert(Seq::<BlockView>::empty() + v.powers =~= v.powers);
    lemma_trimmed_spells(o, n);
    let p = trimmed_blocks(o);
    let w = normalize_spec(v).unwrap();
    let sv = spelled(v.powers, n);
    let sp = spelled(p, n);
    assert(sp.0 == sv.0.take(sp.0.len() as int));
    let z = sv.0.skip(sp.0.len() as int);
    assert(sv.0 =~= sp.0 + z);
    if p.len() == 0 {
        assert(sp.0 =~= Seq::<u32>::empty());
        assert(!sp.1);
        lemma_trimmed_digits(v.finite);
        let t = trimmed_digits(v.finite);
        let z1 = v.finite.skip(t.len() as int);
        assert(v.finite =~= t + z1);
        assert(v.finite + sv.0 =~= t + (z1 + sv.0));
        assert(all_zero(z1 + sv.0)) by {
            assert forall|k: int| 0 <= k < (z1 + sv.0).len() implies #[trigger] (z1 + sv.0)[k] == 0 by {
                if k >= z1.len() {
                    assert(sv.0[k - z1.len()] == z[k - z1.len()]);
                }
            }
        }
        lemma_read_zeros(t, z1 + sv.0, i);
        assert(w.finite + sp.0 =~= t);
    } else {
        assert(w.finite == v.finite);
        if sv.1 {
            assert(sp.0.len() == sv.0.len());
            assert(sp.0 =~= sv.0);
        } else {
            assert(v.finite + sv.0 =~= (v.finite + sp.0) + z);
            lemma_read_zeros(v.finite + sp.0, z, i);
        }
    }
}

proof fn lemma_read_shift(a: Seq<u32>, suffix: bool, i: int)
    requires
        a.len() > 0,
        0 <= i,
    ensures
        read_at(a.drop_first(), suffix, i) == read_at(a, suffix, i + 1),
{
}

proof fn lemma_positive_at(c: Linear, n: int)
    requires
        positive(c),
        n >= least_n(),
    ensures
        at(c, n) >= 1,
{
    assert(c.a >= 0);
    assert(c.a * n >= 100 * c.a) by (nonlinear_arith)
        requires
            c.a >= 0,
            n >= 100,
    ;
}

/// Law: popping reads a side's first digit and leaves the digits after it, at every
/// `n >= 100` at which its counts are natural numbers.
pub proof fn lemma_pop_reads(v: StackView, n: int, i: int)
    requires
        pop_spec(v) is Some,
        n >= least_n(),
        counts_natural(v.powers, n),
        0 <= i,
    ensures
        pop_spec(v) matches Some((d, w)) && tape_digit(v, n, 0) == Some(d) && tape_digit(w, n, i)
            == tape_digit(v, n, i + 1) && counts_natural(w.powers, n),
{
    let (d, w) = pop_spec(v).unwrap();
    let sv = spelled(v.powers, n);
    if v.finite.len() > 0 {
        assert(w.finite + sv.0 =~= (v.finite + sv.0).drop_first());
        lemma_read_shift(v.finite + sv.0, sv.1, i);
    } else if v.powers.len() == 0 {
        assert(w == v);
    } else {
        let b = v.powers[0];
        let dw = b.word.unwrap();
        let c = at(b.count, n);
        lemma_positive_at(b.count, n);
        let rest = spelled(v.powers.drop_first(), n);
        assert(sv.0 == repeat(dw, c as nat) + rest.0 && sv.1 == rest.1);
        assert(repeat(dw, c as nat) == dw + repeat(dw, (c - 1) as nat));
        assert(v.finite + sv.0 =~= dw + (repeat(dw, (c - 1) as nat) + rest.0));
        if b.count == constant(1) {
            assert(c == 1) by (nonlinear_arith)
                requires
                    b.count.a == 0,
                    b.count.b == 1,
                    c == b.count.a * n + b.count.b,
            ;
            assert(repeat(dw, 0) =~= Seq::<u32>::empty());
            assert(w.finite + spelled(w.powers, n).0 =~= (v.finite + sv.0).drop_first());
            assert forall|k: int| 0 <= k < w.powers.len() implies at(#[trigger] w.powers[k].count, n) >= 0 by {
                assert(w.powers[k] == v.powers[k + 1]);
            }
        } else {
            let nb = w.powers[0];
            assert(at(nb.count, n) == c - 1);
            assert(w.powers.drop_first() =~= v.powers.drop_first());
            assert(spelled(w.powers, n).0 == repeat(dw, (c - 1) as nat) + rest.0);
            assert(w.finite + spelled(w.powers, n).0 =~= (v.finite + sv.0).drop_first());
            assert forall|k: int| 0 <= k < w.powers.len() implies at(#[trigger] w.powers[k].count, n) >= 0 by {
                if k > 0 {
                    assert(w.powers[k] == v.powers[k]);
                }
            }
        }
        lemma_read_shift(v.finite + sv.0, sv.1, i);
    }
}

/// Spelling the same digits is kept by concatenation.
proof fn lemma_same_spelling_concat(a: Seq<BlockView>, a2: Seq<BlockView>, b: Seq<BlockView>, b2: Seq<BlockView>, n: int)
    requires
        same_spelling(a, a2, n),
        same_spelling(b, b2, n),
    ensures
        same_spelling(a + b, a2 + b2, n),
{
    lemma_spelled_concat(a, b, n);
    lemma_spelled_concat(a2, b2, n);
}

/// The parts a prepend keeps spell what all the parts spell.
proof fn lemma_kept_spells(parts: Seq<BlockView>, n: int)
    requires
        kept_parts(parts) is Some,
        counts_natural(parts, n),
    ensures
        kept_parts(parts) matches Some(k) && same_spelling(k, parts, n) && counts_natural(k, n),
    decreases parts.len(),
{
    if parts.len() > 0 {
        let b = parts[0];
        let tail = parts.drop_first();
        assert forall|i: int| 0 <= i < tail.len() implies at(#[trigger] tail[i].count, n) >= 0 by {
            assert(tail[i] == parts[i + 1]);
        }
        lemma_kept_spells(tail, n);
        let kt = kept_parts(tail).unwrap();
        let k = kept_parts(parts).unwrap();
        assert(parts =~= seq![b] + tail);
        lemma_spelled_one(b, n);
        if void_block(b) {
            assert(k == kt);
            if b.count == constant(0) {
                assert(at(b.count, n) == 0) by (nonlinear_arith)
                    requires
                        b.count.a == 0,
                        b.count.b == 0,
                ;
            } else {
                lemma_repeat_empty(at(b.count, n) as nat);
            }
            assert(same_spelling(Seq::<BlockView>::empty(), seq![b], n));
            lemma_same_spelling_concat(Seq::<BlockView>::empty(), seq![b], kt, tail, n);
            assert(Seq::<BlockView>::empty() + kt =~= kt);
        } else {
            assert(k == seq![b] + kt);
            assert(same_spelling(seq![b], seq![b], n));
            lemma_same_spelling_concat(seq![b], seq![b], kt, tail, n);
            assert forall|i: int| 0 <= i < k.len() implies at(#[trigger] k[i].count, n) >= 0 by {
                if i > 0 {
                    assert(k[i] == kt[i - 1]);
                }
            }
        }
    }
}

/// Law: prepending parts to a side writes their digits in front of the side's own, at
/// every `n >= 100` at which the counts are natural numbers.
pub proof fn lemma_prepend_writes(v: StackView, parts: Seq<BlockView>, n: int, i: int)
    requires
        prepend_spec(v, parts) is Some,
        n >= least_n(),
        counts_natural(parts, n),
        counts_natural(v.powers, n),
        0 <= i,
    ensures
        prepend_spec(v, parts) matches Some(w) && tape_digit(w, n, i) == tape_digit(
            StackView {
                finite: seq![],
                powers: parts + seq![digits_block(v.finite, constant(1))] + v.powers,
            },
            n,
            i,
        ) && counts_natural(w.powers, n),
{
    let k = kept_parts(parts).unwrap();
    lemma_kept_spells(parts, n);
    let fb = digits_block(v.finite, constant(1));
    assert(at(fb.count, n) == 1) by (nonlinear_arith)
        requires
            fb.count.a == 0,
            fb.count.b == 1,
    ;
    let tail: Seq<BlockView> = if v.finite.len() > 0 {
        seq![fb] + v.powers
    } else {
        v.powers
    };
    let joined = StackView { finite: seq![], powers: k + tail };
    let target = parts + seq![fb] + v.powers;
    assert(same_spelling(tail, seq![fb] + v.powers, n)) by {
        if v.finite.len() == 0 {
            lemma_spelled_one(fb, n);
            assert(v.finite =~= Seq::<u32>::empty());
            lemma_repeat_empty(1);
            assert(same_spelling(Seq::<BlockView>::empty(), seq![fb], n));
            lemma_same_spelling_concat(Seq::<BlockView>::empty(), seq![fb], v.powers, v.powers, n);
            assert(Seq::<BlockView>::empty() + v.powers =~= v.powers);
        }
    }
    lemma_same_spelling_concat(k, parts, tail, seq![fb] + v.powers, n);
    assert(parts + (seq![fb] + v.powers) =~= target);
    assert forall|j: int| 0 <= j < joined.powers.len() implies at(#[trigger] joined.powers[j].count, n) >= 0 by {
        if j < k.len() {
            assert(joined.powers[j] == k[j]);
        } else if v.finite.len() > 0 && j == k.len() {
            assert(joined.powers[j] == fb);
        } else if v.finite.len() > 0 {
            assert(joined.powers[j] == v.powers[j - k.len() - 1]);
        } else {
            assert(joined.powers[j] == v.powers[j - k.len()]);
        }
    }
    lemma_normalize_keeps_digits(joined, n, i);
    assert(Seq::<u32>::empty() + spelled(joined.powers, n).0 =~= spelled(joined.powers, n).0);
    assert(Seq::<u32>::empty() + spelled(target, n).0 =~= spelled(target, n).0);
}

proof fn lemma_root_at_most(w: Seq<u32>, size: nat, t: nat)
    requires
        1 <= size <= t <= w.len(),
        periodic(w, t),
    ensures
        root_from(w, size) <= t,
    decreases w.len() - size,
{
    if size < w.len() && !periodic(w, size) {
        lemma_root_at_most(w, size + 1, t);
    }
}

/// A word's primitive root is its own primitive root.
#[verifier::spinoff_prover]
#[verifier::rlimit(30)]
proof fn lemma_root_primitive(w: Seq<u32>)
    requires
        w.len() > 0,
    ensures
        root_len(w.take(root_len(w) as int)) == root_len(w),
{
    let s = root_len(w);
    lemma_root_bounds(w, 1);
    let r = w.take(s as int);
    if s == w.len() {
        assert(r =~= w);
    } else {
        lemma_root_bounds(r, 1);
        let t = root_len(r);
        if t < s {
            assert(periodic(r, t));
            let q1 = s / t;
            let q2 = w.len() / s;
            vstd::arithmetic::div_mod::lemma_fundamental_div_mod(s as int, t as int);
            vstd::arithmetic::div_mod::lemma_fundamental_div_mod(w.len() as int, s as int);
            assert(w.len() % t == 0) by {
                assert(w.len() == t * (q1 * q2)) by (nonlinear_arith)
                    requires
                        s == t * q1,
                        w.len() == s * q2,
                ;
                vstd::arithmetic::div_mod::lemma_mod_multiples_basic((q1 * q2) as int, t as int);
                assert(t * (q1 * q2) == (q1 * q2) * t) by (nonlinear_arith);
            }
            assert(q1 > 0) by (nonlinear_arith)
                requires
                    s == t * q1,
                    s > 0,
                    t > 0,
            ;
            assert forall|i: int| 0 <= i < w.len() implies #[trigger] w[i] == w[i % t as int] by {
                vstd::arithmetic::div_mod::lemma_mod_bound(i, s as int);
                vstd::arithmetic::div_mod::lemma_mod_bound(i, t as int);
                vstd::arithmetic::div_mod::lemma_mod_mod(i, t as int, q1 as int);
                assert(w[i] == w[i % s as int]);
                assert(r[i % s as int] == r[(i % s as int) % t as int]);
            }
            assert(periodic(w, t));
            lemma_root_at_most(w, 1, t);
        }
    }
}

/// A count that is a natural number for every `n >= 100`.
pub open spec fn count_natural(c: Linear) -> bool {
    c.a >= 0 && 100 * c.a + c.b >= 0
}

/// A block in canonical form: it repeats something, a natural number of times, over a
/// primitive word.
pub open spec fn canonical_block(b: BlockView) -> bool {
    &&& !void_block(b)
    &&& count_natural(b.count)
    &&& b.word matches Some(d) ==> root_len(d) == d.len()
}

/// Neighbours `i` and `i + 1` do not repeat the same digits.
pub open spec fn neighbours_differ(p: Seq<BlockView>, i: int) -> bool {
    !(p[i].word == p[i + 1].word && p[i].word is Some)
}

/// Blocks in canonical form, no two neighbours repeating the same digits.
pub open spec fn canonical_blocks(p: Seq<BlockView>) -> bool {
    &&& forall|i: int| 0 <= i < p.len() ==> #[trigger] canonical_block(p[i])
    &&& forall|i: int| 0 <= i < p.len() - 1 ==> #[trigger] neighbours_differ(p, i)
}

/// The canonical form of a side: canonical blocks, the last of them not all zeros, and
/// without blocks no trailing zero digit.
pub open spec fn canonical(w: StackView) -> bool {
    &&& canonical_blocks(w.powers)
    &&& w.powers.len() > 0 ==> !zero_block(w.powers.last())
    &&& w.powers.len() == 0 ==> (w.finite.len() == 0 || w.finite.last() != 0)
}

proof fn lemma_reduced_canonical(b: BlockView)
    requires
        !void_block(b),
        count_natural(b.count),
        reduced(b) is Some,
    ensures
        canonical_block(reduced(b).unwrap()),
{
    let p = reduced(b).unwrap();
    match b.word {
        None => {},
        Some(w) => {
            if w.len() == 0 {
                assert(w =~= Seq::<u32>::empty());
            }
            lemma_root_bounds(w, 1);
            lemma_root_primitive(w);
            let s = root_len(w);
            let f = w.len() / s;
            assert(f >= 1) by {
                vstd::arithmetic::div_mod::lemma_div_is_ordered(s as int, w.len() as int, s as int);
                vstd::arithmetic::div_mod::lemma_div_by_self(s as int);
            }
            assert(p.count.a == b.count.a * f && p.count.b == b.count.b * f);
            assert(p.count.a >= 0 && 100 * p.count.a + p.count.b >= 0) by (nonlinear_arith)
                requires
                    p.count.a == b.count.a * f,
                    p.count.b == b.count.b * f,
                    b.count.a >= 0,
                    100 * b.count.a + b.count.b >= 0,
                    f >= 1,
            ;
            if p.count == constant(0) {
                assert(b.count.a == 0 && b.count.b == 0) by (nonlinear_arith)
                    requires
                        b.count.a * f == 0,
                        b.count.b * f == 0,
                        f >= 1,
                ;
                assert(b.count == constant(0));
            }
            assert(w.take(s as int).len() == s);
            if w.take(s as int).len() == 0 {
                assert(false);
            }
            if p.word == Some(Seq::<u32>::empty()) {
                assert(w.take(s as int).len() == 0);
            }
        },
    }
}

/// Folding natural blocks into canonical ones keeps them canonical.
proof fn lemma_folded_canonical(out: Seq<BlockView>, rest: Seq<BlockView>)
    requires
        folded(out, rest) is Some,
        canonical_blocks(out),
        forall|i: int| 0 <= i < rest.len() ==> count_natural(#[trigger] rest[i].count),
    ensures
        canonical_blocks(folded(out, rest).unwrap()),
    decreases rest.len(),
{
    if rest.len() > 0 {
        let b = rest[0];
        let tail = rest.drop_first();
        assert forall|i: int| 0 <= i < tail.len() implies count_natural(#[trigger] tail[i].count) by {
            assert(tail[i] == rest[i + 1]);
        }
        assert(count_natural(b.count));
        if void_block(b) {
            lemma_folded_canonical(out, tail);
        } else {
            let p = reduced(b).unwrap();
            lemma_reduced_canonical(b);
            let o = merged(out, p).unwrap();
            if out.len() > 0 && out.last().word == p.word && p.word is Some {
                let l = out.last();
                let nb = o.last();
                assert(canonical_block(l));
                assert(nb.word == p.word && nb.count.a == l.count.a + p.count.a && nb.count.b == l.count.b + p.count.b);
                if nb.count == constant(0) {
                    assert(l.count.a == 0 && l.count.b == 0);
                    assert(l.count == constant(0));
                }
                assert(canonical_block(nb));
                assert forall|i: int| 0 <= i < o.len() implies #[trigger] canonical_block(o[i]) by {
                    if i < o.len() - 1 {
                        assert(o[i] == out[i]);
                    }
                }
                assert forall|i: int| 0 <= i < o.len() - 1 implies #[trigger] neighbours_differ(o, i) by {
                    assert(neighbours_differ(out, i));
                    assert(o[i] == out[i]);
                    if i + 1 < o.len() - 1 {
                        assert(o[i + 1] == out[i + 1]);
                    } else {
                        assert(o[i + 1].word == out[i + 1].word);
                    }
                }
            } else {
                assert(o == out.push(p));
                assert forall|i: int| 0 <= i < o.len() implies #[trigger] canonical_block(o[i]) by {
                    if i < out.len() {
                        assert(o[i] == out[i]);
                    }
                }
                assert forall|i: int| 0 <= i < o.len() - 1 implies #[trigger] neighbours_differ(o, i) by {
                    if i < out.len() - 1 {
                        assert(neighbours_differ(out, i));
                    }
                }
            }
            lemma_folded_canonical(o, tail);
        }
    }
}

/// Dropping trailing zero blocks leaves a prefix, ending in a block that is not all zeros.
proof fn lemma_trimmed_prefix(out: Seq<BlockView>)
    ensures
        trimmed_blocks(out).len() <= out.len(),
        trimmed_blocks(out) == out.take(trimmed_blocks(out).len() as int),
        trimmed_blocks(out).len() > 0 ==> !zero_block(trimmed_blocks(out).last()),
    decreases out.len(),
{
    if out.len() > 0 && zero_block(out.last()) {
        lemma_trimmed_prefix(out.drop_last());
        let t = trimmed_blocks(out);
        assert(out.drop_last().take(t.len() as int) =~= out.take(t.len() as int));
    } else {
        assert(out.take(out.len() as int) =~= out);
    }
}

proof fn lemma_trimmed_digits_end(f: Seq<u32>)
    ensures
        trimmed_digits(f).len() == 0 || trimmed_digits(f).last() != 0,
    decreases f.len(),
{
    if f.len() > 0 && f.last() == 0 {
        lemma_trimmed_digits_end(f.drop_last());
    }
}

/// Folding canonical blocks after canonical ones whose last differs changes nothing.
proof fn lemma_folded_identity(out: Seq<BlockView>, rest: Seq<BlockView>)
    requires
        canonical_blocks(out + rest),
    ensures
        folded(out, rest) == Some(out + rest),
    decreases rest.len(),
{
    if rest.len() == 0 {
        assert(out + rest =~= out);
    } else {
        let b = rest[0];
        assert((out + rest)[out.len() as int] == b);
        assert(canonical_block(b));
        match b.word {
            None => {},
            Some(w) => {
                if w.len() == 0 {
                    assert(w =~= Seq::<u32>::empty());
                }
                let s = root_len(w);
                assert(s == w.len());
                vstd::arithmetic::div_mod::lemma_div_by_self(w.len() as int);
                assert(w.take(s as int) =~= w);
                assert(b.count.a * 1 == b.count.a && b.count.b * 1 == b.count.b);
            },
        }
        assert(reduced(b) == Some(b));
        if out.len() > 0 {
            assert(neighbours_differ(out + rest, out.len() - 1));
            assert((out + rest)[out.len() - 1] == out.last());
        }
        assert(merged(out, b) == Some(out.push(b)));
        assert((out.push(b)) + rest.drop_first() =~= out + rest);
        lemma_folded_identity(out.push(b), rest.drop_first());
    }
}

/// Law: normalizing a side whose counts are natural numbers for every `n >= 100` gives
/// the canonical form (no void blocks, primitive words, no neighbours with the same
/// digits, no trailing zeros), and normalizing that again changes nothing.
pub proof fn lemma_normalize_canonical(v: StackView)
    requires
        normalize_spec(v) is Some,
        forall|i: int| 0 <= i < v.powers.len() ==> count_natural(#[trigger] v.powers[i].count),
    ensures
        normalize_spec(v) matches Some(w) && canonical(w) && normalize_spec(w) == Some(w),
{
    let o = folded(seq![], v.powers).unwrap();
    lemma_folded_canonical(seq![], v.powers);
    let p = trimmed_blocks(o);
    lemma_trimmed_prefix(o);
    let w = normalize_spec(v).unwrap();
    assert forall|i: int| 0 <= i < p.len() implies #[trigger] canonical_block(p[i]) by {
        assert(p[i] == o[i]);
    }
    assert forall|i: int| 0 <= i < p.len() - 1 implies #[trigger] neighbours_differ(p, i) by {
        assert(neighbours_differ(o, i));
        assert(p[i] == o[i] && p[i + 1] == o[i + 1]);
    }
    lemma_trimmed_digits_end(v.finite);
    assert(canonical(w));
    lemma_folded_identity(seq![], p);
    assert(Seq::<BlockView>::empty() + p =~= p);
    if p.len() > 0 {
        assert(trimmed_blocks(p) == p);
    } else {
        lemma_trimmed_digits_end(w.finite);
        assert(trimmed_digits(w.finite) == w.finite);
        assert(trimmed_blocks(p) == p);
    }
}

/// The block a run becomes once normalized: `(d 1)` repeated, or `1` repeated twice as
/// often for a run of ones, or the suffix marker.
pub open spec fn run_root_block(r: Run) -> BlockView {
    match r.0 {
        None => BlockView { word: None, count: r.1 },
        Some(d) => if d == 1 {
            digits_block(seq![1u32], Linear { a: (2 * r.1.a) as i128, b: (2 * r.1.b) as i128 })
        } else {
            digits_block(seq![d, 1u32], r.1)
        },
    }
}

/// Runs a boundary can be built from: counts at least one for every `n >= 100`, a run of
/// ones whose doubled count still compares in 128 bits, a suffix marker once at a time,
/// and neighbours with different digits.
pub open spec fn boundary_runs(rs: Seq<Run>) -> bool {
    &&& forall|i: int| 0 <= i < rs.len() ==> #[trigger] boundary_run(rs[i])
    &&& forall|i: int| 0 <= i < rs.len() - 1 ==> #[trigger] run_differs(rs, i)
}

/// A run a boundary can be built from (see `boundary_runs`).
pub open spec fn boundary_run(r: Run) -> bool {
    &&& positive(r.1)
    &&& r.0 == Some(1u32) ==> fits(200 * r.1.a) && fits(200 * r.1.a + 2 * r.1.b)
    &&& r.0 is None ==> r.1 == constant(1)
}

/// Runs `i` and `i + 1` have different digits.
pub open spec fn run_differs(rs: Seq<Run>, i: int) -> bool {
    rs[i].0 != rs[i + 1].0
}

proof fn lemma_run_reduced(r: Run)
    requires
        boundary_run(r),
    ensures
        !void_block(run_block(r)),
        reduced(run_block(r)) == Some(run_root_block(r)),
{
    if r.1 == constant(0) {
        assert(!crate::linear::at_least(r.1, 1));
    }
    match r.0 {
        None => {},
        Some(d) => {
            let w = seq![d, 1u32];
            if d == 1 {
                assert(periodic(w, 1));
                assert(root_from(w, 1) == 1);
                assert(w.take(1) =~= seq![1u32]);
                assert(w.len() / 1 == 2);
                assert(r.1.a * 2 == 2 * r.1.a && r.1.b * 2 == 2 * r.1.b);
            } else {
                assert(!periodic(w, 1)) by {
                    assert(w[1] != w[1int % 1int]);
                }
                assert(root_from(w, 2) == 2);
                assert(root_from(w, 1) == 2);
                assert(w.take(2) =~= w);
                assert(w.len() / 2 == 1);
                assert(r.1.a * 1 == r.1.a && r.1.b * 1 == r.1.b);
            }
            if run_block(r).word == Some(Seq::<u32>::empty()) {
                assert(w.len() == 0);
            }
        },
    }
}

/// Folding the runs' blocks after blocks ending in one that differs keeps each as its
/// normalized block.
proof fn lemma_runs_folded(out: Seq<BlockView>, rs: Seq<Run>)
    requires
        boundary_runs(rs),
        out.len() > 0,
        out.last().word == Some(seq![0u32]),
    ensures
        folded(out, rs.map_values(|r: Run| run_block(r))) == Some(out + rs.map_values(|r: Run| run_root_block(r))),
    decreases rs.len(),
{
    let parts = rs.map_values(|r: Run| run_block(r));
    let roots = rs.map_values(|r: Run| run_root_block(r));
    if rs.len() == 0 {
        assert(out + roots =~= out);
    } else {
        let r = rs[0];
        assert(boundary_run(r));
        lemma_run_reduced(r);
        assert(parts[0] == run_block(r));
        assert(parts.drop_first() =~= rs.drop_first().map_values(|r: Run| run_block(r)));
        let b = run_root_block(r);
        if out.last().word == b.word && b.word is Some {
            match r.0 {
                None => {},
                Some(d) => {
                    if d == 1 {
                        assert(seq![1u32][0] != seq![0u32][0]);
                    } else {
                        assert(seq![d, 1u32].len() != seq![0u32].len());
                    }
                },
            }
        }
        assert(merged(out, b) == Some(out.push(b)));
        lemma_runs_folded_tail(out.push(b), rs);
        assert(out.push(b) + rs.drop_first().map_values(|r: Run| run_root_block(r)) =~= out + roots);
    }
}

proof fn lemma_runs_folded_tail(out: Seq<BlockView>, rs: Seq<Run>)
    requires
        boundary_runs(rs),
        rs.len() > 0,
        out.len() > 0,
        out.last() == run_root_block(rs[0]),
    ensures
        folded(out, rs.drop_first().map_values(|r: Run| run_block(r))) == Some(out + rs.drop_first().map_values(|r: Run| run_root_block(r))),
    decreases rs.len(),
{
    let tail = rs.drop_first();
    let roots = tail.map_values(|r: Run| run_root_block(r));
    if tail.len() == 0 {
        assert(out + roots =~= out);
    } else {
        let r = tail[0];
        assert(tail[0] == rs[1]);
        assert(run_differs(rs, 0));
        assert(boundary_runs(tail)) by {
            assert forall|i: int| 0 <= i < tail.len() implies #[trigger] boundary_run(tail[i]) by {
                assert(tail[i] == rs[i + 1]);
                assert(boundary_run(rs[i + 1]));
            }
            assert forall|i: int| 0 <= i < tail.len() - 1 implies #[trigger] run_differs(tail, i) by {
                assert(tail[i] == rs[i + 1] && tail[i + 1] == rs[i + 2]);
                assert(run_differs(rs, i + 1));
            }
        }
        assert(boundary_run(r));
        lemma_run_reduced(r);
        let b = run_root_block(r);
        let l = run_root_block(rs[0]);
        if l.word == b.word && b.word is Some {
            match (rs[0].0, r.0) {
                (Some(d0), Some(d1)) => {
                    if d0 == 1 && d1 != 1 {
                        assert(seq![1u32].len() != seq![d1, 1u32].len());
                    } else if d0 != 1 && d1 == 1 {
                        assert(seq![d0, 1u32].len() != seq![1u32].len());
                    } else if d0 != 1 && d1 != 1 {
                        assert(seq![d0, 1u32][0] == seq![d1, 1u32][0]);
                    }
                },
                _ => {},
            }
        }
        assert(merged(out, b) == Some(out.push(b)));
        assert(tail.map_values(|r: Run| run_block(r))[0] == run_block(r));
        assert(tail.map_values(|r: Run| run_block(r)).drop_first() =~= tail.drop_first().map_values(|r: Run| run_block(r)));
        lemma_runs_folded_tail(out.push(b), tail);
        assert(out.push(b) + tail.drop_first().map_values(|r: Run| run_root_block(r)) =~= out + roots);
    }
}

/// Reading runs back from their normalized blocks gives the runs.
proof fn lemma_runs_read(rs: Seq<Run>, out: Seq<Run>)
    requires
        boundary_runs(rs),
        out.len() > 0 && rs.len() > 0 ==> out.last().0 != rs[0].0,
    ensures
        runs_from(rs.map_values(|r: Run| run_root_block(r)), None, out) == Some(Some(out + rs)),
    decreases rs.len(),
{
    let roots = rs.map_values(|r: Run| run_root_block(r));
    if rs.len() == 0 {
        assert(out + rs =~= out);
    } else {
        let r = rs[0];
        let tail = rs.drop_first();
        assert(boundary_run(r));
        let c = r.1;
        if c == constant(0) {
            assert(!crate::linear::at_least(c, 1));
        }
        assert(roots[0] == run_root_block(r));
        assert(roots.drop_first() =~= tail.map_values(|r: Run| run_root_block(r)));
        assert(pushed_run(out, r.0, c) == Some(out.push(r)));
        match r.0 {
            None => {},
            Some(d) => {
                if d == 1 {
                    let b = run_root_block(r);
                    assert(b.word == Some(seq![1u32]));
                    assert(b.count != constant(1));
                    assert(c.a >= 0);
                    let c1 = b.count;
                    assert(decides(c1, 0) && margin_fits(c1, 0) && at_least(c1, 0) && c1.a % 2 == 0);
                    assert(c1.a / 2 == c.a && c1.b / 2 == c.b);
                } else if c == constant(1) {
                    let w = seq![d, 1u32];
                    assert(w.drop_first() =~= seq![1u32]);
                    assert(seq![1u32].drop_first() =~= Seq::<u32>::empty());
                    assert(eaten(Seq::<u32>::empty(), None, out.push(r)) == Some(Some((None::<u32>, out.push(r)))));
                    assert(eaten(seq![1u32], Some(d), out) == Some(Some((None::<u32>, out.push(r)))));
                    assert(eaten(w, None, out) == Some(Some((None::<u32>, out.push(r)))));
                }
            },
        }
        assert(run_step(roots[0], None, out) == Some(Some((None::<u32>, out.push(r)))));
        assert(boundary_runs(tail)) by {
            assert forall|i: int| 0 <= i < tail.len() implies #[trigger] boundary_run(tail[i]) by {
                assert(tail[i] == rs[i + 1]);
                assert(boundary_run(rs[i + 1]));
            }
            assert forall|i: int| 0 <= i < tail.len() - 1 implies #[trigger] run_differs(tail, i) by {
                assert(tail[i] == rs[i + 1] && tail[i + 1] == rs[i + 2]);
                assert(run_differs(rs, i + 1));
            }
        }
        if tail.len() > 0 {
            assert(run_differs(rs, 0));
        }
        lemma_runs_read(tail, out.push(r));
        assert(out.push(r) + tail =~= out + rs);
    }
}

proof fn lemma_kept_all(parts: Seq<BlockView>)
    requires
        forall|i: int| 0 <= i < parts.len() ==> !void_block(#[trigger] parts[i]) && positive(parts[i].count),
    ensures
        kept_parts(parts) == Some(parts),
    decreases parts.len(),
{
    if parts.len() > 0 {
        assert forall|i: int| 0 <= i < parts.drop_first().len() implies !void_block(#[trigger] parts.drop_first()[i]) && positive(parts.drop_first()[i].count) by {
            assert(parts.drop_first()[i] == parts[i + 1]);
        }
        lemma_kept_all(parts.drop_first());
        assert(seq![parts[0]] + parts.drop_first() =~= parts);
    }
}

/// Law: the runs a boundary is built from are the runs read back from it.
pub proof fn lemma_runs_of_boundary(rs: Seq<Run>)
    requires
        boundary_runs(rs),
    ensures
        boundary_spec(rs) matches Some(v) && runs_spec(v) == Some(Some(rs)),
{
    let zb = digits_block(seq![0u32], constant(1));
    let blocks = rs.map_values(|r: Run| run_block(r));
    let parts = seq![zb] + blocks;
    let roots = rs.map_values(|r: Run| run_root_block(r));
    assert(positive(constant(1)));
    assert forall|i: int| 0 <= i < parts.len() implies !void_block(#[trigger] parts[i]) && positive(parts[i].count) by {
        if i > 0 {
            assert(parts[i] == run_block(rs[i - 1]));
            assert(boundary_run(rs[i - 1]));
            lemma_run_reduced(rs[i - 1]);
        } else {
            assert(parts[0] == zb);
            assert(seq![0u32] != Seq::<u32>::empty()) by {
                assert(seq![0u32].len() == 1);
            }
        }
    }
    lemma_kept_all(parts);
    let empty = StackView { finite: seq![], powers: seq![] };
    assert(parts + empty.powers =~= parts);
    // the leading zero block stays as it is
    assert(periodic(seq![0u32], 1));
    assert(root_len(seq![0u32]) == 1);
    assert(seq![0u32].take(1) =~= seq![0u32]);
    assert(seq![0u32].len() / 1 == 1);
    assert(zb.count.a * 1 == zb.count.a && zb.count.b * 1 == zb.count.b);
    assert(reduced(zb) == Some(zb));
    assert(merged(Seq::<BlockView>::empty(), zb) == Some(seq![zb]));
    assert(parts[0] == zb && parts.drop_first() =~= blocks);
    lemma_runs_folded(seq![zb], rs);
    assert(folded(Seq::<BlockView>::empty(), parts) == Some(seq![zb] + roots));
    let o = seq![zb] + roots;
    if rs.len() > 0 {
        let last = rs[rs.len() - 1];
        assert(o.last() == run_root_block(last));
        match last.0 {
            None => {},
            Some(d) => {
                if d == 1 {
                    assert(!all_zero(seq![1u32]) ) by {
                        assert(seq![1u32][0] != 0);
                    }
                } else {
                    assert(!all_zero(seq![d, 1u32])) by {
                        assert(seq![d, 1u32][1] != 0);
                    }
                }
            },
        }
        assert(trimmed_blocks(o) == o);
        let v = boundary_spec(rs).unwrap();
        assert(v == StackView { finite: seq![], powers: o });
        assert(seq![0u32].drop_first() =~= Seq::<u32>::empty());
        assert(o.drop_first() =~= roots);
        lemma_runs_read(rs, seq![]);
        assert(Seq::<Run>::empty() + rs =~= rs);
        assert(eaten(Seq::<u32>::empty(), None, Seq::<Run>::empty()) == Some(Some((None::<u32>, Seq::<Run>::empty()))));
        let first = digits_block(Seq::<u32>::empty(), constant(1));
        let rest = seq![first] + roots;
        assert(rest[0] == first);
        assert(rest.drop_first() =~= roots);
        assert(run_step(first, None, Seq::<Run>::empty()) == Some(Some((None::<u32>, Seq::<Run>::empty()))));
        assert(runs_from(rest, None, Seq::<Run>::empty()) == Some(Some(rs)));
        assert(o[0] == zb);
        assert(pop_spec(v) == Some((0u32, StackView { finite: Seq::<u32>::empty(), powers: roots })));
        assert(runs_spec(v) == Some(Some(rs)));
    } else {
        assert(roots =~= Seq::<BlockView>::empty());
        assert(o =~= seq![zb]);
        assert(zero_block(zb));
        assert(seq![zb].drop_last() =~= Seq::<BlockView>::empty());
        assert(seq![zb].last() == zb);
        assert(trimmed_blocks(Seq::<BlockView>::empty()) == Seq::<BlockView>::empty());
        assert(trimmed_blocks(seq![zb]) == Seq::<BlockView>::empty());
        assert(trimmed_digits(Seq::<u32>::empty()) == Seq::<u32>::empty());
        let v = boundary_spec(rs).unwrap();
        assert(v == empty);
        assert(rs =~= Seq::<Run>::empty());
        assert(eaten(Seq::<u32>::empty(), None, Seq::<Run>::empty()) == Some(Some((None::<u32>, Seq::<Run>::empty()))));
        let first = digits_block(Seq::<u32>::empty(), constant(1));
        let rest = seq![first] + Seq::<BlockView>::empty();
        assert(rest[0] == first);
        assert(rest.drop_first() =~= Seq::<BlockView>::empty());
        assert(run_step(first, None, Seq::<Run>::empty()) == Some(Some((None::<u32>, Seq::<Run>::empty()))));
        assert(runs_from(rest, None, Seq::<Run>::empty()) == Some(Some(Seq::<Run>::empty())));
        assert(pop_spec(v) == Some((0u32, v)));
        assert(runs_spec(v) == Some(Some(rs)));
    }
}

proof fn lemma_repeat_rotate(d: Seq<u32>, f: u32, k: nat)
    requires
        d.len() > 0,
        d.last() == f,
    ensures
        seq![f] + repeat(d, k) == repeat(seq![f] + d.drop_last(), k) + seq![f],
    decreases k,
{
    let r = seq![f] + d.drop_last();
    if k == 0 {
        assert(seq![f] + repeat(d, 0) =~= repeat(r, 0) + seq![f]);
    } else {
        lemma_repeat_rotate(d, f, (k - 1) as nat);
        assert(d =~= d.drop_last() + seq![f]);
        assert(seq![f] + (d + repeat(d, (k - 1) as nat)) =~= r + (seq![f] + repeat(d, (k - 1) as nat)));
        assert(r + (repeat(r, (k - 1) as nat) + seq![f]) =~= (r + repeat(r, (k - 1) as nat)) + seq![f]);
    }
}

/// Law: a block `aligned` takes off a side has a word of the shape asked for, and the
/// side's digits are that word repeated the block's count, then the digits of what is
/// left, at every `n >= 100` at which the counts are natural numbers.
pub proof fn lemma_aligned_reads(v: StackView, shape: Shape, n: int, i: int)
    requires
        aligned_spec(v, shape) matches Some((Some(_), _)),
        n >= least_n(),
        counts_natural(v.powers, n),
        0 <= i,
    ensures
        aligned_spec(v, shape) matches Some((Some(b), w)) && b.word matches Some(d) && shape_accepts(shape, d)
            && d.len() % 2 == 0 && at(b.count, n) >= 0 && counts_natural(w.powers, n) && tape_digit(v, n, i) == read_at(
            repeat(d, at(b.count, n) as nat) + w.finite + spelled(w.powers, n).0,
            spelled(w.powers, n).1,
            i,
        ),
{
    let (ob, w) = aligned_spec(v, shape).unwrap();
    let b = ob.unwrap();
    let part = v.powers[0];
    let d = part.word.unwrap();
    let c = part.count;
    let tail = v.powers.drop_first();
    let st = spelled(tail, n);
    assert(at(c, n) >= 0);
    assert forall|j: int| 0 <= j < tail.len() implies at(#[trigger] tail[j].count, n) >= 0 by {
        assert(tail[j] == v.powers[j + 1]);
    }
    assert(spelled(v.powers, n).0 == repeat(d, at(c, n) as nat) + st.0 && spelled(v.powers, n).1 == st.1);
    if v.finite.len() == 0 {
        if d.len() % 2 == 0 && shape_accepts(shape, d) {
            assert(w.powers == tail);
            assert(v.finite + spelled(v.powers, n).0 =~= repeat(d, at(c, n) as nat) + w.finite + st.0);
        } else {
            let q = b.count;
            let rest = Linear { a: (c.a - 2 * q.a) as i128, b: (c.b - 2 * q.b) as i128 };
            assert(c.a >= 0);
            assert(rest.a == 0 && 0 <= rest.b <= 1);
            assert(at(c, n) == 2 * at(q, n) + rest.b) by (nonlinear_arith)
                requires
                    c.a == 2 * q.a + rest.a,
                    c.b == 2 * q.b + rest.b,
                    rest.a == 0,
            ;
            assert(at(c, n) >= 2) by (nonlinear_arith)
                requires
                    c.a >= 0,
                    100 * c.a + c.b >= 2,
                    n >= 100,
            ;
            assert(at(q, n) >= 0);
            let qn = at(q, n) as nat;
            let rn = rest.b as nat;
            assert(d + d =~= repeat(d, 2)) by {
                assert(repeat(d, 0) =~= Seq::<u32>::empty());
                assert(repeat(d, 1) =~= d);
            }
            lemma_repeat_mul(d, 2, qn);
            lemma_repeat_add(d, 2 * qn, rn);
            assert(at(c, n) as nat == 2 * qn + rn);
            if rest != constant(0) {
                assert(at(rest, n) == rest.b) by (nonlinear_arith)
                    requires
                        rest.a == 0,
                ;
                lemma_spelled_concat(seq![digits_block(d, rest)], tail, n);
                lemma_spelled_one(digits_block(d, rest), n);
                assert(w.powers == seq![digits_block(d, rest)] + tail);
                assert forall|j: int| 0 <= j < w.powers.len() implies at(#[trigger] w.powers[j].count, n) >= 0 by {
                    if j > 0 {
                        assert(w.powers[j] == tail[j - 1]);
                    }
                }
                assert(v.finite + spelled(v.powers, n).0 =~= repeat(d + d, qn) + w.finite + spelled(w.powers, n).0);
            } else {
                assert(rn == 0);
                assert(repeat(d, 0) =~= Seq::<u32>::empty());
                assert(w.powers == tail);
                assert(v.finite + spelled(v.powers, n).0 =~= repeat(d + d, qn) + w.finite + spelled(w.powers, n).0);
            }
        }
    } else {
        let f = v.finite[0];
        assert(v.finite =~= seq![f]);
        lemma_repeat_rotate(d, f, at(c, n) as nat);
        assert(w.finite == v.finite && w.powers == tail);
        assert(v.finite + spelled(v.powers, n).0 =~= repeat(seq![f] + d.drop_last(), at(c, n) as nat) + w.finite + st.0) by {
            assert(seq![f] + (repeat(d, at(c, n) as nat) + st.0) =~= (seq![f] + repeat(d, at(c, n) as nat)) + st.0);
        }
    }
}

proof fn lemma_read_concat(a: Seq<u32>, rest: Seq<u32>, suffix: bool, i: int)
    requires
        0 <= i,
    ensures
        read_at(a + rest, suffix, i) == if i < a.len() {
            Some(a[i])
        } else {
            read_at(rest, suffix, i - a.len())
        },
{
}

/// A word of pairs `(x, y)` is `x y` repeated.
proof fn lemma_pairs_word(d: Seq<u32>, x: u32, y: u32)
    requires
        d.len() % 2 == 0,
        shape_accepts(Shape::Pairs(x, y), d),
    ensures
        d == repeat(seq![x, y], d.len() / 2),
    decreases d.len(),
{
    if d.len() > 0 {
        assert(d.len() >= 2);
        let t = d.skip(2);
        assert(t.len() == d.len() - 2);
        assert(t.len() / 2 == d.len() / 2 - 1);
        assert(t.len() % 2 == 0);
        assert(d[0] == x && d[1] == y) by {
            assert(d[2 * 0int] == x && d[2 * 0int + 1] == y);
        }
        assert forall|i: int| 0 <= i < t.len() / 2 implies #[trigger] t[2 * i] == x && t[2 * i + 1] == y by {
            let j = i + 1;
            assert(0 <= j < d.len() / 2);
            assert(d[2 * j] == x);
            assert(d[2 * j + 1] == y);
            assert(t[2 * i] == d[2 * i + 2] && t[2 * i + 1] == d[2 * i + 3]);
        }
        lemma_pairs_word(t, x, y);
        assert(d.len() / 2 - 1 == t.len() / 2);
        assert(d =~= seq![x, y] + t);
    } else {
        assert(d =~= repeat(seq![x, y], 0));
    }
}

/// Law: `pairs` counts the copies of `(x, y)` a side starts with: the side's digits are
/// `x y` repeated as many times as it adds to the count, then the digits of what it
/// leaves, at every `n >= 100` at which the counts are natural numbers.
#[verifier::spinoff_prover]
#[verifier::rlimit(60)]
pub proof fn lemma_pairs_read(v: StackView, x: u32, y: u32, count: Linear, n: int, i: int)
    requires
        pairs_from(v, x, y, count) is Some,
        n >= least_n(),
        counts_natural(v.powers, n),
        0 <= i,
    ensures
        pairs_from(v, x, y, count) matches Some((c2, w)) && at(c2, n) >= at(count, n) && counts_natural(
            w.powers,
            n,
        ) && tape_digit(v, n, i) == read_at(
            repeat(seq![x, y], (at(c2, n) - at(count, n)) as nat) + w.finite + spelled(w.powers, n).0,
            spelled(w.powers, n).1,
            i,
        ),
    decreases powers_weight(v.powers), v.finite.len(),
{
    let (c2, w) = pairs_from(v, x, y, count).unwrap();
    let sw = spelled(w.powers, n);
    match matches_spec(v, seq![x, y]) {
        None => {},
        Some(false) => {
            assert(repeat(seq![x, y], 0) + w.finite + sw.0 =~= w.finite + sw.0);
        },
        Some(true) => {
            match aligned_spec(v, Shape::Pairs(x, y)) {
                None => {},
                Some((None, _)) => {
                    lemma_pop_two_shrinks(v, x, y);
                    reveal_with_fuel(matches_spec, 3);
                    assert(seq![x, y].drop_first() =~= seq![y]);
                    assert(seq![y].drop_first() =~= Seq::<u32>::empty());
                    let (d0, w1) = pop_spec(v).unwrap();
                    let (d1, u) = pop_spec(w1).unwrap();
                    assert(d0 == x && d1 == y);
                    let c1 = linear_sum(count, constant(1)).unwrap();
                    assert(at(c1, n) == at(count, n) + 1) by (nonlinear_arith)
                        requires
                            c1.a == count.a + 0,
                            c1.b == count.b + 1,
                    ;
                    lemma_pop_reads(v, n, 0);
                    lemma_pop_reads(w1, n, 0);
                    let k = (at(c2, n) - at(c1, n)) as nat;
                    if i >= 2 {
                        lemma_pop_reads(v, n, i - 1);
                        lemma_pop_reads(w1, n, i - 2);
                        lemma_pairs_read(u, x, y, c1, n, i - 2);
                    } else {
                        lemma_pairs_read(u, x, y, c1, n, 0);
                        lemma_pop_reads(v, n, i);
                    }
                    assert(repeat(seq![x, y], k + 1) == seq![x, y] + repeat(seq![x, y], k));
                    let tail = repeat(seq![x, y], k) + w.finite + sw.0;
                    assert(repeat(seq![x, y], k + 1) + w.finite + sw.0 =~= seq![x, y] + tail);
                    lemma_read_concat(seq![x, y], tail, sw.1, i);
                    assert((at(c2, n) - at(count, n)) as nat == k + 1);
                },
                Some((Some(b), w1)) => {
                    lemma_aligned_shrinks(v, Shape::Pairs(x, y));
                    lemma_aligned_reads(v, Shape::Pairs(x, y), n, i);
                    let d = b.word.unwrap();
                    let half = d.len() as int / 2;
                    let t = linear_scaled(b.count, half).unwrap();
                    let c1 = linear_sum(count, t).unwrap();
                    let bn = at(b.count, n);
                    assert(at(t, n) == half * bn) by (nonlinear_arith)
                        requires
                            t.a == b.count.a * half,
                            t.b == b.count.b * half,
                            bn == b.count.a * n + b.count.b,
                    ;
                    assert(at(c1, n) == at(count, n) + at(t, n)) by (nonlinear_arith)
                        requires
                            c1.a == count.a + t.a,
                            c1.b == count.b + t.b,
                    ;
                    assert(half * bn >= 0) by (nonlinear_arith)
                        requires
                            half >= 0,
                            bn >= 0,
                    ;
                    lemma_pairs_read(w1, x, y, c1, n, i);
                    lemma_aligned_reads(v, Shape::Pairs(x, y), n, 0);
                    lemma_pairs_word(d, x, y);
                    lemma_repeat_mul(seq![x, y], half as nat, bn as nat);
                    let k = (at(c2, n) - at(c1, n)) as nat;
                    lemma_repeat_add(seq![x, y], (half * bn) as nat, k);
                    let sw1 = spelled(w1.powers, n);
                    let rest1 = w1.finite + sw1.0;
                    assert(read_at(repeat(d, bn as nat) + w1.finite + sw1.0, sw1.1, i) == read_at(repeat(d, bn as nat) + rest1, sw1.1, i)) by {
                        assert(repeat(d, bn as nat) + w1.finite + sw1.0 =~= repeat(d, bn as nat) + rest1);
                    }
                    lemma_read_concat(repeat(d, bn as nat), rest1, sw1.1, i);
                    let after = repeat(seq![x, y], k) + w.finite + sw.0;
                    lemma_read_concat(repeat(seq![x, y], (half * bn) as nat), after, sw.1, i);
                    assert(repeat(seq![x, y], (at(c2, n) - at(count, n)) as nat) + w.finite + sw.0 =~= repeat(seq![x, y], (half * bn) as nat) + after);
                    if i >= repeat(d, bn as nat).len() {
                        lemma_pairs_read(w1, x, y, c1, n, i - repeat(d, bn as nat).len());
                    }
                },
            }
        },
    }
}

/// Blocks of zero words spell only zeros and reach no suffix marker.
proof fn lemma_blank_spells(powers: Seq<BlockView>, n: int)
    requires
        forall|i: int| 0 <= i < powers.len() ==> zero_block(#[trigger] powers[i]),
    ensures
        all_zero(spelled(powers, n).0),
        !spelled(powers, n).1,
    decreases powers.len(),
{
    if powers.len() > 0 {
        let tail = powers.drop_first();
        assert forall|i: int| 0 <= i < tail.len() implies zero_block(#[trigger] tail[i]) by {
            assert(tail[i] == powers[i + 1]);
        }
        lemma_blank_spells(tail, n);
        assert(zero_block(powers[0]));
        let d = powers[0].word.unwrap();
        let k = at(powers[0].count, n) as nat;
        lemma_repeat_zero(d, k);
        let all = repeat(d, k) + spelled(tail, n).0;
        assert forall|i: int| 0 <= i < all.len() implies #[trigger] all[i] == 0 by {
            if i < repeat(d, k).len() {
                assert(all[i] == repeat(d, k)[i]);
            } else {
                assert(all[i] == spelled(tail, n).0[i - repeat(d, k).len()]);
            }
        }
    }
}

/// A blank side reads zero everywhere.
proof fn lemma_blank_reads(v: StackView, n: int, i: int)
    requires
        blank_view(v),
        0 <= i,
    ensures
        tape_digit(v, n, i) == Some(0u32),
{
    lemma_blank_spells(v.powers, n);
    let sp = spelled(v.powers, n);
    let all = v.finite + sp.0;
    if i < all.len() {
        if i < v.finite.len() {
            assert(all[i] == v.finite[i]);
        } else {
            assert(all[i] == sp.0[i - v.finite.len()]);
        }
    }
}

/// A side that starts with `p` gives up exactly `p` when as many digits are popped.
proof fn lemma_matches_pops(v: StackView, p: Seq<u32>)
    requires
        matches_spec(v, p) == Some(true),
    ensures
        pops(v, p.len()) matches Some((ds, _)) && ds == p,
    decreases p.len(),
{
    if p.len() == 0 {
        assert(pops(v, 0) matches Some((ds, _)) && ds =~= p);
    } else {
        let (d, w) = pop_spec(v).unwrap();
        lemma_matches_pops(w, p.drop_first());
        assert((p.len() - 1) as nat == p.drop_first().len());
        let ds1 = pops(w, p.drop_first().len()).unwrap().0;
        assert(seq![d] + ds1 =~= p);
    }
}

/// Popping `k` digits takes the first `k` digits a side reads and leaves the rest, at
/// every `n >= 100` at which its counts are natural numbers.
proof fn lemma_pops_reads(v: StackView, k: nat, n: int, i: int)
    requires
        pops(v, k) is Some,
        n >= least_n(),
        counts_natural(v.powers, n),
        0 <= i,
    ensures
        pops(v, k) matches Some((ds, w)) && counts_natural(w.powers, n) && tape_digit(v, n, i)
            == read_at(ds + w.finite + spelled(w.powers, n).0, spelled(w.powers, n).1, i),
    decreases k,
{
    let (ds, w) = pops(v, k).unwrap();
    let sw = spelled(w.powers, n);
    if k == 0 {
        assert(ds + w.finite + sw.0 =~= w.finite + sw.0);
    } else {
        let (d, w1) = pop_spec(v).unwrap();
        lemma_pop_reads(v, n, 0);
        let ds1 = pops(w1, (k - 1) as nat).unwrap().0;
        assert(ds == seq![d] + ds1);
        let rest = ds1 + w.finite + sw.0;
        assert(ds + w.finite + sw.0 =~= seq![d] + rest);
        lemma_read_concat(seq![d], rest, sw.1, i);
        if i == 0 {
            lemma_pops_reads(w1, (k - 1) as nat, n, 0);
        } else {
            lemma_pop_reads(v, n, i - 1);
            lemma_pops_reads(w1, (k - 1) as nat, n, i - 1);
        }
    }
}

/// Equal reads after a common front give equal reads with it.
proof fn lemma_read_front(a: Seq<u32>, r1: Seq<u32>, s1: bool, r2: Seq<u32>, s2: bool, i: int)
    requires
        0 <= i,
        forall|j: int| 0 <= j ==> #[trigger] read_at(r1, s1, j) == read_at(r2, s2, j),
    ensures
        read_at(a + r1, s1, i) == read_at(a + r2, s2, i),
{
    lemma_read_concat(a, r1, s1, i);
    lemma_read_concat(a, r2, s2, i);
    if i >= a.len() {
        assert(read_at(r1, s1, i - a.len()) == read_at(r2, s2, i - a.len()));
    }
}

/// The final shape with counts `a` and `b`: `0 2 1 0 1 2 1 (0 1)^a 3 1 (2 1)^b`.
pub open spec fn final_shape(a: nat, b: nat) -> Seq<u32> {
    final_head() + repeat(seq![0u32, 1], a) + seq![3u32, 1] + repeat(seq![2u32, 1], b)
}

/// Law: `k_shape` finds counts `(a, b)` only on a tape whose right side is blank and whose
/// left side reads the final shape with those counts and then zeros, at every `n >= 100`
/// at which the left side's counts are natural numbers.
#[verifier::spinoff_prover]
pub proof fn lemma_k_shape_reads(t: TapeView, n: int, i: int)
    requires
        k_shape_spec(t) matches Some(Some(_)),
        n >= least_n(),
        counts_natural(t.left.powers, n),
        0 <= i,
    ensures
        k_shape_spec(t) matches Some(Some((a, b))) && at(a, n) >= 0 && at(b, n) >= 0 && tape_digit(
            t.right,
            n,
            i,
        ) == Some(0u32) && tape_digit(t.left, n, i) == read_at(
            final_shape(at(a, n) as nat, at(b, n) as nat),
            false,
            i,
        ),
{
    let (a, b) = k_shape_spec(t).unwrap().unwrap();
    lemma_blank_reads(t.right, n, i);
    let fh = final_head();
    lemma_matches_pops(t.left, fh);
    assert(fh.len() == 7);
    let p1 = popped(t.left, 7).unwrap();
    let (c_a, p2) = pairs_from(p1, 0, 1, constant(0)).unwrap();
    let (x, p3) = pop_spec(p2).unwrap();
    let (y, p4) = pop_spec(p3).unwrap();
    let (c_b, p5) = pairs_from(p4, 2, 1, constant(0)).unwrap();
    assert(c_a == a && c_b == b && x == 3 && y == 1 && blank_view(p5));
    assert(at(constant(0), n) == 0);
    lemma_pops_reads(t.left, 7, n, 0);
    lemma_pairs_read(p1, 0, 1, constant(0), n, 0);
    lemma_pop_reads(p2, n, 0);
    lemma_pop_reads(p3, n, 0);
    lemma_pairs_read(p4, 2, 1, constant(0), n, 0);
    let an = at(a, n) as nat;
    let bn = at(b, n) as nat;
    let s4 = repeat(seq![2u32, 1], bn);
    let s2 = seq![3u32, 1] + s4;
    let s1 = repeat(seq![0u32, 1], an) + s2;
    let sp5 = spelled(p5.powers, n);
    assert forall|j: int| 0 <= j implies #[trigger] tape_digit(p4, n, j) == read_at(s4, false, j) by {
        lemma_pairs_read(p4, 2, 1, constant(0), n, j);
        assert forall|m: int| 0 <= m implies #[trigger] read_at(p5.finite + sp5.0, sp5.1, m) == read_at(
            seq![],
            false,
            m,
        ) by {
            lemma_blank_reads(p5, n, m);
        }
        lemma_read_front(s4, p5.finite + sp5.0, sp5.1, seq![], false, j);
        assert(s4 + p5.finite + sp5.0 =~= s4 + (p5.finite + sp5.0));
        assert(s4 + seq![] =~= s4);
    }
    assert forall|j: int| 0 <= j implies #[trigger] tape_digit(p2, n, j) == read_at(s2, false, j) by {
        if j >= 2 {
            lemma_pop_reads(p2, n, j - 1);
            lemma_pop_reads(p3, n, j - 2);
            assert(tape_digit(p4, n, j - 2) == read_at(s4, false, j - 2));
            lemma_read_concat(seq![3u32, 1], s4, false, j);
        } else if j == 1 {
            lemma_pop_reads(p2, n, 0);
        }
    }
    let sp2 = spelled(p2.powers, n);
    assert forall|j: int| 0 <= j implies #[trigger] tape_digit(p1, n, j) == read_at(s1, false, j) by {
        lemma_pairs_read(p1, 0, 1, constant(0), n, j);
        let r01 = repeat(seq![0u32, 1], an);
        assert forall|m: int| 0 <= m implies #[trigger] read_at(p2.finite + sp2.0, sp2.1, m) == read_at(
            s2,
            false,
            m,
        ) by {
            assert(tape_digit(p2, n, m) == read_at(s2, false, m));
        }
        lemma_read_front(r01, p2.finite + sp2.0, sp2.1, s2, false, j);
        assert(r01 + p2.finite + sp2.0 =~= r01 + (p2.finite + sp2.0));
    }
    let sp1 = spelled(p1.powers, n);
    assert forall|m: int| 0 <= m implies #[trigger] read_at(p1.finite + sp1.0, sp1.1, m) == read_at(
        s1,
        false,
        m,
    ) by {
        assert(tape_digit(p1, n, m) == read_at(s1, false, m));
    }
    lemma_pops_reads(t.left, 7, n, i);
    lemma_read_front(fh, p1.finite + sp1.0, sp1.1, s1, false, i);
    assert(fh + p1.finite + sp1.0 =~= fh + (p1.finite + sp1.0));
    assert(final_shape(an, bn) =~= fh + s1);
}

proof fn lemma_at_constant(b: i128, n: int)
    ensures
        at(constant(b), n) == b,
{
    assert(0 * n == 0) by (nonlinear_arith);
}

/// From parity `phase` on, every digit at an odd position of the whole reading is `1`.
pub open spec fn ones_at_odd(s: Seq<u32>, phase: nat) -> bool {
    forall|j: int| 0 <= j < s.len() && (j + phase) % 2 == 1 ==> #[trigger] s[j] == 1
}

proof fn lemma_ones_concat(a: Seq<u32>, b: Seq<u32>, phase: nat)
    requires
        phase <= 1,
        ones_at_odd(a, phase),
        ones_at_odd(b, ((phase + a.len()) % 2) as nat),
    ensures
        ones_at_odd(a + b, phase),
{
    assert forall|j: int| 0 <= j < (a + b).len() && (j + phase) % 2 == 1 implies #[trigger] (a + b)[j] == 1 by {
        if j >= a.len() {
            let k = j - a.len();
            assert((k + (phase + a.len()) % 2) % 2 == (j + phase) % 2) by {
                vstd::arithmetic::div_mod::lemma_add_mod_noop(k, (phase + a.len()) as int, 2);
                vstd::arithmetic::div_mod::lemma_small_mod(((phase + a.len()) % 2) as nat, 2);
            }
            assert((a + b)[j] == b[k]);
        }
    }
}

proof fn lemma_walk_odd_reads(w: Seq<u32>, phase: nat)
    requires
        phase <= 1,
        walk_odd(w, phase) is Some,
    ensures
        ones_at_odd(w, phase),
        walk_odd(w, phase) == Some(((phase + w.len()) % 2) as nat),
    decreases w.len(),
{
    if w.len() > 0 {
        let t = w.drop_first();
        lemma_walk_odd_reads(t, (1 - phase) as nat);
        assert forall|j: int| 0 <= j < w.len() && (j + phase) % 2 == 1 implies #[trigger] w[j] == 1 by {
            if j > 0 {
                assert(w[j] == t[j - 1]);
                assert((j - 1 + (1 - phase)) % 2 == 1);
            }
        }
    }
}

/// One block the pairing check lets through reads as pairs from its phase on, and moves
/// the phase by the parity of its length.
proof fn lemma_paired_step_reads(part: BlockView, phase: nat, n: int)
    requires
        phase <= 1,
        paired_step(part, phase) matches Some(Some(_)),
        part.word is Some,
        n >= least_n(),
        at(part.count, n) >= 0,
    ensures
        paired_step(part, phase) matches Some(Some(p2)) && {
            let s = repeat(part.word.unwrap(), at(part.count, n) as nat);
            ones_at_odd(s, phase) && p2 == (phase + s.len()) % 2
        },
{
    let word = part.word.unwrap();
    let c = part.count;
    let k = at(c, n) as nat;
    let s = repeat(word, k);
    let len = word.len() as int;
    lemma_repeat_len(word, k);
    if word.len() % 2 == 1 && c != constant(1) {
        assert forall|j: int| 0 <= j < s.len() && (j + phase) % 2 == 1 implies #[trigger] s[j] == 1 by {
            lemma_repeat_index(word, k, j);
            assert(0 <= j % len < len);
        }
        let size = Linear { a: (c.a * len) as i128, b: (c.b * len) as i128 };
        let m = size.a / 2;
        let rest = size.b - 2 * (size.b / 2);
        assert(s.len() == 2 * (m * n) + size.b) by (nonlinear_arith)
            requires
                s.len() == len * k,
                k == c.a * n + c.b,
                size.a == c.a * len,
                size.b == c.b * len,
                size.a == 2 * m,
        ;
        assert((phase + s.len()) % 2 == (phase + size.b) % 2) by {
            vstd::arithmetic::div_mod::lemma_mod_multiples_vanish(m * n, phase + size.b, 2);
        }
        assert((phase + size.b) % 2 == (phase + rest) % 2) by {
            vstd::arithmetic::div_mod::lemma_mod_multiples_vanish(size.b / 2, phase + rest, 2);
        }
    } else if word.len() % 2 == 1 {
        lemma_at_constant(1, n);
        assert(k == 1);
        assert(s =~= word) by {
            assert(repeat(word, 0) =~= Seq::<u32>::empty());
            assert(word + Seq::<u32>::empty() =~= word);
        }
        lemma_walk_odd_reads(word, phase);
    } else {
        assert(strided_ones(word, (1 - phase) as nat));
        if len > 0 {
            assert forall|j: int| 0 <= j < s.len() && (j + phase) % 2 == 1 implies #[trigger] s[j] == 1 by {
                lemma_repeat_index(word, k, j);
                let q = j % len;
                vstd::arithmetic::div_mod::lemma_mod_mod(j, 2, len / 2);
                assert(q % 2 == j % 2);
                assert(0 <= q < len);
                assert((q - (1 - phase)) % 2 == 0);
                assert(word[q] == 1);
            }
        } else {
            assert(s.len() == 0);
        }
        assert(s.len() == 2 * ((len / 2) * k)) by (nonlinear_arith)
            requires
                s.len() == len * k,
                len % 2 == 0,
                len >= 0,
        ;
        vstd::arithmetic::div_mod::lemma_mod_multiples_vanish((len / 2) * k, phase as int, 2);
    }
}

/// The blocks the pairing check accepts from a phase read as pairs from that phase on,
/// up to any suffix marker, and bring the phase back to zero there.
proof fn lemma_paired_from_reads(parts: Seq<BlockView>, phase: nat, n: int)
    requires
        phase <= 1,
        paired_from(parts, phase) == Some(true),
        n >= least_n(),
        counts_natural(parts, n),
    ensures
        ones_at_odd(spelled(parts, n).0, phase),
        (phase + spelled(parts, n).0.len()) % 2 == 0,
    decreases parts.len(),
{
    if parts.len() > 0 {
        let part = parts[0];
        let tail = parts.drop_first();
        assert(at(part.count, n) >= 0);
        assert forall|j: int| 0 <= j < tail.len() implies at(#[trigger] tail[j].count, n) >= 0 by {
            assert(tail[j] == parts[j + 1]);
        }
        match part.word {
            None => {
                assert(part.count == constant(1));
                lemma_at_constant(1, n);
            },
            Some(word) => {
                lemma_paired_step_reads(part, phase, n);
                let p2 = paired_step(part, phase).unwrap().unwrap();
                lemma_paired_from_reads(tail, p2, n);
                let s = repeat(word, at(part.count, n) as nat);
                lemma_ones_concat(s, spelled(tail, n).0, phase);
                assert((phase + (s.len() + spelled(tail, n).0.len())) % 2 == (p2 + spelled(tail, n).0.len()) % 2) by {
                    vstd::arithmetic::div_mod::lemma_add_mod_noop((phase + s.len()) as int, spelled(tail, n).0.len() as int, 2);
                    vstd::arithmetic::div_mod::lemma_small_mod(p2, 2);
                }
            },
        }
    }
}

/// Law: a side `paired` accepts reads as pairs ending in `1`: at every `n >= 100` at which
/// its counts are natural numbers, the digits before any suffix marker are even in number
/// and every second one of them is `1`.
pub proof fn lemma_paired_reads(v: StackView, n: int)
    requires
        paired_spec(v) == Some(true),
        n >= least_n(),
        counts_natural(v.powers, n),
    ensures
        ({
            let all = v.finite + spelled(v.powers, n).0;
            &&& all.len() % 2 == 0
            &&& forall|j: int| 0 <= j < all.len() && j % 2 == 1 ==> #[trigger] all[j] == 1
        }),
{
    let parts = seq![digits_block(v.finite, constant(1))] + v.powers;
    assert forall|j: int| 0 <= j < parts.len() implies at(#[trigger] parts[j].count, n) >= 0 by {
        if j > 0 {
            assert(parts[j] == v.powers[j - 1]);
        }
    }
    lemma_paired_from_reads(parts, 0, n);
    assert(parts[0] == digits_block(v.finite, constant(1)));
    assert(parts.drop_first() =~= v.powers);
    lemma_at_constant(1, n);
    assert(repeat(v.finite, 1) =~= v.finite) by {
        assert(repeat(v.finite, 0) =~= Seq::<u32>::empty());
    }
    let all = v.finite + spelled(v.powers, n).0;
    assert(spelled(parts, n).0 =~= all);
    assert forall|j: int| 0 <= j < all.len() && j % 2 == 1 implies #[trigger] all[j] == 1 by {
        assert((j + 0) % 2 == 1);
    }
}

} // verus!
