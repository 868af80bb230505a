//! Symbolic simulation of the gap tape: a left and a right stack around the head, with
//! accelerated rules for the countdown and zero-run loops, used to derive the final and
//! middle transition tables.
use crate::linear::{
    at_least, constant, decides, fits, linear_difference, linear_ge, linear_quotient, linear_scaled,
    linear_sum, margin_fits, num, Linear,
};
use crate::normalizer::Mode;
use crate::stack::{
    aligned_spec, all_fours, block, blank_view, boundary, boundary_spec, copy_digits, fours_word,
    matches_spec, normalize_spec, pairs_from, pop_spec, pop_two,
    block_view, digits_block, paired_spec, pops, prepend_spec, runs_spec, stack_view, Block,
    BlockView, Run, Shape, Stack, StackView, Word,
};
use std::collections::BTreeMap;
use vstd::prelude::*;

verus! {

broadcast use vstd::std_specs::btree::group_btree_axioms, vstd::laws_cmp::group_laws_cmp;

/// Builds the output of one rewrite of a pair word read from the left stack, and the
/// selector carried to the next pair: `None` where it fails (a selector of
/// one, a gap of zero, or a digit overflowing).
pub open spec fn motif_from(word: Seq<u32>, y: u32, output: Seq<u32>) -> Option<(u32, Seq<u32>)>
    decreases word.len(),
{
    if word.len() < 2 {
        Some((y, output))
    } else {
        let b = word[0];
        let a = word[1];
        if y == 1 || a == 0 || b + 3 > u32::MAX {
            None
        } else {
            let part = (if a == 1 {
                seq![]
            } else {
                Seq::new((a - 2) as nat, |i: int| 0u32) + seq![(b + 3) as u32]
            }) + (if y >= 2 {
                seq![0u32, (y - 2) as u32]
            } else {
                seq![]
            });
            motif_from(
                word.skip(2),
                if a == 1 {
                    (b + 3) as u32
                } else {
                    0
                },
                part + output,
            )
        }
    }
}

/// Law: the rewrite of one pair `(b, a)` under the selector `y`.  A selector of one, or a
/// gap `a` of zero, stops it.  Otherwise a gap of one writes nothing and carries the
/// selector `b + 3`; a longer gap writes `a - 2` zeros and `b + 3` and carries the
/// selector zero.  A selector of at least two then writes the two digits `0` and `y - 2`
/// (two zeros for a selector of exactly two); a selector of zero writes nothing more.
/// What was written before follows.
pub proof fn lemma_motif_pair(b: u32, a: u32, y: u32, output: Seq<u32>)
    requires
        b + 3 <= u32::MAX,
    ensures
        (y == 1 || a == 0) ==> motif_from(seq![b, a], y, output) is None,
        y != 1 && a == 1 ==> motif_from(seq![b, a], y, output) == Some(
            (
                (b + 3) as u32,
                (if y >= 2 {
                    seq![0u32, (y - 2) as u32]
                } else {
                    Seq::<u32>::empty()
                }) + output,
            ),
        ),
        y != 1 && a >= 2 ==> motif_from(seq![b, a], y, output) == Some(
            (
                0u32,
                Seq::new((a - 2) as nat, |i: int| 0u32) + seq![(b + 3) as u32] + (if y >= 2 {
                    seq![0u32, (y - 2) as u32]
                } else {
                    Seq::<u32>::empty()
                }) + output,
            ),
        ),
        y == 2 && a >= 2 ==> (motif_from(seq![b, a], y, output) matches Some((_, o)) && o.len() == a + 1 + output.len()
            && o[a - 2] == b + 3 && o[a - 1] == 0 && o[a as int] == 0),
{
    let w = seq![b, a];
    assert(w.skip(2) =~= Seq::<u32>::empty());
    if y != 1 && a != 0 {
        let part = (if a == 1 {
            seq![]
        } else {
            Seq::new((a - 2) as nat, |i: int| 0u32) + seq![(b + 3) as u32]
        }) + (if y >= 2 {
            seq![0u32, (y - 2) as u32]
        } else {
            seq![]
        });
        assert(motif_from(w, y, output) == motif_from(w.skip(2), if a == 1 { (b + 3) as u32 } else { 0 }, part + output));
        if a == 1 {
            assert(part =~= (if y >= 2 { seq![0u32, (y - 2) as u32] } else { Seq::<u32>::empty() }));
        } else {
            assert(part + output =~= Seq::new((a - 2) as nat, |i: int| 0u32) + seq![(b + 3) as u32] + (if y >= 2 {
                seq![0u32, (y - 2) as u32]
            } else {
                Seq::<u32>::empty()
            }) + output);
            if y == 2 {
                let z = Seq::new((a - 2) as nat, |i: int| 0u32) + seq![(b + 3) as u32];
                assert(z[a - 2] == b + 3);
                let p = z + seq![0u32, 0u32];
                assert(part == p);
                assert(p[a - 2] == b + 3 && p[a - 1] == 0 && p[a as int] == 0);
                let o = p + output;
                assert(o[a - 2] == p[a - 2] && o[a - 1] == p[a - 1] && o[a as int] == p[a as int]);
            }
        }
    }
}

/// Law: a word of pairs is rewritten pair by pair from the front: rewriting `(b, a)`
/// followed by the rest is rewriting that first pair, then the rest under the selector
/// it carries, on top of what it wrote.
pub proof fn lemma_motif_front_pair(b: u32, a: u32, rest: Seq<u32>, y: u32, output: Seq<u32>)
    ensures
        motif_from(seq![b, a] + rest, y, output) == match motif_from(seq![b, a], y, output) {
            None => None,
            Some((y2, o2)) => motif_from(rest, y2, o2),
        },
{
    let w = seq![b, a] + rest;
    assert(w[0] == b && w[1] == a);
    assert(w.skip(2) =~= rest);
    assert(seq![b, a].skip(2) =~= Seq::<u32>::empty());
    reveal_with_fuel(motif_from, 2);
    if !(y == 1 || a == 0 || b + 3 > u32::MAX) {
        let y2: u32 = if a == 1 { (b + 3) as u32 } else { 0 };
        let part = (if a == 1 {
            seq![]
        } else {
            Seq::new((a - 2) as nat, |i: int| 0u32) + seq![(b + 3) as u32]
        }) + (if y >= 2 {
            seq![0u32, (y - 2) as u32]
        } else {
            seq![]
        });
        assert(motif_from(seq![b, a], y, output) == Some((y2, part + output)));
        assert(motif_from(w, y, output) == motif_from(rest, y2, part + output));
    }
}

/// The rewrite of the pair word `word` under the selector `y` (see `motif_from`).
pub fn motif(word: &[u32], y: u32) -> (r: Option<(u32, Vec<u32>)>)
    ensures
        match motif_from(word@, y, seq![]) {
            None => r is None,
            Some((z, o)) => r matches Some((x, v)) && x == z && v@ == o,
        },
{
    let mut output: Vec<u32> = Vec::new();
    let mut sel = y;
    let mut i: usize = 0;
    proof {
        assert(word@.skip(0) =~= word@);
    }
    while i + 1 < word.len()
        invariant
            i <= word.len(),
            i % 2 == 0,
            motif_from(word@, y, seq![]) == motif_from(word@.skip(i as int), sel, output@),
        decreases word.len() - i,
    {
        let b = word[i];
        let a = word[i + 1];
        proof {
            assert(word@.skip(i as int)[0] == b && word@.skip(i as int)[1] == a);
            assert(word@.skip(i as int).skip(2) =~= word@.skip(i + 2));
        }
        if sel == 1 || a == 0 || b > u32::MAX - 3 {
            return None;
        }
        let mut part: Vec<u32> = Vec::new();
        if a != 1 {
            let mut k: u32 = 0;
            while k < a - 2
                invariant
                    k <= a - 2,
                    part@ == Seq::new(k as nat, |j: int| 0u32),
                decreases a - 2 - k,
            {
                part.push(0);
                proof {
                    assert(part@ =~= Seq::new((k + 1) as nat, |j: int| 0u32));
                }
                k = k + 1;
            }
            part.push(b + 3);
        }
        if sel >= 2 {
            part.push(0);
            part.push(sel - 2);
        }
        let ghost before = part@;
        let mut k: usize = 0;
        while k < output.len()
            invariant
                k <= output@.len(),
                part@ == before + output@.take(k as int),
            decreases output@.len() - k,
        {
            part.push(output[k]);
            proof {
                assert(output@.take(k + 1) =~= output@.take(k as int).push(output@[k as int]));
                assert(before + output@.take(k + 1) =~= (before + output@.take(k as int)).push(output@[k as int]));
            }
            k = k + 1;
        }
        proof {
            assert(output@.take(output@.len() as int) =~= output@);
            let expect = (if a == 1 {
                seq![]
            } else {
                Seq::new((a - 2) as nat, |j: int| 0u32) + seq![(b + 3) as u32]
            }) + (if sel >= 2 {
                seq![0u32, (sel - 2) as u32]
            } else {
                seq![]
            });
            assert(before =~= expect);
        }
        output = part;
        sel = if a == 1 {
            b + 3
        } else {
            0
        };
        i = i + 2;
    }
    proof {
        assert(word@.skip(i as int).len() < 2);
    }
    Some((sel, output))
}

/// A rewrite that succeeds under one selector succeeds under any other that is not one,
/// and ends on the same selector, which is not one.
proof fn lemma_motif_any_selector(w: Seq<u32>, y1: u32, o1: Seq<u32>, y2: u32, o2: Seq<u32>)
    requires
        w.len() >= 2,
        y2 != 1,
        motif_from(w, y1, o1) is Some,
    ensures
        motif_from(w, y2, o2) is Some,
        motif_from(w, y1, o1).unwrap().0 == motif_from(w, y2, o2).unwrap().0,
        motif_from(w, y1, o1).unwrap().0 != 1,
    decreases w.len(),
{
    let b = w[0];
    let a = w[1];
    let next: u32 = if a == 1 {
        (b + 3) as u32
    } else {
        0
    };
    let part1 = (if a == 1 {
        seq![]
    } else {
        Seq::new((a - 2) as nat, |i: int| 0u32) + seq![(b + 3) as u32]
    }) + (if y1 >= 2 {
        seq![0u32, (y1 - 2) as u32]
    } else {
        seq![]
    });
    let part2 = (if a == 1 {
        seq![]
    } else {
        Seq::new((a - 2) as nat, |i: int| 0u32) + seq![(b + 3) as u32]
    }) + (if y2 >= 2 {
        seq![0u32, (y2 - 2) as u32]
    } else {
        seq![]
    });
    assert(motif_from(w, y1, o1) == motif_from(w.skip(2), next, part1 + o1));
    assert(motif_from(w, y2, o2) == motif_from(w.skip(2), next, part2 + o2));
    if w.skip(2).len() >= 2 {
        lemma_motif_any_selector(w.skip(2), next, part1 + o1, next, part2 + o2);
    } else {
        assert(motif_from(w.skip(2), next, part1 + o1) == Some((next, part1 + o1)));
        assert(motif_from(w.skip(2), next, part2 + o2) == Some((next, part2 + o2)));
    }
}

/// Law: the selector a rewrite ends on is a fixed point: rewriting again under it ends on
/// it once more.
pub proof fn lemma_motif_selector_settles(w: Seq<u32>, y: u32)
    requires
        motif_from(w, y, seq![]) is Some,
    ensures
        motif_from(w, y, seq![]) matches Some((f, _)) && motif_from(w, f, seq![]) matches Some((g, _))
            && g == f,
{
    let f = motif_from(w, y, seq![]).unwrap().0;
    if w.len() >= 2 {
        lemma_motif_any_selector(w, y, seq![], y, seq![]);
        lemma_motif_any_selector(w, y, seq![], f, seq![]);
    }
}

/// The two stacks around the head, and whether the countdown rules apply.
pub struct GapTape {
    left: Stack,
    right: Stack,
    countdowns: bool,
}

/// The mathematical value of a gap tape.
pub struct TapeView {
    pub left: StackView,
    pub right: StackView,
    pub countdowns: bool,
}

pub closed spec fn tape_view(t: &GapTape) -> TapeView {
    TapeView { left: stack_view(&t.left), right: stack_view(&t.right), countdowns: t.countdowns }
}

/// The digits the final shape starts with.
pub open spec fn final_head() -> Seq<u32> {
    seq![0u32, 2, 1, 0, 1, 2, 1]
}

/// The counts `(a, b)` when the tape reads `0 2 1 0 1 2 1 (0 1)^a 3 1 (2 1)^b` to the left
/// of a blank right side: `Some(None)` when it does not, `None` where it fails.
pub open spec fn k_shape_spec(t: TapeView) -> Option<Option<(Linear, Linear)>> {
    if !blank_view(t.right) {
        Some(None)
    } else {
        match matches_spec(t.left, final_head()) {
            None => None,
            Some(false) => Some(None),
            Some(true) => match popped(t.left, 7) {
                None => None,
                Some(p1) => match pairs_from(p1, 0, 1, constant(0)) {
                    None => None,
                    Some((a, p2)) => match pop_spec(p2) {
                        None => None,
                        Some((x, p3)) => match pop_spec(p3) {
                            None => None,
                            Some((y, p4)) => if x != 3 || y != 1 {
                                Some(None)
                            } else {
                                match pairs_from(p4, 2, 1, constant(0)) {
                                    None => None,
                                    Some((b, p5)) => if blank_view(p5) {
                                        Some(Some((a, b)))
                                    } else {
                                        Some(None)
                                    },
                                }
                            },
                        },
                    },
                },
            },
        }
    }
}

/// The zero-run loop: on a blank right side with the countdown rules on, where the left
/// runs start `(0)^3 (2)^1` or `(1)^1 (2)^2` (period 3, growth 12, zeros at run 2) or
/// `(1)^1 (3)^c (2)^1` (period 2, growth 10, zeros at run 3), the run of zeros there is cut
/// to its remainder modulo the period and `(2 1)` repeated growth times the quotient is
/// appended.  `Some(None)` when it does not apply, `None` where it fails.
pub open spec fn zero_loop_spec(t: TapeView) -> Option<Option<TapeView>> {
    if !t.countdowns || !blank_view(t.right) {
        Some(None)
    } else {
        match runs_spec(t.left) {
            None => None,
            Some(None) => Some(None),
            Some(Some(runs)) => if runs.len() < 3 {
                Some(None)
            } else {
                let first_kind = (runs[0] == (Some(0u32), constant(3)) && runs[1] == (Some(2u32), constant(1)))
                    || (runs[0] == (Some(1u32), constant(1)) && runs[1] == (Some(2u32), constant(2)));
                let second_kind = runs.len() >= 4 && runs[0] == (Some(1u32), constant(1)) && runs[1].0
                    == Some(3u32) && runs[2] == (Some(2u32), constant(1));
                if !first_kind && !second_kind {
                    Some(None)
                } else {
                    let at: int = if first_kind { 2 } else { 3 };
                    let period: i128 = if first_kind { 3 } else { 2 };
                    let growth: int = if first_kind { 12 } else { 10 };
                    let digit = runs[at].0;
                    let zeros = runs[at].1;
                    if digit != Some(0u32) {
                        Some(None)
                    } else {
                        match linear_ge(zeros, period) {
                            None => None,
                            Some(false) => Some(None),
                            Some(true) => match linear_quotient(zeros, period) {
                                None => None,
                                Some(q) => match linear_scaled(q, period as int) {
                                    None => None,
                                    Some(used) => match linear_difference(zeros, used) {
                                        None => None,
                                        Some(left_over) => match linear_scaled(q, growth) {
                                            None => None,
                                            Some(grown) => match boundary_spec(
                                                runs.update(at, (digit, left_over)).push((Some(2u32), grown)),
                                            ) {
                                                None => None,
                                                Some(l) => Some(Some(TapeView { left: l, right: t.right, countdowns: t.countdowns })),
                                            },
                                        },
                                    },
                                },
                            },
                        }
                    }
                }
            },
        }
    }
}

/// The tape with a new left side.
pub open spec fn with_left(t: TapeView, l: StackView) -> TapeView {
    TapeView { left: l, right: t.right, countdowns: t.countdowns }
}

/// The tape with a new right side.
pub open spec fn with_right(t: TapeView, r: StackView) -> TapeView {
    TapeView { left: t.left, right: r, countdowns: t.countdowns }
}

/// The first countdown rule: a left side `0 (3 1)^c (0 1)^z` then pairs, with `c >= 1` and
/// `z >= 2`, becomes `0 (3 1)^(c + q) (0 1)^(z - 2q)` then the pairs and `(2 1)^(2q)`,
/// for `q = z / 2`.  `Some(None)` when it does not apply.
pub open spec fn countdown_first(left: StackView) -> Option<Option<StackView>> {
    match matches_spec(left, seq![0u32, 3, 1]) {
        None => None,
        Some(false) => Some(None),
        Some(true) => match pop_spec(left) {
            None => None,
            Some((_, p1)) => match pairs_from(p1, 3, 1, constant(0)) {
                None => None,
                Some((c, p2)) => match pairs_from(p2, 0, 1, constant(0)) {
                    None => None,
                    Some((zeros, p3)) => match paired_spec(p3) {
                        None => None,
                        Some(false) => Some(None),
                        Some(true) => match linear_ge(c, 1) {
                            None => None,
                            Some(false) => Some(None),
                            Some(true) => match linear_ge(zeros, 2) {
                                None => None,
                                Some(false) => Some(None),
                                Some(true) => match linear_quotient(zeros, 2) {
                                    None => None,
                                    Some(q) => match linear_sum(c, q) {
                                        None => None,
                                        Some(cq) => match linear_scaled(q, 2) {
                                            None => None,
                                            Some(q2) => match linear_difference(zeros, q2) {
                                                None => None,
                                                Some(rest) => match prepend_spec(
                                                    p3,
                                                    seq![
                                                        digits_block(seq![0u32], constant(1)),
                                                        digits_block(seq![3u32, 1], cq),
                                                        digits_block(seq![0u32, 1], rest),
                                                    ],
                                                ) {
                                                    None => None,
                                                    Some(p4) => Some(Some(pushed_back(p4, digits_block(seq![2u32, 1], q2)))),
                                                },
                                            },
                                        },
                                    },
                                },
                            },
                        },
                    },
                },
            },
        },
    }
}

/// The second countdown rule: a left side `0 2 1 0 1 2 1 (0 1)^z` then pairs, with
/// `z >= 4`, keeps its head, cuts `z` to `z - 4q` and appends `(2 1)^(14q)`, for
/// `q = z / 4`.  `Some(None)` when it does not apply.
pub open spec fn countdown_second(left: StackView) -> Option<Option<StackView>> {
    match matches_spec(left, final_head()) {
        None => None,
        Some(false) => Some(None),
        Some(true) => match popped(left, 7) {
            None => None,
            Some(p1) => match pairs_from(p1, 0, 1, constant(0)) {
                None => None,
                Some((zeros, p2)) => match paired_spec(p2) {
                    None => None,
                    Some(false) => Some(None),
                    Some(true) => match linear_ge(zeros, 4) {
                        None => None,
                        Some(false) => Some(None),
                        Some(true) => match linear_quotient(zeros, 4) {
                            None => None,
                            Some(q) => match linear_scaled(q, 4) {
                                None => None,
                                Some(q4) => match linear_difference(zeros, q4) {
                                    None => None,
                                    Some(rest) => match linear_scaled(q, 14) {
                                        None => None,
                                        Some(q14) => match prepend_spec(
                                            p2,
                                            seq![
                                                digits_block(final_head(), constant(1)),
                                                digits_block(seq![0u32, 1], rest),
                                            ],
                                        ) {
                                            None => None,
                                            Some(p3) => Some(Some(pushed_back(p3, digits_block(seq![2u32, 1], q14)))),
                                        },
                                    },
                                },
                            },
                        },
                    },
                },
            },
        },
    }
}

/// The countdown rules, the first then the second, on the left side.
pub open spec fn countdown_spec(t: TapeView) -> Option<Option<TapeView>> {
    match countdown_first(t.left) {
        None => None,
        Some(Some(l)) => Some(Some(with_left(t, l))),
        Some(None) => match countdown_second(t.left) {
            None => None,
            Some(None) => Some(None),
            Some(Some(l)) => Some(Some(with_left(t, l))),
        },
    }
}

/// The marker the carry rule looks for on the right side.
pub open spec fn carry_marker() -> Seq<u32> {
    seq![0u32, 0, 0, 0, 3, 0, 1]
}

/// The carry rule: with `2 (0 1)^k` on the left, `k >= 1`, and the marker on the right,
/// the left side keeps its `2` ahead of what follows the pairs, and the right side gets
/// the marker and `(0 1)^k` in place of the marker.  `Some(None)` when it does not apply.
pub open spec fn carry_spec(t: TapeView) -> Option<Option<TapeView>> {
    match matches_spec(t.left, seq![2u32]) {
        None => None,
        Some(false) => Some(None),
        Some(true) => match matches_spec(t.right, carry_marker()) {
            None => None,
            Some(false) => Some(None),
            Some(true) => match pop_spec(t.left) {
                None => None,
                Some((_, p1)) => match pairs_from(p1, 0, 1, constant(0)) {
                    None => None,
                    Some((budget, p2)) => match linear_ge(budget, 1) {
                        None => None,
                        Some(false) => Some(None),
                        Some(true) => match prepend_spec(p2, seq![digits_block(seq![2u32], constant(1))]) {
                            None => None,
                            Some(l) => match popped(t.right, 7) {
                                None => None,
                                Some(r1) => match prepend_spec(
                                    r1,
                                    seq![
                                        digits_block(carry_marker(), constant(1)),
                                        digits_block(seq![0u32, 1], budget),
                                    ],
                                ) {
                                    None => None,
                                    Some(r) => Some(Some(TapeView { left: l, right: r, countdowns: t.countdowns })),
                                },
                            },
                        },
                    },
                },
            },
        },
    }
}

/// The countdown cycle of a word `c_0 0 c_1 0 ...`: its pairs in reverse order, each as
/// `(c - 1) 1`; `None` where a count is zero.
pub open spec fn countdown_cycle(w: Seq<u32>) -> Option<Seq<u32>> {
    let k = w.len() / 2;
    if exists|j: int| 0 <= j < k && #[trigger] w[2 * j] == 0 {
        None
    } else {
        Some(
            Seq::new(
                (2 * k) as nat,
                |i: int|
                    if i % 2 == 0 {
                        (w[2 * (k - 1 - i / 2)] - 1) as u32
                    } else {
                        1u32
                    },
            ),
        )
    }
}

/// A countdown block `(c_0 0 c_1 0 ...)^count` taken off the right side: the left side gets
/// `0`, the cycle `count - 1` times, then the cycle with its last digit replaced by one
/// more than the digit taken off the left.
pub open spec fn countdown_block_spec(t: TapeView, w: Seq<u32>, count: Linear) -> Option<TapeView> {
    match pop_spec(t.left) {
        None => None,
        Some((b, l1)) => match countdown_cycle(w) {
            None => None,
            Some(cycle) => if cycle.len() == 0 || b + 1 > u32::MAX {
                None
            } else {
                match linear_difference(count, constant(1)) {
                    None => None,
                    Some(less_one) => match prepend_spec(
                        l1,
                        seq![
                            digits_block(seq![0u32], constant(1)),
                            digits_block(cycle, less_one),
                            digits_block(cycle.update(cycle.len() - 1, (b + 1) as u32), constant(1)),
                        ],
                    ) {
                        None => None,
                        Some(l2) => Some(with_left(t, l2)),
                    },
                }
            },
        },
    }
}

/// A gaps block `w^count` taken off the left side: the right side loses two digits and
/// gets `0 f`, the block's rewrite `count - 1` times, then its first rewrite, where the
/// rewrite under the selector `y` yields the selector `f` and the block's rewrite is the
/// one under `f` (see `motif_from`).
pub open spec fn gaps_block_spec(t: TapeView, w: Seq<u32>, count: Linear, y: u32) -> Option<TapeView> {
    match pop_two(t.right) {
        None => None,
        Some(r1) => match motif_from(w, y, seq![]) {
            None => None,
            Some((fy, first)) => match motif_from(w, fy, seq![]) {
                None => None,
                Some((_, cycle)) => match linear_difference(count, constant(1)) {
                    None => None,
                    Some(less_one) => match prepend_spec(
                        r1,
                        seq![
                            digits_block(seq![0u32, fy], constant(1)),
                            digits_block(cycle, less_one),
                            digits_block(first, constant(1)),
                        ],
                    ) {
                        None => None,
                        Some(r2) => Some(with_right(t, r2)),
                    },
                },
            },
        },
    }
}

/// The single step with `x y` the two digits nearest the head on the right and `b` the
/// digit nearest it on the left: for `x > 0` the left side gets `x - 1, b + 1` (after a
/// `0` when `y == 0`) and the right side `0, y - 1` when `y > 0`; for `x == 0` the left
/// side loses `a` too and the right side gets `a` zeros, `b + 3`, then `0, y - 2` when
/// `y >= 2`.
pub open spec fn single_step_spec(t: TapeView, x: u32, y: u32) -> Option<TapeView> {
    match pop_two(t.right) {
        None => None,
        Some(r1) => match pop_spec(t.left) {
            None => None,
            Some((b, l1)) => if x > 0 {
                if b + 1 > u32::MAX {
                    None
                } else {
                    let word = (if y == 0 { seq![0u32] } else { seq![] }) + seq![(x - 1) as u32, (b + 1) as u32];
                    match prepend_spec(l1, seq![digits_block(word, constant(1))]) {
                        None => None,
                        Some(l2) => if y > 0 {
                            match prepend_spec(r1, seq![digits_block(seq![0u32, (y - 1) as u32], constant(1))]) {
                                None => None,
                                Some(r2) => Some(TapeView { left: l2, right: r2, countdowns: t.countdowns }),
                            }
                        } else {
                            Some(TapeView { left: l2, right: r1, countdowns: t.countdowns })
                        },
                    }
                }
            } else {
                match pop_spec(l1) {
                    None => None,
                    Some((a, l2)) => if b + 3 > u32::MAX {
                        None
                    } else {
                        let word = Seq::new(a as nat, |i: int| 0u32) + seq![(b + 3) as u32] + (if y >= 2 {
                            seq![0u32, (y - 2) as u32]
                        } else {
                            seq![]
                        });
                        match prepend_spec(r1, seq![digits_block(word, constant(1))]) {
                            None => None,
                            Some(r2) => Some(TapeView { left: l2, right: r2, countdowns: t.countdowns }),
                        }
                    },
                }
            },
        },
    }
}

/// The block rules, then the single step: for `x > 0` a countdown block taken whole off
/// the right; for `x == 0` (a selector `y` of one halts) a gaps block taken whole off the
/// left; otherwise one step.
pub open spec fn block_rules_spec(t: TapeView, x: u32, y: u32) -> Option<TapeView> {
    if x > 0 {
        match aligned_spec(t.right, Shape::Countdowns) {
            None => None,
            Some((taken, r1)) => {
                let t1 = with_right(t, r1);
                match taken {
                    Some(part) => match part.word {
                        Some(w) => countdown_block_spec(t1, w, part.count),
                        None => single_step_spec(t1, x, y),
                    },
                    None => single_step_spec(t1, x, y),
                }
            },
        }
    } else if y == 1 {
        None
    } else {
        match aligned_spec(t.left, Shape::Gaps) {
            None => None,
            Some((taken, l1)) => {
                let t1 = with_left(t, l1);
                match taken {
                    Some(part) => match part.word {
                        Some(w) => gaps_block_spec(t1, w, part.count, y),
                        None => single_step_spec(t1, x, y),
                    },
                    None => single_step_spec(t1, x, y),
                }
            },
        }
    }
}

/// One symbolic step of the tape: the zero-run loop, then (with the countdown rules on
/// and a blank right side) the countdown rules, then the carry rule, then (where the left
/// side reads as pairs) the pairs rules, then the block rules and the single step; the
/// first that applies is taken.  `None` where it fails.
pub open spec fn step_spec(t: TapeView) -> Option<TapeView> {
    match zero_loop_spec(t) {
        None => None,
        Some(Some(t2)) => Some(t2),
        Some(None) => {
            let counted = if t.countdowns && blank_view(t.right) {
                countdown_spec(t)
            } else {
                Some(None)
            };
            match counted {
                None => None,
                Some(Some(t2)) => Some(t2),
                Some(None) => match carry_spec(t) {
                    None => None,
                    Some(Some(t2)) => Some(t2),
                    Some(None) => match popped_digits(t.right, 3) {
                        None => None,
                        Some(near) => match paired_spec(t.left) {
                            None => None,
                            Some(p) => {
                                let ruled = if p {
                                    pairs_rules_spec(t, near)
                                } else {
                                    Some(None)
                                };
                                match ruled {
                                    None => None,
                                    Some(Some(t2)) => Some(t2),
                                    Some(None) => block_rules_spec(t, near[0], near[1]),
                                }
                            },
                        },
                    },
                },
            }
        },
    }
}

/// The digits `k` pops read.
pub open spec fn popped_digits(v: StackView, k: nat) -> Option<Seq<u32>> {
    match pops(v, k) {
        None => None,
        Some((ds, _)) => Some(ds),
    }
}

/// One symbolic step, then both sides normalized.
pub open spec fn advance_spec(t: TapeView) -> Option<TapeView> {
    match step_spec(t) {
        None => None,
        Some(t2) => match normalize_spec(t2.left) {
            None => None,
            Some(l) => match normalize_spec(t2.right) {
                None => None,
                Some(r) => Some(TapeView { left: l, right: r, countdowns: t2.countdowns }),
            },
        },
    }
}

/// Whether a run is the digit `d` counted `c` times.
fn is_run(r: &Run, d: u32, c: i128) -> (b: bool)
    ensures
        b == (r.0 == Some(d) && r.1 == constant(c)),
{
    match r.0 {
        Some(x) => x == d && r.1 == num(c),
        None => false,
    }
}

/// Takes the fours off the front of a stack, loose digits one by one and blocks of fours
/// whole, adding their number to `budget`.  `None` where a count overflows.
pub open spec fn fours_from(v: StackView, budget: Linear) -> Option<(Linear, StackView)>
    decreases v.powers.len(), v.finite.len(),
{
    if v.finite.len() > 0 && v.finite[0] == 4 {
        match linear_sum(budget, constant(1)) {
            None => None,
            Some(b) => fours_from(StackView { finite: v.finite.drop_first(), powers: v.powers }, b),
        }
    } else if v.finite.len() == 0 && v.powers.len() > 0 && fours_word(v.powers[0].word) {
        let part = v.powers[0];
        let width: int = match part.word {
            Some(w) => w.len() as int,
            None => 0,
        };
        match linear_scaled(part.count, width) {
            None => None,
            Some(added) => match linear_sum(budget, added) {
                None => None,
                Some(b) => fours_from(StackView { finite: v.finite, powers: v.powers.drop_first() }, b),
            },
        }
    } else {
        Some((budget, v))
    }
}

/// The three digits nearest the head on the right, as the pairs rules read them.
pub open spec fn pairs_rule_first(t: TapeView, near: Seq<u32>) -> Option<Option<TapeView>> {
    if near[0] == 0 && near[1] == 3 {
        match pop_two(t.right) {
            None => None,
            Some(p) => match fours_from(p, constant(0)) {
                None => None,
                Some((budget, p2)) => match linear_ge(budget, 1) {
                    None => None,
                    Some(false) => Some(None),
                    Some(true) => match prepend_spec(t.left, seq![digits_block(seq![0u32, 1], budget)]) {
                        None => None,
                        Some(l1) => match prepend_spec(p2, seq![digits_block(seq![0u32, 3], constant(1))]) {
                            None => None,
                            Some(r) => Some(
                                Some(
                                    TapeView {
                                        left: pushed_back(l1, digits_block(seq![2u32, 1], budget)),
                                        right: r,
                                        countdowns: t.countdowns,
                                    },
                                ),
                            ),
                        },
                    },
                },
            },
        }
    } else {
        Some(None)
    }
}

/// The rule for a blank right side or a right side starting `0 y` with `y >= 2`: the
/// head moves right past one `(2 1)` pair appended on the left.
pub open spec fn pairs_rule_second(t: TapeView, near: Seq<u32>) -> Option<Option<TapeView>> {
    if blank_view(t.right) || (near[0] == 0 && near[1] >= 2) {
        let r1: Option<StackView> = if !blank_view(t.right) {
            match pop_two(t.right) {
                None => None,
                Some(b) => match pop_spec(t.right) {
                    None => None,
                    Some((_, a)) => match pop_spec(a) {
                        None => None,
                        Some((y, _)) => if y < 2 {
                            None
                        } else {
                            prepend_spec(b, seq![digits_block(seq![(y - 2) as u32], constant(1))])
                        },
                    },
                },
            }
        } else {
            Some(t.right)
        };
        match r1 {
            None => None,
            Some(r) => match prepend_spec(t.left, seq![]) {
                None => None,
                Some(l1) => match prepend_spec(
                    pushed_back(l1, digits_block(seq![2u32, 1], constant(1))),
                    seq![digits_block(seq![0u32], constant(1))],
                ) {
                    None => None,
                    Some(l2) => Some(Some(TapeView { left: l2, right: r, countdowns: t.countdowns })),
                },
            },
        }
    } else {
        Some(None)
    }
}

/// The rule for a right side starting `0 0 z` with `z > 0`: `z` counts down by one.
pub open spec fn pairs_rule_third(t: TapeView, near: Seq<u32>) -> Option<Option<TapeView>> {
    if near[0] == 0 && near[1] == 0 && near[2] > 0 {
        match pop_two(t.right) {
            None => None,
            Some(a) => match pop_spec(a) {
                None => None,
                Some((z, b)) => if z < 1 {
                    None
                } else {
                    match prepend_spec(b, seq![digits_block(seq![0u32, (z - 1) as u32], constant(1))]) {
                        None => None,
                        Some(r) => match prepend_spec(t.left, seq![]) {
                            None => None,
                            Some(l1) => Some(
                                Some(
                                    TapeView {
                                        left: pushed_back(l1, digits_block(seq![2u32, 1], constant(1))),
                                        right: r,
                                        countdowns: t.countdowns,
                                    },
                                ),
                            ),
                        },
                    }
                },
            },
        }
    } else {
        Some(None)
    }
}

/// The rules that apply when the left side reads as pairs, tried in order.
pub open spec fn pairs_rules_spec(t: TapeView, near: Seq<u32>) -> Option<Option<TapeView>> {
    match pairs_rule_first(t, near) {
        None => None,
        Some(Some(t2)) => Some(Some(t2)),
        Some(None) => match pairs_rule_second(t, near) {
            None => None,
            Some(Some(t2)) => Some(Some(t2)),
            Some(None) => pairs_rule_third(t, near),
        },
    }
}

/// Takes the fours off the front of a stack and counts them (see `fours_from`).
fn take_fours(probe: &mut Stack) -> (r: Option<Linear>)
    ensures
        match fours_from(stack_view(old(probe)), constant(0)) {
            None => r is None,
            Some((b, v)) => r == Some(b) && stack_view(final(probe)) == v,
        },
{
    let mut budget = num(0);
    let ghost goal = fours_from(stack_view(probe), budget);
    loop
        invariant
            goal == fours_from(stack_view(old(probe)), constant(0)),
            goal == fours_from(stack_view(probe), budget),
        ensures
            goal == Some((budget, stack_view(probe))),
        decreases probe.powers@.len(), probe.finite@.len(),
    {
        if probe.finite.len() > 0 && probe.finite[0] == 4 {
            let ghost before = stack_view(probe);
            probe.finite.pop_front();
            proof {
                assert(stack_view(probe).finite =~= before.finite.drop_first());
            }
            budget = match budget.add(num(1)) {
                Some(b) => b,
                None => return None,
            };
        } else if probe.finite.len() == 0 && probe.powers.len() > 0 && all_fours(&probe.powers[0].word) {
            let ghost before = stack_view(probe);
            let part = probe.powers.pop_front().unwrap();
            proof {
                assert(block_view(&part) == before.powers[0]);
                assert(stack_view(probe).powers =~= before.powers.drop_first());
            }
            let width = match &part.word {
                Word::Digits(w) => w.len(),
                Word::Suffix => 0,
            };
            let added = match part.count.mul(width as i128) {
                Some(x) => x,
                None => return None,
            };
            budget = match budget.add(added) {
                Some(b) => b,
                None => return None,
            };
        } else {
            break;
        }
    }
    Some(budget)
}

/// The first countdown rule on a left side (see `countdown_first`).
fn countdown_first_of(left: &Stack) -> (r: Option<Option<Stack>>)
    ensures
        match countdown_first(stack_view(left)) {
            None => r is None,
            Some(None) => r is Some && r.unwrap() is None,
            Some(Some(l)) => r matches Some(Some(x)) && stack_view(&x) == l,
        },
{
    let lead: [u32; 3] = [0, 3, 1];
    let starts = match left.matches(&lead) {
        Some(b) => b,
        None => return None,
    };
    if starts {
        let mut probe = left.duplicate();
        if probe.pop().is_none() {
            return None;
        }
        let c = match probe.pairs([3, 1]) {
            Some(c) => c,
            None => return None,
        };
        let zeros = match probe.pairs([0, 1]) {
            Some(z) => z,
            None => return None,
        };
        let paired = match probe.paired() {
            Some(p) => p,
            None => return None,
        };
        if paired {
            let enough_c = match c.try_ge(1) {
                Some(b) => b,
                None => return None,
            };
            if enough_c {
                let enough_zeros = match zeros.try_ge(2) {
                    Some(b) => b,
                    None => return None,
                };
                if enough_zeros {
                    let q = match zeros.try_div(2) {
                        Some(q) => q,
                        None => return None,
                    };
                    let cq = match c.add(q) {
                        Some(x) => x,
                        None => return None,
                    };
                    let q2 = match q.mul(2) {
                        Some(x) => x,
                        None => return None,
                    };
                    let rest = match zeros.sub(q2) {
                        Some(x) => x,
                        None => return None,
                    };
                    let zero: [u32; 1] = [0];
                    let mut parts: Vec<Block> = Vec::new();
                    parts.push(block(&zero, num(1)));
                    parts.push(pair_block(3, cq));
                    parts.push(pair_block(0, rest));
                    proof {
                        assert(zero@ =~= seq![0u32]);
                        assert(parts@.map_values(|b: Block| block_view(&b)) =~= seq![
                            digits_block(seq![0u32], constant(1)),
                            digits_block(seq![3u32, 1], cq),
                            digits_block(seq![0u32, 1], rest),
                        ]);
                    }
                    if probe.prepend(parts).is_none() {
                        return None;
                    }
                    push_back_block(&mut probe, pair_block(2, q2));
                                            return Some(Some(probe));
                }
            }
        }
    }
    Some(None)
}

/// The second countdown rule on a left side (see `countdown_second`).
fn countdown_second_of(left: &Stack) -> (r: Option<Option<Stack>>)
    ensures
        match countdown_second(stack_view(left)) {
            None => r is None,
            Some(None) => r is Some && r.unwrap() is None,
            Some(Some(l)) => r matches Some(Some(x)) && stack_view(&x) == l,
        },
{
    let head: [u32; 7] = [0, 2, 1, 0, 1, 2, 1];
    let starts = match left.matches(&head) {
        Some(b) => b,
        None => return None,
    };
    if starts {
        let mut probe = left.duplicate();
        if pop_times(&mut probe, 7).is_none() {
            return None;
        }
        let zeros = match probe.pairs([0, 1]) {
            Some(z) => z,
            None => return None,
        };
        let paired = match probe.paired() {
            Some(p) => p,
            None => return None,
        };
        if paired {
            let enough = match zeros.try_ge(4) {
                Some(b) => b,
                None => return None,
            };
            if enough {
                let q = match zeros.try_div(4) {
                    Some(q) => q,
                    None => return None,
                };
                let q4 = match q.mul(4) {
                    Some(x) => x,
                    None => return None,
                };
                let rest = match zeros.sub(q4) {
                    Some(x) => x,
                    None => return None,
                };
                let q14 = match q.mul(14) {
                    Some(x) => x,
                    None => return None,
                };
                let mut parts: Vec<Block> = Vec::new();
                parts.push(block(&head, num(1)));
                parts.push(pair_block(0, rest));
                proof {
                    assert(head@ =~= final_head());
                    assert(parts@.map_values(|b: Block| block_view(&b)) =~= seq![
                        digits_block(final_head(), constant(1)),
                        digits_block(seq![0u32, 1], rest),
                    ]);
                }
                if probe.prepend(parts).is_none() {
                    return None;
                }
                push_back_block(&mut probe, pair_block(2, q14));
                                    return Some(Some(probe));
            }
        }
    }
    Some(None)
}

/// The countdown cycle of a word (see `countdown_cycle`).
fn countdown_cycle_of(w: &Vec<u32>) -> (r: Option<Vec<u32>>)
    ensures
        match countdown_cycle(w@) {
            None => r is None,
            Some(c) => r matches Some(v) && v@ == c,
        },
{
    let ghost k0 = (w@.len() / 2) as int;
    let mut cycle: Vec<u32> = Vec::new();
    let width: usize = w.len();
    let mut k: usize = width / 2;
    while k > 0
        invariant
            width == w@.len(),
            k0 == width / 2,
            k <= k0,
            forall|j: int| k <= j < k0 ==> #[trigger] w@[2 * j] != 0,
            cycle@ == Seq::new(
                (2 * (k0 - k)) as nat,
                |i: int|
                    if i % 2 == 0 {
                        (w@[2 * (k0 - 1 - i / 2)] - 1) as u32
                    } else {
                        1u32
                    },
            ),
        decreases k,
    {
        k = k - 1;
        let d = match less(w[2 * k], 1) {
            Some(d) => d,
            None => {
                proof {
                    assert(w@[2 * (k as int)] == 0);
                }
                return None;
            },
        };
        let ghost before = cycle@;
        cycle.push(d);
        cycle.push(1);
        proof {
            let n = (2 * (k0 - k)) as nat;
            let f = |i: int|
                if i % 2 == 0 {
                    (w@[2 * (k0 - 1 - i / 2)] - 1) as u32
                } else {
                    1u32
                };
            assert(cycle@ =~= Seq::new(n, f)) by {
                assert forall|i: int| 0 <= i < n implies cycle@[i] == f(i) by {
                    if i < n - 2 {
                        assert(cycle@[i] == before[i]);
                    } else if i == n - 2 {
                        assert((n - 2) / 2 == k0 - 1 - k) by (nonlinear_arith)
                            requires
                                n == 2 * (k0 - k),
                        ;
                        assert(i % 2 == 0) by (nonlinear_arith)
                            requires
                                i == n - 2,
                                n == 2 * (k0 - k),
                        ;
                    } else {
                        assert(i % 2 == 1) by (nonlinear_arith)
                            requires
                                i == n - 1,
                                n == 2 * (k0 - k),
                        ;
                    }
                }
            }
        }
    }
    proof {
        assert(!(exists|j: int| 0 <= j < k0 && #[trigger] w@[2 * j] == 0));
    }
    Some(cycle)
}

/// The word `[digit, 1]` repeated.
fn pair_block(d: u32, count: Linear) -> (r: Block)
    ensures
        block_view(&r) == digits_block(seq![d, 1u32], count),
{
    let w: [u32; 2] = [d, 1];
    proof {
        assert(w@ =~= seq![d, 1u32]);
    }
    block(&w, count)
}

/// The stack with a block added after its last one.
pub open spec fn pushed_back(v: StackView, b: BlockView) -> StackView {
    StackView { finite: v.finite, powers: v.powers.push(b) }
}

fn push_back_block(s: &mut Stack, b: Block)
    ensures
        stack_view(final(s)) == pushed_back(stack_view(old(s)), block_view(&b)),
{
    s.powers.push_back(b);
    proof {
        assert(stack_view(s).powers =~= stack_view(old(s)).powers.push(block_view(&b)));
    }
}

/// The stack left after popping `k` digits.
pub open spec fn popped(v: StackView, k: nat) -> Option<StackView> {
    match pops(v, k) {
        None => None,
        Some((_, w)) => Some(w),
    }
}

fn pop_times(s: &mut Stack, times: usize) -> (r: Option<()>)
    ensures
        match popped(stack_view(old(s)), times as nat) {
            None => r is None,
            Some(w) => r is Some && stack_view(final(s)) == w,
        },
{
    let ghost goal = popped(stack_view(s), times as nat);
    let mut i: usize = 0;
    while i < times
        invariant
            i <= times,
            goal == popped(stack_view(old(s)), times as nat),
            goal == popped(stack_view(s), (times - i) as nat),
        decreases times - i,
    {
        if s.pop().is_none() {
            return None;
        }
        i = i + 1;
    }
    Some(())
}

/// The subtraction `x - y` of digits, where it does not go below zero.
fn less(x: u32, y: u32) -> (r: Option<u32>)
    ensures
        r == (if x >= y {
            Some((x - y) as u32)
        } else {
            None
        }),
{
    x.checked_sub(y)
}

/// The sum `x + y` of digits, where it fits.
fn more(x: u32, y: u32) -> (r: Option<u32>)
    ensures
        r == (if x + y <= u32::MAX {
            Some((x + y) as u32)
        } else {
            None
        }),
{
    x.checked_add(y)
}

impl GapTape {
    /// The blank tape with the countdown rules on.
    pub fn blank() -> (t: GapTape)
        ensures
            tape_view(&t).left == (StackView { finite: seq![], powers: seq![] }),
            tape_view(&t).right == (StackView { finite: seq![], powers: seq![] }),
            tape_view(&t).countdowns,
    {
        GapTape { left: Stack::new(), right: Stack::new(), countdowns: true }
    }

    /// The tape with a zero and the runs to the left of the head and nothing to the right.
    fn new(runs: Vec<Run>, countdowns: bool) -> (r: Option<GapTape>)
        ensures
            match boundary_spec(runs@) {
                None => r is None,
                Some(v) => r matches Some(t) && tape_view(&t) == (TapeView {
                    left: v,
                    right: StackView { finite: seq![], powers: seq![] },
                    countdowns,
                }),
            },
    {
        let left = match boundary(runs) {
            Some(s) => s,
            None => return None,
        };
        Some(GapTape { left, right: Stack::new(), countdowns })
    }

    /// The counts `(a, b)` when the tape reads `0 2 1 0 1 2 1 (0 1)^a 3 1 (2 1)^b` to the
    /// left of a blank right side (see `k_shape_spec`).
    pub fn k_shape(&self) -> (r: Option<Option<(Linear, Linear)>>)
        ensures
            r == k_shape_spec(tape_view(self)),
    {
        if !self.right.empty() {
            return Some(None);
        }
        let head: [u32; 7] = [0, 2, 1, 0, 1, 2, 1];
        match self.left.matches(&head) {
            None => return None,
            Some(false) => return Some(None),
            Some(true) => {},
        }
        proof {
            assert(head@ =~= seq![0u32, 2, 1, 0, 1, 2, 1]);
        }
        let mut probe = self.left.duplicate();
        if pop_times(&mut probe, 7).is_none() {
            return None;
        }
        let a = match probe.pairs([0, 1]) {
            Some(a) => a,
            None => return None,
        };
        let x = match probe.pop() {
            Some(d) => d,
            None => return None,
        };
        let y = match probe.pop() {
            Some(d) => d,
            None => return None,
        };
        if x != 3 || y != 1 {
            return Some(None);
        }
        let b = match probe.pairs([2, 1]) {
            Some(b) => b,
            None => return None,
        };
        if probe.empty() {
            Some(Some((a, b)))
        } else {
            Some(None)
        }
    }

    /// The zero-run loop (see `zero_loop_spec`); `Some(false)` when it does not apply.
    fn zero_loop(&mut self) -> (r: Option<bool>)
        ensures
            match zero_loop_spec(tape_view(old(self))) {
                None => r is None,
                Some(None) => r == Some(false) && tape_view(final(self)) == tape_view(old(self)),
                Some(Some(t)) => r == Some(true) && tape_view(final(self)) == t,
            },
    {
        if !self.countdowns || !self.right.empty() {
            return Some(false);
        }
        let mut runs = match self.left.runs() {
            None => return None,
            Some(None) => return Some(false),
            Some(Some(r)) => r,
        };
        if runs.len() < 3 {
            return Some(false);
        }
        let first_kind = (is_run(&runs[0], 0, 3) && is_run(&runs[1], 2, 1)) || (is_run(&runs[0], 1, 1)
            && is_run(&runs[1], 2, 2));
        let second_kind = runs.len() >= 4 && is_run(&runs[0], 1, 1) && runs[1].0 == Some(3u32)
            && is_run(&runs[2], 2, 1);
        let (at, period, growth): (usize, i128, i128) = if first_kind {
            (2, 3, 12)
        } else if second_kind {
            (3, 2, 10)
        } else {
            return Some(false);
        };
        let (digit, zeros) = runs[at];
        if digit != Some(0u32) {
            return Some(false);
        }
        match zeros.try_ge(period) {
            None => return None,
            Some(false) => return Some(false),
            Some(true) => {},
        }
        let q = match zeros.try_div(period) {
            Some(q) => q,
            None => return None,
        };
        let used = match q.mul(period) {
            Some(u) => u,
            None => return None,
        };
        let left_over = match zeros.sub(used) {
            Some(z) => z,
            None => return None,
        };
        let grown = match q.mul(growth) {
            Some(g) => g,
            None => return None,
        };
        runs.set(at, (digit, left_over));
        runs.push((Some(2u32), grown));
        let left = match boundary(runs) {
            Some(s) => s,
            None => return None,
        };
        self.left = left;
        Some(true)
    }

    /// One symbolic step of the tape, then both sides normalized (see `advance_spec`).
    /// `None` where it fails (an undecided count, a halting selector, a digit or
    /// count out of range).
    pub fn advance(&mut self) -> (r: Option<()>)
        ensures
            match advance_spec(tape_view(old(self))) {
                None => r is None,
                Some(t) => r is Some && tape_view(final(self)) == t,
            },
    {
        if self.advance_inner().is_none() {
            return None;
        }
        if self.left.normalize().is_none() {
            return None;
        }
        if self.right.normalize().is_none() {
            return None;
        }
        Some(())
    }

    fn advance_inner(&mut self) -> (r: Option<()>)
        ensures
            match step_spec(tape_view(old(self))) {
                None => r is None,
                Some(t) => r is Some && tape_view(final(self)) == t,
            },
    {
        match self.zero_loop() {
            None => return None,
            Some(true) => return Some(()),
            Some(false) => {},
        }
        if self.countdowns && self.right.empty() {
            match self.countdown_rules() {
                None => return None,
                Some(true) => return Some(()),
                Some(false) => {},
            }
        }
        match self.carry_rule() {
            None => return None,
            Some(true) => return Some(()),
            Some(false) => {},
        }
        let near = match self.right.near(3) {
            Some(v) => v,
            None => return None,
        };
        let paired = match self.left.paired() {
            Some(p) => p,
            None => return None,
        };
        if paired {
            match self.paired_rules(&near) {
                None => return None,
                Some(true) => return Some(()),
                Some(false) => {},
            }
        }
        self.block_rules(near[0], near[1])
    }

    /// The two countdown rules (see `countdown_spec`); `Some(true)` when one applied.
    fn countdown_rules(&mut self) -> (r: Option<bool>)
        ensures
            match countdown_spec(tape_view(old(self))) {
                None => r is None,
                Some(None) => r == Some(false) && tape_view(final(self)) == tape_view(old(self)),
                Some(Some(t)) => r == Some(true) && tape_view(final(self)) == t,
            },
    {
        match countdown_first_of(&self.left) {
            None => return None,
            Some(Some(l)) => {
                self.left = l;
                return Some(true);
            },
            Some(None) => {},
        }
        match countdown_second_of(&self.left) {
            None => None,
            Some(Some(l)) => {
                self.left = l;
                Some(true)
            },
            Some(None) => Some(false),
        }
    }

    /// The carry rule (see `carry_spec`); `Some(true)` when it applied.
    fn carry_rule(&mut self) -> (r: Option<bool>)
        ensures
            match carry_spec(tape_view(old(self))) {
                None => r is None,
                Some(None) => r == Some(false) && tape_view(final(self)) == tape_view(old(self)),
                Some(Some(t)) => r == Some(true) && tape_view(final(self)) == t,
            },
    {
        let two: [u32; 1] = [2];
        proof {
            assert(two@ =~= seq![2u32]);
        }
        let left_two = match self.left.matches(&two) {
            Some(b) => b,
            None => return None,
        };
        if !left_two {
            return Some(false);
        }
        let marker: [u32; 7] = [0, 0, 0, 0, 3, 0, 1];
        proof {
            assert(marker@ =~= carry_marker());
        }
        let right_marker = match self.right.matches(&marker) {
            Some(b) => b,
            None => return None,
        };
        if !right_marker {
            return Some(false);
        }
        let mut probe = self.left.duplicate();
        if probe.pop().is_none() {
            return None;
        }
        let budget = match probe.pairs([0, 1]) {
            Some(b) => b,
            None => return None,
        };
        let enough = match budget.try_ge(1) {
            Some(b) => b,
            None => return None,
        };
        if !enough {
            return Some(false);
        }
        let mut parts: Vec<Block> = Vec::new();
        parts.push(block(&two, num(1)));
        proof {
            assert(two@ =~= seq![2u32]);
            assert(parts@.map_values(|b: Block| block_view(&b)) =~= seq![digits_block(seq![2u32], constant(1))]);
        }
        if probe.prepend(parts).is_none() {
            return None;
        }
        self.left = probe;
        if pop_times(&mut self.right, 7).is_none() {
            return None;
        }
        let mut parts: Vec<Block> = Vec::new();
        parts.push(block(&marker, num(1)));
        parts.push(pair_block(0, budget));
        proof {
            assert(marker@ =~= carry_marker());
            assert(parts@.map_values(|b: Block| block_view(&b)) =~= seq![
                digits_block(carry_marker(), constant(1)),
                digits_block(seq![0u32, 1], budget),
            ]);
        }
        if self.right.prepend(parts).is_none() {
            return None;
        }
        Some(true)
    }

    /// The rules that apply when the left side reads as pairs (see `pairs_rules_spec`);
    /// `Some(true)` when one did.
    fn paired_rules(&mut self, near: &Vec<u32>) -> (r: Option<bool>)
        requires
            near@.len() == 3,
        ensures
            match pairs_rules_spec(tape_view(old(self)), near@) {
                None => r is None,
                Some(None) => r == Some(false) && tape_view(final(self)) == tape_view(old(self)),
                Some(Some(t)) => r == Some(true) && tape_view(final(self)) == t,
            },
    {
        match self.pairs_first(near) {
            None => return None,
            Some(true) => return Some(true),
            Some(false) => {},
        }
        match self.pairs_second(near) {
            None => return None,
            Some(true) => return Some(true),
            Some(false) => {},
        }
        self.pairs_third(near)
    }

    /// See `pairs_rule_first`.
    fn pairs_first(&mut self, near: &Vec<u32>) -> (r: Option<bool>)
        requires
            near@.len() == 3,
        ensures
            match pairs_rule_first(tape_view(old(self)), near@) {
                None => r is None,
                Some(None) => r == Some(false) && tape_view(final(self)) == tape_view(old(self)),
                Some(Some(t)) => r == Some(true) && tape_view(final(self)) == t,
            },
    {
        if !(near[0] == 0 && near[1] == 3) {
            return Some(false);
        }
        let mut probe = self.right.duplicate();
        if probe.pop().is_none() {
            return None;
        }
        if probe.pop().is_none() {
            return None;
        }
        let budget = match take_fours(&mut probe) {
            Some(b) => b,
            None => return None,
        };
        let enough = match budget.try_ge(1) {
            Some(b) => b,
            None => return None,
        };
        if !enough {
            return Some(false);
        }
        let mut parts: Vec<Block> = Vec::new();
        parts.push(pair_block(0, budget));
        proof {
            assert(parts@.map_values(|b: Block| block_view(&b)) =~= seq![digits_block(seq![0u32, 1], budget)]);
        }
        if self.left.prepend(parts).is_none() {
            return None;
        }
        push_back_block(&mut self.left, pair_block(2, budget));
        let lead: [u32; 2] = [0, 3];
        let mut parts: Vec<Block> = Vec::new();
        parts.push(block(&lead, num(1)));
        proof {
            assert(lead@ =~= seq![0u32, 3]);
            assert(parts@.map_values(|b: Block| block_view(&b)) =~= seq![digits_block(seq![0u32, 3], constant(1))]);
        }
        if probe.prepend(parts).is_none() {
            return None;
        }
        self.right = probe;
        Some(true)
    }

    /// See `pairs_rule_second`.
    fn pairs_second(&mut self, near: &Vec<u32>) -> (r: Option<bool>)
        requires
            near@.len() == 3,
        ensures
            match pairs_rule_second(tape_view(old(self)), near@) {
                None => r is None,
                Some(None) => r == Some(false) && tape_view(final(self)) == tape_view(old(self)),
                Some(Some(t)) => r == Some(true) && tape_view(final(self)) == t,
            },
    {
        let blank = self.right.empty();
        if !(blank || (near[0] == 0 && near[1] >= 2)) {
            return Some(false);
        }
        if !blank {
            if self.right.pop().is_none() {
                return None;
            }
            let y = match self.right.pop() {
                Some(d) => d,
                None => return None,
            };
            let y2 = match less(y, 2) {
                Some(d) => d,
                None => return None,
            };
            let w: [u32; 1] = [y2];
            let mut parts: Vec<Block> = Vec::new();
            parts.push(block(&w, num(1)));
            proof {
                assert(w@ =~= seq![y2]);
                assert(parts@.map_values(|b: Block| block_view(&b)) =~= seq![digits_block(seq![(y - 2) as u32], constant(1))]);
            }
            if self.right.prepend(parts).is_none() {
                return None;
            }
        }
        if self.left.prepend(Vec::new()).is_none() {
            return None;
        }
        push_back_block(&mut self.left, pair_block(2, num(1)));
        let zero: [u32; 1] = [0];
        let mut parts: Vec<Block> = Vec::new();
        parts.push(block(&zero, num(1)));
        proof {
            assert(zero@ =~= seq![0u32]);
            assert(parts@.map_values(|b: Block| block_view(&b)) =~= seq![digits_block(seq![0u32], constant(1))]);
        }
        if self.left.prepend(parts).is_none() {
            return None;
        }
        Some(true)
    }

    /// See `pairs_rule_third`.
    fn pairs_third(&mut self, near: &Vec<u32>) -> (r: Option<bool>)
        requires
            near@.len() == 3,
        ensures
            match pairs_rule_third(tape_view(old(self)), near@) {
                None => r is None,
                Some(None) => r == Some(false) && tape_view(final(self)) == tape_view(old(self)),
                Some(Some(t)) => r == Some(true) && tape_view(final(self)) == t,
            },
    {
        if !(near[0] == 0 && near[1] == 0 && near[2] > 0) {
            return Some(false);
        }
        if self.right.pop().is_none() {
            return None;
        }
        if self.right.pop().is_none() {
            return None;
        }
        let z = match self.right.pop() {
            Some(d) => d,
            None => return None,
        };
        let z1 = match less(z, 1) {
            Some(d) => d,
            None => return None,
        };
        let w: [u32; 2] = [0, z1];
        let mut parts: Vec<Block> = Vec::new();
        parts.push(block(&w, num(1)));
        proof {
            assert(w@ =~= seq![0u32, z1]);
            assert(parts@.map_values(|b: Block| block_view(&b)) =~= seq![digits_block(seq![0u32, (z - 1) as u32], constant(1))]);
        }
        if self.right.prepend(parts).is_none() {
            return None;
        }
        if self.left.prepend(Vec::new()).is_none() {
            return None;
        }
        push_back_block(&mut self.left, pair_block(2, num(1)));
        Some(true)
    }

    /// The block rules and, failing them, the single step (see `block_rules_spec`).
    fn block_rules(&mut self, x: u32, y: u32) -> (r: Option<()>)
        ensures
            match block_rules_spec(tape_view(old(self)), x, y) {
                None => r is None,
                Some(t) => r is Some && tape_view(final(self)) == t,
            },
    {
        if x > 0 {
            let taken = match self.right.aligned(&Shape::Countdowns) {
                Some(t) => t,
                None => return None,
            };
            if let Some(part) = taken {
                if let Word::Digits(w) = part.word {
                    return self.countdown_block(&w, part.count);
                }
            }
        } else {
            if y == 1 {
                return None;
            }
            let taken = match self.left.aligned(&Shape::Gaps) {
                Some(t) => t,
                None => return None,
            };
            if let Some(part) = taken {
                if let Word::Digits(w) = part.word {
                    return self.gaps_block(&w, part.count, y);
                }
            }
        }
        self.single_step(x, y)
    }

    /// See `countdown_block_spec`.
    fn countdown_block(&mut self, w: &Vec<u32>, count: Linear) -> (r: Option<()>)
        ensures
            match countdown_block_spec(tape_view(old(self)), w@, count) {
                None => r is None,
                Some(t) => r is Some && tape_view(final(self)) == t,
            },
    {
        let b = match self.left.pop() {
            Some(d) => d,
            None => return None,
        };
        let cycle = match countdown_cycle_of(w) {
            Some(c) => c,
            None => return None,
        };
        let mut last = copy_digits(cycle.as_slice());
        if last.len() == 0 {
            return None;
        }
        let b1 = match more(b, 1) {
            Some(d) => d,
            None => return None,
        };
        let end = last.len() - 1;
        last.set(end, b1);
        let less_one = match count.sub(num(1)) {
            Some(c) => c,
            None => return None,
        };
        let zero: [u32; 1] = [0];
        let mut parts: Vec<Block> = Vec::new();
        parts.push(block(&zero, num(1)));
        parts.push(block(cycle.as_slice(), less_one));
        parts.push(block(last.as_slice(), num(1)));
        proof {
            assert(zero@ =~= seq![0u32]);
            assert(last@ =~= cycle@.update(cycle@.len() - 1, b1));
            assert(parts@.map_values(|p: Block| block_view(&p)) =~= seq![
                digits_block(seq![0u32], constant(1)),
                digits_block(cycle@, less_one),
                digits_block(cycle@.update(cycle@.len() - 1, (b + 1) as u32), constant(1)),
            ]);
        }
        if self.left.prepend(parts).is_none() {
            return None;
        }
        Some(())
    }

    /// See `gaps_block_spec`.
    fn gaps_block(&mut self, w: &Vec<u32>, count: Linear, y: u32) -> (r: Option<()>)
        ensures
            match gaps_block_spec(tape_view(old(self)), w@, count, y) {
                None => r is None,
                Some(t) => r is Some && tape_view(final(self)) == t,
            },
    {
        if self.right.pop().is_none() {
            return None;
        }
        if self.right.pop().is_none() {
            return None;
        }
        let (fy, first) = match motif(w.as_slice(), y) {
            Some(m) => m,
            None => return None,
        };
        let (cy, cycle) = match motif(w.as_slice(), fy) {
            Some(m) => m,
            None => return None,
        };
        proof {
            lemma_motif_selector_settles(w@, y);
            assert(cy == fy);
        }
        let less_one = match count.sub(num(1)) {
            Some(c) => c,
            None => return None,
        };
        let lead: [u32; 2] = [0, fy];
        let mut parts: Vec<Block> = Vec::new();
        parts.push(block(&lead, num(1)));
        parts.push(block(cycle.as_slice(), less_one));
        parts.push(block(first.as_slice(), num(1)));
        proof {
            assert(lead@ =~= seq![0u32, fy]);
            assert(parts@.map_values(|p: Block| block_view(&p)) =~= seq![
                digits_block(seq![0u32, fy], constant(1)),
                digits_block(cycle@, less_one),
                digits_block(first@, constant(1)),
            ]);
        }
        if self.right.prepend(parts).is_none() {
            return None;
        }
        Some(())
    }

    /// See `single_step_spec`.
    fn single_step(&mut self, x: u32, y: u32) -> (r: Option<()>)
        ensures
            match single_step_spec(tape_view(old(self)), x, y) {
                None => r is None,
                Some(t) => r is Some && tape_view(final(self)) == t,
            },
    {
        if self.right.pop().is_none() {
            return None;
        }
        if self.right.pop().is_none() {
            return None;
        }
        let b = match self.left.pop() {
            Some(d) => d,
            None => return None,
        };
        if x > 0 {
            let x1 = match less(x, 1) {
                Some(d) => d,
                None => return None,
            };
            let b1 = match more(b, 1) {
                Some(d) => d,
                None => return None,
            };
            let mut word: Vec<u32> = Vec::new();
            if y == 0 {
                word.push(0);
            }
            word.push(x1);
            word.push(b1);
            let mut parts: Vec<Block> = Vec::new();
            parts.push(block(word.as_slice(), num(1)));
            proof {
                assert(word@ =~= (if y == 0 { seq![0u32] } else { seq![] }) + seq![(x - 1) as u32, (b + 1) as u32]);
                assert(parts@.map_values(|p: Block| block_view(&p)) =~= seq![digits_block(word@, constant(1))]);
            }
            if self.left.prepend(parts).is_none() {
                return None;
            }
            if y > 0 {
                let y1 = match less(y, 1) {
                    Some(d) => d,
                    None => return None,
                };
                let w: [u32; 2] = [0, y1];
                let mut parts: Vec<Block> = Vec::new();
                parts.push(block(&w, num(1)));
                proof {
                    assert(w@ =~= seq![0u32, y1]);
                    assert(parts@.map_values(|p: Block| block_view(&p)) =~= seq![digits_block(seq![0u32, (y - 1) as u32], constant(1))]);
                }
                if self.right.prepend(parts).is_none() {
                    return None;
                }
            }
        } else {
            let a = match self.left.pop() {
                Some(d) => d,
                None => return None,
            };
            let b3 = match more(b, 3) {
                Some(d) => d,
                None => return None,
            };
            let mut word: Vec<u32> = Vec::new();
            let mut k: u32 = 0;
            while k < a
                invariant
                    k <= a,
                    word@ == Seq::new(k as nat, |i: int| 0u32),
                decreases a - k,
            {
                word.push(0);
                proof {
                    assert(word@ =~= Seq::new((k + 1) as nat, |i: int| 0u32));
                }
                k = k + 1;
            }
            word.push(b3);
            if y >= 2 {
                word.push(0);
                word.push(y - 2);
            }
            let mut parts: Vec<Block> = Vec::new();
            parts.push(block(word.as_slice(), num(1)));
            proof {
                assert(word@ =~= Seq::new(a as nat, |i: int| 0u32) + seq![(b + 3) as u32] + (if y >= 2 {
                    seq![0u32, (y - 2) as u32]
                } else {
                    seq![]
                }));
                assert(parts@.map_values(|p: Block| block_view(&p)) =~= seq![digits_block(word@, constant(1))]);
            }
            if self.right.prepend(parts).is_none() {
                return None;
            }
        }
        Some(())
    }
}


/// The digits a mode's terminal register starts with; `c` threes in the middle for `H`.
pub open spec fn prefix_spec(mode: Mode, c: usize) -> Seq<u32> {
    match mode {
        Mode::N202 => seq![2u32, 0, 2],
        Mode::N0002 => seq![0u32, 0, 0, 2],
        Mode::N122 => seq![1u32, 2, 2],
        Mode::H => seq![1u32] + Seq::new(c as nat, |i: int| 3u32) + seq![2u32],
    }
}

/// Each digit as a run of one.
pub open spec fn single_runs(digits: Seq<u32>) -> Seq<Run> {
    digits.map_values(|d: u32| (Some(d), constant(1)))
}

/// The runs the final-marker derivation starts from.
pub open spec fn final_runs(mode: Mode, c: usize, zeros: u64, residue: u64) -> Seq<Run> {
    single_runs(prefix_spec(mode, c)) + seq![
        (Some(0u32), constant(zeros as i128)),
        (Some(3u32), constant(1)),
        (Some(2u32), Linear { a: 24, b: residue as i128 }),
    ]
}

/// The runs the middle-marker derivation starts from.
pub open spec fn middle_runs(mode: Mode, c: usize, zeros: u64) -> Seq<Run> {
    single_runs(prefix_spec(mode, c)) + seq![
        (Some(0u32), constant(zeros as i128)),
        (Some(2u32), constant(1)),
        (Some(3u32), constant(1)),
        (Some(0u32), Linear { a: 1, b: 0 }),
        (None, constant(1)),
    ]
}

fn prefix(mode: Mode, c: usize) -> (r: Vec<u32>)
    ensures
        r@ == prefix_spec(mode, c),
{
    match mode {
        Mode::N202 => {
            let r: Vec<u32> = vec![2, 0, 2];
            proof {
                assert(r@ =~= seq![2u32, 0, 2]);
            }
            r
        },
        Mode::N0002 => {
            let r: Vec<u32> = vec![0, 0, 0, 2];
            proof {
                assert(r@ =~= seq![0u32, 0, 0, 2]);
            }
            r
        },
        Mode::N122 => {
            let r: Vec<u32> = vec![1, 2, 2];
            proof {
                assert(r@ =~= seq![1u32, 2, 2]);
            }
            r
        },
        Mode::H => {
            let mut r: Vec<u32> = Vec::new();
            r.push(1);
            let mut i: usize = 0;
            while i < c
                invariant
                    i <= c,
                    r@ == seq![1u32] + Seq::new(i as nat, |k: int| 3u32),
                decreases c - i,
            {
                r.push(3);
                proof {
                    assert(r@ =~= seq![1u32] + Seq::new((i + 1) as nat, |k: int| 3u32));
                }
                i = i + 1;
            }
            r.push(2);
            r
        },
    }
}

/// The digits as runs of one each, then `tail`.
fn runs_of(digits: Vec<u32>, tail: Vec<Run>) -> (r: Vec<Run>)
    ensures
        r@ == single_runs(digits@) + tail@,
{
    let mut r: Vec<Run> = Vec::new();
    let mut i: usize = 0;
    while i < digits.len()
        invariant
            i <= digits@.len(),
            r@ == single_runs(digits@.take(i as int)),
        decreases digits@.len() - i,
    {
        r.push((Some(digits[i]), num(1)));
        proof {
            assert(digits@.take(i + 1) =~= digits@.take(i as int).push(digits@[i as int]));
            assert(r@ =~= single_runs(digits@.take(i + 1)));
        }
        i = i + 1;
    }
    proof {
        assert(digits@.take(digits@.len() as int) =~= digits@);
    }
    let mut k: usize = 0;
    let ghost start = r@;
    while k < tail.len()
        invariant
            k <= tail@.len(),
            r@ == start + tail@.take(k as int),
        decreases tail@.len() - k,
    {
        r.push(tail[k]);
        proof {
            assert(tail@.take(k + 1) =~= tail@.take(k as int).push(tail@[k as int]));
            assert(r@ =~= start + tail@.take(k + 1));
        }
        k = k + 1;
    }
    proof {
        assert(tail@.take(tail@.len() as int) =~= tail@);
    }
    r
}

/// The most steps a derivation takes before it gives up.
pub const DERIVATION_STEPS: u32 = 30000;

/// The tape a derivation starts from: a zero and the runs to the left of the head,
/// nothing to its right.
pub open spec fn start_tape(runs: Seq<Run>, countdowns: bool) -> Option<TapeView> {
    match boundary_spec(runs) {
        None => None,
        Some(l) => Some(TapeView { left: l, right: StackView { finite: seq![], powers: seq![] }, countdowns }),
    }
}

/// Advancing the tape until it reads the final shape, at most `steps` times.
pub open spec fn final_search(t: TapeView, steps: nat) -> Option<(Linear, Linear)>
    decreases steps,
{
    if steps == 0 {
        None
    } else {
        match advance_spec(t) {
            None => None,
            Some(t2) => match k_shape_spec(t2) {
                None => None,
                Some(Some(shape)) => Some(shape),
                Some(None) => final_search(t2, (steps - 1) as nat),
            },
        }
    }
}

/// The final-marker derivation (see `derive_final`).
pub open spec fn derived_final(mode: Mode, c: usize, zeros: u64, residue: u64) -> Option<(Linear, Linear)> {
    match start_tape(final_runs(mode, c, zeros, residue), true) {
        None => None,
        Some(t) => final_search(t, 30000),
    }
}

/// Advancing the tape until, with a blank right side, its runs read as a middle row, at
/// most `steps` times.
pub open spec fn middle_search(t: TapeView, steps: nat) -> Option<Middle>
    decreases steps,
{
    if steps == 0 {
        None
    } else {
        match advance_spec(t) {
            None => None,
            Some(t2) => if !blank_view(t2.right) {
                middle_search(t2, (steps - 1) as nat)
            } else {
                match runs_spec(t2.left) {
                    None => None,
                    Some(None) => middle_search(t2, (steps - 1) as nat),
                    Some(Some(rs)) => match middle_of(rs) {
                        None => None,
                        Some(Some(m)) => Some(m),
                        Some(None) => middle_search(t2, (steps - 1) as nat),
                    },
                }
            },
        }
    }
}

/// The middle-marker derivation (see `derive_middle`).
pub open spec fn derived_middle(mode: Mode, c: usize, zeros: u64) -> Option<Middle> {
    match start_tape(middle_runs(mode, c, zeros), false) {
        None => None,
        Some(t) => middle_search(t, 30000),
    }
}

/// The blank tape with the countdown rules on.
pub open spec fn blank_tape() -> TapeView {
    TapeView {
        left: StackView { finite: seq![], powers: seq![] },
        right: StackView { finite: seq![], powers: seq![] },
        countdowns: true,
    }
}

/// Advancing the blank tape until it reads the final shape with at least forty two-runs,
/// at most `steps` times; both counts must then be constants.
pub open spec fn blank_search(t: TapeView, steps: nat) -> Option<(i128, i128)>
    decreases steps,
{
    if steps == 0 {
        None
    } else {
        match advance_spec(t) {
            None => None,
            Some(t2) => match k_shape_spec(t2) {
                None => None,
                Some(None) => blank_search(t2, (steps - 1) as nat),
                Some(Some((a, b))) => if b.a != 0 {
                    None
                } else if b.b >= 40 {
                    if a.a != 0 {
                        None
                    } else {
                        Some((a.b, b.b))
                    }
                } else {
                    blank_search(t2, (steps - 1) as nat)
                },
            },
        }
    }
}

/// The counts of the first final shape with at least forty two-runs that the blank tape
/// reaches (see `blank_search`, within `u64::MAX` steps).  `None` where a step fails or a
/// count is symbolic.
pub fn blank_shape() -> (r: Option<(i128, i128)>)
    ensures
        r == blank_search(blank_tape(), u64::MAX as nat),
{
    let mut tape = GapTape::blank();
    proof {
        assert(tape_view(&tape) == blank_tape());
    }
    let ghost goal = blank_search(tape_view(&tape), u64::MAX as nat);
    let mut left: u64 = u64::MAX;
    while left > 0
        invariant
            goal == blank_search(blank_tape(), u64::MAX as nat),
            goal == blank_search(tape_view(&tape), left as nat),
        decreases left,
    {
        if tape.advance().is_none() {
            return None;
        }
        match tape.k_shape() {
            None => return None,
            Some(None) => {},
            Some(Some((a, b))) => {
                if b.a != 0 {
                    return None;
                }
                if b.integer() >= 40 {
                    if a.a != 0 {
                        return None;
                    }
                    return Some((a.integer(), b.integer()));
                }
            },
        }
        left = left - 1;
    }
    None
}

/// Runs the final-marker derivation for a mode, the zeros before the marker and the
/// residue of the two-run modulo 24: advances the tape until it reads the final shape and
/// returns its two counts.  Defined where the derivation finishes (see `derived_final`).
pub fn derive_final(mode: Mode, c: usize, zeros: u64, residue: u64) -> (r: (Linear, Linear))
    requires
        residue < 24,
        derived_final(mode, c, zeros, residue) is Some,
    ensures
        derived_final(mode, c, zeros, residue) == Some(r),
{
    search_final(mode, c, zeros, residue).unwrap()
}

/// The final-marker search: `None` where a step fails, or when the shape is not reached
/// within `DERIVATION_STEPS` steps.
fn search_final(mode: Mode, c: usize, zeros: u64, residue: u64) -> (r: Option<(Linear, Linear)>)
    requires
        residue < 24,
    ensures
        r == derived_final(mode, c, zeros, residue),
{
    let mut tail: Vec<Run> = Vec::new();
    tail.push((Some(0u32), num(zeros as i128)));
    tail.push((Some(3u32), num(1)));
    tail.push((Some(2u32), Linear { a: 24, b: residue as i128 }));
    let runs = runs_of(prefix(mode, c), tail);
    proof {
        assert(runs@ =~= final_runs(mode, c, zeros, residue));
    }
    let mut tape = match GapTape::new(runs, true) {
        Some(t) => t,
        None => return None,
    };
    let ghost goal = derived_final(mode, c, zeros, residue);
    let mut i: u32 = 0;
    while i < DERIVATION_STEPS
        invariant
            i <= DERIVATION_STEPS,
            goal == derived_final(mode, c, zeros, residue),
            goal == final_search(tape_view(&tape), (DERIVATION_STEPS - i) as nat),
        decreases DERIVATION_STEPS - i,
    {
        if tape.advance().is_none() {
            return None;
        }
        match tape.k_shape() {
            None => return None,
            Some(Some(shape)) => return Some(shape),
            Some(None) => {},
        }
        i = i + 1;
    }
    None
}


/// The middle-marker row: the mode and middle length the tape's leading digits name,
/// the zeros lost from the symbolic run, and the growth of the two-run.
#[derive(Clone, Copy, Debug, PartialEq, Eq, Structural)]
pub struct Middle {
    pub mode: Mode,
    pub c: usize,
    pub loss: i64,
    pub growth: i64,
}

/// How many leading runs are constant runs of a digit.
pub open spec fn lead_len(runs: Seq<Run>) -> nat
    decreases runs.len(),
{
    if runs.len() == 0 || runs[0].0 is None || runs[0].1.a != 0 {
        0
    } else {
        1 + lead_len(runs.drop_first())
    }
}

/// The digits that constant runs spell out; `None` where a count is negative or does not
/// fit a `usize`.
pub open spec fn spelled(runs: Seq<Run>) -> Option<Seq<u32>>
    decreases runs.len(),
{
    if runs.len() == 0 {
        Some(seq![])
    } else {
        let b = runs.last().1.b;
        if b < 0 || b > usize::MAX {
            None
        } else {
            match spelled(runs.drop_last()) {
                None => None,
                Some(s) => Some(s + Seq::new(b as nat, |i: int| runs.last().0.unwrap())),
            }
        }
    }
}

/// The mode and middle length that leading digits name, if any.
pub open spec fn classify(before: Seq<u32>) -> Option<(Mode, usize)> {
    if before == seq![2u32, 0, 2] {
        Some((Mode::N202, 0usize))
    } else if before == seq![0u32, 0, 0, 2] {
        Some((Mode::N0002, 0usize))
    } else if before == seq![1u32, 2, 2] {
        Some((Mode::N122, 0usize))
    } else if before.len() >= 3 && before[0] == 1 && before.last() == 2 && (forall|i: int|
        1 <= i < before.len() - 1 ==> #[trigger] before[i] == 3) {
        Some((Mode::H, (before.len() - 2) as usize))
    } else {
        None
    }
}

/// What the middle derivation reads off the runs of a tape: `None` where it
/// fails (a count out of range), `Some(None)` when the tape is not yet in middle shape,
/// and the row when it is.
pub open spec fn middle_of(runs: Seq<Run>) -> Option<Option<Middle>> {
    let at = lead_len(runs);
    match spelled(runs.take(at as int)) {
        None => None,
        Some(before) => match classify(before) {
            None => Some(None),
            Some((mode, c)) => if at >= runs.len() || runs[at as int].0 != Some(0u32) {
                Some(None)
            } else {
                let z = runs[at as int].1;
                if !fits(1 - z.a) || !fits(0 - z.b) {
                    None
                } else if 1 - z.a != 0 || 0 - z.b < 0 || runs.len() != at + 3 || runs[at as int + 1]
                    != (None::<u32>, constant(1)) {
                    Some(None)
                } else {
                    let g = runs[at as int + 2];
                    if g.0 == Some(2u32) && g.1.a == 0 && g.1.b > 0 {
                        if 0 - z.b > i64::MAX || g.1.b > i64::MAX {
                            None
                        } else {
                            Some(
                                Some(
                                    Middle {
                                        mode,
                                        c,
                                        loss: (0 - z.b) as i64,
                                        growth: g.1.b as i64,
                                    },
                                ),
                            )
                        }
                    } else {
                        Some(None)
                    }
                }
            },
        },
    }
}

/// The mode and middle length of leading digits (see `classify`).
fn classify_digits(before: &Vec<u32>) -> (r: Option<(Mode, usize)>)
    ensures
        r == classify(before@),
{
    let n = before.len();
    if n == 3 && before[0] == 2 && before[1] == 0 && before[2] == 2 {
        proof {
            assert(before@ =~= seq![2u32, 0, 2]);
        }
        return Some((Mode::N202, 0));
    }
    if n == 4 && before[0] == 0 && before[1] == 0 && before[2] == 0 && before[3] == 2 {
        proof {
            assert(before@ =~= seq![0u32, 0, 0, 2]);
            assert(before@ != seq![2u32, 0, 2]);
        }
        return Some((Mode::N0002, 0));
    }
    if n == 3 && before[0] == 1 && before[1] == 2 && before[2] == 2 {
        proof {
            assert(before@ =~= seq![1u32, 2, 2]);
            assert(before@[0] != seq![2u32, 0, 2][0]);
        }
        return Some((Mode::N122, 0));
    }
    proof {
        if before@ == seq![2u32, 0, 2] {
            assert(before@[0] == 2 && before@[1] == 0 && before@[2] == 2);
        }
        if before@ == seq![0u32, 0, 0, 2] {
            assert(before@[0] == 0 && before@[1] == 0 && before@[2] == 0 && before@[3] == 2);
        }
        if before@ == seq![1u32, 2, 2] {
            assert(before@[0] == 1 && before@[1] == 2 && before@[2] == 2);
        }
    }
    if n < 3 || before[0] != 1 || before[n - 1] != 2 {
        proof {
            if n >= 3 {
                assert(before@.last() == before@[n - 1]);
            }
            assert(before@ != seq![2u32, 0, 2]);
            assert(before@ != seq![0u32, 0, 0, 2]);
            assert(before@ != seq![1u32, 2, 2]);
        }
        return None;
    }
    proof {
        assert(before@.last() == before@[n - 1]);
    }
    let mut i: usize = 1;
    while i < n - 1
        invariant
            n == before@.len(),
            n >= 3,
            1 <= i <= n - 1,
            before@[0] == 1,
            before@.last() == 2,
            before@ != seq![1u32, 2, 2],
            forall|k: int| 1 <= k < i ==> #[trigger] before@[k] == 3,
        decreases n - i,
    {
        if before[i] != 3 {
            proof {
                assert(before@ != seq![2u32, 0, 2]);
                assert(before@ != seq![0u32, 0, 0, 2]);
                assert(before@[i as int] != 3);
            }
            return None;
        }
        i = i + 1;
    }
    Some((Mode::H, n - 2))
}

/// Reads a middle row off the runs of a tape (see `middle_of`).
fn read_middle(runs: &Vec<Run>) -> (r: Option<Option<Middle>>)
    ensures
        r == middle_of(runs@),
{
    let mut before: Vec<u32> = Vec::new();
    let mut at: usize = 0;
    proof {
        assert(runs@.skip(0) =~= runs@);
        assert(runs@.take(0) =~= Seq::<Run>::empty());
    }
    while at < runs.len() && runs[at].0.is_some() && runs[at].1.a == 0
        invariant
            at <= runs@.len(),
            lead_len(runs@) == at + lead_len(runs@.skip(at as int)),
            spelled(runs@.take(at as int)) == Some(before@),
        decreases runs@.len() - at,
    {
        let (d, count) = runs[at];
        let digit = d.unwrap();
        if count.b < 0 || count.b > usize::MAX as i128 {
            proof {
                assert(runs@.take(at as int + 1).drop_last() =~= runs@.take(at as int));
                assert(runs@.take(at as int + 1).last() == runs@[at as int]);
                assert(runs@.skip(at as int)[0] == runs@[at as int]);
                assert(lead_len(runs@.skip(at as int)) >= 1);
                lemma_lead_len_bound(runs@);
                lemma_spelled_prefix(runs@, (at + 1) as nat, lead_len(runs@));
            }
            return None;
        }
        let times = count.b as usize;
        let mut k: usize = 0;
        let ghost start = before@;
        while k < times
            invariant
                k <= times,
                before@ == start + Seq::new(k as nat, |i: int| digit),
            decreases times - k,
        {
            before.push(digit);
            proof {
                assert(before@ =~= start + Seq::new((k + 1) as nat, |i: int| digit));
            }
            k = k + 1;
        }
        proof {
            assert(runs@.take(at + 1).drop_last() =~= runs@.take(at as int));
            assert(runs@.take(at + 1).last() == runs@[at as int]);
            assert(runs@.skip(at as int).drop_first() =~= runs@.skip(at + 1));
            assert(runs@.skip(at as int)[0] == runs@[at as int]);
        }
        at = at + 1;
    }
    proof {
        assert(lead_len(runs@.skip(at as int)) == 0) by {
            if at < runs@.len() {
                assert(runs@.skip(at as int)[0] == runs@[at as int]);
            }
        }
    }
    let kind = classify_digits(&before);
    let (mode, c) = match kind {
        None => return Some(None),
        Some(k) => k,
    };
    if at >= runs.len() || runs[at].0 != Some(0u32) {
        return Some(None);
    }
    let z = runs[at].1;
    let loss_a = match 1i128.checked_sub(z.a) {
        Some(x) => x,
        None => return None,
    };
    let loss_b = match 0i128.checked_sub(z.b) {
        Some(x) => x,
        None => return None,
    };
    if loss_a != 0 || loss_b < 0 || runs.len() - at != 3 {
        return Some(None);
    }
    let marker = runs[at + 1];
    if !(marker.0.is_none() && marker.1 == num(1)) {
        return Some(None);
    }
    let g = runs[at + 2];
    if g.0 == Some(2u32) && g.1.a == 0 && g.1.b > 0 {
        if loss_b > i64::MAX as i128 || g.1.b > i64::MAX as i128 {
            return None;
        }
        return Some(Some(Middle { mode, c, loss: loss_b as i64, growth: g.1.b as i64 }));
    }
    Some(None)
}

proof fn lemma_lead_len_bound(runs: Seq<Run>)
    ensures
        lead_len(runs) <= runs.len(),
    decreases runs.len(),
{
    if runs.len() > 0 {
        lemma_lead_len_bound(runs.drop_first());
    }
}

/// A spelling that fails on a prefix fails on every longer prefix within the lead.
proof fn lemma_spelled_prefix(runs: Seq<Run>, k: nat, m: nat)
    requires
        k <= m <= runs.len(),
        spelled(runs.take(k as int)) is None,
    ensures
        spelled(runs.take(m as int)) is None,
    decreases m - k,
{
    if k < m {
        assert(runs.take(k as int + 1).drop_last() =~= runs.take(k as int));
        lemma_spelled_prefix(runs, k + 1, m);
    }
}


/// Runs the middle-marker derivation for a mode and the zeros before the marker: advances
/// the tape until, with a blank right side, its runs read as a middle row (see
/// `middle_of`), and returns that row.  Defined where the derivation finishes (see
/// `derived_middle`).
pub fn derive_middle(mode: Mode, c: usize, zeros: u64) -> (r: Middle)
    requires
        derived_middle(mode, c, zeros) is Some,
    ensures
        derived_middle(mode, c, zeros) == Some(r),
{
    search_middle(mode, c, zeros).unwrap()
}

/// The middle-marker search: `None` where a step fails, or when no row is read within
/// `DERIVATION_STEPS` steps.
fn search_middle(mode: Mode, c: usize, zeros: u64) -> (r: Option<Middle>)
    ensures
        r == derived_middle(mode, c, zeros),
{
    let mut tail: Vec<Run> = Vec::new();
    tail.push((Some(0u32), num(zeros as i128)));
    tail.push((Some(2u32), num(1)));
    tail.push((Some(3u32), num(1)));
    tail.push((Some(0u32), Linear { a: 1, b: 0 }));
    tail.push((None, num(1)));
    let runs = runs_of(prefix(mode, c), tail);
    proof {
        assert(runs@ =~= middle_runs(mode, c, zeros));
    }
    let mut tape = match GapTape::new(runs, false) {
        Some(t) => t,
        None => return None,
    };
    let ghost goal = derived_middle(mode, c, zeros);
    let mut i: u32 = 0;
    while i < DERIVATION_STEPS
        invariant
            i <= DERIVATION_STEPS,
            goal == derived_middle(mode, c, zeros),
            goal == middle_search(tape_view(&tape), (DERIVATION_STEPS - i) as nat),
        decreases DERIVATION_STEPS - i,
    {
        if tape.advance().is_none() {
            return None;
        }
        if tape.right.empty() {
            match tape.left.runs() {
                None => return None,
                Some(None) => {},
                Some(Some(rs)) => match read_middle(&rs) {
                    None => return None,
                    Some(Some(m)) => return Some(m),
                    Some(None) => {},
                },
            }
        }
        i = i + 1;
    }
    None
}

/// The number a mode is filed under.
pub open spec fn mode_number(m: Mode) -> u64 {
    match m {
        Mode::N202 => 0,
        Mode::N0002 => 1,
        Mode::N122 => 2,
        Mode::H => 3,
    }
}

fn mode_code(m: Mode) -> (r: u64)
    ensures
        r == mode_number(m),
{
    match m {
        Mode::N202 => 0,
        Mode::N0002 => 1,
        Mode::N122 => 2,
        Mode::H => 3,
    }
}

/// The key a final-marker row is filed under: mode number, middle length, zeros and
/// residue.
pub type FinalKey = (u64, u64, u64, u64);

/// The key a middle-marker row is filed under: mode number, middle length and zeros.
pub type MiddleKey = (u64, u64, u64);

pub open spec fn final_key(mode: Mode, c: usize, z: u64, r: u64) -> FinalKey {
    (mode_number(mode), c as u64, z, r)
}

pub open spec fn middle_key(mode: Mode, c: usize, z: u64) -> MiddleKey {
    (mode_number(mode), c as u64, z)
}

proof fn lemma_keys_distinct(m1: Mode, c1: usize, z1: u64, m2: Mode, c2: usize, z2: u64)
    ensures
        (m1 == m2 && c1 == c2 && z1 == z2) <==> (mode_number(m1) == mode_number(m2) && c1 as u64 == c2 as u64 && z1 == z2),
{
}

/// The row of a final derivation: both counts' constant and slope, each as an `i64`.
pub open spec fn final_row_of(shape: (Linear, Linear)) -> Option<Seq<i64>> {
    let (a, b) = shape;
    if a.b < i64::MIN || a.b > i64::MAX || a.a < i64::MIN || a.a > i64::MAX || b.b < i64::MIN
        || b.b > i64::MAX || b.a < i64::MIN || b.a > i64::MAX {
        None
    } else {
        Some(seq![a.b as i64, a.a as i64, b.b as i64, b.a as i64])
    }
}

/// Derived rows, each worked out once and then looked up.
pub struct Tables {
    finals: BTreeMap<FinalKey, (Linear, Linear)>,
    middles: BTreeMap<MiddleKey, Middle>,
}

/// Every stored row is the derivation of its key.
pub open spec fn rows_derived(finals: Map<FinalKey, (Linear, Linear)>, middles: Map<MiddleKey, Middle>) -> bool {
    &&& forall|mode: Mode, c: usize, z: u64, r: u64|
        #[trigger] finals.contains_key(final_key(mode, c, z, r)) ==> r < 24 && derived_final(mode, c, z, r)
            == Some(finals[final_key(mode, c, z, r)])
    &&& forall|mode: Mode, c: usize, z: u64|
        #[trigger] middles.contains_key(middle_key(mode, c, z)) ==> derived_middle(mode, c, z) == Some(
            middles[middle_key(mode, c, z)],
        )
}

impl Tables {
    /// The final-marker rows stored, by key.
    pub closed spec fn finals_view(&self) -> Map<FinalKey, (Linear, Linear)> {
        self.finals@
    }

    /// The middle-marker rows stored, by key.
    pub closed spec fn middles_view(&self) -> Map<MiddleKey, Middle> {
        self.middles@
    }

    #[verifier::type_invariant]
    spec fn stores_derivations(self) -> bool {
        rows_derived(self.finals@, self.middles@)
    }
}

impl Default for Tables {
    /// Tables with nothing stored.
    fn default() -> (t: Tables)
        ensures
            t.finals_view() == Map::<FinalKey, (Linear, Linear)>::empty(),
            t.middles_view() == Map::<MiddleKey, Middle>::empty(),
    {
        Tables { finals: BTreeMap::new(), middles: BTreeMap::new() }
    }
}

fn narrow(x: i128) -> (r: Option<i64>)
    ensures
        r == (if i64::MIN <= x <= i64::MAX {
            Some(x as i64)
        } else {
            None
        }),
{
    if x < i64::MIN as i128 || x > i64::MAX as i128 {
        None
    } else {
        Some(x as i64)
    }
}

/// What a final-row lookup does to the tables and returns: a stored row is returned as it
/// is; otherwise a derived row is stored first.
pub open spec fn final_row_step(
    before: Map<FinalKey, (Linear, Linear)>,
    mode: Mode,
    c: usize,
    z: u64,
    r: u64,
    row: Option<[i64; 4]>,
    after: Map<FinalKey, (Linear, Linear)>,
) -> bool {
    let key = final_key(mode, c, z, r);
    if before.contains_key(key) {
        after == before && match final_row_of(before[key]) {
            None => row is None,
            Some(x) => row matches Some(a) && a@ == x,
        }
    } else {
        match derived_final(mode, c, z, r) {
            None => after == before && row is None,
            Some(shape) => after == before.insert(key, shape) && match final_row_of(shape) {
                None => row is None,
                Some(x) => row matches Some(a) && a@ == x,
            },
        }
    }
}

/// What a middle-row lookup does to the tables and returns (see `final_row_step`).
pub open spec fn middle_step(
    before: Map<MiddleKey, Middle>,
    mode: Mode,
    c: usize,
    z: u64,
    row: Option<Middle>,
    after: Map<MiddleKey, Middle>,
) -> bool {
    let key = middle_key(mode, c, z);
    if before.contains_key(key) {
        after == before && row == Some(before[key])
    } else {
        match derived_middle(mode, c, z) {
            None => after == before && row is None,
            Some(m) => after == before.insert(key, m) && row == Some(m),
        }
    }
}

impl Tables {
    /// The final-marker row for a key, derived once (see `derive_final`) and then looked
    /// up: `[a.b, a.a, b.b, b.a]` for the counts `(a, b)`.  Defined where the derivation
    /// finishes and each count fits an `i64`.
    pub fn final_row(&mut self, mode: Mode, c: usize, z: u64, r: u64) -> (row: [i64; 4])
        requires
            r < 24,
            derived_final(mode, c, z, r) matches Some(shape) && final_row_of(shape) is Some,
        ensures
            final_row_of(derived_final(mode, c, z, r).unwrap()) == Some(row@),
            final_row_step(old(self).finals_view(), mode, c, z, r, Some(row), final(self).finals_view()),
            final(self).middles_view() == old(self).middles_view(),
            rows_derived(final(self).finals_view(), final(self).middles_view()),
    {
        proof {
            use_type_invariant(&*self);
        }
        let key: FinalKey = (mode_code(mode), c as u64, z, r);
        assert(key == final_key(mode, c, z, r));
        let ghost before = self.finals@;
        let shape = match self.finals.get(&key) {
            Some(s) => {
                proof {
                    assert(before.contains_key(final_key(mode, c, z, r)));
                }
                *s
            },
            None => {
                let s = derive_final(mode, c, z, r);
                let mut finals: BTreeMap<FinalKey, (Linear, Linear)> = BTreeMap::new();
                std::mem::swap(&mut finals, &mut self.finals);
                finals.insert(key, s);
                proof {
                    assert forall|mode2: Mode, c2: usize, z2: u64, r2: u64|
                        #[trigger] finals@.contains_key(final_key(mode2, c2, z2, r2)) implies r2 < 24
                            && derived_final(mode2, c2, z2, r2) == Some(finals@[final_key(mode2, c2, z2, r2)]) by {
                        if final_key(mode2, c2, z2, r2) == key {
                            lemma_keys_distinct(mode, c, z, mode2, c2, z2);
                        } else {
                            assert(before.contains_key(final_key(mode2, c2, z2, r2)));
                        }
                    }
                }
                std::mem::swap(&mut finals, &mut self.finals);
                s
            },
        };
        let (a, b) = shape;
        let x0 = narrow(a.b).unwrap();
        let x1 = narrow(a.a).unwrap();
        let x2 = narrow(b.b).unwrap();
        let x3 = narrow(b.a).unwrap();
        let out: [i64; 4] = [x0, x1, x2, x3];
        proof {
            assert(out@ =~= seq![x0, x1, x2, x3]);
        }
        out
    }

    /// The middle-marker row for a key, derived once (see `derive_middle`) and then looked
    /// up.  Defined where the derivation finishes.
    pub fn middle(&mut self, mode: Mode, c: usize, z: u64) -> (row: Middle)
        requires
            derived_middle(mode, c, z) is Some,
        ensures
            derived_middle(mode, c, z) == Some(row),
            middle_step(old(self).middles_view(), mode, c, z, Some(row), final(self).middles_view()),
            final(self).finals_view() == old(self).finals_view(),
            rows_derived(final(self).finals_view(), final(self).middles_view()),
    {
        proof {
            use_type_invariant(&*self);
        }
        let key: MiddleKey = (mode_code(mode), c as u64, z);
        assert(key == middle_key(mode, c, z));
        let ghost before = self.middles@;
        match self.middles.get(&key) {
            Some(m) => {
                proof {
                    assert(before.contains_key(middle_key(mode, c, z)));
                }
                *m
            },
            None => {
                let m = derive_middle(mode, c, z);
                let mut middles: BTreeMap<MiddleKey, Middle> = BTreeMap::new();
                std::mem::swap(&mut middles, &mut self.middles);
                middles.insert(key, m);
                proof {
                    assert forall|mode2: Mode, c2: usize, z2: u64|
                        #[trigger] middles@.contains_key(middle_key(mode2, c2, z2)) implies derived_middle(mode2, c2, z2)
                            == Some(middles@[middle_key(mode2, c2, z2)]) by {
                        if middle_key(mode2, c2, z2) == key {
                            lemma_keys_distinct(mode, c, z, mode2, c2, z2);
                        } else {
                            assert(before.contains_key(middle_key(mode2, c2, z2)));
                        }
                    }
                }
                std::mem::swap(&mut middles, &mut self.middles);
                m
            },
        }
    }
}

/// Law: a row once returned is stored, and asking for the same key again returns the
/// same row and leaves the tables as they are.
pub proof fn lemma_final_row_repeats(
    t0: Map<FinalKey, (Linear, Linear)>,
    mode: Mode,
    c: usize,
    z: u64,
    r: u64,
    r1: Option<[i64; 4]>,
    t1: Map<FinalKey, (Linear, Linear)>,
    r2: Option<[i64; 4]>,
    t2: Map<FinalKey, (Linear, Linear)>,
)
    requires
        final_row_step(t0, mode, c, z, r, r1, t1),
        r1 is Some,
        final_row_step(t1, mode, c, z, r, r2, t2),
    ensures
        r2 == r1,
        t2 == t1,
{
    let key = final_key(mode, c, z, r);
    assert(t1.contains_key(key));
    assert(r1.unwrap()@ == r2.unwrap()@);
    assert(r1.unwrap() =~= r2.unwrap());
}

/// Law: a middle row once returned is stored, and asking for the same key again returns
/// the same row and leaves the tables as they are.
pub proof fn lemma_middle_repeats(
    t0: Map<MiddleKey, Middle>,
    mode: Mode,
    c: usize,
    z: u64,
    r1: Option<Middle>,
    t1: Map<MiddleKey, Middle>,
    r2: Option<Middle>,
    t2: Map<MiddleKey, Middle>,
)
    requires
        middle_step(t0, mode, c, z, r1, t1),
        r1 is Some,
        middle_step(t1, mode, c, z, r2, t2),
    ensures
        r2 == r1,
        t2 == t1,
{
    assert(t1.contains_key(middle_key(mode, c, z)));
}

} // verus!
