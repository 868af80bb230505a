use lib::derivation::{blank_shape, derive_final, derive_middle, motif, GapTape, Tables};
use lib::linear::num;
use lib::normalizer::Mode;
use lib::stack::{block, Stack};

#[test]
fn blank_tape_has_no_final_shape() {
    let tape = GapTape::blank();
    assert_eq!(tape.k_shape(), Some(None));
}

#[test]
fn blank_tape_reaches_a_final_shape() {
    let mut tape = GapTape::blank();
    let mut seen = None;
    for _ in 0..100_000 {
        tape.advance().expect("the blank tape advances");
        if let Some(Some((a, b))) = tape.k_shape() {
            if b.integer() >= 40 {
                seen = Some((a.integer(), b.integer()));
                break;
            }
        }
    }
    let (a, b) = seen.expect("a final shape with at least forty two-runs");
    assert!(a >= 0 && b >= 40);
    assert_eq!(blank_shape(), Some((a, b)));
}

#[test]
fn motif_rewrites_pairs() {
    // One pair (b, a) = (1, 1) under selector 0: nothing written, next selector 1 + 3.
    assert_eq!(motif(&[1, 1], 0), Some((4, vec![])));
    // Gap a = 3: a - 2 zeros then b + 3; selector 5 adds 0, 3 after; next selector 0.
    assert_eq!(motif(&[2, 3], 5), Some((0, vec![0, 5, 0, 3])));
    // A selector of one halts.
    assert_eq!(motif(&[2, 3], 1), None);
    // An odd tail digit is left alone.
    assert_eq!(motif(&[7], 6), Some((6, vec![])));
}

#[test]
fn stack_pops_blocks_and_zeros() {
    let mut s = Stack::new();
    assert_eq!(s.prepend(vec![block(&[1, 2], num(2)), block(&[5], num(1))]), Some(()));
    let got: Vec<u32> = (0..6).map(|_| s.pop().unwrap()).collect();
    assert_eq!(got, vec![1, 2, 1, 2, 5, 0]);
    assert!(s.empty());
}

#[test]
fn stack_matches_prefixes() {
    let mut s = Stack::new();
    s.prepend(vec![block(&[0, 1], num(3)), block(&[3, 1], num(1))]).unwrap();
    assert_eq!(s.matches(&[0, 1, 0, 1]), Some(true));
    assert_eq!(s.matches(&[0, 2]), Some(false));
    let mut probe = s.duplicate();
    assert_eq!(probe.pairs([0, 1]), Some(num(3)));
    assert_eq!(probe.pop(), Some(3));
}

#[test]
fn tables_return_stored_rows() {
    let mut t = Tables::default();
    let first = t.final_row(Mode::N202, 0, 0, 0);
    let again = t.final_row(Mode::N202, 0, 0, 0);
    assert_eq!(first, again);
    let m1 = t.middle(Mode::N122, 0, 1);
    let m2 = t.middle(Mode::N122, 0, 1);
    assert_eq!(m1, m2);
}

#[test]
fn derivations_match_their_tables() {
    let mut t = Tables::default();
    let (a, b) = derive_final(Mode::N0002, 0, 1, 5);
    let row = t.final_row(Mode::N0002, 0, 1, 5);
    assert_eq!(row, [a.b as i64, a.a as i64, b.b as i64, b.a as i64]);
    assert_eq!(t.middle(Mode::N202, 0, 2), derive_middle(Mode::N202, 0, 2));
}

#[test]
fn motif_selector_is_a_fixed_point() {
    let words: [&[u32]; 5] = [&[1, 1], &[2, 3], &[2, 3, 4, 1], &[0, 2, 5, 1, 1, 4], &[9]];
    for w in words {
        for y in [0u32, 2, 3, 7] {
            if let Some((f, _)) = motif(w, y) {
                let (g, _) = motif(w, f).expect("rewriting again succeeds");
                assert_eq!(g, f);
            }
        }
    }
}

#[test]
fn normalizing_keeps_the_digits_of_a_side() {
    let mut s = Stack::new();
    // 5, then (1 2 1 2)^2, an empty word, (1 2)^3, zeros; then the old side 7 8.
    s.prepend(vec![block(&[7, 8], num(1))]).unwrap();
    s.prepend(vec![
        block(&[5], num(1)),
        block(&[1, 2, 1, 2], num(2)),
        block(&[], num(4)),
        block(&[1, 2], num(3)),
        block(&[0, 0], num(2)),
    ])
    .unwrap();
    let mut plain = s.duplicate();
    s.normalize().unwrap();
    let expected = [5, 1, 2, 1, 2, 1, 2, 1, 2, 1, 2, 1, 2, 1, 2, 0, 0, 0, 0, 7, 8, 0, 0];
    for want in expected {
        assert_eq!(s.pop(), Some(want));
        assert_eq!(plain.pop(), Some(want));
    }
}

fn shape_of(s: &Stack) -> (Vec<u32>, Vec<(Option<Vec<u32>>, lib::linear::Linear)>) {
    let finite: Vec<u32> = s.finite.iter().copied().collect();
    let blocks = s
        .powers
        .iter()
        .map(|b| {
            let word = match &b.word {
                lib::stack::Word::Digits(d) => Some(d.clone()),
                lib::stack::Word::Suffix => None,
            };
            (word, b.count)
        })
        .collect();
    (finite, blocks)
}

#[test]
fn normalizing_twice_changes_nothing() {
    let mut s = Stack::new();
    s.prepend(vec![block(&[4, 0, 0], num(1))]).unwrap();
    s.prepend(vec![block(&[2, 1, 2, 1], num(3)), block(&[2, 1], num(2)), block(&[0], num(5))]).unwrap();
    let first = shape_of(&s);
    for (word, count) in &first.1 {
        assert_ne!(*count, num(0));
        if let Some(d) = word {
            assert!(!d.is_empty());
            for size in 1..d.len() {
                let periodic = d.len() % size == 0 && (0..d.len()).all(|i| d[i] == d[i % size]);
                assert!(!periodic, "word {d:?} is not primitive");
            }
        }
    }
    for pair in first.1.windows(2) {
        assert!(pair[0].0.is_none() || pair[0].0 != pair[1].0);
    }
    assert_eq!(s.normalize(), Some(()));
    assert_eq!(shape_of(&s), first);
}

#[test]
fn runs_read_back_from_their_boundary() {
    let n = lib::linear::Linear { a: 1, b: 0 };
    let cases: Vec<Vec<(Option<u32>, lib::linear::Linear)>> = vec![
        vec![],
        vec![(Some(0), num(3)), (Some(2), num(1))],
        vec![(Some(1), num(1)), (Some(2), num(2)), (Some(1), n), (None, num(1)), (Some(3), num(4))],
        vec![(Some(1), num(5))],
    ];
    for runs in cases {
        let s = lib::stack::boundary(runs.clone()).expect("the boundary builds");
        assert_eq!(s.runs(), Some(Some(runs)));
    }
}

#[test]
fn paired_sides_read_as_pairs_ending_in_one() {
    let mut s = Stack::new();
    // (3 1)^2, 1^2, 5 1: the digits 3 1 3 1 1 1 5 1, then zeros.
    s.prepend(vec![block(&[3, 1], num(2)), block(&[1], num(2)), block(&[5, 1], num(1))]).unwrap();
    assert_eq!(s.paired(), Some(true));
    let digits: Vec<u32> = (0..8).map(|_| s.pop().unwrap()).collect();
    assert_eq!(digits, vec![3, 1, 3, 1, 1, 1, 5, 1]);
    assert!(digits.iter().skip(1).step_by(2).all(|&d| d == 1));

    let mut odd = Stack::new();
    odd.prepend(vec![block(&[2, 1], num(1)), block(&[4], num(1))]).unwrap();
    assert_eq!(odd.paired(), Some(false));

    let mut wrong = Stack::new();
    wrong.prepend(vec![block(&[1, 2], num(1))]).unwrap();
    assert_eq!(wrong.paired(), Some(false));
}
