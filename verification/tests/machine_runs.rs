use lib::normalizer::{combine_rows, start_state, Mode, Summary};
use lib::prefix::{Cost, Prefix};
use lib::scalar::normalize;

fn summary(head: u8, word: Vec<u8>, value: u64, loss: u64, base: u64, returned: u64, operations: u64) -> Summary {
    Summary { head, word, value, loss, base, returned, operations }
}

#[test]
fn cost_records_add_counter_by_counter() {
    let a = Cost { loss: 1, base: 2, returned: 3, operations: 4 };
    let b = Cost { loss: 10, base: 20, returned: 30, operations: 40 };
    assert_eq!(a.add(b), Some(Cost { loss: 11, base: 22, returned: 33, operations: 44 }));
    let big = Cost { loss: u64::MAX, base: 0, returned: 0, operations: 0 };
    assert_eq!(big.add(a), None);
    assert_eq!(Cost::zero(), Cost { loss: 0, base: 0, returned: 0, operations: 0 });
}

#[test]
fn empty_prefix_state() {
    let p = Prefix::empty();
    assert_eq!(p, Prefix { head: 2, word: 0, len: 0, k: 0, b: 0 });
    assert!(p.valid());
}

#[test]
fn validity_bounds() {
    assert!(!Prefix { head: 5, word: 0, len: 0, k: 0, b: 0 }.valid());
    assert!(!Prefix { head: 1, word: 4, len: 2, k: 0, b: 0 }.valid());
    assert!(Prefix { head: 1, word: 3, len: 2, k: 0, b: 0 }.valid());
    assert!(!Prefix { head: 1, word: 0, len: 0, k: 113, b: 0 }.valid());
    assert!(!Prefix { head: 1, word: 0, len: 0, k: 0, b: 1u128 << 120 }.valid());
}

// The register (head 2, no digits, value 3) takes three operations:
// 3 -> (head 0) 2 -> (head 3) 1 -> (head 2) 2, losing two bits, with bases 3, 2 and 2.
#[test]
fn scalar_normalizer_on_three() {
    let s = normalize(&[3], 2, &[], 64);
    assert_eq!(s, summary(2, vec![], 2, 2, 7, 3, 3));
    assert_eq!(s.mode(), Mode::N202);
}

#[test]
fn terminal_register_takes_no_operation() {
    assert_eq!(normalize(&[2], 2, &[], 64), summary(2, vec![], 2, 0, 0, 0, 0));
    assert_eq!(normalize(&[4], 0, &[], 64), summary(0, vec![], 4, 0, 0, 0, 0));
    assert_eq!(normalize(&[1], 1, &[3, 3], 64), summary(1, vec![3, 3], 1, 0, 0, 0, 0));
}

#[test]
fn prefix_normalizer_agrees_with_scalar_on_three() {
    let mut p = Prefix::empty();
    let mut cost = Cost::zero();
    // The low bit of 3; the top bit arrives with `close`.
    assert_eq!(p.feed(1, 1, &mut cost), Some(()));
    assert_eq!(p, Prefix { head: 2, word: 0, len: 0, k: 1, b: 1 });
    assert_eq!(p.close(&mut cost), Some(()));
    assert_eq!(p, Prefix { head: 2, word: 0, len: 0, k: 0, b: 2 });
    assert_eq!(cost, Cost { loss: 2, base: 7, returned: 3, operations: 3 });
}

#[test]
fn prefix_and_scalar_normalizers_agree() {
    for v in 2u64..400 {
        let top = 63 - v.leading_zeros();
        let mut p = Prefix::empty();
        let mut cost = Cost::zero();
        p.feed(v - (1u64 << top), top as u8, &mut cost).unwrap();
        p.close(&mut cost).unwrap();
        let s = normalize(&[v], 2, &[], 4096);
        assert_eq!(p.head, s.head, "value {v}");
        assert_eq!(p.b as u64, s.value, "value {v}");
        assert_eq!(p.len as usize, s.word.len(), "value {v}");
        assert_eq!(cost, Cost { loss: s.loss, base: s.base, returned: s.returned, operations: s.operations }, "value {v}");
    }
}

#[test]
fn feed_rejects_oversized_input() {
    let mut p = Prefix::empty();
    let mut cost = Cost::zero();
    assert_eq!(p.feed(4, 2, &mut cost), None);
    let mut q = Prefix::empty();
    assert_eq!(q.feed(0, 65, &mut cost), None);
}

#[test]
fn mode_periods_and_growths() {
    assert_eq!(Mode::N202.period(), 4);
    assert_eq!(Mode::N0002.period(), 3);
    assert_eq!(Mode::N122.period(), 3);
    assert_eq!(Mode::H.period(), 2);
    assert_eq!(Mode::N202.growth(), 14);
    assert_eq!(Mode::N0002.growth(), 12);
    assert_eq!(Mode::N122.growth(), 12);
    assert_eq!(Mode::H.growth(), 10);
}

#[test]
fn summary_modes() {
    assert_eq!(summary(2, vec![], 2, 0, 0, 0, 0).mode(), Mode::N202);
    assert_eq!(summary(0, vec![], 4, 0, 0, 0, 0).mode(), Mode::N0002);
    assert_eq!(summary(1, vec![], 3, 0, 0, 0, 0).mode(), Mode::N122);
    assert_eq!(summary(1, vec![3, 3, 3], 1, 0, 0, 0, 0).mode(), Mode::H);
}

#[test]
fn start_state_packs_odd_digits() {
    assert_eq!(start_state(1, &[3, 1, 3]), Some(Prefix { head: 1, word: 0b101, len: 3, k: 0, b: 0 }));
    assert_eq!(start_state(2, &[]), Some(Prefix { head: 2, word: 0, len: 0, k: 0, b: 0 }));
    assert_eq!(start_state(1, &[1; 64]), None);
    assert_eq!(start_state(7, &[]), None);
}

#[test]
fn rows_fed_bit_by_bit() {
    // Input 3 in two bits: one block, one summary row that is not taken, one link row
    // that records nothing, so its bit is fed directly.
    let start = start_state(2, &[]).unwrap();
    let rows = [0u32; 32];
    let links = [0u32; 16];
    let s = combine_rows(start, &[3], 2, &rows, &links, 64);
    assert_eq!(s, Some(summary(2, vec![], 2, 2, 7, 3, 3)));
}

#[test]
fn summary_row_taken_whole() {
    let start = start_state(2, &[]).unwrap();
    let mut rows = [0u32; 32];
    // Endpoint after the block: head 2, one known bit, value 1.
    rows[2] = 1;
    rows[4] = 2;
    rows[6] = 1;
    rows[12] = 1;
    rows[13] = 1;
    rows[14] = 1;
    rows[15] = 1;
    // Seed: the start state.
    rows[16 + 4] = 2;
    rows[24] = 1;
    let links = [0u32; 16];
    let s = combine_rows(start, &[3], 2, &rows, &links, 64);
    assert_eq!(s, Some(summary(2, vec![], 2, 2, 7, 3, 3)));
}

#[test]
fn summary_row_with_other_seed_falls_back_to_links() {
    let start = start_state(2, &[]).unwrap();
    let mut rows = [0u32; 32];
    // An endpoint that would give a different answer, behind a seed that does not match.
    rows[2] = 5;
    rows[4] = 2;
    rows[6] = 3;
    rows[12] = 1;
    rows[13] = 1;
    rows[14] = 1;
    rows[15] = 1;
    rows[16 + 4] = 1;
    rows[25] = 1;
    let links = [0u32; 16];
    let s = combine_rows(start, &[3], 2, &rows, &links, 64);
    assert_eq!(s, Some(summary(2, vec![], 2, 2, 7, 3, 3)));
}

#[test]
fn malformed_rows_are_refused() {
    let start = start_state(2, &[]).unwrap();
    let mut rows = [0u32; 32];
    rows[13] = 2;
    rows[14] = 2;
    let links = [0u32; 16];
    assert_eq!(combine_rows(start, &[3], 2, &rows, &links, 64), None);
    // Wrong number of summary words.
    let short = [0u32; 16];
    assert_eq!(combine_rows(start, &[3], 2, &short, &links, 64), None);
    // No input bits.
    assert_eq!(combine_rows(start, &[], 0, &[], &[], 64), None);
    // Too narrow: loss 2 + 3 bits + 5 > 9.
    assert_eq!(combine_rows(start, &[3], 2, &[0u32; 32], &links, 9), None);
    assert!(combine_rows(start, &[3], 2, &[0u32; 32], &links, 10).is_some());
}

#[test]
fn checked_normalizer_refuses_narrow_widths() {
    assert_eq!(lib::scalar::normalize_checked(&[3], 2, &[], 64), Some(summary(2, vec![], 2, 2, 7, 3, 3)));
    // The first operation already needs 0 + 2 + 4 = 6 bits.
    assert_eq!(lib::scalar::normalize_checked(&[3], 2, &[], 5), None);
    assert_eq!(lib::scalar::normalize_checked(&[3], 2, &[], 6).is_some(), false);
    assert!(lib::scalar::normalize_checked(&[3], 2, &[], 7).is_some());
}

fn value_words(seed: u64, bits: usize) -> Vec<u64> {
    let mut words = vec![0u64; bits.div_ceil(64)];
    let mut x = seed;
    for w in words.iter_mut() {
        x ^= x << 13;
        x ^= x >> 7;
        x ^= x << 17;
        *w = x;
    }
    let top = bits - 1;
    let last = words.len() - 1;
    let keep = top % 64;
    words[last] &= if keep == 63 { u64::MAX } else { (1u64 << (keep + 1)) - 1 };
    words[last] |= 1u64 << keep;
    words
}

#[test]
fn rows_fed_in_chunks_agree_with_scalar() {
    let mut compared = 0;
    for (seed, bits) in [(1u64, 70usize), (7, 130), (12345, 200), (99, 257), (4242, 321)] {
        let words = value_words(seed, bits);
        let blocks = (bits - 1).div_ceil(4096);
        let groups = blocks.div_ceil(32);
        let rows = vec![0u32; 32 * groups];
        let links = vec![0u32; 16 * blocks];
        let width = 1u64 << 20;
        let start = start_state(2, &[]).unwrap();
        if let Some(s) = combine_rows(start, &words, bits, &rows, &links, width) {
            assert_eq!(s, normalize(&words, 2, &[], width), "seed {seed}");
            compared += 1;
        }
    }
    assert!(compared >= 1);
}

#[test]
fn runs_end_on_small_positive_values() {
    use_checked_runs(&[2, 0, 1, 3, 4], &[&[], &[3], &[1, 3], &[3, 3, 1]]);
}

fn use_checked_runs(heads: &[u8], queues: &[&[u8]]) {
    let mut finished = 0;
    for &head in heads {
        for &queue in queues {
            for v in 1u64..300 {
                if let Some(s) = lib::scalar::normalize_checked(&[v], head, queue, 4096) {
                    assert!((1..=4).contains(&s.value), "value {v} head {head}");
                    finished += 1;
                }
            }
        }
    }
    assert!(finished > 1000);
}

fn bits_from(words: &[u64], at: usize, count: usize) -> u64 {
    let shift = at % 64;
    let i = at / 64;
    let mut low = words[i] >> shift;
    if shift != 0 && i + 1 < words.len() {
        low |= words[i + 1] << (64 - shift);
    }
    if count < 64 {
        low &= (1u64 << count) - 1;
    }
    low
}

#[test]
fn honest_link_rows_agree_with_scalar() {
    let bits = 9000usize;
    let words = value_words(2024, bits);
    let blocks = (bits - 1).div_ceil(4096);
    let start = start_state(2, &[]).unwrap();
    let mut links = vec![0u32; 16 * blocks];
    let mut seed = start;
    let mut honest = 0;
    for i in 0..blocks {
        let from = i * 4096;
        let length = (bits - 1 - from).min(4096);
        let mut state = seed;
        let mut cost = Cost::zero();
        let mut at = from;
        while at < from + length {
            let count = (from + length - at).min(64);
            state.feed(bits_from(&words, at, count), count as u8, &mut cost).unwrap();
            at += count;
        }
        let row = &mut links[16 * i..16 * (i + 1)];
        row[0] = state.word as u32;
        row[1] = (state.word >> 32) as u32;
        row[2] = state.b as u32;
        row[3] = (state.b >> 32) as u32;
        row[4] = state.head as u32;
        row[5] = state.len as u32;
        row[6] = state.k as u32;
        row[8] = cost.loss as u32;
        row[9] = cost.base as u32;
        row[10] = cost.returned as u32;
        row[11] = cost.operations as u32;
        row[12] = length as u32;
        if state.len <= 63 && state.k <= 56 && state.b < (1u128 << 60) {
            row[13] = 1;
            row[14] = 1;
            honest += 1;
        }
        seed = state;
    }
    assert!(honest >= 2);
    let rows = vec![0u32; 32];
    let width = 1u64 << 20;
    let s = combine_rows(start, &words, bits, &rows, &links, width).expect("the rows combine");
    assert_eq!(s, normalize(&words, 2, &[], width));
}

#[test]
fn chunked_feeds_then_close_agree_with_scalar() {
    for v in 2u64..600 {
        let top = 63 - v.leading_zeros();
        for step in [1u32, 2, 3, 5, 7] {
            let mut p = Prefix::empty();
            let mut cost = Cost::zero();
            let mut at = 0u32;
            while at < top {
                let n = step.min(top - at);
                let low = (v >> at) & ((1u64 << n) - 1);
                p.feed(low, n as u8, &mut cost).unwrap();
                at += n;
            }
            p.close(&mut cost).unwrap();
            let s = normalize(&[v], 2, &[], 4096);
            assert_eq!((p.head, p.b as u64, p.len as usize), (s.head, s.value, s.word.len()), "value {v} step {step}");
            assert_eq!(cost, Cost { loss: s.loss, base: s.base, returned: s.returned, operations: s.operations });
        }
    }
}

#[test]
fn two_feeds_equal_one_joined_feed() {
    let starts = [
        Prefix::empty(),
        Prefix { head: 1, word: 1, len: 1, k: 0, b: 0 },
        Prefix { head: 4, word: 0b10, len: 2, k: 3, b: 5 },
    ];
    let mut compared = 0;
    for s in starts {
        for v in 0u64..512 {
            for b1 in 1u8..9 {
                let b2 = 9 - b1;
                let l1 = v & ((1u64 << b1) - 1);
                let l2 = v >> b1;
                let (mut p, mut c) = (s, Cost::zero());
                let split = p.feed(l1, b1, &mut c).and_then(|_| p.feed(l2, b2, &mut c));
                let (mut q, mut d) = (s, Cost::zero());
                let whole = q.feed(v, 9, &mut d);
                if split.is_some() && whole.is_some() {
                    assert_eq!((p, c), (q, d), "start {s:?} value {v} split {b1}");
                    compared += 1;
                }
            }
        }
    }
    assert!(compared > 1000);
}
