use lib::prefix::{Cost, Prefix};
use lib::transducer;

fn word(b: &[u8], i: usize) -> u32 {
    u32::from_le_bytes([b[4 * i], b[4 * i + 1], b[4 * i + 2], b[4 * i + 3]])
}

fn key(b: &[u8], i: usize) -> u64 {
    word(b, 16 + 2 * i) as u64 | ((word(b, 17 + 2 * i) as u64) << 32)
}

fn mix(key: u64) -> u32 {
    let mut x = key as u32 ^ ((key >> 32) as u32).wrapping_mul(0x9e3779b9);
    x ^= x >> 16;
    x = x.wrapping_mul(0x7feb352d);
    x ^= x >> 15;
    x
}

#[test]
fn table_header_and_layout() {
    let b = transducer::derive().expect("the table derives");
    assert_eq!(word(&b, 0), 0x42544641);
    assert_eq!(word(&b, 1), 2);
    let common = word(&b, 2) as usize;
    let total = word(&b, 3) as usize;
    let size = word(&b, 4) as usize;
    assert!(2 <= common && common <= total && total < 65535);
    assert!(size.is_power_of_two() && size >= 4 * common && size / 2 < 4 * common);
    assert_eq!(word(&b, 5), 8);
    assert_eq!(word(&b, 6), 8);
    assert_eq!(word(&b, 7) as usize, 16 + 2 * total);
    assert_eq!(word(&b, 8) as usize, 8 + total + size / 2);
    assert_eq!(word(&b, 9), 14);
    assert!(word(&b, 10) as usize <= size);
    assert_eq!(&[word(&b, 11), word(&b, 12), word(&b, 13), word(&b, 14), word(&b, 15)], &[32, 1, 16, 0, 0]);
    assert_eq!(b.len(), 64 + 8 * total + 4 * size + 4 * 256 * common);
}

#[test]
fn start_states_come_first() {
    let b = transducer::derive().unwrap();
    // Head 2, nothing else: the head sits at bit 29.
    assert_eq!(key(&b, 0), 2 << 29);
    // Head 1, one queued 3.
    assert_eq!(key(&b, 1), 1 | (1 << 24) | (1 << 29));
}

#[test]
fn keys_are_distinct_and_found_by_probing() {
    let b = transducer::derive().unwrap();
    let common = word(&b, 2) as usize;
    let total = word(&b, 3) as usize;
    let size = word(&b, 4) as usize;
    let max_probe = word(&b, 10) as usize;
    let keys: Vec<u64> = (0..total).map(|i| key(&b, i)).collect();
    let mut sorted = keys.clone();
    sorted.sort();
    sorted.dedup();
    assert_eq!(sorted.len(), total);
    let slots: Vec<u32> = (0..size).map(|j| word(&b, 16 + 2 * total + j)).collect();
    for (i, k) in keys.iter().enumerate().take(common) {
        let start = mix(*k) as usize;
        let mut found = false;
        for p in 0..max_probe {
            let s = slots[(start + p) % size];
            assert_ne!(s, 0, "probe for state {i} hit a free slot");
            if s as usize == i + 1 {
                found = true;
                break;
            }
        }
        assert!(found, "state {i} not found");
    }
    assert!(slots.iter().all(|&s| (s as usize) <= common));
}

#[test]
fn edges_stay_inside_the_table() {
    let b = transducer::derive().unwrap();
    let common = word(&b, 2) as usize;
    let total = word(&b, 3) as usize;
    let size = word(&b, 4) as usize;
    let first = 16 + 2 * total + size;
    for e in 0..256 * common {
        let x = word(&b, first + e);
        let endpoint = (x & 0xffff) as usize;
        assert!(endpoint < total);
    }
}

fn potential(s: &Prefix) -> i64 {
    (s.head / 2 + 2 * (s.head % 2)) as i64 + 4 * s.len as i64 + s.word.count_ones() as i64
}

#[test]
fn byte_charges_are_whole_thirds() {
    let starts = [
        Prefix::empty(),
        Prefix { head: 1, word: 1, len: 1, k: 0, b: 0 },
        Prefix { head: 4, word: 0b10, len: 2, k: 3, b: 5 },
        Prefix { head: 0, word: 0b101, len: 3, k: 1, b: 1 },
    ];
    let mut seen = 0;
    for s in starts {
        for low in 0..256u64 {
            let mut t = s;
            let mut cost = Cost::zero();
            if t.feed(low, 8, &mut cost).is_some() {
                let x = cost.base as i64 - 2 * cost.loss as i64 - potential(&s) + potential(&t);
                assert!(x >= 0 && x % 3 == 0, "state {:?} byte {}", s, low);
                seen += 1;
            }
        }
    }
    assert!(seen >= 512);
}

#[test]
fn states_are_numbered_as_edges_reach_them() {
    let b = transducer::derive().unwrap();
    let common = word(&b, 2) as usize;
    let total = word(&b, 3) as usize;
    let size = word(&b, 4) as usize;
    let first = 16 + 2 * total + size;
    let mut next_table = 2;
    let mut next_escape = common;
    for e in 0..256 * common {
        let t = (word(&b, first + e) & 0xffff) as usize;
        if t < common {
            assert!(t <= next_table, "edge {e} reaches state {t} early");
            if t == next_table {
                assert!(e < 256 * t, "state {t} reached only from itself or later");
                next_table += 1;
            }
        } else {
            assert!(t <= next_escape, "edge {e} reaches escape {t} early");
            if t == next_escape {
                next_escape += 1;
            }
        }
    }
    assert_eq!(next_table, common);
    assert_eq!(next_escape, total);
}

#[test]
fn slots_fill_in_state_order() {
    let b = transducer::derive().unwrap();
    let common = word(&b, 2) as usize;
    let total = word(&b, 3) as usize;
    let size = word(&b, 4) as usize;
    let max_probe = word(&b, 10) as usize;
    let mut slots = vec![0u32; size];
    let mut longest = 0;
    for i in 0..common {
        let start = mix(key(&b, i)) as usize;
        let mut p = 0;
        while slots[(start + p) % size] != 0 {
            p += 1;
        }
        slots[(start + p) % size] = i as u32 + 1;
        longest = longest.max(p + 1);
    }
    let stored: Vec<u32> = (0..size).map(|j| word(&b, 16 + 2 * total + j)).collect();
    assert_eq!(stored, slots);
    assert_eq!(max_probe, longest);
}

fn state_of(key: u64) -> Prefix {
    Prefix {
        word: (key & 0xff_ffff) as u128,
        len: ((key >> 24) & 31) as u8,
        head: ((key >> 29) & 7) as u8,
        k: ((key >> 32) & 31) as u8,
        b: (key >> 37) as u128,
    }
}

#[test]
fn edges_give_back_the_costs_of_their_bytes() {
    let b = transducer::derive().unwrap();
    let common = word(&b, 2) as usize;
    let total = word(&b, 3) as usize;
    let size = word(&b, 4) as usize;
    let first = 16 + 2 * total + size;
    for i in [0usize, 1, 2, common / 2, common - 1] {
        let s = state_of(key(&b, i));
        for low in [0u64, 1, 2, 3, 77, 128, 200, 255] {
            let x = word(&b, first + 256 * i + low as usize);
            let t_index = (x & 0xffff) as usize;
            let j = ((x >> 16) & 63) as i64;
            let ops = ((x >> 22) & 63) as u64;
            let extra = (x >> 28) as u64;
            let mut t = s;
            let mut cost = Cost::zero();
            t.feed(low, 8, &mut cost).unwrap();
            assert_eq!(state_of(key(&b, t_index)), t, "state {i} byte {low}");
            assert_eq!(cost.operations, ops);
            assert_eq!(cost.returned, ops + extra);
            assert_eq!(cost.loss as i64, 8 + s.k as i64 - t.k as i64);
            assert_eq!(cost.base as i64, 3 * j + 2 * cost.loss as i64 + potential(&s) - potential(&t));
        }
    }
}
