use lib::linear::{num, Linear};

#[test]
fn integer_of_constant_count() {
    assert_eq!(num(17).integer(), 17);
    assert_eq!(Linear { a: 0, b: -3 }.integer(), -3);
}

#[test]
fn comparison_decided_over_all_n() {
    // 2n - 150 >= 0 at n = 100 and grows with n.
    assert!(Linear { a: 2, b: -150 }.ge(0));
    // -n + 50 < 0 at n = 100 and keeps falling.
    assert!(!Linear { a: -1, b: 50 }.ge(0));
    assert!(num(5).ge(5));
    assert!(!num(4).ge(5));
}

#[test]
fn undecided_comparison_has_no_answer() {
    // n - 150 is negative at n = 100 but positive later.
    assert_eq!(Linear { a: 1, b: -150 }.try_ge(0), None);
    assert_eq!(Linear { a: 1, b: 0 }.try_ge(50), Some(true));
    assert_eq!(Linear { a: i128::MAX, b: 0 }.try_ge(0), None);
}

#[test]
fn sums_differences_and_scaling() {
    let x = Linear { a: 3, b: 4 };
    let y = Linear { a: -1, b: 10 };
    assert_eq!(x.add(y), Some(Linear { a: 2, b: 14 }));
    assert_eq!(x.sub(y), Some(Linear { a: 4, b: -6 }));
    assert_eq!(x.mul(-2), Some(Linear { a: -6, b: -8 }));
    assert_eq!(Linear { a: i128::MAX, b: 0 }.add(num(0).add(Linear { a: 1, b: 0 }).unwrap()), None);
    assert_eq!(Linear { a: 0, b: i128::MIN }.sub(num(1)), None);
    assert_eq!(Linear { a: 0, b: i128::MAX }.mul(2), None);
}

#[test]
fn division_is_floor_division_at_every_n() {
    let x = Linear { a: 4, b: 7 };
    let q = x.div(2);
    assert_eq!(q, Linear { a: 2, b: 3 });
    for n in [100i128, 101, 250, 1000] {
        assert_eq!(q.a * n + q.b, (x.a * n + x.b).div_euclid(2));
    }
    assert_eq!(Linear { a: 0, b: -1 }.try_div(2), None);
    assert_eq!(Linear { a: 3, b: 0 }.try_div(2), None);
    assert_eq!(Linear { a: 6, b: 1 }.try_div(3), Some(Linear { a: 2, b: 0 }));
    assert_eq!(num(9).try_div(0), None);
}
