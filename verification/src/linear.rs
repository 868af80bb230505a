//! Counts that are linear in a symbolic `n >= 100`.
use vstd::prelude::*;

verus! {

/// The count `a * n + b` for a symbolic `n >= 100`.
#[derive(Clone, Copy, Debug, PartialEq, Eq, Structural)]
pub struct Linear {
    pub a: i128,
    pub b: i128,
}

/// The value of a count at `n`.
pub open spec fn at(l: Linear, n: int) -> int {
    l.a * n + l.b
}

/// The least value `n` takes.
pub open spec fn least_n() -> int {
    100
}

/// The count's value at the least `n`, minus `rhs`.
pub open spec fn margin(l: Linear, rhs: int) -> int {
    100 * l.a + l.b - rhs
}

/// Whether the comparison with `rhs` has the same answer for every `n >= 100`.
pub open spec fn decides(l: Linear, rhs: int) -> bool {
    (l.a >= 0 && margin(l, rhs) >= 0) || (l.a <= 0 && margin(l, rhs) < 0)
}

/// The comparison with `rhs`, where it is decided.
pub open spec fn at_least(l: Linear, rhs: int) -> bool {
    margin(l, rhs) >= 0
}

/// Whether the comparison can be computed in 128 bits.
pub open spec fn margin_fits(l: Linear, rhs: i128) -> bool {
    i128::MIN <= 100 * l.a <= i128::MAX && i128::MIN <= 100 * l.a + l.b <= i128::MAX
        && i128::MIN <= margin(l, rhs as int) <= i128::MAX
}

pub open spec fn fits(x: int) -> bool {
    i128::MIN <= x <= i128::MAX
}

/// The constant count `b`.
pub open spec fn constant(b: i128) -> Linear {
    Linear { a: 0, b }
}

/// The comparison `l >= rhs` where it is decided and computable; `None` otherwise.
pub open spec fn linear_ge(l: Linear, rhs: i128) -> Option<bool> {
    if decides(l, rhs as int) && margin_fits(l, rhs) {
        Some(at_least(l, rhs as int))
    } else {
        None
    }
}

/// The componentwise sum, where it fits.
pub open spec fn linear_sum(x: Linear, y: Linear) -> Option<Linear> {
    if fits(x.a + y.a) && fits(x.b + y.b) {
        Some(Linear { a: (x.a + y.a) as i128, b: (x.b + y.b) as i128 })
    } else {
        None
    }
}

/// The componentwise difference, where it fits.
pub open spec fn linear_difference(x: Linear, y: Linear) -> Option<Linear> {
    if fits(x.a - y.a) && fits(x.b - y.b) {
        Some(Linear { a: (x.a - y.a) as i128, b: (x.b - y.b) as i128 })
    } else {
        None
    }
}

/// Scaling by a constant, where it fits.
pub open spec fn linear_scaled(x: Linear, k: int) -> Option<Linear> {
    if fits(x.a * k) && fits(x.b * k) {
        Some(Linear { a: (x.a * k) as i128, b: (x.b * k) as i128 })
    } else {
        None
    }
}

/// The `n`-wise floor quotient of a count that is nonnegative for every `n >= 100` and
/// whose slope the divisor divides; `None` otherwise.
pub open spec fn linear_quotient(x: Linear, d: i128) -> Option<Linear> {
    if d > 0 && decides(x, 0) && margin_fits(x, 0) && at_least(x, 0) && x.a as int % d as int == 0 {
        Some(Linear { a: (x.a as int / d as int) as i128, b: (x.b as int / d as int) as i128 })
    } else {
        None
    }
}

/// The constant count `b`.
pub fn num(b: i128) -> (l: Linear)
    ensures
        l == constant(b),
{
    Linear { a: 0, b }
}

/// Law: a decided comparison holds, or fails, at every `n >= 100`.
pub proof fn lemma_decided_everywhere(l: Linear, rhs: int, n: int)
    requires
        decides(l, rhs),
        n >= least_n(),
    ensures
        at_least(l, rhs) ==> at(l, n) >= rhs,
        !at_least(l, rhs) ==> at(l, n) < rhs,
{
    assert(at(l, n) - rhs == margin(l, rhs) + l.a * (n - 100)) by (nonlinear_arith);
    if l.a >= 0 {
        assert(l.a * (n - 100) >= 0) by (nonlinear_arith)
            requires
                l.a >= 0,
                n >= 100,
        ;
    } else {
        assert(l.a * (n - 100) <= 0) by (nonlinear_arith)
            requires
                l.a <= 0,
                n >= 100,
        ;
    }
}

impl Linear {
    /// The value of a constant count.
    pub fn integer(self) -> (r: i128)
        requires
            self.a == 0,
        ensures
            r == self.b,
    {
        self.b
    }

    /// Whether the count is at least `rhs` for every `n >= 100`; the comparison must be
    /// decided the same way for all of them.
    pub fn ge(self, rhs: i128) -> (r: bool)
        requires
            decides(self, rhs as int),
            margin_fits(self, rhs),
        ensures
            r == at_least(self, rhs as int),
    {
        let minimum = 100 * self.a + self.b - rhs;
        self.a >= 0 && minimum >= 0
    }

    /// Whether the comparison is decided, and its answer (no answer where it
    /// fails: undecided, or out of 128-bit range).
    pub fn try_ge(self, rhs: i128) -> (r: Option<bool>)
        ensures
            r == linear_ge(self, rhs),
    {
        let hundred = match self.a.checked_mul(100) {
            Some(x) => x,
            None => return None,
        };
        let base = match hundred.checked_add(self.b) {
            Some(x) => x,
            None => return None,
        };
        let minimum = match base.checked_sub(rhs) {
            Some(x) => x,
            None => return None,
        };
        if self.a >= 0 && minimum >= 0 {
            return Some(true);
        }
        if self.a <= 0 && minimum < 0 {
            return Some(false);
        }
        None
    }

    /// Componentwise sum, where it fits.
    pub fn add(self, rhs: Self) -> (r: Option<Self>)
        ensures
            r == linear_sum(self, rhs),
    {
        let a = match self.a.checked_add(rhs.a) {
            Some(x) => x,
            None => return None,
        };
        let b = match self.b.checked_add(rhs.b) {
            Some(x) => x,
            None => return None,
        };
        Some(Linear { a, b })
    }

    /// Componentwise difference, where it fits.
    pub fn sub(self, rhs: Self) -> (r: Option<Self>)
        ensures
            r == linear_difference(self, rhs),
    {
        let a = match self.a.checked_sub(rhs.a) {
            Some(x) => x,
            None => return None,
        };
        let b = match self.b.checked_sub(rhs.b) {
            Some(x) => x,
            None => return None,
        };
        Some(Linear { a, b })
    }

    /// Scaling by a constant, where it fits.
    pub fn mul(self, rhs: i128) -> (r: Option<Self>)
        ensures
            r == linear_scaled(self, rhs as int),
    {
        let a = match self.a.checked_mul(rhs) {
            Some(x) => x,
            None => return None,
        };
        let b = match self.b.checked_mul(rhs) {
            Some(x) => x,
            None => return None,
        };
        Some(Linear { a, b })
    }

    /// Division of a count that is nonnegative for every `n >= 100` and whose slope the
    /// divisor divides: `n`-wise floor division.
    pub fn div(self, divisor: i128) -> (r: Self)
        requires
            divisor > 0,
            decides(self, 0),
            margin_fits(self, 0),
            at_least(self, 0),
            self.a as int % divisor as int == 0,
        ensures
            r == (Linear { a: (self.a as int / divisor as int) as i128, b: (self.b as int / divisor as int) as i128 }),
            forall|n: int| n >= least_n() ==> #[trigger] at(r, n) == at(self, n) / divisor as int,
    {
        proof {
            lemma_div_in_range(self.a as int, divisor as int);
            lemma_div_in_range(self.b as int, divisor as int);
        }
        let a = self.a.checked_div_euclid(divisor).unwrap();
        let b = self.b.checked_div_euclid(divisor).unwrap();
        let r = Linear { a, b };
        proof {
            assert forall|n: int| n >= least_n() implies #[trigger] at(r, n) == at(self, n) / divisor as int by {
                lemma_div_shift(self.a as int, self.b as int, divisor as int, n);
            }
        }
        r
    }

    /// `div` where its requirements hold; no answer where it fails.
    pub fn try_div(self, divisor: i128) -> (r: Option<Self>)
        ensures
            r == linear_quotient(self, divisor),
    {
        if divisor <= 0 {
            return None;
        }
        match self.try_ge(0) {
            Some(true) => {},
            _ => return None,
        }
        if self.a.checked_rem_euclid(divisor) != Some(0i128) {
            return None;
        }
        Some(self.div(divisor))
    }
}

proof fn lemma_div_in_range(b: int, d: int)
    requires
        d >= 1,
    ensures
        b >= 0 ==> 0 <= b / d <= b,
        b < 0 ==> b <= b / d <= 0,
{
    vstd::arithmetic::div_mod::lemma_fundamental_div_mod(b, d);
    let q = b / d;
    let r = b % d;
    assert(b >= 0 ==> 0 <= q <= b) by (nonlinear_arith)
        requires
            b == d * q + r,
            0 <= r < d,
            d >= 1,
    ;
    assert(b < 0 ==> b <= q <= 0) by (nonlinear_arith)
        requires
            b == d * q + r,
            0 <= r < d,
            d >= 1,
    ;
}

proof fn lemma_div_shift(a: int, b: int, d: int, n: int)
    requires
        d > 0,
        a % d == 0,
    ensures
        (a / d) * n + b / d == (a * n + b) / d,
{
    vstd::arithmetic::div_mod::lemma_fundamental_div_mod(a, d);
    let q = a / d;
    assert(a == d * q);
    assert(a * n + b == d * (q * n) + b) by (nonlinear_arith)
        requires
            a == d * q,
    ;
    vstd::arithmetic::div_mod::lemma_fundamental_div_mod(b, d);
    let bq = b / d;
    let br = b % d;
    assert(d * (q * n) + b == d * (q * n + bq) + br) by (nonlinear_arith)
        requires
            b == d * bq + br,
    ;
    vstd::arithmetic::div_mod::lemma_div_multiples_vanish_fancy(q * n + bq, br, d);
}

} // verus!
