//! Exact lower bounds of the form `whole + numer / denom`.
use vstd::prelude::*;

verus! {

/// The rational number `whole + numer / denom`, kept with `numer < denom`
/// so that `whole` is its integer part.
#[derive(Clone, Copy, Debug, PartialEq, Eq, Structural)]
pub struct LowerBound {
    pub whole: usize,
    pub numer: usize,
    pub denom: usize,
}

impl LowerBound {
    /// A proper fraction part with a positive denominator.
    pub open spec fn valid(self) -> bool {
        self.denom > 0 && self.numer < self.denom
    }

    /// The bound scaled by its denominator: `whole * denom + numer`.
    pub open spec fn scaled(self) -> int {
        self.whole * self.denom + self.numer
    }

    /// The bound is at most the integer `x`.
    pub open spec fn at_most(self, x: int) -> bool {
        self.scaled() <= x * self.denom
    }

    /// The order of the rational values, compared part by part.
    pub open spec fn spec_le(self, o: LowerBound) -> bool {
        self.whole < o.whole || (self.whole == o.whole && self.numer * o.denom <= o.numer * self.denom)
    }

    /// The rational value order, stated by cross multiplication.
    pub open spec fn value_le(self, o: LowerBound) -> bool {
        self.scaled() * o.denom <= o.scaled() * self.denom
    }

    /// Whether `self` is at most `o` as rational numbers.
    pub fn le(&self, o: &LowerBound) -> (r: bool)
        requires
            self.valid(),
            o.valid(),
        ensures
            r == self.spec_le(*o),
            r == self.value_le(*o),
    {
        proof {
            lemma_le_is_value_order(*self, *o);
        }
        if self.whole < o.whole {
            true
        } else if self.whole > o.whole {
            false
        } else {
            let a: u128 = self.numer as u128;
            let b: u128 = o.denom as u128;
            let c: u128 = o.numer as u128;
            let d: u128 = self.denom as u128;
            assert(a * b <= u128::MAX) by (nonlinear_arith)
                requires a <= usize::MAX, b <= usize::MAX, usize::MAX <= u64::MAX;
            assert(c * d <= u128::MAX) by (nonlinear_arith)
                requires c <= usize::MAX, d <= usize::MAX, usize::MAX <= u64::MAX;
            a * b <= c * d
        }
    }
}

/// The part-by-part order is the order of the rational values.
pub proof fn lemma_le_is_value_order(x: LowerBound, y: LowerBound)
    requires
        x.valid(),
        y.valid(),
    ensures
        x.spec_le(y) == x.value_le(y),
{
    let (w1, n1, d1) = (x.whole as int, x.numer as int, x.denom as int);
    let (w2, n2, d2) = (y.whole as int, y.numer as int, y.denom as int);
    assert((w1 * d1 + n1) * d2 == w1 * d1 * d2 + n1 * d2) by (nonlinear_arith);
    assert((w2 * d2 + n2) * d1 == w2 * d1 * d2 + n2 * d1) by (nonlinear_arith);
    if w1 < w2 {
        assert(n1 * d2 < d1 * d2) by (nonlinear_arith)
            requires n1 < d1, d2 > 0;
        assert(w1 * d1 * d2 + d1 * d2 <= w2 * d1 * d2) by (nonlinear_arith)
            requires w1 + 1 <= w2, d1 > 0, d2 > 0;
        assert(0 <= n2 * d1) by (nonlinear_arith)
            requires n2 >= 0, d1 > 0;
    } else if w1 > w2 {
        assert(n2 * d1 < d1 * d2) by (nonlinear_arith)
            requires n2 < d2, d1 > 0;
        assert(w2 * d1 * d2 + d1 * d2 <= w1 * d1 * d2) by (nonlinear_arith)
            requires w2 + 1 <= w1, d1 > 0, d2 > 0;
        assert(0 <= n1 * d2) by (nonlinear_arith)
            requires n1 >= 0, d2 > 0;
    } else {
        assert(w1 * d1 * d2 == w2 * d1 * d2);
    }
}

/// The order of bounds is transitive.
pub proof fn lemma_le_transitive(x: LowerBound, y: LowerBound, z: LowerBound)
    requires
        x.valid(),
        y.valid(),
        z.valid(),
        x.spec_le(y),
        y.spec_le(z),
    ensures
        x.spec_le(z),
{
    if x.whole == y.whole && y.whole == z.whole {
        let (n1, d1, n2, d2, n3, d3) = (
            x.numer as int,
            x.denom as int,
            y.numer as int,
            y.denom as int,
            z.numer as int,
            z.denom as int,
        );
        assert(n1 * d3 <= n3 * d1) by (nonlinear_arith)
            requires n1 * d2 <= n2 * d1, n2 * d3 <= n3 * d2, d1 > 0, d2 > 0, d3 > 0, n1 >= 0, n2 >= 0, n3 >= 0;
    }
}

/// Of two bounds, one is at most the other.
pub proof fn lemma_le_total(x: LowerBound, y: LowerBound)
    ensures
        x.spec_le(y) || y.spec_le(x),
{
}

/// A bound at most `x` has its integer part at most `x`.
pub proof fn lemma_at_most_whole(b: LowerBound, x: int)
    requires
        b.valid(),
        b.at_most(x),
    ensures
        b.whole <= x,
{
    let (w, n, d) = (b.whole as int, b.numer as int, b.denom as int);
    assert(w <= x) by (nonlinear_arith)
        requires w * d + n <= x * d, d > 0, n >= 0;
}

} // verus!
