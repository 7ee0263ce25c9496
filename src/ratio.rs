use vstd::prelude::*;

verus! {

/// A fraction `num / den`, standing for a threshold in `[0, 1]` or above.
#[derive(Clone, Copy, Debug)]
pub struct Ratio {
    pub num: u64,
    pub den: u64,
}

impl Ratio {
    pub open spec fn wf(&self) -> bool {
        self.den > 0
    }

    /// The ratio lies in `[0, 1]`.
    pub open spec fn is_unit(&self) -> bool {
        self.den > 0 && self.num <= self.den
    }

    /// `x / y >= num / den` (for `y > 0`), compared without division.
    pub open spec fn admits_spec(&self, x: int, y: int) -> bool {
        x * self.den >= self.num * y
    }

    /// `self <= other` as fractions.
    pub open spec fn at_most(&self, other: Ratio) -> bool {
        self.num * other.den <= other.num * self.den
    }

    pub fn admits(&self, x: u64, y: u64) -> (r: bool)
        ensures
            r == self.admits_spec(x as int, y as int),
    {
        let a = x as u128;
        let b = y as u128;
        let d = self.den as u128;
        let n = self.num as u128;
        proof {
            assert(a * d <= 0xffff_ffff_ffff_ffffu128 * 0xffff_ffff_ffff_ffffu128) by (nonlinear_arith)
                requires a <= 0xffff_ffff_ffff_ffffu128, d <= 0xffff_ffff_ffff_ffffu128;
            assert(n * b <= 0xffff_ffff_ffff_ffffu128 * 0xffff_ffff_ffff_ffffu128) by (nonlinear_arith)
                requires b <= 0xffff_ffff_ffff_ffffu128, n <= 0xffff_ffff_ffff_ffffu128;
        }
        a * d >= n * b
    }
}

/// A share that reaches a fraction reaches every smaller one.
pub proof fn lemma_admits_lower(lo: Ratio, hi: Ratio, x: int, y: int)
    requires
        lo.wf(),
        hi.wf(),
        lo.at_most(hi),
        x >= 0,
        y >= 0,
        hi.admits_spec(x, y),
    ensures
        lo.admits_spec(x, y),
{
    let (n1, d1, n2, d2) = (lo.num as int, lo.den as int, hi.num as int, hi.den as int);
    assert(x * d2 * d1 >= n2 * y * d1) by (nonlinear_arith)
        requires x * d2 >= n2 * y, d1 >= 0;
    assert(n2 * d1 * y >= n1 * d2 * y) by (nonlinear_arith)
        requires n1 * d2 <= n2 * d1, y >= 0;
    assert(x * d1 * d2 >= n1 * y * d2) by (nonlinear_arith)
        requires x * d2 * d1 >= n2 * y * d1, n2 * d1 * y >= n1 * d2 * y;
    assert(x * d1 >= n1 * y) by (nonlinear_arith)
        requires x * d1 * d2 >= n1 * y * d2, d2 > 0;
}

} // verus!
