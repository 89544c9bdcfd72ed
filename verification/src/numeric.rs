use vstd::prelude::*;
use crate::expression::Coeff;

verus! {

/// Exact integer coefficients: the library's own scalar model.
///
/// Negligible means exactly zero. Addition and multiplication saturate at
/// the `i64` range, which the abstract operation names below state
/// precisely; within that range they are the exact integer operations.
#[derive(Debug, Clone, Copy, PartialEq, Eq, Structural)]
pub struct IntCoeff {
    pub value: i64,
}

impl IntCoeff {
    pub fn new(value: i64) -> (r: Self)
        ensures
            r.value == value,
    {
        IntCoeff { value }
    }
}

/// Clamps an unbounded integer into the `i64` range.
pub open spec fn clamp_i64(v: int) -> int {
    if v > i64::MAX {
        i64::MAX as int
    } else if v < i64::MIN {
        i64::MIN as int
    } else {
        v
    }
}

impl Coeff for IntCoeff {
    open spec fn negligible(&self) -> bool {
        self.value == 0
    }

    open spec fn add_spec(self, other: Self) -> Self {
        IntCoeff { value: clamp_i64(self.value + other.value) as i64 }
    }

    open spec fn mul_spec(self, other: Self) -> Self {
        IntCoeff { value: clamp_i64(self.value * other.value) as i64 }
    }

    open spec fn neg_spec(self) -> Self {
        IntCoeff { value: clamp_i64(-self.value) as i64 }
    }

    open spec fn div_spec(self, other: Self) -> Self {
        IntCoeff { value: clamp_i64(trunc_div(self.value as int, other.value as int)) as i64 }
    }

    open spec fn lt_spec(self, other: Self) -> bool {
        self.value < other.value
    }

    open spec fn zero_spec() -> Self {
        IntCoeff { value: 0 }
    }

    open spec fn one_spec() -> Self {
        IntCoeff { value: 1 }
    }

    fn is_negligible(&self) -> bool {
        self.value == 0
    }

    fn plus(self, other: Self) -> (r: Self) {
        let wide = self.value as i128 + other.value as i128;
        IntCoeff { value: clamp_wide(wide) }
    }

    fn times(self, other: Self) -> (r: Self) {
        proof {
            lemma_i64_product_fits(self.value as int, other.value as int);
        }
        let wide = (self.value as i128) * (other.value as i128);
        IntCoeff { value: clamp_wide(wide) }
    }

    fn negated(self) -> (r: Self) {
        let wide = -(self.value as i128);
        IntCoeff { value: clamp_wide(wide) }
    }

    fn divided_by(self, other: Self) -> (r: Self) {
        let wa = self.value as i128;
        let wb = other.value as i128;
        let qa: i128 = if wa < 0 {
            -wa
        } else {
            wa
        };
        let qb: i128 = if wb < 0 {
            -wb
        } else {
            wb
        };
        let q = qa / qb;
        let signed: i128 = if (wa < 0) != (wb < 0) {
            -q
        } else {
            q
        };
        IntCoeff { value: clamp_wide(signed) }
    }

    fn less_than(self, other: Self) -> (r: bool) {
        self.value < other.value
    }

    fn zero() -> (r: Self) {
        IntCoeff { value: 0 }
    }

    fn one() -> (r: Self) {
        IntCoeff { value: 1 }
    }

    proof fn neg_significance(x: Self) {
    }

    proof fn one_significance() {
    }

    proof fn zero_significance() {
    }

    proof fn lt_order(x: Self, y: Self, z: Self) {
    }
}

/// Clamps a wide intermediate into the `i64` range.
fn clamp_wide(v: i128) -> (r: i64)
    ensures
        r == clamp_i64(v as int),
{
    if v > i64::MAX as i128 {
        i64::MAX
    } else if v < i64::MIN as i128 {
        i64::MIN
    } else {
        v as i64
    }
}

/// Division truncating toward zero, as machine division does.
pub open spec fn trunc_div(a: int, b: int) -> int {
    let q = abs_int(a) / abs_int(b);
    if (a < 0) != (b < 0) {
        -q
    } else {
        q
    }
}

/// Magnitude of an unbounded integer.
pub open spec fn abs_int(a: int) -> int {
    if a < 0 {
        -a
    } else {
        a
    }
}

/// The product of two `i64` values fits in `i128`.
proof fn lemma_i64_product_fits(a: int, b: int)
    requires
        i64::MIN <= a <= i64::MAX,
        i64::MIN <= b <= i64::MAX,
    ensures
        i128::MIN <= a * b <= i128::MAX,
{
    assert(i128::MIN <= a * b <= i128::MAX) by (nonlinear_arith)
        requires
            -(0x8000_0000_0000_0000) <= a <= 0x7fff_ffff_ffff_ffff,
            -(0x8000_0000_0000_0000) <= b <= 0x7fff_ffff_ffff_ffff,
    ;
}

} // verus!
