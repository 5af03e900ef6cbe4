use vstd::prelude::*;
use vstd::arithmetic::power2::pow2;
use num_bigint::BigUint;
use num_integer::Integer;

verus! {

/// The value of a little-endian sequence of base-2^32 digits.
pub open spec fn digits_value(d: Seq<u32>) -> nat
    decreases d.len(),
{
    if d.len() == 0 {
        0
    } else {
        d[0] as nat + 0x1_0000_0000 * digits_value(d.drop_first())
    }
}

/// An unbounded natural number, held as base-2^32 digits, least significant first.
/// Its arithmetic is carried out by `num_bigint::BigUint`.
#[derive(Debug)]
pub struct Natural {
    pub digits: Vec<u32>,
}

impl View for Natural {
    type V = nat;

    open spec fn view(&self) -> nat {
        digits_value(self.digits@)
    }
}

impl Natural {
    /// The natural number whose base-2^32 digits, least significant first, are `digits`.
    pub fn from_digits(digits: Vec<u32>) -> (r: Natural)
        ensures
            r@ == digits_value(digits@),
    {
        Natural { digits }
    }

    /// The natural number `v`.
    pub fn from_u64(v: u64) -> (r: Natural)
        ensures
            r@ == v,
    {
        let lo: u32 = (v % 0x1_0000_0000) as u32;
        let hi: u32 = (v / 0x1_0000_0000) as u32;
        let digits = vec![lo, hi];
        proof {
            let d = digits@;
            assert(d.drop_first().drop_first().len() == 0);
            assert(digits_value(d.drop_first().drop_first()) == 0);
            assert(digits_value(d.drop_first()) == hi as nat);
            assert(v == lo + 0x1_0000_0000 * hi) by (nonlinear_arith)
                requires
                    lo == v % 0x1_0000_0000,
                    hi == v / 0x1_0000_0000,
            ;
        }
        Natural { digits }
    }

    /// A copy of this number.
    pub fn duplicate(&self) -> (r: Natural)
        ensures
            r@ == self@,
    {
        let mut digits: Vec<u32> = Vec::new();
        let mut k: usize = 0;
        while k < self.digits.len()
            invariant
                k <= self.digits@.len(),
                digits@ == self.digits@.subrange(0, k as int),
            decreases self.digits@.len() - k,
        {
            digits.push(self.digits[k]);
            k = k + 1;
        }
        assert(digits@ == self.digits@);
        Natural { digits }
    }

    /// Relies on `num_integer::Integer::is_even` for `BigUint`.
    #[verifier::external_body]
    pub(crate) fn is_even(&self) -> (r: bool)
        ensures
            r == (self@ % 2 == 0),
    {
        BigUint::new(self.digits.clone()).is_even()
    }

    /// Relies on `num_integer::Integer::is_odd` for `BigUint`.
    #[verifier::external_body]
    pub(crate) fn is_odd(&self) -> (r: bool)
        ensures
            r == (self@ % 2 == 1),
    {
        BigUint::new(self.digits.clone()).is_odd()
    }

    /// Relies on `PartialEq` for `BigUint`: equality of values.
    #[verifier::external_body]
    pub(crate) fn equals(&self, other: &Natural) -> (r: bool)
        ensures
            r == (self@ == other@),
    {
        BigUint::new(self.digits.clone()) == BigUint::new(other.digits.clone())
    }

    /// Relies on `PartialOrd` for `BigUint`: order of values.
    #[verifier::external_body]
    pub(crate) fn less_than(&self, other: &Natural) -> (r: bool)
        ensures
            r == (self@ < other@),
    {
        BigUint::new(self.digits.clone()) < BigUint::new(other.digits.clone())
    }

    /// Relies on `Add` for `&BigUint`.
    #[verifier::external_body]
    pub(crate) fn sum(&self, other: &Natural) -> (r: Natural)
        ensures
            r@ == self@ + other@,
    {
        let r = &BigUint::new(self.digits.clone()) + &BigUint::new(other.digits.clone());
        Natural { digits: r.to_u32_digits() }
    }

    /// Relies on `Mul` for `&BigUint`.
    #[verifier::external_body]
    pub(crate) fn product(&self, other: &Natural) -> (r: Natural)
        ensures
            r@ == self@ * other@,
    {
        let r = &BigUint::new(self.digits.clone()) * &BigUint::new(other.digits.clone());
        Natural { digits: r.to_u32_digits() }
    }

    /// Relies on `Div` for `&BigUint`: truncating division, which panics on a zero divisor.
    #[verifier::external_body]
    pub(crate) fn quotient(&self, other: &Natural) -> (r: Natural)
        requires
            other@ > 0,
        ensures
            r@ == self@ / other@,
    {
        let r = &BigUint::new(self.digits.clone()) / &BigUint::new(other.digits.clone());
        Natural { digits: r.to_u32_digits() }
    }

    /// Relies on `Shl<usize>` for `&BigUint`: multiplication by a power of two.
    #[verifier::external_body]
    pub(crate) fn shl(&self, bits: usize) -> (r: Natural)
        ensures
            r@ == self@ * pow2(bits as nat),
    {
        let r = &BigUint::new(self.digits.clone()) << bits;
        Natural { digits: r.to_u32_digits() }
    }

    /// Relies on `Shr<u64>` for `&BigUint`: division by a power of two, rounding down.
    #[verifier::external_body]
    pub(crate) fn shr(&self, bits: u64) -> (r: Natural)
        ensures
            r@ == self@ / pow2(bits as nat),
    {
        let r = &BigUint::new(self.digits.clone()) >> bits;
        Natural { digits: r.to_u32_digits() }
    }

    /// Relies on `BigUint::trailing_zeros`: `None` for zero, else the number of
    /// low-order zero bits.
    #[verifier::external_body]
    pub(crate) fn trailing_zeros(&self) -> (r: Option<u64>)
        ensures
            r is None <==> self@ == 0,
            r matches Some(z) ==> self@ % pow2(z as nat) == 0 && (self@ / pow2(z as nat)) % 2 == 1,
    {
        BigUint::new(self.digits.clone()).trailing_zeros()
    }
}

} // verus!
