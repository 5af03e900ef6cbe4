use vstd::prelude::*;
use vstd::arithmetic::power2::pow2;
use vstd::utf8::encode_utf8;
use num_bigint::BigUint;
use num_format::{Locale, ToFormattedString};
use crate::natural::Natural;
use crate::report::decimal;

verus! {

/// The decimal numeral of `v` grouped by thousands as the French locale writes it.
pub uninterp spec fn grouped_fr(v: nat) -> Seq<char>;

/// Relies on `num_format::ToFormattedString` for `BigUint` with `Locale::fr`: the
/// text depends on the value alone.
#[verifier::external_body]
fn french_grouped(n: &Natural) -> (r: String)
    ensures
        r@ == grouped_fr(n@),
{
    BigUint::new(n.digits.clone()).to_formatted_string(&Locale::fr)
}

/// Relies on `BigUint::to_str_radix` in base 10: the decimal numeral, one char per digit.
#[verifier::external_body]
fn decimal_chars(n: &Natural) -> (r: Vec<char>)
    ensures
        r@ == decimal(n@),
{
    BigUint::new(n.digits.clone()).to_str_radix(10).chars().collect()
}

/// The number of decimal digits kept when a number is cropped for display.
pub open spec fn tail_start(len: nat, size: nat) -> int {
    if len >= size {
        len - size
    } else {
        0
    }
}

/// How `crop_biguint` renders `v` in about `size` characters: a fixed notice above
/// 2^250000; below 2^169 the grouped French form when it takes fewer than `size`
/// bytes; otherwise ".." and the last `size` decimal digits.
pub open spec fn cropped(v: nat, size: usize) -> Seq<char> {
    if v > pow2(250000) {
        "Too big... representation would take some time we don't have..."@
    } else if v < pow2(169) && (encode_utf8(grouped_fr(v)).len() as usize) < size {
        grouped_fr(v)
    } else {
        seq!['.', '.'] + decimal(v).subrange(tail_start(decimal(v).len(), size as nat), decimal(v).len() as int)
    }
}

/// A short rendering of `n` for display.
pub fn crop_biguint(n: &Natural, size: usize) -> (r: String)
    ensures
        r@ == cropped(n@, size),
{
    let one = Natural::from_u64(1);
    if one.shl(250000).less_than(n) {
        let mut r = String::new();
        r.push_str("Too big... representation would take some time we don't have...");
        return r;
    }
    if n.less_than(&one.shl(169)) {
        let s = french_grouped(n);
        if s.as_str().len() < size {
            return s;
        }
    }
    let digits = decimal_chars(n);
    let pos: usize = if digits.len() >= size { digits.len() - size } else { 0 };
    let mut r = String::new();
    r.push('.');
    r.push('.');
    let mut k: usize = pos;
    while k < digits.len()
        invariant
            pos <= k <= digits@.len(),
            r@ == seq!['.', '.'] + digits@.subrange(pos as int, k as int),
        decreases digits@.len() - k,
    {
        r.push(digits[k]);
        proof {
            assert(digits@.subrange(pos as int, k + 1) == digits@.subrange(pos as int, k as int).push(digits@[k as int]));
        }
        k = k + 1;
    }
    r
}

} // verus!
