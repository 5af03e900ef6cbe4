use vstd::prelude::*;
use crate::timing::Elapsed;

verus! {

/// Relies on `String::push`: appends one character.
pub assume_specification[ String::push ](s: &mut String, ch: char)
    ensures
        final(s)@ == old(s)@.push(ch),
;

/// Relies on `String::push_str`: appends a string slice.
pub assume_specification[ String::push_str ](s: &mut String, string: &str)
    ensures
        final(s)@ == old(s)@ + string@,
;

/// The decimal digit `d`, for `d < 10`.
pub open spec fn digit_char(d: nat) -> char {
    seq!['0', '1', '2', '3', '4', '5', '6', '7', '8', '9'][d as int]
}

/// The decimal numeral of `v`, without leading zeros.
pub open spec fn decimal(v: nat) -> Seq<char>
    decreases v,
{
    if v < 10 {
        seq![digit_char(v)]
    } else {
        decimal(v / 10).push(digit_char(v % 10))
    }
}

/// How `{:.2?}` renders a duration of `secs` seconds and `nanos` nanoseconds.
pub uninterp spec fn duration_text(secs: nat, nanos: nat) -> Seq<char>;

/// Relies on the `Debug` impl of `std::time::Duration` at precision 2, which
/// depends on the duration alone.
#[verifier::external_body]
fn duration_debug(e: Elapsed) -> (r: String)
    requires
        e.wf(),
    ensures
        r@ == duration_text(e.secs as nat, e.nanos as nat),
{
    format!("{:.2?}", std::time::Duration::new(e.secs, e.nanos))
}

fn digit(d: u64) -> (c: char)
    requires
        d < 10,
    ensures
        c == digit_char(d as nat),
{
    match d {
        0 => '0',
        1 => '1',
        2 => '2',
        3 => '3',
        4 => '4',
        5 => '5',
        6 => '6',
        7 => '7',
        8 => '8',
        _ => '9',
    }
}

/// Appends the decimal numeral of `v` to `s`.
pub fn push_decimal(s: &mut String, v: u64)
    ensures
        final(s)@ == old(s)@ + decimal(v as nat),
    decreases v,
{
    if v >= 10 {
        push_decimal(s, v / 10);
    }
    s.push(digit(v % 10));
    proof {
        if v >= 10 {
            assert(old(s)@ + decimal(v as nat) == (old(s)@ + decimal((v / 10) as nat)).push(digit_char((v % 10) as nat)));
        } else {
            assert(old(s)@ + decimal(v as nat) == old(s)@.push(digit_char(v as nat)));
        }
    }
}

/// One line of results: multiplications, divisions and time, separated by commas.
pub fn format_results(input: (u64, u64, Elapsed)) -> (r: String)
    requires
        input.2.wf(),
    ensures
        r@ == decimal(input.0 as nat) + seq![','] + decimal(input.1 as nat) + seq![',']
            + duration_text(input.2.secs as nat, input.2.nanos as nat),
{
    let (mult_counter, div_counter, time) = input;
    let text = duration_debug(time);
    let mut r = String::new();
    push_decimal(&mut r, mult_counter);
    r.push(',');
    push_decimal(&mut r, div_counter);
    r.push(',');
    r.push_str(text.as_str());
    r
}

} // verus!
