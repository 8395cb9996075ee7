//! Numbers: IEEE-754 doubles carried as bit patterns.
//!
//! The value tree stores a number as the 64 bits of a double. Equality of
//! numbers is decided here in verified code, straight from the bit layout.
//! Arithmetic, reading a literal and printing are performed by the software
//! float implementation of `rustc_apfloat`, behind trusted wrappers; their
//! results are named by uninterpreted functions, since writing out IEEE-754
//! rounding here would state nothing that anyone could check against the
//! outside crate.

use rustc_apfloat::Float;
use vstd::prelude::*;

verus! {

/// The bit pattern of 0.0, the identity of addition.
pub const NUM_ZERO: u64 = 0;

/// The bit pattern of 1.0, the identity of multiplication.
pub const NUM_ONE: u64 = 0x3FF0_0000_0000_0000;

/// The bits encode a NaN: exponent all ones, significand not zero.
pub open spec fn is_nan_bits(b: u64) -> bool {
    &&& (b >> 52) & 0x7FF == 0x7FF
    &&& b & 0xF_FFFF_FFFF_FFFF != 0
}

/// The bits encode an infinity: exponent all ones, significand zero.
pub open spec fn is_inf_bits(b: u64) -> bool {
    &&& (b >> 52) & 0x7FF == 0x7FF
    &&& b & 0xF_FFFF_FFFF_FFFF == 0
}

/// The bits encode a zero of either sign.
pub open spec fn is_zero_bits(b: u64) -> bool {
    b & 0x7FFF_FFFF_FFFF_FFFF == 0
}

/// IEEE-754 equality on bit patterns: no NaN equals anything, the two
/// zeroes are equal, and any other pair is equal exactly when the bits are.
pub open spec fn num_eq_bits(a: u64, b: u64) -> bool {
    &&& !is_nan_bits(a)
    &&& !is_nan_bits(b)
    &&& (a == b || (is_zero_bits(a) && is_zero_bits(b)))
}

/// Decides `num_eq_bits` on the bit layout alone.
pub fn num_eq(a: u64, b: u64) -> (r: bool)
    ensures
        r == num_eq_bits(a, b),
{
    let a_nan = (a >> 52) & 0x7FF == 0x7FF && a & 0xF_FFFF_FFFF_FFFF != 0;
    let b_nan = (b >> 52) & 0x7FF == 0x7FF && b & 0xF_FFFF_FFFF_FFFF != 0;
    let both_zero = a & 0x7FFF_FFFF_FFFF_FFFF == 0 && b & 0x7FFF_FFFF_FFFF_FFFF == 0;
    !a_nan && !b_nan && (a == b || both_zero)
}

/// The bits of the IEEE-754 sum of two doubles, rounded to nearest even.
pub uninterp spec fn add_bits(a: u64, b: u64) -> u64;

/// The bits of the IEEE-754 difference of two doubles.
pub uninterp spec fn sub_bits(a: u64, b: u64) -> u64;

/// The bits of the IEEE-754 product of two doubles.
pub uninterp spec fn mul_bits(a: u64, b: u64) -> u64;

/// The bits of the IEEE-754 quotient of two doubles.
pub uninterp spec fn div_bits(a: u64, b: u64) -> u64;

/// What reading a numeric literal yields: the bits of the correctly rounded
/// double, or nothing where the text is no numeric literal.
pub uninterp spec fn bits_of_text(s: Seq<char>) -> Option<u64>;

/// The decimal text that a double's bits print as.
pub uninterp spec fn text_of_bits(b: u64) -> Seq<char>;

/// A character that printed numbers are made of: digits, sign, point,
/// exponent marker, and the letters of `Inf` and `NaN`.
pub open spec fn numeric_text_char(c: char) -> bool {
    ||| c == '0' ||| c == '1' ||| c == '2' ||| c == '3' ||| c == '4'
    ||| c == '5' ||| c == '6' ||| c == '7' ||| c == '8' ||| c == '9'
    ||| c == '.' ||| c == '-' ||| c == '+' ||| c == 'E' ||| c == 'I'
    ||| c == 'n' ||| c == 'f' ||| c == 'N' ||| c == 'a'
}

/// Relies on rustc_apfloat's `ieee::Double` addition: software IEEE-754
/// binary64 addition, round to nearest even, a function of the two bit
/// patterns alone.
#[verifier::external_body]
pub fn num_add(a: u64, b: u64) -> (r: u64)
    ensures
        r == add_bits(a, b),
{
    let x = rustc_apfloat::ieee::Double::from_bits(a as u128);
    let y = rustc_apfloat::ieee::Double::from_bits(b as u128);
    (x + y).value.to_bits() as u64
}

/// Relies on rustc_apfloat's `ieee::Double` subtraction, as `num_add`.
#[verifier::external_body]
pub fn num_sub(a: u64, b: u64) -> (r: u64)
    ensures
        r == sub_bits(a, b),
{
    let x = rustc_apfloat::ieee::Double::from_bits(a as u128);
    let y = rustc_apfloat::ieee::Double::from_bits(b as u128);
    (x - y).value.to_bits() as u64
}

/// Relies on rustc_apfloat's `ieee::Double` multiplication, as `num_add`.
#[verifier::external_body]
pub fn num_mul(a: u64, b: u64) -> (r: u64)
    ensures
        r == mul_bits(a, b),
{
    let x = rustc_apfloat::ieee::Double::from_bits(a as u128);
    let y = rustc_apfloat::ieee::Double::from_bits(b as u128);
    (x * y).value.to_bits() as u64
}

/// Relies on rustc_apfloat's `ieee::Double` division, as `num_add`; division
/// by zero yields the IEEE infinity or NaN, never a failure.
#[verifier::external_body]
pub fn num_div(a: u64, b: u64) -> (r: u64)
    ensures
        r == div_bits(a, b),
{
    let x = rustc_apfloat::ieee::Double::from_bits(a as u128);
    let y = rustc_apfloat::ieee::Double::from_bits(b as u128);
    (x / y).value.to_bits() as u64
}

/// Relies on rustc_apfloat's `ieee::Double::from_str`: a correctly rounded
/// read of a decimal or hexadecimal float literal, depending on the
/// characters alone; it fails exactly where the text is no literal.
#[verifier::external_body]
pub fn num_parse(s: &String) -> (r: Option<u64>)
    ensures
        r == bits_of_text(s@),
{
    match s.as_str().parse::<rustc_apfloat::ieee::Double>() {
        Ok(d) => Some(d.to_bits() as u64),
        Err(_) => None,
    }
}

/// Everything `num_text`'s contract states of one number's printed text:
/// never empty, made of `numeric_text_char`s, not ending in a point,
/// reading back to the same bits, spelled `+Inf`/`-Inf` for the infinities,
/// and shaped as a decimal literal for every other non-NaN value. A caller
/// of `num_text` holds all of this of the bits it printed.
pub open spec fn num_text_ok(b: u64) -> bool {
    &&& text_of_bits(b).len() > 0
    &&& (forall|i: int| 0 <= i < text_of_bits(b).len() ==> numeric_text_char(
        text_of_bits(b)[i],
    ))
    &&& text_of_bits(b)[text_of_bits(b).len() - 1] != '.'
    &&& bits_of_text(text_of_bits(b)) == Some(b)
    &&& (is_inf_bits(b) ==> text_of_bits(b) == if b >> 63 == 1 {
        "-Inf"@
    } else {
        "+Inf"@
    })
    &&& (!is_nan_bits(b) && !is_inf_bits(b) ==> crate::lexer::number_text(text_of_bits(b)))
}

/// Relies on rustc_apfloat's `ieee::Double` Display: a decimal form with
/// enough digits that reading it back yields the same bits (17 significant
/// digits for a double), trailing zeros trimmed, a function of the bits
/// alone. The text is never empty, is made of `numeric_text_char`s, and
/// does not end in a point; reading it back recovers the bits except for
/// NaN, which prints as the bare `NaN`. An infinity prints exactly as
/// `+Inf` or `-Inf` by its sign, and any other non-NaN value prints in the
/// shape of a decimal literal: sign, digits with an optional point, and an
/// optional `E` exponent part.
#[verifier::external_body]
pub fn num_text(b: u64) -> (r: Vec<char>)
    ensures
        r@ == text_of_bits(b),
        r@.len() > 0,
        forall|i: int| 0 <= i < r@.len() ==> numeric_text_char(r@[i]),
        r@[r@.len() - 1] != '.',
        !is_nan_bits(b) ==> bits_of_text(r@) == Some(b),
        is_inf_bits(b) ==> r@ == (if b >> 63 == 1 {
            "-Inf"@
        } else {
            "+Inf"@
        }),
        !is_nan_bits(b) && !is_inf_bits(b) ==> crate::lexer::number_text(r@),
{
    format!("{}", rustc_apfloat::ieee::Double::from_bits(b as u128)).chars().collect()
}

/// Relies on `String::from_iter`: the string of exactly these characters.
#[verifier::external_body]
pub(crate) fn chars_to_string(v: &Vec<char>) -> (r: String)
    ensures
        r@ == v@,
{
    v.iter().collect()
}

} // verus!
