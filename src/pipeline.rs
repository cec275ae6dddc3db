//! From a numeral to the text of its grouped-bit dump.
use vstd::prelude::*;
use crate::binary::{bits_of, decimal_vec_to_binary_vec};
use crate::decimal::decimal_value;
use crate::dump::{dump_bytes, dump_text};
use crate::grouping::{bits_to_bytes, byte_groups};
use crate::parse::{
    digit_value, first_invalid, is_digit_char, parse_decimal, strip_leading_zeros, ParseError,
};

verus! {

/// The digits of a numeral after its leading zeros.
pub open spec fn numeral_digits(num: Seq<char>) -> Seq<u8> {
    strip_leading_zeros(num).map_values(|c: char| digit_value(c))
}

/// What the program prints for a valid numeral: `0` for zero, else the dump of its bits.
pub open spec fn output_text(num: Seq<char>) -> Seq<char> {
    let digits = numeral_digits(num);
    if digits.len() == 0 {
        "0\n"@
    } else {
        dump_text(byte_groups(bits_of(decimal_value(digits))))
    }
}

/// The full output for a numeral, or the first character that is not a digit.
pub fn render(num: &str) -> (res: Result<String, ParseError>)
    ensures
        (forall|i: int| 0 <= i < num@.len() ==> is_digit_char(#[trigger] num@[i])) <==> res is Ok,
        res is Ok ==> res->Ok_0@ == output_text(num@),
        res is Err ==> first_invalid(num@, res->Err_0->InvalidDigit_0),
{
    let digits = match parse_decimal(num) {
        Ok(d) => d,
        Err(e) => return Err(e),
    };
    if digits.len() == 0 {
        return Ok(String::from_str("0\n"));
    }
    proof {
        crate::parse::lemma_leading_zeros(num@);
        assert forall|i: int| 0 <= i < digits@.len() implies digits@[i] <= 9 by {
            assert(is_digit_char(strip_leading_zeros(num@)[i]));
        }
    }
    let bits = decimal_vec_to_binary_vec(digits.as_slice());
    let bytes = bits_to_bytes(bits.as_slice());
    Ok(dump_bytes(bytes.as_slice()))
}

} // verus!
