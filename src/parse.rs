//! Reading a decimal numeral into a digit vector.
use vstd::prelude::*;

verus! {

/// Why a numeral was refused.
#[derive(Debug, Clone, Copy, PartialEq, Eq, Structural)]
pub enum ParseError {
    /// The character is not an ASCII decimal digit.
    InvalidDigit(char),
}

/// Whether `c` is one of `'0'` to `'9'`.
pub open spec fn is_digit_char(c: char) -> bool {
    '0' <= c <= '9'
}

/// The value of a decimal digit character.
pub open spec fn digit_value(c: char) -> u8 {
    (c as u32 - '0' as u32) as u8
}

/// How many `'0'` characters the text starts with.
pub open spec fn leading_zeros(s: Seq<char>) -> nat
    decreases s.len(),
{
    if s.len() > 0 && s[0] == '0' {
        1 + leading_zeros(s.drop_first())
    } else {
        0
    }
}

/// The text without its leading `'0'` characters.
pub open spec fn strip_leading_zeros(s: Seq<char>) -> Seq<char> {
    s.subrange(leading_zeros(s) as int, s.len() as int)
}

/// `c` is the first character of the text that is not a digit.
pub open spec fn first_invalid(s: Seq<char>, c: char) -> bool {
    exists|i: int|
        0 <= i < s.len() && s[i] == c && !is_digit_char(c) && (forall|j: int|
            0 <= j < i ==> is_digit_char(#[trigger] s[j]))
}

/// The value of one digit character, or the character itself as the error.
pub fn to_u8(c: char) -> (res: Result<u8, ParseError>)
    ensures
        is_digit_char(c) ==> res == Ok::<u8, ParseError>(digit_value(c)),
        !is_digit_char(c) ==> res == Err::<u8, ParseError>(ParseError::InvalidDigit(c)),
{
    match c {
        '0' => Ok(0),
        '1' => Ok(1),
        '2' => Ok(2),
        '3' => Ok(3),
        '4' => Ok(4),
        '5' => Ok(5),
        '6' => Ok(6),
        '7' => Ok(7),
        '8' => Ok(8),
        '9' => Ok(9),
        _ => Err(ParseError::InvalidDigit(c)),
    }
}

/// The leading-zero count marks a run of `'0'` ended by another character or the end.
pub proof fn lemma_leading_zeros(s: Seq<char>)
    ensures
        leading_zeros(s) <= s.len(),
        forall|i: int| 0 <= i < leading_zeros(s) ==> s[i] == '0',
        leading_zeros(s) < s.len() ==> s[leading_zeros(s) as int] != '0',
    decreases s.len(),
{
    if s.len() > 0 && s[0] == '0' {
        lemma_leading_zeros(s.drop_first());
        assert forall|i: int| 0 <= i < leading_zeros(s) implies s[i] == '0' by {
            if i > 0 {
                assert(s[i] == s.drop_first()[i - 1]);
            }
        }
    }
}

/// The digits of a numeral, after its leading zeros; all zeros or no text give no digits.
pub fn parse_decimal(num: &str) -> (res: Result<Vec<u8>, ParseError>)
    ensures
        (forall|i: int| 0 <= i < num@.len() ==> is_digit_char(#[trigger] num@[i])) <==> res is Ok,
        res is Ok ==> res->Ok_0@ == strip_leading_zeros(num@).map_values(
            |c: char| digit_value(c),
        ),
        res is Err ==> first_invalid(num@, res->Err_0->InvalidDigit_0),
{
    let ghost lz = leading_zeros(num@);
    proof {
        lemma_leading_zeros(num@);
    }
    let mut digits: Vec<u8> = Vec::new();
    let mut skipping = true;
    for c in it: num.chars()
        invariant
            it.seq() == num@,
            lz == leading_zeros(num@),
            lz <= num@.len(),
            forall|i: int| 0 <= i < lz ==> num@[i] == '0',
            lz < num@.len() ==> num@[lz as int] != '0',
            skipping == (it.index() <= lz),
            forall|i: int| 0 <= i < it.index() ==> is_digit_char(#[trigger] num@[i]),
            skipping ==> digits@.len() == 0,
            !skipping ==> digits@ =~= num@.subrange(lz as int, it.index() as int).map_values(
                |c: char| digit_value(c),
            ),
    {
        if !(skipping && c == '0') {
            skipping = false;
            match to_u8(c) {
                Ok(d) => digits.push(d),
                Err(e) => {
                    assert(first_invalid(num@, c));
                    return Err(e);
                },
            }
        }
    }
    assert(strip_leading_zeros(num@) =~= num@.subrange(lz as int, num@.len() as int));
    Ok(digits)
}

} // verus!
