use vstd::prelude::*;
use crate::text::{decimal_of_int, i64_to_decimal, parse_i64, spec_parse_i64, str_eq};

verus! {

/// The tagged word of the boolean `true`.
pub open spec fn true_word() -> i64 {
    3
}

/// The tagged word of the boolean `false`.
pub open spec fn false_word() -> i64 {
    1
}

/// What a tagged word prints as: a number (tag bit clear) as the decimal of
/// half the word, `3` as `true`, any other odd word as `false`.
pub open spec fn value_text(w: i64) -> Seq<char> {
    if w % 2 == 0 {
        decimal_of_int(w / 2)
    } else if w == 3 {
        "true"@
    } else {
        "false"@
    }
}

/// The text a tagged result word prints as.
pub fn format_value(result: i64) -> (s: String)
    ensures
        s@ == value_text(result),
{
    if result % 2 == 0 {
        i64_to_decimal(result / 2)
    } else if result == 3 {
        String::from_str("true")
    } else {
        String::from_str("false")
    }
}

/// Why a program input is refused.
#[derive(Clone, Copy, PartialEq, Eq, Structural, Debug)]
pub enum InputError {
    /// A number that does not fit in 63 bits.
    Overflow,
    /// Neither `true`, `false` nor a number.
    NotAValue,
}

/// The text that reports an input error.
pub open spec fn input_error_text(e: InputError) -> Seq<char> {
    match e {
        InputError::Overflow => "Invalid: number overflow"@,
        InputError::NotAValue => "Invalid input: must be 'true', 'false', or a number"@,
    }
}

impl InputError {
    /// The text that reports this error.
    pub fn message(&self) -> (m: String)
        ensures
            m@ == input_error_text(*self),
    {
        match self {
            InputError::Overflow => String::from_str("Invalid: number overflow"),
            InputError::NotAValue => String::from_str(
                "Invalid input: must be 'true', 'false', or a number",
            ),
        }
    }
}

/// The tagged word that a program input denotes.
pub open spec fn input_word(s: Seq<char>) -> Result<i64, InputError> {
    if s == "true"@ {
        Ok(3)
    } else if s == "false"@ {
        Ok(1)
    } else {
        match spec_parse_i64(s) {
            Some(n) => if crate::textgen::fits_63(n as int) {
                Ok((2 * n) as i64)
            } else {
                Err(InputError::Overflow)
            },
            None => Err(InputError::NotAValue),
        }
    }
}

/// Reads the program input from its text: `true`, `false`, or a 63-bit
/// number, as a tagged word.
pub fn parse_input(input: &str) -> (r: Result<i64, InputError>)
    ensures
        r == input_word(input@),
{
    if str_eq(input, "true") {
        Ok(3)
    } else if str_eq(input, "false") {
        Ok(1)
    } else {
        match parse_i64(input) {
            Some(n) => {
                if n < -4611686018427387904 || n > 4611686018427387903 {
                    Err(InputError::Overflow)
                } else {
                    Ok(n * 2)
                }
            },
            None => Err(InputError::NotAValue),
        }
    }
}


/// An input is printed back as it was given: a 63-bit number `n` is read as
/// the word `2 * n`, which prints as the decimal of `n`; `true` and `false`
/// are read as the words `3` and `1`, which print as `true` and `false`.
pub proof fn law_input_prints_back(n: i64)
    requires
        crate::textgen::fits_63(n as int),
    ensures
        input_word(decimal_of_int(n as int)) == Ok::<i64, InputError>((2 * n) as i64),
        value_text((2 * n) as i64) == decimal_of_int(n as int),
        input_word("true"@) == Ok::<i64, InputError>(true_word()),
        value_text(true_word()) == "true"@,
        input_word("false"@) == Ok::<i64, InputError>(false_word()),
        value_text(false_word()) == "false"@,
{
    crate::text::lemma_decimal_roundtrip(n);
    crate::text::lemma_decimal_of_nat_value(if n < 0 { (-(n as int)) as nat } else { n as nat });
    reveal_strlit("true");
    reveal_strlit("false");
    let s = decimal_of_int(n as int);
    assert(s[0] == '-' || crate::text::is_digit(s[0]));
    assert(s != "true"@);
    assert(s != "false"@);
    assert((2 * n) as i64 % 2 == 0);
    assert((2 * n) as i64 / 2 == n);
}

} // verus!
