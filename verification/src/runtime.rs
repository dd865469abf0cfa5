use vstd::prelude::*;
use crate::text::{decimal_of_int, i64_to_decimal, parse_i64, spec_parse_i64, str_eq};

verus! {

/// The word the runtime passes to compiled code for an input text: `true`,
/// `false`, or any `i64` shifted left by one (its top bit dropped).
pub open spec fn runtime_input_word(s: Seq<char>) -> Option<u64> {
    if s == "true"@ {
        Some(3)
    } else if s == "false"@ {
        Some(1)
    } else {
        match spec_parse_i64(s) {
            Some(n) => Some(n.wrapping_shl(1) as u64),
            None => None,
        }
    }
}

/// Reads the input of a compiled program as the runtime does; `None` for a
/// text that is neither boolean nor number.
pub fn parse_input(input: &str) -> (r: Option<u64>)
    ensures
        r == runtime_input_word(input@),
{
    if str_eq(input, "true") {
        Some(3)
    } else if str_eq(input, "false") {
        Some(1)
    } else {
        match parse_i64(input) {
            Some(n) => Some(n.wrapping_shl(1) as u64),
            None => None,
        }
    }
}

/// The line the runtime's error routine writes for an error code: code 1 an
/// invalid argument, code 2 an overflow, any other code by its number.
pub open spec fn runtime_error_text(errcode: i64) -> Seq<char> {
    if errcode == 1 {
        "invalid argument"@
    } else if errcode == 2 {
        "overflow"@
    } else {
        "an error occurred "@ + decimal_of_int(errcode as int)
    }
}

/// The message the runtime's error routine writes before it ends the
/// program.
pub fn runtime_error_message(errcode: i64) -> (m: String)
    ensures
        m@ == runtime_error_text(errcode),
{
    if errcode == 1 {
        String::from_str("invalid argument")
    } else if errcode == 2 {
        String::from_str("overflow")
    } else {
        let mut m = String::from_str("an error occurred ");
        let d = i64_to_decimal(errcode);
        m.append(d.as_str());
        m
    }
}

} // verus!
