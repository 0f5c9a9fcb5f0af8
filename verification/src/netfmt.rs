//! Reading integers and booleans the way the saved files write them.
use crate::text::{chars_of, parse_int_chars, trim, trim_chars, CharClass};
use crate::xml::chars_equal;
use vstd::prelude::*;

verus! {

/// The value of a trimmed decimal `i32`, as `str::parse` reads it.
pub open spec fn int_value(s: Seq<char>) -> Option<int> {
    crate::text::parse_int(trim(s, CharClass::Whitespace), 10, i32::MIN as int, i32::MAX as int)
}

/// The value of a trimmed boolean: `true`, `True` or `1`, or `false`, `False` or `0`.
pub open spec fn bool_value(s: Seq<char>) -> Option<bool> {
    let t = trim(s, CharClass::Whitespace);
    if t == seq!['t', 'r', 'u', 'e'] || t == seq!['T', 'r', 'u', 'e'] || t == seq!['1'] {
        Some(true)
    } else if t == seq!['f', 'a', 'l', 's', 'e'] || t == seq!['F', 'a', 'l', 's', 'e'] || t
        == seq!['0'] {
        Some(false)
    } else {
        None
    }
}

pub fn parse_int(s: &str) -> (r: Option<i32>)
    ensures
        match r {
            Some(v) => int_value(s@) == Some(v as int),
            None => int_value(s@) is None,
        },
{
    int_from_chars(&chars_of(s))
}

/// [`parse_int`] on characters.
pub fn int_from_chars(s: &[char]) -> (r: Option<i32>)
    ensures
        match r {
            Some(v) => int_value(s@) == Some(v as int),
            None => int_value(s@) is None,
        },
{
    let t = trim_chars(s, CharClass::Whitespace);
    match parse_int_chars(&t, 10, i32::MIN as i128, i32::MAX as i128) {
        Some(v) => Some(v as i32),
        None => None,
    }
}

pub fn parse_bool(s: &str) -> (r: Option<bool>)
    ensures
        r == bool_value(s@),
{
    bool_from_chars(&chars_of(s))
}

/// [`parse_bool`] on characters.
pub fn bool_from_chars(s: &[char]) -> (r: Option<bool>)
    ensures
        r == bool_value(s@),
{
    let t = trim_chars(s, CharClass::Whitespace);
    proof {
        reveal_strlit("true");
        reveal_strlit("True");
        reveal_strlit("1");
        reveal_strlit("false");
        reveal_strlit("False");
        reveal_strlit("0");
        assert("true"@ =~= seq!['t', 'r', 'u', 'e']);
        assert("True"@ =~= seq!['T', 'r', 'u', 'e']);
        assert("1"@ =~= seq!['1']);
        assert("false"@ =~= seq!['f', 'a', 'l', 's', 'e']);
        assert("False"@ =~= seq!['F', 'a', 'l', 's', 'e']);
        assert("0"@ =~= seq!['0']);
    }
    if chars_equal(&t, &chars_of("true")) || chars_equal(&t, &chars_of("True")) || chars_equal(
        &t,
        &chars_of("1"),
    ) {
        Some(true)
    } else if chars_equal(&t, &chars_of("false")) || chars_equal(&t, &chars_of("False"))
        || chars_equal(&t, &chars_of("0")) {
        Some(false)
    } else {
        None
    }
}

} // verus!
