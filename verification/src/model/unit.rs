//! Classification of metric units, which decides the default chart.
use vstd::prelude::*;

use crate::text::{
    chars_of, contains_chars, eq_chars, eq_ignore_ascii_case, has_substring, lower_chars,
    lower_seq, trim_chars, trimmed,
};

verus! {

pub open spec fn percent_word() -> Seq<char> {
    seq!['p', 'e', 'r', 'c', 'e', 'n', 't']
}

pub open spec fn mhz_word() -> Seq<char> {
    seq!['m', 'h', 'z']
}

pub open spec fn hz_word() -> Seq<char> {
    seq!['h', 'z']
}

/// A unit names a percentage when, trimmed, it is `%` or contains the word
/// "percent" in any ASCII case.
pub open spec fn spec_is_percent(unit: Seq<char>) -> bool {
    let t = trimmed(unit);
    t == seq!['%'] || has_substring(lower_seq(t), percent_word())
}

/// A unit names a frequency when, trimmed, it is `MHz` or `Hz` in any ASCII
/// case.
pub open spec fn spec_is_frequency(unit: Seq<char>) -> bool {
    let t = trimmed(unit);
    eq_ignore_ascii_case(t, mhz_word()) || eq_ignore_ascii_case(t, hz_word())
}

pub fn is_percent(unit: &str) -> (r: bool)
    ensures
        r == spec_is_percent(unit@),
{
    let raw = chars_of(unit);
    let t = trim_chars(&raw);
    let percent_sign: Vec<char> = vec!['%'];
    assert(percent_sign@ =~= seq!['%']);
    if eq_chars(&t, &percent_sign) {
        return true;
    }
    let lowered = lower_chars(&t);
    let word: Vec<char> = vec!['p', 'e', 'r', 'c', 'e', 'n', 't'];
    assert(word@ =~= percent_word());
    contains_chars(&lowered, &word)
}

pub fn is_frequency(unit: &str) -> (r: bool)
    ensures
        r == spec_is_frequency(unit@),
{
    let raw = chars_of(unit);
    let t = trim_chars(&raw);
    let lowered = lower_chars(&t);
    let mhz: Vec<char> = vec!['m', 'h', 'z'];
    let hz: Vec<char> = vec!['h', 'z'];
    proof {
        assert(mhz@ =~= mhz_word());
        assert(hz@ =~= hz_word());
        assert(lower_seq(mhz_word()) =~= mhz_word());
        assert(lower_seq(hz_word()) =~= hz_word());
    }
    eq_chars(&lowered, &mhz) || eq_chars(&lowered, &hz)
}

} // verus!
