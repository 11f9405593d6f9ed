//! Small string helpers: conversion between `String`/`&str` and character
//! vectors, and decimal rendering of counters for notification texts.

use vstd::prelude::*;
use vstd::string::StrSliceExecFns;

verus! {

/// View of a vector of character vectors as a sequence of character
/// sequences.
pub open spec fn charvecs_view(s: Seq<Vec<char>>) -> Seq<Seq<char>> {
    s.map_values(|v: Vec<char>| v@)
}

/// The characters of a string slice, in order.
pub fn str_to_chars(s: &str) -> (r: Vec<char>)
    ensures
        r@ == s@,
{
    let n = s.unicode_len();
    let mut v: Vec<char> = Vec::new();
    let mut i: usize = 0;
    while i < n
        invariant
            0 <= i <= n,
            n == s@.len(),
            v@ == s@.take(i as int),
        decreases n - i,
    {
        v.push(s.get_char(i));
        proof {
            assert(v@ =~= s@.take(i + 1));
        }
        i += 1;
    }
    proof {
        assert(v@ =~= s@);
    }
    v
}

/// Relies on `String`'s `FromIterator` implementation: collecting characters
/// yields the string of exactly those characters in order.
#[verifier::external_body]
pub fn chars_to_string(v: &Vec<char>) -> (r: String)
    ensures
        r@ == v@,
{
    v.iter().collect()
}

/// The decimal digits of `n`, most significant first.
pub open spec fn dec_digits(n: nat) -> Seq<char>
    decreases n,
{
    if n < 10 {
        seq![(48 + n) as char]
    } else {
        dec_digits(n / 10).push((48 + n % 10) as char)
    }
}

/// Decimal rendering of a counter.
pub fn format_usize(n: usize) -> (r: Vec<char>)
    ensures
        r@ == dec_digits(n as nat),
    decreases n,
{
    if n < 10 {
        let c = ((48 + (n as u32)) as u8) as char;
        let mut v: Vec<char> = Vec::new();
        v.push(c);
        proof {
            assert(v@ =~= seq![(48 + n) as char]);
        }
        v
    } else {
        let mut v = format_usize(n / 10);
        let d = n % 10;
        let c = ((48 + (d as u32)) as u8) as char;
        v.push(c);
        proof {
            assert((n / 10) as nat == (n as nat) / 10);
            assert(v@ =~= dec_digits((n as nat) / 10).push((48 + (n as nat) % 10) as char));
            assert(v@ =~= dec_digits(n as nat));
        }
        v
    }
}

/// Append the characters of `s` to `out`.
pub fn extend_chars(out: &mut Vec<char>, s: &Vec<char>)
    ensures
        final(out)@ == old(out)@ + s@,
{
    let mut i: usize = 0;
    while i < s.len()
        invariant
            0 <= i <= s@.len(),
            out@ == old(out)@ + s@.take(i as int),
        decreases s@.len() - i,
    {
        out.push(s[i]);
        proof {
            assert(out@ =~= old(out)@ + s@.take(i + 1));
        }
        i += 1;
    }
    proof {
        assert(out@ =~= old(out)@ + s@);
    }
}

/// Append the characters of the string slice `s` to `out`.
pub fn extend_str(out: &mut Vec<char>, s: &str)
    ensures
        final(out)@ == old(out)@ + s@,
{
    let cs = str_to_chars(s);
    extend_chars(out, &cs);
}

} // verus!
