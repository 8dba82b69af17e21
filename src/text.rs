//! Path normalization and port-number parsing.

use vstd::prelude::*;

verus! {

/// `s` with every leading `/` removed.
pub open spec fn strip_slashes(s: Seq<char>) -> Seq<char>
    decreases s.len(),
{
    if s.len() > 0 && s[0] == '/' {
        strip_slashes(s.drop_first())
    } else {
        s
    }
}

/// A normalized path never starts with `/`.
pub proof fn lemma_stripped_has_no_leading_slash(s: Seq<char>)
    ensures
        strip_slashes(s).len() > 0 ==> strip_slashes(s)[0] != '/',
        strip_slashes(strip_slashes(s)) == strip_slashes(s),
    decreases s.len(),
{
    if s.len() > 0 && s[0] == '/' {
        lemma_stripped_has_no_leading_slash(s.drop_first());
    }
}

/// `s` with every trailing `/` removed.
pub open spec fn strip_trailing_slashes(s: Seq<char>) -> Seq<char>
    decreases s.len(),
{
    if s.len() > 0 && s.last() == '/' {
        strip_trailing_slashes(s.drop_last())
    } else {
        s
    }
}

/// The normalized form of an entry path: no leading and no trailing `/`.
pub open spec fn entry_path(s: Seq<char>) -> Seq<char> {
    strip_trailing_slashes(strip_slashes(s))
}

proof fn lemma_trailing_stripped_is_prefix(s: Seq<char>)
    ensures
        strip_trailing_slashes(s).len() <= s.len(),
        strip_trailing_slashes(s) == s.take(strip_trailing_slashes(s).len() as int),
        strip_trailing_slashes(s).len() > 0 ==> strip_trailing_slashes(s).last() != '/',
    decreases s.len(),
{
    if s.len() > 0 && s.last() == '/' {
        let rest = s.drop_last();
        lemma_trailing_stripped_is_prefix(rest);
        let n = strip_trailing_slashes(rest).len() as int;
        assert(rest.take(n) =~= s.take(n));
    } else {
        assert(s.take(s.len() as int) =~= s);
    }
}

/// A normalized entry path neither starts nor ends with `/`.
pub proof fn lemma_entry_path_has_no_outer_slash(s: Seq<char>)
    ensures
        entry_path(s).len() > 0 ==> entry_path(s)[0] != '/' && entry_path(s).last() != '/',
{
    lemma_stripped_has_no_leading_slash(s);
    lemma_trailing_stripped_is_prefix(strip_slashes(s));
}

pub open spec fn is_decimal_digit(c: char) -> bool {
    '0' <= c && c <= '9'
}

/// The value of a string of decimal digits.
pub open spec fn digits_value(d: Seq<char>) -> nat
    decreases d.len(),
{
    if d.len() == 0 {
        0
    } else {
        digits_value(d.drop_last()) * 10 + ((d.last() as int) - ('0' as int)) as nat
    }
}

/// `s` without one optional leading `+`.
pub open spec fn unsigned_digits(s: Seq<char>) -> Seq<char> {
    if s.len() > 0 && s[0] == '+' {
        s.drop_first()
    } else {
        s
    }
}

/// The `u16` that `s` writes in decimal: an optional `+`, then one or more
/// digits whose value fits in 16 bits.
pub open spec fn decimal_u16(s: Seq<char>) -> Option<u16> {
    let d = unsigned_digits(s);
    if d.len() > 0 && (forall|i: int| 0 <= i < d.len() ==> is_decimal_digit(#[trigger] d[i]))
        && digits_value(d) <= u16::MAX {
        Some(digits_value(d) as u16)
    } else {
        None
    }
}

/// Relies on `str::trim_start_matches` with a `char` pattern: it removes every
/// leading occurrence of that character and nothing else.
#[verifier::external_body]
fn trim_leading_slashes(s: &str) -> (r: &str)
    ensures
        r@ == strip_slashes(s@),
{
    s.trim_start_matches('/')
}

/// Relies on `str::trim_end_matches` with a `char` pattern: it removes every
/// trailing occurrence of that character and nothing else.
#[verifier::external_body]
fn trim_trailing_slashes(s: &str) -> (r: &str)
    ensures
        r@ == strip_trailing_slashes(s@),
{
    s.trim_end_matches('/')
}

/// Relies on `str::parse::<u16>`: it accepts an optional `+` followed by ASCII
/// decimal digits whose value fits in `u16`, and rejects everything else.
#[verifier::external_body]
fn parse_u16(s: &str) -> (r: Option<u16>)
    ensures
        r == decimal_u16(s@),
{
    s.parse::<u16>().ok()
}

/// The path with its leading slashes removed, as the route table keys it.
pub fn normalize_path(path: &str) -> (r: String)
    ensures
        r@ == strip_slashes(path@),
{
    trim_leading_slashes(path).to_owned()
}

/// The path with its leading and trailing slashes removed, as a service entry
/// carries it.
pub fn normalize_entry_path(path: &str) -> (r: String)
    ensures
        r@ == entry_path(path@),
        r@.len() > 0 ==> r@[0] != '/' && r@.last() != '/',
{
    proof {
        lemma_entry_path_has_no_outer_slash(path@);
    }
    trim_trailing_slashes(trim_leading_slashes(path)).to_owned()
}

/// The port number written in `text`, or `None` when it is not one.
pub fn parse_port(text: &str) -> (r: Option<u16>)
    ensures
        r == decimal_u16(text@),
{
    parse_u16(text)
}

} // verus!
