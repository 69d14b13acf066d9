//! Reading the current value out of a store's error text: the search for the
//! pattern is the `regex` crate's, the reading of the digits is done here.

use vstd::prelude::*;

verus! {

/// The error of the `regex` crate for a pattern that it cannot compile.
#[verifier::external_type_specification]
#[verifier::external_body]
pub struct ExRegexError(regex::Error);

/// What the group named `group` holds in the leftmost match of the regular
/// expression `pattern` in `text`, as the `regex` crate finds it: `None`
/// where `pattern` matches nowhere in `text`, has no group of that name, or
/// the group took no part in the match.
pub uninterp spec fn named_capture(pattern: Seq<char>, text: Seq<char>, group: Seq<char>) -> Option<
    Seq<char>,
>;

/// Compiles `pattern` with `regex::Regex::new`, searches `text` with
/// `Regex::captures` and reads the group `group` with `Captures::name` and
/// `Match::as_str`.
///
/// Trusted: where the pattern compiles, the result is what [`named_capture`]
/// names. Nothing is claimed of when a pattern compiles.
#[verifier::external_body]
pub(crate) fn capture(pattern: &str, text: &str, group: &str) -> (r: Result<
    Option<String>,
    regex::Error,
>)
    ensures
        r matches Ok(found) ==> match found {
            Some(s) => named_capture(pattern@, text@, group@) == Some(s@),
            None => named_capture(pattern@, text@, group@) is None,
        },
{
    let re = regex::Regex::new(pattern)?;
    match re.captures(text) {
        Some(caps) => match caps.name(group) {
            Some(m) => Ok(Some(m.as_str().to_string())),
            None => Ok(None),
        },
        None => Ok(None),
    }
}

/// The value of a decimal digit.
pub open spec fn digit(c: char) -> Option<nat> {
    if '0' <= c <= '9' {
        Some((c as nat - '0' as nat) as nat)
    } else {
        None
    }
}

/// The number that a non-empty string of the digits `0` to `9` writes in
/// base ten; `None` for every other string.
pub open spec fn decimal(s: Seq<char>) -> Option<nat>
    decreases s.len(),
{
    if s.len() == 0 {
        None
    } else if s.len() == 1 {
        digit(s[0])
    } else {
        match (decimal(s.drop_last()), digit(s.last())) {
            (Some(high), Some(low)) => Some(10 * high + low),
            _ => None,
        }
    }
}

/// What [`parse_decimal`] returns for `s`: its number, if it writes one that
/// fits in `usize`.
pub open spec fn decimal_usize(s: Seq<char>) -> Option<usize> {
    match decimal(s) {
        Some(n) => if n <= usize::MAX {
            Some(n as usize)
        } else {
            None
        },
        None => None,
    }
}

/// A string that writes a number has only prefixes that write numbers, none
/// of them larger.
pub proof fn lemma_decimal_prefix(s: Seq<char>, n: int)
    requires
        decimal(s) is Some,
        1 <= n <= s.len(),
    ensures
        decimal(s.take(n)) is Some,
        decimal(s.take(n))->Some_0 <= decimal(s)->Some_0,
        digit(s[n - 1]) is Some,
    decreases s.len(),
{
    if n == s.len() {
        assert(s.take(n) =~= s);
        if s.len() > 1 {
            assert(digit(s.last()) is Some);
        }
    } else {
        assert(s.drop_last().take(n) =~= s.take(n));
        lemma_decimal_prefix(s.drop_last(), n);
    }
}

/// Reads a number written in decimal digits.
pub fn parse_decimal(s: &str) -> (r: Option<usize>)
    ensures
        r == decimal_usize(s@),
{
    let n = s.unicode_len();
    if n == 0 {
        return None;
    }
    let mut acc: usize = 0;
    let mut i: usize = 0;
    while i < n
        invariant
            n == s@.len(),
            i <= n,
            i > 0 ==> decimal(s@.take(i as int)) == Some(acc as nat),
            i == 0 ==> acc == 0,
        decreases n - i,
    {
        let c = s.get_char(i);
        if c < '0' || c > '9' {
            proof {
                if decimal(s@) is Some {
                    lemma_decimal_prefix(s@, i + 1);
                }
            }
            return None;
        }
        let d: usize = (c as u32 - '0' as u32) as usize;
        proof {
            let p = s@.take(i + 1);
            assert(p.drop_last() =~= s@.take(i as int));
            assert(p.last() == c);
            assert(digit(c) == Some(d as nat));
            assert(decimal(p) == Some((10 * acc + d) as nat));
            if decimal(s@) is Some {
                lemma_decimal_prefix(s@, i + 1);
            }
        }
        if acc > (usize::MAX - d) / 10 {
            return None;
        }
        acc = acc * 10 + d;
        i = i + 1;
    }
    assert(s@.take(n as int) =~= s@);
    Some(acc)
}

} // verus!
