//! Building text as character sequences: literal pieces, decimal and hexadecimal numbers.
use vstd::prelude::*;

use vstd::std_specs::iter::IteratorSpec;

verus! {

/// Appends the characters of `s` to `out`.
pub fn push_str(out: &mut Vec<char>, s: &str)
    ensures
        final(out)@ == old(out)@ + s@,
{
    broadcast use vstd::string::group_string_axioms;

    let mut it = s.chars();
    let ghost mut taken: int = 0;
    loop
        invariant
            0 <= taken <= s@.len(),
            it.obeys_prophetic_iter_laws(),
            it.remaining() == s@.skip(taken),
            out@ == old(out)@ + s@.take(taken),
        ensures
            out@ == old(out)@ + s@,
        decreases s@.len() - taken,
    {
        match it.next() {
            Some(c) => {
                proof {
                    assert(s@.skip(taken)[0] == s@[taken]);
                    assert(s@.skip(taken).drop_first() =~= s@.skip(taken + 1));
                }
                out.push(c);
                proof {
                    assert(s@.take(taken + 1) =~= s@.take(taken).push(c));
                    taken = taken + 1;
                }
            },
            None => {
                proof {
                    assert(s@.take(taken) =~= s@);
                }
                break;
            },
        }
    }
}

/// The character of digit `d` (below 16) in lower-case base 16; below 10 it is the decimal
/// digit.
pub open spec fn digit_char(d: int) -> char {
    if d < 10 {
        (48 + d) as char
    } else {
        (87 + d) as char
    }
}

/// The decimal digits of `n`, most significant first, without leading zeros.
pub open spec fn decimal(n: nat) -> Seq<char>
    decreases n,
{
    if n < 10 {
        seq![digit_char(n as int)]
    } else {
        decimal(n / 10).push(digit_char((n % 10) as int))
    }
}

/// Executable form of [`digit_char`].
pub fn digit(d: u8) -> (r: char)
    requires
        d < 16,
    ensures
        r == digit_char(d as int),
{
    if d < 10 {
        (d + 48) as char
    } else {
        (d + 87) as char
    }
}

/// Appends the decimal digits of `n` to `out`.
pub fn push_decimal(out: &mut Vec<char>, n: u64)
    ensures
        final(out)@ == old(out)@ + decimal(n as nat),
    decreases n,
{
    if n >= 10 {
        push_decimal(out, n / 10);
    }
    out.push(digit((n % 10) as u8));
    proof {
        if n < 10 {
            assert(decimal(n as nat) =~= seq![digit_char(n as int)]);
        }
    }
}

/// The string holding `chars` in order.
///
/// Collects the characters with `Iterator::collect` into a `String` (std's
/// `FromIterator<char>` for `String`), which the standard library documents as appending each
/// character in turn; the contract claims the string's characters are exactly `chars`.
#[verifier::external_body]
pub(crate) fn string_from_chars(chars: &[char]) -> (r: String)
    ensures
        r@ == chars@,
{
    chars.iter().collect()
}

} // verus!
