//! Decimal rendering of image sequence numbers.
//!
//! Stored images are named by their sequence number alone, so the store
//! needs the usual base-ten numeral of a `u32` as a string.

use vstd::prelude::*;

verus! {

/// The digit character for `d` (`d < 10`).
pub open spec fn spec_digit_char(d: nat) -> char
    recommends
        d < 10,
{
    ((48 + d) as u8) as char
}

/// The decimal numeral of `n`, most significant digit first, no leading
/// zeros (a single `'0'` for zero).
pub open spec fn spec_decimal(n: nat) -> Seq<char>
    decreases n,
{
    if n < 10 {
        seq![spec_digit_char(n)]
    } else {
        spec_decimal(n / 10).push(spec_digit_char(n % 10))
    }
}

/// Relies on String::push: appends the given character to the end of the
/// string.
#[verifier::external_body]
pub(crate) fn push_char(s: &mut String, c: char)
    ensures
        final(s)@ == old(s)@.push(c),
{
    s.push(c);
}

/// Renders `n` in decimal, exactly as `format!("{n}")` would.
pub fn u32_to_decimal(n: u32) -> (r: String)
    ensures
        r@ == spec_decimal(n as nat),
    decreases n,
{
    if n < 10 {
        let mut s = String::new();
        push_char(&mut s, (48 + (n % 10) as u8) as char);
        proof {
            assert(s@ =~= seq![spec_digit_char(n as nat)]);
        }
        s
    } else {
        let mut s = u32_to_decimal(n / 10);
        push_char(&mut s, (48 + (n % 10) as u8) as char);
        proof {
            assert(s@ =~= spec_decimal(n as nat));
        }
        s
    }
}

} // verus!
