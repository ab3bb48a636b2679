//! Validation rules for user-supplied identifiers and passwords.

use vstd::prelude::*;
use vstd::string::StrSliceExecFns;

verus! {

/// An ASCII lower-case letter.
pub open spec fn is_ascii_lower_char(c: char) -> bool {
    97 <= c as u32 <= 122
}

/// An ASCII upper-case letter.
pub open spec fn is_ascii_upper_char(c: char) -> bool {
    65 <= c as u32 <= 90
}

/// One of the special characters a password must contain:
/// `!@#$%^&*()-_=+[]{}\|<>,./?`
pub open spec fn is_special_char(c: char) -> bool {
    let u = c as u32;
    ||| u == 33  // !
    ||| u == 64  // @
    ||| u == 35  // #
    ||| u == 36  // $
    ||| u == 37  // %
    ||| u == 94  // ^
    ||| u == 38  // &
    ||| u == 42  // *
    ||| u == 40  // (
    ||| u == 41  // )
    ||| u == 45  // -
    ||| u == 95  // _
    ||| u == 61  // =
    ||| u == 43  // +
    ||| u == 91  // [
    ||| u == 93  // ]
    ||| u == 123  // {
    ||| u == 125  // }
    ||| u == 92  // backslash
    ||| u == 124  // |
    ||| u == 60  // <
    ||| u == 62  // >
    ||| u == 44  // ,
    ||| u == 46  // .
    ||| u == 47  // /
    ||| u == 63  // ?
}

/// A character with the Unicode `White_Space` property.
pub open spec fn char_is_whitespace(c: char) -> bool {
    let u = c as u32;
    ||| 9 <= u <= 13
    ||| u == 32
    ||| u == 0x85
    ||| u == 0xa0
    ||| u == 0x1680
    ||| 0x2000 <= u <= 0x200a
    ||| u == 0x2028
    ||| u == 0x2029
    ||| u == 0x202f
    ||| u == 0x205f
    ||| u == 0x3000
}

/// Relies on char::is_whitespace: true exactly for the characters with the
/// Unicode `White_Space` property, listed in [`char_is_whitespace`].
#[verifier::external_body]
fn is_whitespace_char(c: char) -> (r: bool)
    ensures
        r == char_is_whitespace(c),
{
    c.is_whitespace()
}

/// What `char::is_alphanumeric` returns: whether the character is in one
/// of Unicode's alphabetic or numeric categories, a table far too large to
/// write out here.
pub uninterp spec fn char_is_alphanumeric(c: char) -> bool;

/// Relies on char::is_alphanumeric: the result depends on the character
/// alone.
#[verifier::external_body]
fn is_alphanumeric_char(c: char) -> (r: bool)
    ensures
        r == char_is_alphanumeric(c),
{
    c.is_alphanumeric()
}

/// A valid recipe name: every character alphanumeric or whitespace.
pub open spec fn spec_valid_recipe_name(s: &str) -> bool {
    forall|i: int|
        0 <= i < s@.len() ==> char_is_alphanumeric(#[trigger] s@[i]) || char_is_whitespace(s@[i])
}

/// Checks a recipe name: nothing but alphanumeric and whitespace
/// characters.
pub fn is_valid_recipe_name(recipe_name: &str) -> (r: bool)
    ensures
        r == spec_valid_recipe_name(recipe_name),
{
    let n = recipe_name.unicode_len();
    let mut i: usize = 0;
    while i < n
        invariant
            i <= n,
            n == recipe_name@.len(),
            forall|j: int|
                0 <= j < i ==> char_is_alphanumeric(#[trigger] recipe_name@[j])
                    || char_is_whitespace(recipe_name@[j]),
        decreases n - i,
    {
        let c = recipe_name.get_char(i);
        if !(is_alphanumeric_char(c) || is_whitespace_char(c)) {
            return false;
        }
        i += 1;
    }
    true
}

/// A valid password:
/// - 7 to 50 bytes;
/// - at least one ASCII lower-case and one ASCII upper-case letter;
/// - at least one special character;
/// - no whitespace.
pub open spec fn spec_valid_password(s: &str) -> bool {
    &&& 7 <= s.len() <= 50
    &&& (exists|i: int| 0 <= i < s@.len() && is_ascii_lower_char(#[trigger] s@[i]))
    &&& (exists|i: int| 0 <= i < s@.len() && is_ascii_upper_char(#[trigger] s@[i]))
    &&& (exists|i: int| 0 <= i < s@.len() && is_special_char(#[trigger] s@[i]))
    &&& (forall|i: int| 0 <= i < s@.len() ==> !char_is_whitespace(#[trigger] s@[i]))
}

/// A valid name of the given byte-length bounds: at least one ASCII letter.
pub open spec fn spec_valid_name(s: &str, min_len: usize, max_len: usize) -> bool {
    &&& min_len <= s.len() <= max_len
    &&& (exists|i: int|
        0 <= i < s@.len() && (is_ascii_lower_char(#[trigger] s@[i]) || is_ascii_upper_char(s@[i])))
}

fn is_special(c: char) -> (r: bool)
    ensures
        r == is_special_char(c),
{
    let u = c as u32;
    u == 33 || u == 64 || u == 35 || u == 36 || u == 37 || u == 94 || u == 38 || u == 42 || u == 40
        || u == 41 || u == 45 || u == 95 || u == 61 || u == 43 || u == 91 || u == 93 || u == 123
        || u == 125 || u == 92 || u == 124 || u == 60 || u == 62 || u == 44 || u == 46 || u == 47
        || u == 63
}

/// Checks the password rules: 7 to 50 bytes, at least one ASCII lower-case
/// letter, one ASCII upper-case letter and one special character, and no
/// whitespace anywhere.
pub fn is_valid_password(password: &str) -> (r: bool)
    ensures
        r == spec_valid_password(password),
{
    let len = password.len();
    if len < 7 || 50 < len {
        return false;
    }
    let n = password.unicode_len();
    let mut has_lower = false;
    let mut has_upper = false;
    let mut has_special = false;
    let mut has_space = false;
    let mut i: usize = 0;
    while i < n
        invariant
            i <= n,
            n == password@.len(),
            has_lower == (exists|j: int| 0 <= j < i && is_ascii_lower_char(#[trigger] password@[j])),
            has_upper == (exists|j: int| 0 <= j < i && is_ascii_upper_char(#[trigger] password@[j])),
            has_special == (exists|j: int| 0 <= j < i && is_special_char(#[trigger] password@[j])),
            has_space == (exists|j: int| 0 <= j < i && char_is_whitespace(#[trigger] password@[j])),
        decreases n - i,
    {
        let c = password.get_char(i);
        let u = c as u32;
        if 97 <= u && u <= 122 {
            has_lower = true;
        }
        if 65 <= u && u <= 90 {
            has_upper = true;
        }
        if is_special(c) {
            has_special = true;
        }
        if is_whitespace_char(c) {
            has_space = true;
        }
        i += 1;
    }
    has_lower && has_upper && has_special && !has_space
}

/// Checks a username: 3 to 25 bytes and at least one ASCII letter.
pub fn is_valid_username(username: &str) -> (r: bool)
    ensures
        r == spec_valid_name(username, 3, 25),
{
    has_letter_in_bounds(username, 3, 25)
}

/// Checks an ingredient name: 3 to 255 bytes and at least one ASCII letter.
pub fn is_valid_ingredient_name(name: &str) -> (r: bool)
    ensures
        r == spec_valid_name(name, 3, 255),
{
    has_letter_in_bounds(name, 3, 255)
}

fn has_letter_in_bounds(s: &str, min_len: usize, max_len: usize) -> (r: bool)
    ensures
        r == spec_valid_name(s, min_len, max_len),
{
    let len = s.len();
    if len < min_len || max_len < len {
        return false;
    }
    let n = s.unicode_len();
    let mut has_letter = false;
    let mut i: usize = 0;
    while i < n
        invariant
            i <= n,
            n == s@.len(),
            has_letter == (exists|j: int|
                0 <= j < i && (is_ascii_lower_char(#[trigger] s@[j]) || is_ascii_upper_char(s@[j]))),
        decreases n - i,
    {
        let c = s.get_char(i);
        let u = c as u32;
        if (97 <= u && u <= 122) || (65 <= u && u <= 90) {
            has_letter = true;
        }
        i += 1;
    }
    has_letter
}

} // verus!
