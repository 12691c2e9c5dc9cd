//! The crate's trusted boundary: building a `String` from computed
//! characters, and drawing a fresh random secret token.

use vstd::prelude::*;

use crate::digits::is_dec_digit;

verus! {

/// Relies on `Iterator::collect` for `String`: the collected string holds
/// exactly the characters of `v`, in order.
#[verifier::external_body]
pub fn chars_to_string(v: &Vec<char>) -> (r: String)
    ensures
        r@ == v@,
{
    v.iter().collect()
}

/// A lower-case hexadecimal digit.
pub open spec fn is_lower_hex(c: char) -> bool {
    is_dec_digit(c) || ('a' <= c && c <= 'f')
}

/// The hyphenated lower-case canonical text of a 128-bit identifier:
/// 36 characters, hyphens at positions 8, 13, 18 and 23, lower-case
/// hexadecimal digits everywhere else.
pub open spec fn is_uuid_text(s: Seq<char>) -> bool {
    &&& s.len() == 36
    &&& forall|i: int|
        0 <= i < 36 ==> (if i == 8 || i == 13 || i == 18 || i == 23 {
            s[i] == '-'
        } else {
            is_lower_hex(#[trigger] s[i])
        })
}

/// Relies on `uuid::Uuid::new_v4` and the `Display` form of `uuid::Uuid`:
/// a fresh random 128-bit identifier, printed in the hyphenated
/// lower-case canonical form.  Nothing is assumed of which identifier
/// comes back, only of its textual shape.
#[verifier::external_body]
pub fn fresh_secret() -> (r: String)
    ensures
        is_uuid_text(r@),
{
    uuid::Uuid::new_v4().to_string()
}

} // verus!
