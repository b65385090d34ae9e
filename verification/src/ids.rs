//! Fresh identifiers.

use vstd::prelude::*;

verus! {

/// A lower-case hexadecimal digit.
pub open spec fn is_lower_hex(c: char) -> bool {
    ('0' <= c && c <= '9') || ('a' <= c && c <= 'f')
}

/// The text of a random (version 4) UUID in its hyphenated form:
/// 36 characters, hyphens at 8, 13, 18 and 23, lower-case hexadecimal
/// digits elsewhere, the version digit '4' at 14 and the variant digit
/// (8, 9, a or b) at 19.
pub open spec fn is_uuid_v4_text(s: Seq<char>) -> bool {
    &&& s.len() == 36
    &&& forall|i: int| 0 <= i < 36 ==> (if i == 8 || i == 13 || i == 18 || i == 23 {
        s[i] == '-'
    } else {
        is_lower_hex(s[i])
    })
    &&& s[14] == '4'
    &&& (s[19] == '8' || s[19] == '9' || s[19] == 'a' || s[19] == 'b')
}

/// A freshly generated random identifier.
///
/// Calls `uuid::Uuid::new_v4()` and renders it with `to_string`, which
/// writes the hyphenated lower-case form; `new_v4` sets the version and
/// variant bits. The rest of the identifier is random and not claimed.
#[verifier::external_body]
pub(crate) fn fresh_uuid() -> (r: String)
    ensures
        is_uuid_v4_text(r@),
{
    uuid::Uuid::new_v4().to_string()
}

} // verus!
