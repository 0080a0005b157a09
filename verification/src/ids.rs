//! Fresh identifiers of titles and points.
use vstd::prelude::*;

verus! {

/// A lower-case hexadecimal digit.
pub open spec fn is_lower_hex(c: char) -> bool {
    (48 <= (c as u32) <= 57) || (97 <= (c as u32) <= 102)
}

/// The hyphenated text of a UUID: 36 characters, `-` at 8, 13, 18 and 23, lower-case
/// hexadecimal digits elsewhere.
pub open spec fn is_uuid_text(s: Seq<char>) -> bool {
    &&& s.len() == 36
    &&& forall|i: int|
        0 <= i < 36 ==> if i == 8 || i == 13 || i == 18 || i == 23 {
            #[trigger] s[i] == '-'
        } else {
            is_lower_hex(s[i])
        }
}

/// uuid's `Uuid::new_v4` printed with `to_string`: a random identifier. Trusted to be in the
/// hyphenated lower-case form, as uuid's `Display` (through `LowerHex` and `format_hyphenated`)
/// writes it; which identifier comes out is left open.
#[verifier::external_body]
pub(crate) fn new_uuid_text() -> (r: String)
    ensures
        is_uuid_text(r@),
{
    uuid::Uuid::new_v4().to_string()
}

} // verus!
