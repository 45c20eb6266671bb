use vstd::prelude::*;

verus! {

/// A lowercase hexadecimal digit.
pub open spec fn is_hex_digit(c: char) -> bool {
    ('0' <= c && c <= '9') || ('a' <= c && c <= 'f')
}

/// The hyphenated text form of a UUID: 36 characters, hyphens at positions
/// 8, 13, 18 and 23, lowercase hexadecimal digits everywhere else.
pub open spec fn is_uuid_text(s: Seq<char>) -> bool {
    &&& s.len() == 36
    &&& forall|i: int|
        0 <= i < 36 ==> if i == 8 || i == 13 || i == 18 || i == 23 {
            #[trigger] s[i] == '-'
        } else {
            is_hex_digit(s[i])
        }
}

/// A fresh random identifier: `uuid::Uuid::new_v4()` in its hyphenated text
/// form. Which identifier comes out is left to chance; the contract states
/// only its shape, which `uuid`'s formatting code fixes for every value.
#[verifier::external_body]
pub(crate) fn new_id() -> (id: String)
    ensures
        is_uuid_text(id@),
{
    uuid::Uuid::new_v4().to_string()
}

/// The current local time, formatted `%Y-%m-%d %H:%M:%S` by
/// `chrono::Local::now().format(..)`. It depends on the clock and the time
/// zone, so nothing is stated of it.
#[verifier::external_body]
pub(crate) fn local_timestamp() -> String {
    chrono::Local::now().format("%Y-%m-%d %H:%M:%S").to_string()
}

} // verus!
