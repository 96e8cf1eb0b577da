//! Node and image identifiers.
//!
//! An identifier is the 128-bit value of a UUID, most significant byte
//! first (`uuid::Uuid::as_u128`). Generating, printing and parsing them is
//! done by the `uuid` crate.
use vstd::prelude::*;
use vstd::arithmetic::power::pow;

verus! {

/// The `i`-th hexadecimal digit of `id`, counted from the most significant one.
pub open spec fn uuid_nibble(id: u128, i: int) -> int {
    (id as int / pow(16, (31 - i) as nat)) % 16
}

/// The lower-case hexadecimal character for a digit below 16.
pub open spec fn hex_char(d: int) -> char {
    if d < 10 {
        (('0' as int) + d) as char
    } else {
        (('a' as int) + d - 10) as char
    }
}

/// The 32 lower-case hexadecimal digits of `id`.
pub open spec fn uuid_simple(id: u128) -> Seq<char> {
    Seq::new(32, |i: int| hex_char(uuid_nibble(id, i)))
}

/// The hyphenated text of `id`: groups of 8, 4, 4, 4 and 12 digits
/// separated by `-`, as `Display` for `uuid::Uuid` writes it.
pub open spec fn uuid_hyphenated(id: u128) -> Seq<char> {
    let s = uuid_simple(id);
    s.subrange(0, 8) + seq!['-'] + s.subrange(8, 12) + seq!['-'] + s.subrange(12, 16) + seq!['-']
        + s.subrange(16, 20) + seq!['-'] + s.subrange(20, 32)
}

/// What `uuid::Uuid::parse_str` yields for a text, as a 128-bit value.
pub uninterp spec fn uuid_parse(text: Seq<char>) -> Option<u128>;

/// Parses a UUID with `uuid::Uuid::parse_str`, which accepts the simple,
/// hyphenated, braced and URN forms. Claimed: the result is the named
/// function of the text, and the hyphenated text of a value parses back to
/// that value (the parser reads the 32 digits between the hyphens).
#[verifier::external_body]
pub(crate) fn parse_uuid(text: &str) -> (res: Option<u128>)
    ensures
        res == uuid_parse(text@),
        forall|id: u128| text@ == uuid_hyphenated(id) ==> res == Some(id),
{
    uuid::Uuid::parse_str(text).ok().map(|u| u.as_u128())
}

/// Writes an identifier with `Display` for `uuid::Uuid::from_u128(id)`.
/// Claimed: the text is the hyphenated lower-case form.
#[verifier::external_body]
pub(crate) fn format_uuid(id: u128) -> (res: String)
    ensures
        res@ == uuid_hyphenated(id),
{
    uuid::Uuid::from_u128(id).to_string()
}

/// A fresh random identifier from `uuid::Uuid::new_v4`. Claimed: only the
/// version digit, which is 4, and the variant digit, which is 8, 9, `a` or
/// `b`; the rest is random.
#[verifier::external_body]
pub(crate) fn new_uuid() -> (res: u128)
    ensures
        uuid_nibble(res, 12) == 4,
        8 <= uuid_nibble(res, 16) <= 11,
{
    uuid::Uuid::new_v4().as_u128()
}

/// A fresh random version-4 identifier, as for a new task or image.
pub fn fresh_id() -> (res: u128)
    ensures
        uuid_nibble(res, 12) == 4,
        8 <= uuid_nibble(res, 16) <= 11,
{
    new_uuid()
}

/// The hyphenated text of an identifier, the form it is stored and looked
/// up under.
pub fn id_text(id: u128) -> (res: String)
    ensures
        res@ == uuid_hyphenated(id),
{
    format_uuid(id)
}

} // verus!
