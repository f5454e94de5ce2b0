//! Random identifiers for events and campaigns.

use vstd::prelude::*;

use crate::input::uuid_parse;

verus! {

/// The identifier is a random (version 4, RFC 4122 variant) UUID: its
/// version nibble reads 4 and its two variant bits read `10`.
pub open spec fn is_v4_id(id: u128) -> bool {
    id & 0xF000_C000_0000_0000_0000u128 == 0x4000_8000_0000_0000_0000u128
}

/// Draws a fresh identifier with `uuid::Uuid::new_v4`, read back as the
/// 128-bit big-endian number that `Uuid::as_u128` gives.
///
/// The value is random.  The only thing claimed of it is what the crate's
/// source shows of every outcome: the version nibble reads 4 and the two
/// variant bits read `10`.
#[verifier::external_body]
pub(crate) fn fresh_id() -> (id: u128)
    ensures
        is_v4_id(id),
{
    uuid::Uuid::new_v4().as_u128()
}

/// The lower-case hexadecimal digit for `v` in `0..16`.
pub open spec fn hex_digit(v: int) -> char {
    if v < 10 {
        (48 + v) as char
    } else {
        (87 + v) as char
    }
}

/// The `j`-th of the 32 hexadecimal digits of `id`, most significant first.
pub open spec fn hex_nibble(id: u128, j: int) -> int {
    ((id >> ((4 * (31 - j)) as u128)) & 0xFu128) as int
}

/// How many hyphens stand before position `i` of the hyphenated form.
pub open spec fn hyphens_before(i: int) -> int {
    if i < 9 {
        0
    } else if i < 14 {
        1
    } else if i < 19 {
        2
    } else if i < 24 {
        3
    } else {
        4
    }
}

/// The hyphenated lower-case form of an identifier, 8-4-4-4-12 digits, as
/// in `67e55044-10b1-426f-9247-bb680e5fe0c8`.
pub open spec fn uuid_text(id: u128) -> Seq<char> {
    Seq::new(
        36,
        |i: int|
            if i == 8 || i == 13 || i == 18 || i == 23 {
                '-'
            } else {
                hex_digit(hex_nibble(id, i - hyphens_before(i)))
            },
    )
}

/// Writes an identifier the way `uuid::Uuid` displays it, through
/// `Uuid::from_u128` and its `Display`: the 32 hexadecimal digits of the
/// big-endian number, lower case, grouped 8-4-4-4-12 by hyphens.  uuid's
/// own parser (`parse_str`, hyphenated form: 36 characters, hyphens at 8,
/// 13, 18 and 23, hex digits of either case) reads that text back as the
/// same value, which is claimed too.
#[verifier::external_body]
pub(crate) fn uuid_string(id: u128) -> (s: String)
    ensures
        s@ == uuid_text(id),
        uuid_parse(s@) is Ok,
        uuid_parse(s@)->Ok_0 == id,
{
    uuid::Uuid::from_u128(id).to_string()
}

} // verus!
