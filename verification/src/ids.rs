//! UUIDs from the `uuid` crate, held by the library as 128-bit integers.
use vstd::prelude::*;

verus! {

/// The character of a hexadecimal digit, lower case.
pub open spec fn hex_digit(d: int) -> char {
    if d == 0 { '0' } else if d == 1 { '1' } else if d == 2 { '2' } else if d == 3 { '3' }
    else if d == 4 { '4' } else if d == 5 { '5' } else if d == 6 { '6' } else if d == 7 { '7' }
    else if d == 8 { '8' } else if d == 9 { '9' } else if d == 10 { 'a' } else if d == 11 { 'b' }
    else if d == 12 { 'c' } else if d == 13 { 'd' } else if d == 14 { 'e' } else { 'f' }
}

pub open spec fn pow16(e: nat) -> nat
    decreases e,
{
    if e == 0 { 1 } else { 16 * pow16((e - 1) as nat) }
}

/// The `k`-th of the 32 hexadecimal digits of `id`, most significant first.
pub open spec fn nibble(id: u128, k: int) -> int {
    (id as int / pow16((31 - k) as nat) as int) % 16
}

/// The hyphenated text of a UUID: 32 lower-case hexadecimal digits, most
/// significant first, grouped 8-4-4-4-12 with hyphens between the groups.
pub open spec fn uuid_text(id: u128) -> Seq<char> {
    Seq::new(
        36,
        |p: int|
            if p == 8 || p == 13 || p == 18 || p == 23 {
                '-'
            } else {
                hex_digit(
                    nibble(
                        id,
                        p - (if p < 8 { 0int } else if p < 13 { 1int } else if p < 18 { 2int } else if p
                            < 23 { 3int } else { 4int }),
                    ),
                )
            },
    )
}

/// A version-4 (random) UUID: the version field holds 4 and the variant
/// bits are `10`.
pub open spec fn is_v4_uuid(id: u128) -> bool {
    id & 0xF000_C000_0000_0000_0000u128 == 0x4000_8000_0000_0000_0000u128
}

/// Calls `uuid::Uuid::new_v4()` and hands the UUID out as an integer
/// (`as_u128`, most significant byte first). The crate masks random bits and
/// sets the version and variant; the claim is that these are set. The rest
/// is random and nothing more is claimed of it.
#[verifier::external_body]
pub(crate) fn new_uuid() -> (id: u128)
    ensures
        is_v4_uuid(id),
{
    uuid::Uuid::new_v4().as_u128()
}

/// Calls `to_string` on `uuid::Uuid::from_u128(id)`, whose `Display` writes the
/// hyphenated lower-case form: claims that text.
#[verifier::external_body]
pub(crate) fn uuid_to_string(id: u128) -> (s: String)
    ensures
        s@ == uuid_text(id),
{
    uuid::Uuid::from_u128(id).to_string()
}

} // verus!
