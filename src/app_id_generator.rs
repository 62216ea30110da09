//! Identifiers for shortcuts, derived from the target path and the display name.
use vstd::prelude::*;
use vstd::utf8::encode_utf8;

use crate::bytes::append_bytes;
use crate::shortcut::Shortcut;

verus! {

/// The CRC-32 checksum (IEEE polynomial, as computed by `crc32fast`) of a byte sequence.
pub uninterp spec fn crc32_of(bytes: Seq<u8>) -> u32;

/// Relies on `crc32fast::hash`: the CRC-32 checksum of `bytes`, which depends on the bytes alone.
#[verifier::external_body]
fn crc32(bytes: &[u8]) -> (r: u32)
    ensures
        r == crc32_of(bytes@),
{
    crc32fast::hash(bytes)
}

/// The bit that is always set in a derived identifier.
pub const APP_ID_HIGH_BIT: u32 = 0x8000_0000;

/// The identifier derived from a checksum: the checksum with its most significant bit set.
pub open spec fn app_id_of_checksum(checksum: u32) -> u32 {
    checksum | APP_ID_HIGH_BIT
}

/// The identifier of a shortcut with target `exe` and name `app_name`: the checksum of the
/// UTF-8 bytes of `exe` followed directly by those of `app_name`, with the top bit set.
pub open spec fn app_id_of(exe: Seq<char>, app_name: Seq<char>) -> u32 {
    app_id_of_checksum(crc32_of(encode_utf8(exe) + encode_utf8(app_name)))
}

/// Calculates the identifier of a shortcut from its target `exe` and its name `app_name`:
/// the CRC-32 of `exe` immediately followed by `app_name`, with the top bit forced to one.
pub fn calculate_app_id(exe: &str, app_name: &str) -> (r: u32)
    ensures
        r == app_id_of(exe@, app_name@),
        r >= APP_ID_HIGH_BIT,
{
    let mut combined: Vec<u8> = Vec::new();
    append_bytes(&mut combined, exe.as_bytes());
    append_bytes(&mut combined, app_name.as_bytes());
    let checksum = crc32(combined.as_slice());
    app_id_from_checksum(checksum)
}

/// Two derivations from the same target and name give the same identifier, and every
/// identifier has its most significant bit set.
pub proof fn lemma_app_id_deterministic(
    exe1: Seq<char>,
    app_name1: Seq<char>,
    exe2: Seq<char>,
    app_name2: Seq<char>,
)
    requires
        exe1 == exe2,
        app_name1 == app_name2,
    ensures
        app_id_of(exe1, app_name1) == app_id_of(exe2, app_name2),
        app_id_of(exe1, app_name1) >= APP_ID_HIGH_BIT,
{
    let c = crc32_of(encode_utf8(exe1) + encode_utf8(app_name1));
    assert(c | 0x8000_0000u32 >= 0x8000_0000u32) by (bit_vector);
}

/// Turns a checksum into an identifier by forcing its most significant bit to one.
pub fn app_id_from_checksum(checksum: u32) -> (r: u32)
    ensures
        r == app_id_of_checksum(checksum),
        r >= APP_ID_HIGH_BIT,
        r & 0x7fff_ffff == checksum & 0x7fff_ffff,
{
    let r = checksum | APP_ID_HIGH_BIT;
    assert(r >= 0x8000_0000u32 && r & 0x7fff_ffff == checksum & 0x7fff_ffff) by (bit_vector)
        requires
            r == checksum | 0x8000_0000u32,
    ;
    r
}

/// Calculates the identifier of a shortcut from its target and its name.
pub fn calculate_app_id_for_shortcut(shortcut: &Shortcut) -> (r: u32)
    ensures
        r == app_id_of(shortcut.exe@, shortcut.app_name@),
        r >= APP_ID_HIGH_BIT,
{
    calculate_app_id(shortcut.exe, shortcut.app_name)
}

} // verus!
