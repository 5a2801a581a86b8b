//! Shared groundwork: location normalization, object-id timestamps, and
//! the process configuration.

use unicode_normalization::UnicodeNormalization;
use vstd::prelude::*;
use vstd::string::StringSliceAdditionalSpecFns;

verus! {

/// The process configuration, read once at startup.
pub struct ChronConfig {
    pub database_uri: String,
    pub maps_api_key: Option<String>,
    pub jitter: bool,
    pub export_path: Option<String>,
    pub duckdb_path: Option<String>,
}

/// What lower-casing makes of a string; computed by the standard library
/// and a function of the characters alone.
pub uninterp spec fn lower_of(s: Seq<char>) -> Seq<char>;

/// What NFKC normalization makes of a string; computed by the
/// `unicode-normalization` crate and a function of the characters alone.
pub uninterp spec fn nfkc_of(s: Seq<char>) -> Seq<char>;

/// Relies on `str::to_lowercase`: the result depends on the characters
/// alone, and an empty string stays empty.
#[verifier::external_body]
fn to_lowercase(s: &str) -> (r: String)
    ensures
        r@ == lower_of(s@),
        s@.len() == 0 ==> r@.len() == 0,
{
    s.to_lowercase()
}

/// Relies on unicode-normalization's `nfkc`: the result depends on the
/// characters alone, and an empty string stays empty.
#[verifier::external_body]
fn nfkc(s: &str) -> (r: String)
    ensures
        r@ == nfkc_of(s@),
        s@.len() == 0 ==> r@.len() == 0,
{
    s.nfkc().collect()
}

/// The canonical form of a location string: lower-cased, then
/// NFKC-normalized. Locations that normalize alike share one map entry.
pub fn normalize_location(s: &str) -> (r: String)
    ensures
        r@ == nfkc_of(lower_of(s@)),
{
    let lowered = to_lowercase(s);
    nfkc(lowered.as_str())
}

/// The value of one hexadecimal digit, or 16 for any other character.
pub open spec fn hex_digit_val(c: char) -> int {
    let u = c as u32;
    if 48 <= u <= 57 {
        u - 48
    } else if 97 <= u <= 102 {
        u - 87
    } else if 65 <= u <= 70 {
        u - 55
    } else {
        16
    }
}

/// Every character is a hexadecimal digit.
pub open spec fn all_hex(s: Seq<char>) -> bool {
    forall|i: int| 0 <= i < s.len() ==> hex_digit_val(#[trigger] s[i]) < 16
}

/// The bytes a hexadecimal string decodes to, two digits each.
pub open spec fn hex_bytes_of(s: Seq<char>) -> Seq<u8>
    decreases s.len(),
{
    if s.len() < 2 {
        Seq::empty()
    } else {
        seq![(hex_digit_val(s[0]) * 16 + hex_digit_val(s[1])) as u8] + hex_bytes_of(s.skip(2))
    }
}

/// Relies on `hex::decode`: an even-length string of hexadecimal digits
/// decodes to its byte pairs, and anything else is rejected.
#[verifier::external_body]
fn hex_decode(s: &str) -> (r: Option<Vec<u8>>)
    ensures
        r matches Some(b) ==> s@.len() == 2 * b@.len() && all_hex(s@) && b@ == hex_bytes_of(s@),
        r is None ==> !(s@.len() % 2 == 0 && all_hex(s@)),
        s@.len() % 2 == 0 && all_hex(s@) ==> r is Some,
{
    match hex::decode(s) {
        Ok(v) => Some(v),
        Err(_) => None,
    }
}

/// The seconds an object id carries: ids are 24 hexadecimal characters,
/// and the first four decoded bytes are a big-endian unix timestamp.
pub fn objectid_to_timestamp(id: &str) -> (r: Option<i64>)
    ensures
        r is Some <==> (id@.len() == 24 && all_hex(id@)),
        r matches Some(ts) ==> ({
            let b = hex_bytes_of(id@);
            ts == b[0] * 0x1000000 + b[1] * 0x10000 + b[2] * 0x100 + b[3]
        }),
{
    if id.unicode_len() != 24 {
        return None;
    }
    match hex_decode(id) {
        None => None,
        Some(data) => {
            let b0 = data[0];
            let b1 = data[1];
            let b2 = data[2];
            let b3 = data[3];
            let secs: u32 = (b0 as u32) * 0x1000000 + (b1 as u32) * 0x10000 + (b2 as u32) * 0x100
                + (b3 as u32);
            Some(secs as i64)
        },
    }
}

} // verus!
