//! Page tokens: the opaque cursor of keyset pagination.
//!
//! A token is the base64-url encoding of the 8 big-endian bytes of a
//! microsecond timestamp followed by the UTF-8 bytes of an entity id.
//! Clients treat it as opaque; decoding yields the strict-inequality
//! pivot for the next page.

use base64::Engine;
use vstd::prelude::*;
use vstd::string::StringSliceAdditionalSpecFns;

verus! {

/// The keyset pivot a client carries between pages.
pub struct PageToken {
    pub entity_id: String,
    /// Microseconds since the epoch.
    pub timestamp: i64,
}

/// What the base64-url (padded) text of a byte string is; computed by the
/// `base64` crate.
pub uninterp spec fn b64url_of(bytes: Seq<u8>) -> Seq<char>;

/// What `String::from_utf8_lossy` makes of a byte string.
pub uninterp spec fn lossy_utf8_of(bytes: Seq<u8>) -> Seq<char>;

/// Relies on base64's `URL_SAFE` engine: `encode` is a function of the
/// bytes alone, and `decode` inverts it.
#[verifier::external_body]
fn b64_encode(bytes: &Vec<u8>) -> (r: String)
    ensures
        r@ == b64url_of(bytes@),
{
    base64::engine::general_purpose::URL_SAFE.encode(bytes.as_slice())
}

/// Relies on base64's `URL_SAFE` engine: `decode` accepts exactly what
/// `encode` produced and returns the encoded bytes.
#[verifier::external_body]
fn b64_decode(s: &str) -> (r: Option<Vec<u8>>)
    ensures
        r matches Some(b) ==> s@ == b64url_of(b@),
        r matches Some(b) ==> (forall|bytes: Seq<u8>|
            s@ == #[trigger] b64url_of(bytes) ==> b@ == bytes),
        r is None ==> (forall|bytes: Seq<u8>| s@ != #[trigger] b64url_of(bytes)),
{
    match base64::engine::general_purpose::URL_SAFE.decode(s.as_bytes()) {
        Ok(v) => Some(v),
        Err(_) => None,
    }
}

/// Relies on `String::from_utf8_lossy`: the result is a function of the
/// bytes, and valid UTF-8 decodes to exactly its characters.
#[verifier::external_body]
pub(crate) fn bytes_to_string_lossy(b: &[u8]) -> (r: String)
    ensures
        r@ == lossy_utf8_of(b@),
        vstd::utf8::valid_utf8(b@) ==> r@ == vstd::utf8::decode_utf8(b@),
{
    String::from_utf8_lossy(b).into_owned()
}

/// The 8 big-endian bytes of a timestamp.
pub open spec fn be_bytes_of(x: i64) -> Seq<u8> {
    let u = x as u64;
    seq![
        (u >> 56) as u8,
        (u >> 48) as u8,
        (u >> 40) as u8,
        (u >> 32) as u8,
        (u >> 24) as u8,
        (u >> 16) as u8,
        (u >> 8) as u8,
        u as u8,
    ]
}

/// The byte form of a token before encoding.
pub open spec fn token_bytes(timestamp: i64, id: Seq<char>) -> Seq<u8> {
    be_bytes_of(timestamp) + vstd::utf8::encode_utf8(id)
}

/// Big-endian packing loses nothing.
pub proof fn lemma_be_bytes_injective(x: i64, y: i64)
    requires
        be_bytes_of(x) == be_bytes_of(y),
    ensures
        x == y,
{
    let u = x as u64;
    let v = y as u64;
    assert(be_bytes_of(x)[0] == be_bytes_of(y)[0]);
    assert(be_bytes_of(x)[1] == be_bytes_of(y)[1]);
    assert(be_bytes_of(x)[2] == be_bytes_of(y)[2]);
    assert(be_bytes_of(x)[3] == be_bytes_of(y)[3]);
    assert(be_bytes_of(x)[4] == be_bytes_of(y)[4]);
    assert(be_bytes_of(x)[5] == be_bytes_of(y)[5]);
    assert(be_bytes_of(x)[6] == be_bytes_of(y)[6]);
    assert(be_bytes_of(x)[7] == be_bytes_of(y)[7]);
    assert(u == v) by (bit_vector)
        requires
            (u >> 56) as u8 == (v >> 56) as u8,
            (u >> 48) as u8 == (v >> 48) as u8,
            (u >> 40) as u8 == (v >> 40) as u8,
            (u >> 32) as u8 == (v >> 32) as u8,
            (u >> 24) as u8 == (v >> 24) as u8,
            (u >> 16) as u8 == (v >> 16) as u8,
            (u >> 8) as u8 == (v >> 8) as u8,
            u as u8 == v as u8,
    ;
    assert(x == y) by (bit_vector)
        requires
            x as u64 == y as u64,
    ;
}

fn i64_to_be_bytes(x: i64) -> (r: Vec<u8>)
    ensures
        r@ == be_bytes_of(x),
{
    let u = x as u64;
    let mut v: Vec<u8> = Vec::new();
    v.push((u >> 56) as u8);
    v.push((u >> 48) as u8);
    v.push((u >> 40) as u8);
    v.push((u >> 32) as u8);
    v.push((u >> 24) as u8);
    v.push((u >> 16) as u8);
    v.push((u >> 8) as u8);
    v.push(u as u8);
    proof {
        assert(v@ =~= be_bytes_of(x));
    }
    v
}

fn i64_from_be_bytes(b: &[u8]) -> (r: i64)
    requires
        b@.len() >= 8,
    ensures
        be_bytes_of(r).take(8) == b@.take(8),
        be_bytes_of(r) == b@.take(8),
{
    let b0 = b[0];
    let b1 = b[1];
    let b2 = b[2];
    let b3 = b[3];
    let b4 = b[4];
    let b5 = b[5];
    let b6 = b[6];
    let b7 = b[7];
    let u: u64 = ((b0 as u64) << 56) | ((b1 as u64) << 48) | ((b2 as u64) << 40) | ((b3
        as u64) << 32) | ((b4 as u64) << 24) | ((b5 as u64) << 16) | ((b6 as u64) << 8) | (b7
        as u64);
    let x = u as i64;
    proof {
        assert((x as u64) == u && (u >> 56) as u8 == b0 && (u >> 48) as u8 == b1 && (u >> 40) as u8
            == b2 && (u >> 32) as u8 == b3 && (u >> 24) as u8 == b4 && (u >> 16) as u8 == b5 && (u
            >> 8) as u8 == b6 && u as u8 == b7) by (bit_vector)
            requires
                u == ((b0 as u64) << 56) | ((b1 as u64) << 48) | ((b2 as u64) << 40) | ((b3
                    as u64) << 32) | ((b4 as u64) << 24) | ((b5 as u64) << 16) | ((b6
                    as u64) << 8) | (b7 as u64),
                x == u as i64,
        ;
        assert(be_bytes_of(x) =~= b@.take(8));
    }
    x
}

impl PageToken {
    /// The opaque text of this token: base64-url of the big-endian
    /// timestamp followed by the id bytes.
    pub fn to_text(&self) -> (r: String)
        ensures
            r@ == b64url_of(token_bytes(self.timestamp, self.entity_id@)),
    {
        let mut buf = i64_to_be_bytes(self.timestamp);
        let idb = self.entity_id.as_str().as_bytes();
        let mut i: usize = 0;
        while i < idb.len()
            invariant
                i <= idb@.len(),
                idb@ == vstd::utf8::encode_utf8(self.entity_id@),
                buf@ == be_bytes_of(self.timestamp) + idb@.take(i as int),
            decreases idb@.len() - i,
        {
            buf.push(idb[i]);
            proof {
                assert(idb@.take(i + 1) =~= idb@.take(i as int).push(idb@[i as int]));
                assert(buf@ =~= be_bytes_of(self.timestamp) + idb@.take(i + 1));
            }
            i = i + 1;
        }
        proof {
            assert(idb@.take(idb@.len() as int) =~= idb@);
            assert(buf@ =~= token_bytes(self.timestamp, self.entity_id@));
        }
        b64_encode(&buf)
    }

    /// Decode a token. The text must be base64-url of more than 16 bytes:
    /// 8 timestamp bytes and an id. The decoded pivot carries the packed
    /// timestamp and the id bytes read back as text.
    pub fn from_text(s: &str) -> (r: Option<PageToken>)
        ensures
            forall|bytes: Seq<u8>|
                s@ == #[trigger] b64url_of(bytes) && bytes.len() > 16 ==> (r matches Some(t)
                    && be_bytes_of(t.timestamp) == bytes.take(8) && t.entity_id@ == lossy_utf8_of(
                    bytes.skip(8),
                ) && (vstd::utf8::valid_utf8(bytes.skip(8)) ==> t.entity_id@
                    == vstd::utf8::decode_utf8(bytes.skip(8)))),
            r is Some ==> (exists|bytes: Seq<u8>|
                s@ == #[trigger] b64url_of(bytes) && bytes.len() > 16),
    {
        let decoded = b64_decode(s);
        match decoded {
            None => None,
            Some(data) => {
                if data.len() <= 16 {
                    None
                } else {
                    let ts = i64_from_be_bytes(data.as_slice());
                    let rest = slice_skip8(data.as_slice());
                    let id = bytes_to_string_lossy(rest);
                    Some(PageToken { entity_id: id, timestamp: ts })
                }
            },
        }
    }
}

/// The tail of a byte slice after its first 8 bytes.
fn slice_skip8(b: &[u8]) -> (r: &[u8])
    requires
        b@.len() >= 8,
    ensures
        r@ == b@.skip(8),
{
    proof {
        assert(b@.skip(8) =~= b@.subrange(8, b@.len() as int));
    }
    vstd::slice::slice_subrange(b, 8, b.len())
}

/// A token survives the trip through its opaque text: encoding and then
/// decoding gives back the same pivot, for any id of more than 8 UTF-8
/// bytes.
pub fn token_round_trip(t: &PageToken) -> (r: Option<PageToken>)
    requires
        vstd::utf8::encode_utf8(t.entity_id@).len() > 8,
    ensures
        r matches Some(t2) && t2.timestamp == t.timestamp && t2.entity_id@ == t.entity_id@,
{
    let text = t.to_text();
    let r = PageToken::from_text(text.as_str());
    proof {
        let bytes = token_bytes(t.timestamp, t.entity_id@);
        assert(bytes.len() > 16);
        assert(text@ == b64url_of(bytes));
        let t2 = r->0;
        assert(be_bytes_of(t2.timestamp) == bytes.take(8));
        assert(be_bytes_of(t.timestamp) =~= bytes.take(8));
        lemma_be_bytes_injective(t2.timestamp, t.timestamp);
        assert(bytes.skip(8) =~= vstd::utf8::encode_utf8(t.entity_id@));
        vstd::utf8::encode_utf8_valid_utf8(t.entity_id@);
        vstd::utf8::encode_utf8_decode_utf8(t.entity_id@);
    }
    r
}

} // verus!
