//! The record codec: a session record is stored as the JSON encoding of
//! the triple (identifier, expiry timestamp in nanoseconds since the Unix
//! epoch, opaque payload). The encoding and decoding are done by
//! `serde_json` behind trusted wrappers; the contracts name the two
//! results and record that decoding inverts encoding.

use vstd::prelude::*;

verus! {

/// What `serde_json::to_vec` produces for the triple of a record's fields.
pub uninterp spec fn record_encoding(id: i128, expiry_nanos: i128, payload: Seq<char>) -> Seq<u8>;

/// What `serde_json::from_slice` yields on given bytes when asked for a
/// record triple: the fields, or nothing when the bytes are malformed.
pub uninterp spec fn record_decoding(bytes: Seq<u8>) -> Option<(i128, i128, Seq<char>)>;

/// The codec contract the store consumes: on these fields, decoding the
/// encoding yields the fields back.
pub open spec fn codec_inverts(id: i128, expiry_nanos: i128, payload: Seq<char>) -> bool {
    record_decoding(record_encoding(id, expiry_nanos, payload)) == Some(
        (id, expiry_nanos, payload),
    )
}

/// Relies on `serde_json::to_vec`: the encoding is a function of the fields
/// alone, and for a tuple of two integers and a string it cannot fail
/// (serialization fails only for a failing `Serialize` implementation or a
/// map with non-string keys). `serde_json::from_slice` parses the produced
/// JSON back to an equal tuple.
#[verifier::external_body]
pub(crate) fn encode_record(id: i128, expiry_nanos: i128, payload: &String) -> (r: Vec<u8>)
    ensures
        r@ == record_encoding(id, expiry_nanos, payload@),
        record_decoding(r@) == Some((id, expiry_nanos, payload@)),
{
    serde_json::to_vec(&(id, expiry_nanos, payload)).unwrap()
}

/// Relies on `serde_json::from_slice`: the result is a function of the
/// bytes alone; malformed bytes yield an error, well-formed bytes yield
/// the encoded triple.
#[verifier::external_body]
pub(crate) fn decode_record(bytes: &Vec<u8>) -> (r: Option<(i128, i128, String)>)
    ensures
        r matches Some(t) ==> record_decoding(bytes@) == Some((t.0, t.1, t.2@)),
        r is None ==> record_decoding(bytes@) is None,
{
    serde_json::from_slice::<(i128, i128, String)>(bytes.as_slice()).ok()
}

} // verus!
