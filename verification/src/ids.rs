//! Session identifiers and their canonical file-name form.
//!
//! A session identifier is a 128-bit integer. Its string form — used as the
//! file name of the session's entry — is produced by
//! `tower_sessions_core::session::Id`, which renders the identifier's
//! little-endian bytes in unpadded URL-safe base64 (22 characters) and
//! parses only that canonical form back.

use vstd::prelude::*;

verus! {

/// The canonical string form of a session identifier, as rendered by
/// `tower_sessions_core::session::Id`'s `Display` implementation.
pub uninterp spec fn id_string_of(id: i128) -> Seq<char>;

/// What `tower_sessions_core::session::Id::from_str` returns on a given
/// string: the identifier whose canonical form the string is, if any.
pub uninterp spec fn parsed_id(s: Seq<char>) -> Option<i128>;

/// Relies on `tower_sessions_core::session::Id`'s `Display` implementation:
/// it encodes the identifier's 16 little-endian bytes in unpadded URL-safe
/// base64, always yielding exactly 22 characters, and `Id::from_str`
/// (a base64 decode that rejects non-canonical trailing bits and any
/// length other than 22) parses that string back to the same identifier.
#[verifier::external_body]
pub(crate) fn render_id(id: i128) -> (r: String)
    ensures
        r@ == id_string_of(id),
        r@.len() == 22,
        parsed_id(r@) == Some(id),
{
    tower_sessions_core::session::Id(id).to_string()
}

/// Relies on `tower_sessions_core::session::Id::from_str`: it succeeds
/// exactly on the canonical 22-character base64 form of an identifier
/// (the base64 engine rejects padding, wrong lengths and non-zero trailing
/// bits), and then returns the identifier that form encodes.
#[verifier::external_body]
pub(crate) fn parse_id(s: &str) -> (r: Option<i128>)
    ensures
        r == parsed_id(s@),
        r matches Some(id) ==> s@ == id_string_of(id),
{
    match s.parse::<tower_sessions_core::session::Id>() {
        Ok(id) => Some(id.0),
        Err(_) => None,
    }
}

} // verus!
