//! The binary encoding of a user record.
//!
//! Binary layout:
//!
//! id:       u64, 8 bytes, little-endian
//! name_len: u16, 2 bytes, little-endian
//! name:     raw UTF-8 bytes
//!
//! `UserRecord { id: 42, name: "alice" }` becomes
//! `[8 bytes id][2 bytes name_len][5 bytes name]`.
use vstd::prelude::*;

use crate::db::bytes::{lemma_u16_roundtrip, lemma_u64_roundtrip, read_u16, read_u64, u16_at, u64_at};
use crate::db::storage::page::PageError;
use vstd::bytes::{spec_u16_to_le_bytes, spec_u64_to_le_bytes, u16_to_le_bytes, u64_to_le_bytes};
use vstd::slice::{slice_subrange, slice_to_vec};
use vstd::utf8::{decode_utf8, encode_utf8, encode_utf8_decode_utf8, encode_utf8_valid_utf8, valid_utf8};

verus! {

#[derive(Debug, Clone, PartialEq, Eq)]
pub struct UserRecord {
    pub id: u64,
    pub name: String,
}

impl View for UserRecord {
    type V = (u64, Seq<char>);

    open spec fn view(&self) -> (u64, Seq<char>) {
        (self.id, self.name@)
    }
}

/// The bytes of the record `(id, name)`. The length field holds the number of
/// UTF-8 bytes of the name, truncated to 16 bits.
pub open spec fn encode_record_spec(id: u64, name: Seq<char>) -> Seq<u8> {
    spec_u64_to_le_bytes(id) + spec_u16_to_le_bytes(encode_utf8(name).len() as u16) + encode_utf8(
        name,
    )
}

/// The record `bytes` hold, or `CorruptPage` when they are shorter than the
/// fixed fields, shorter than the name length says, or the name is not UTF-8.
pub open spec fn decode_record_spec(bytes: Seq<u8>) -> Result<(u64, Seq<char>), PageError> {
    if bytes.len() < 10 {
        Err(PageError::CorruptPage)
    } else {
        let name_end = 10 + u16_at(bytes, 8);
        if name_end > bytes.len() {
            Err(PageError::CorruptPage)
        } else if !valid_utf8(bytes.subrange(10, name_end)) {
            Err(PageError::CorruptPage)
        } else {
            Ok((u64_at(bytes, 0), decode_utf8(bytes.subrange(10, name_end))))
        }
    }
}

/// `String::from_utf8` on `bytes`: the string they encode when they are valid
/// UTF-8, nothing otherwise (the error value is dropped).
#[verifier::external_body]
fn string_from_utf8(bytes: Vec<u8>) -> (r: Option<String>)
    ensures
        r is Some <==> valid_utf8(bytes@),
        r matches Some(s) ==> s@ == decode_utf8(bytes@),
{
    String::from_utf8(bytes).ok()
}

/// Encodes a record in the binary layout above.
pub fn encode_user_record(record: &UserRecord) -> (bytes: Vec<u8>)
    ensures
        bytes@ == encode_record_spec(record.id, record.name@),
{
    let name_bytes = record.name.as_str().as_bytes();
    let mut bytes: Vec<u8> = Vec::new();
    let id_bytes = u64_to_le_bytes(record.id);
    bytes.extend_from_slice(id_bytes.as_slice());
    let len_bytes = u16_to_le_bytes(name_bytes.len() as u16);
    bytes.extend_from_slice(len_bytes.as_slice());
    bytes.extend_from_slice(name_bytes);
    assert(bytes@ =~= encode_record_spec(record.id, record.name@));
    bytes
}

/// Decodes a record; `CorruptPage` exactly when `decode_record_spec` says so.
pub fn decode_user_record(bytes: &[u8]) -> (r: Result<UserRecord, PageError>)
    ensures
        match r {
            Ok(record) => decode_record_spec(bytes@) == Ok::<(u64, Seq<char>), PageError>(
                record@,
            ),
            Err(e) => decode_record_spec(bytes@) == Err::<(u64, Seq<char>), PageError>(e),
        },
{
    if bytes.len() < 10 {
        return Err(PageError::CorruptPage);
    }
    let id = read_u64(bytes, 0);
    let name_len = read_u16(bytes, 8) as usize;
    let name_start: usize = 10;
    let name_end = match name_start.checked_add(name_len) {
        Some(end) => end,
        None => {
            return Err(PageError::CorruptPage);
        },
    };
    if name_end > bytes.len() {
        return Err(PageError::CorruptPage);
    }
    let name_bytes = slice_to_vec(slice_subrange(bytes, name_start, name_end));
    match string_from_utf8(name_bytes) {
        Some(name) => Ok(UserRecord { id, name }),
        None => Err(PageError::CorruptPage),
    }
}

/// Round trip: decoding the encoding of a record gives the record back, for
/// every name whose UTF-8 encoding fits the 16-bit length field.
pub proof fn record_roundtrip(id: u64, name: Seq<char>)
    requires
        encode_utf8(name).len() <= u16::MAX,
    ensures
        decode_record_spec(encode_record_spec(id, name)) == Ok::<(u64, Seq<char>), PageError>(
            (id, name),
        ),
{
    let bytes = encode_record_spec(id, name);
    let n = encode_utf8(name).len() as int;
    lemma_u64_roundtrip(id);
    lemma_u16_roundtrip(n as u16);
    assert(bytes.subrange(0, 8) =~= spec_u64_to_le_bytes(id));
    assert(bytes.subrange(8, 10) =~= spec_u16_to_le_bytes(n as u16));
    assert(bytes.subrange(10, 10 + n) =~= encode_utf8(name));
    encode_utf8_valid_utf8(name);
    encode_utf8_decode_utf8(name);
}

} // verus!
