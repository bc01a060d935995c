//! Variables as a store of bytes keeps them.
//!
//! A store maps keys to values, both as bytes; it holds a variable as the
//! UTF-8 bytes of its name and of its value. This module turns names and
//! values into what is handed to the store, and what comes back from the
//! store into names and values. Reading and writing the store itself is left
//! to the caller.

use vstd::prelude::*;
use vstd::string::StrSliceExecFns;
use vstd::utf8::{
    decode_utf8, encode_utf8, encode_utf8_decode_utf8, encode_utf8_valid_utf8, valid_utf8,
};
use crate::store_facts::{bytes_rise, lemma_names_rise, names_rise};

verus! {

/// Why what a store holds cannot be handed out.
#[derive(Clone, Copy, Debug, PartialEq, Eq, Structural)]
pub enum StorageError {
    /// What the store holds under a key, or the key itself, is no text.
    Encoding,
}

/// The text that `bytes` encode, or the error that they encode none.
pub open spec fn text_of(bytes: Seq<u8>) -> Result<Seq<char>, StorageError> {
    if valid_utf8(bytes) {
        Ok(decode_utf8(bytes))
    } else {
        Err(StorageError::Encoding)
    }
}

/// The value that a store states by `found`, what it holds under a key: the
/// text of the bytes, and the empty text where it holds nothing.
pub open spec fn value_of(found: Option<Seq<u8>>) -> Result<Seq<char>, StorageError> {
    match found {
        Some(bytes) => text_of(bytes),
        None => Ok(Seq::empty()),
    }
}

/// Every one of `raw` encodes a text.
pub open spec fn all_texts(raw: Seq<Seq<u8>>) -> bool {
    forall|i: int| 0 <= i < raw.len() ==> valid_utf8(#[trigger] raw[i])
}

/// The names that a store states by `raw`, the keys that it holds: the text
/// of each key, in the same order.
pub open spec fn names_of(raw: Seq<Seq<u8>>) -> Result<Seq<Seq<char>>, StorageError> {
    if all_texts(raw) {
        Ok(raw.map_values(|bytes: Seq<u8>| decode_utf8(bytes)))
    } else {
        Err(StorageError::Encoding)
    }
}

/// What a store holds once `value` was written under `key`.
pub open spec fn after_write(
    held: Map<Seq<u8>, Seq<u8>>,
    key: Seq<char>,
    value: Seq<char>,
) -> Map<Seq<u8>, Seq<u8>> {
    held.insert(encode_utf8(key), encode_utf8(value))
}

/// What a store that holds `held` finds under `key`.
pub open spec fn found_under(held: Map<Seq<u8>, Seq<u8>>, key: Seq<char>) -> Option<Seq<u8>> {
    if held.dom().contains(encode_utf8(key)) {
        Some(held[encode_utf8(key)])
    } else {
        None
    }
}

/// The value that is read under `key` from a store that holds `held`.
pub open spec fn value_read(held: Map<Seq<u8>, Seq<u8>>, key: Seq<char>) -> Result<
    Seq<char>,
    StorageError,
> {
    value_of(found_under(held, key))
}

/// `String::from_utf8` of the standard library: the bytes become a string
/// exactly where they are valid UTF-8, and the string then has these bytes
/// as its encoding.
#[verifier::external_body]
fn string_from_utf8(bytes: &[u8]) -> (r: Option<String>)
    ensures
        r is Some <==> valid_utf8(bytes@),
        r matches Some(text) ==> encode_utf8(text@) == bytes@,
{
    String::from_utf8(bytes.to_vec()).ok()
}

/// The bytes that a store keeps for `text`.
pub fn encode_text(text: &str) -> (bytes: Vec<u8>)
    ensures
        bytes@ == encode_utf8(text@),
{
    text.as_bytes_vec()
}

/// The text that `bytes` encode.
pub fn decode_text(bytes: &[u8]) -> (r: Result<String, StorageError>)
    ensures
        match r {
            Ok(text) => text_of(bytes@) == Ok::<Seq<char>, StorageError>(text@),
            Err(e) => text_of(bytes@) == Err::<Seq<char>, StorageError>(e),
        },
{
    match string_from_utf8(bytes) {
        Some(text) => {
            proof {
                encode_utf8_decode_utf8(text@);
            }
            Ok(text)
        },
        None => Err(StorageError::Encoding),
    }
}

/// The key and the value that are handed to a store to write `value` under
/// `key`.
pub fn write_request(key: &str, value: &str) -> (request: (Vec<u8>, Vec<u8>))
    ensures
        request.0@ == encode_utf8(key@),
        request.1@ == encode_utf8(value@),
{
    (encode_text(key), encode_text(value))
}

/// The value that a store states by `found`, what it holds under a key.
///
/// A key under which the store holds nothing reads as the empty text, as a
/// key does under which it holds the empty text: the two cannot be told
/// apart.
pub fn decode_value(found: Option<&[u8]>) -> (r: Result<String, StorageError>)
    ensures
        match r {
            Ok(text) => value_of(bytes_found(found)) == Ok::<Seq<char>, StorageError>(text@),
            Err(e) => value_of(bytes_found(found)) == Err::<Seq<char>, StorageError>(e),
        },
{
    match found {
        Some(bytes) => decode_text(bytes),
        None => Ok(String::new()),
    }
}

/// What was found, as bytes.
pub open spec fn bytes_found(found: Option<&[u8]>) -> Option<Seq<u8>> {
    match found {
        Some(bytes) => Some(bytes@),
        None => None,
    }
}

/// The keys that a store holds, as bytes.
pub open spec fn bytes_listed(raw: Seq<Vec<u8>>) -> Seq<Seq<u8>> {
    raw.map_values(|bytes: Vec<u8>| bytes@)
}

/// The names that a store states by `raw`, the keys that it holds, in the
/// order in which the store lists them. One key that is no text makes the
/// whole list an error.
///
/// Keys that are listed in the rising order of their bytes give names in
/// rising dictionary order.
pub fn decode_keys(raw: &Vec<Vec<u8>>) -> (r: Result<Vec<String>, StorageError>)
    ensures
        match r {
            Ok(names) => names_of(bytes_listed(raw@)) == Ok::<Seq<Seq<char>>, StorageError>(
                names.deep_view(),
            ),
            Err(e) => names_of(bytes_listed(raw@)) == Err::<Seq<Seq<char>>, StorageError>(e),
        },
        bytes_rise(bytes_listed(raw@)) ==> (r matches Ok(names) ==> names_rise(names.deep_view())),
{
    let ghost listed = bytes_listed(raw@);
    let mut names: Vec<String> = Vec::new();
    let mut i: usize = 0;
    while i < raw.len()
        invariant
            listed == bytes_listed(raw@),
            i <= raw.len(),
            names.len() == i,
            forall|j: int| 0 <= j < i ==> valid_utf8(#[trigger] listed[j]),
            forall|j: int| 0 <= j < i ==> (#[trigger] names[j])@ == decode_utf8(listed[j]),
        decreases raw.len() - i,
    {
        match decode_text(raw[i].as_slice()) {
            Ok(name) => {
                names.push(name);
            },
            Err(e) => {
                assert(!valid_utf8(listed[i as int]));
                return Err(e);
            },
        }
        i = i + 1;
    }
    assert(names.deep_view() =~= listed.map_values(|bytes: Seq<u8>| decode_utf8(bytes)));
    proof {
        if bytes_rise(listed) {
            lemma_names_rise(listed);
        }
    }
    Ok(names)
}

/// A value that was written under a key is the value that is read under it.
pub proof fn lemma_read_after_write(held: Map<Seq<u8>, Seq<u8>>, key: Seq<char>, value: Seq<char>)
    ensures
        value_read(after_write(held, key, value), key) == Ok::<Seq<char>, StorageError>(value),
{
    encode_utf8_valid_utf8(value);
    encode_utf8_decode_utf8(value);
}

/// A key under which nothing was written reads as the empty text.
pub proof fn lemma_read_missing(held: Map<Seq<u8>, Seq<u8>>, key: Seq<char>)
    requires
        !held.dom().contains(encode_utf8(key)),
    ensures
        value_read(held, key) == Ok::<Seq<char>, StorageError>(Seq::empty()),
{
}

/// Different names are kept under different keys.
pub proof fn lemma_keys_differ(a: Seq<char>, b: Seq<char>)
    requires
        a != b,
    ensures
        encode_utf8(a) != encode_utf8(b),
{
    encode_utf8_decode_utf8(a);
    encode_utf8_decode_utf8(b);
}

/// Writing under one key leaves what is read under every other key.
pub proof fn lemma_write_keeps_others(
    held: Map<Seq<u8>, Seq<u8>>,
    key: Seq<char>,
    value: Seq<char>,
    other: Seq<char>,
)
    requires
        other != key,
    ensures
        value_read(after_write(held, key, value), other) == value_read(held, other),
{
    lemma_keys_differ(other, key);
}

} // verus!
