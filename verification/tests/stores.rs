use envdoter::store::{
    decode_text, encode_text, decode_keys, decode_value, write_request, StorageError,
};
use std::collections::BTreeMap;

#[test]
fn text_is_kept_as_its_utf8_bytes() {
    assert_eq!(encode_text("abc"), vec![0x61, 0x62, 0x63]);
    assert_eq!(encode_text("é日"), vec![0xC3, 0xA9, 0xE6, 0x97, 0xA5]);
    assert_eq!(encode_text(""), Vec::<u8>::new());
}

#[test]
fn valid_bytes_decode_to_their_text() {
    assert_eq!(decode_text(&[0x61, 0x62, 0x63]), Ok("abc".to_string()));
    assert_eq!(decode_text(&[0xC3, 0xA9, 0xE6, 0x97, 0xA5]), Ok("é日".to_string()));
    assert_eq!(decode_text(&[0xF4, 0x8F, 0xBF, 0xBF]), Ok("\u{10FFFF}".to_string()));
    assert_eq!(decode_text(&[]), Ok(String::new()));
}

#[test]
fn invalid_bytes_are_an_encoding_error() {
    assert_eq!(decode_text(&[0xFF]), Err(StorageError::Encoding));
    assert_eq!(decode_text(&[0x61, 0x80]), Err(StorageError::Encoding));
    assert_eq!(decode_text(&[0xC3]), Err(StorageError::Encoding));
    // an overlong form, a surrogate, and a value above the last code point
    assert_eq!(decode_text(&[0xC0, 0x80]), Err(StorageError::Encoding));
    assert_eq!(decode_text(&[0xED, 0xA0, 0x80]), Err(StorageError::Encoding));
    assert_eq!(decode_text(&[0xF4, 0x90, 0x80, 0x80]), Err(StorageError::Encoding));
}

#[test]
fn a_missing_key_reads_as_the_empty_text() {
    assert_eq!(decode_value(None), Ok(String::new()));
}

#[test]
fn a_found_value_reads_as_its_text() {
    assert_eq!(decode_value(Some(&[0x76, 0x31])), Ok("v1".to_string()));
    assert_eq!(decode_value(Some(&[])), Ok(String::new()));
    assert_eq!(decode_value(Some(&[0xFE])), Err(StorageError::Encoding));
}

#[test]
fn keys_read_in_the_order_of_the_store() {
    let raw = vec![b"A".to_vec(), b"B_1".to_vec(), "é".as_bytes().to_vec()];
    assert_eq!(decode_keys(&raw), Ok(vec!["A".to_string(), "B_1".to_string(), "é".to_string()]));
    assert_eq!(decode_keys(&Vec::new()), Ok(Vec::new()));
}

#[test]
fn one_bad_key_fails_the_listing() {
    let raw = vec![b"A".to_vec(), vec![0xFF], b"C".to_vec()];
    assert_eq!(decode_keys(&raw), Err(StorageError::Encoding));
}

#[test]
fn what_is_written_is_what_is_read() {
    let mut held: BTreeMap<Vec<u8>, Vec<u8>> = BTreeMap::new();
    let pairs = [("NAME", "value"), ("ÄÖ", "日本語 = x"), ("EMPTY", ""), ("NAME", "newer")];
    for (key, value) in pairs.iter() {
        let (k, v) = write_request(key, value);
        held.insert(k, v);
        let found = held.get(&encode_text(key)).map(|bytes| bytes.as_slice());
        assert_eq!(decode_value(found), Ok(value.to_string()));
    }
    let found = held.get(&encode_text("NAME")).map(|bytes| bytes.as_slice());
    assert_eq!(decode_value(found), Ok("newer".to_string()));
}

#[test]
fn a_key_never_written_reads_as_the_empty_text() {
    let mut held: BTreeMap<Vec<u8>, Vec<u8>> = BTreeMap::new();
    let (k, v) = write_request("PRESENT", "x");
    held.insert(k, v);
    let found = held.get(&encode_text("ABSENT")).map(|bytes| bytes.as_slice());
    assert_eq!(decode_value(found), Ok(String::new()));
}

#[test]
fn a_write_request_holds_key_and_value_as_bytes() {
    let (k, v) = write_request("K", "é");
    assert_eq!(k, vec![0x4B]);
    assert_eq!(v, vec![0xC3, 0xA9]);
}
