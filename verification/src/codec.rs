use vstd::prelude::*;
use std::io::{Read, Write};

verus! {

/// What gzip compression (flate2's `GzEncoder` at the default level) produces
/// for the given bytes.
pub uninterp spec fn gzip_encoded(data: Seq<u8>) -> Seq<u8>;

/// What gzip decompression (flate2's `GzDecoder`) gives for the given bytes:
/// the decompressed bytes, or `None` when they are not a valid gzip stream.
pub uninterp spec fn gzip_decoded(data: Seq<u8>) -> Option<Seq<u8>>;

/// What `String::from_utf8_lossy` gives for the given bytes.
pub uninterp spec fn utf8_lossy(bytes: Seq<u8>) -> Seq<char>;

/// The string that a JSON pointer reaches in a JSON document given as
/// bytes, as serde_json reads it: `None` when the bytes are not JSON,
/// `Some(None)` when the pointer reaches no string.
pub uninterp spec fn json_pointer_str(bytes: Seq<u8>, pointer: Seq<char>) -> Option<Option<Seq<char>>>;

/// The string member `key` of a JSON value given as text, as serde_json reads
/// it: `None` when the text is not JSON, `Some(None)` when the value is not an
/// object or the member is absent or not a string.
pub uninterp spec fn json_member_str(text: Seq<char>, key: Seq<char>) -> Option<Option<Seq<char>>>;

/// The boolean member `key` of a JSON value given as text, as serde_json
/// reads it: `None` when the text is not JSON, `Some(None)` when there is no
/// boolean member of that name.
pub uninterp spec fn json_member_bool(text: Seq<char>, key: Seq<char>) -> Option<Option<bool>>;

/// The JSON string literal that serde_json writes for a string (quotes
/// around it, with its escapes).
pub uninterp spec fn json_quoted(s: Seq<char>) -> Seq<char>;

/// Serializes `s` with `serde_json::to_string`. Serializing a `str` writes
/// into a `Vec` and cannot fail (serde_json fails only for a failing
/// `Serialize` impl or a map with non-string keys), so the call succeeds;
/// the error would be serde_json's message.
#[verifier::external_body]
pub fn json_string_literal(s: &str) -> (r: Result<String, String>)
    ensures
        r is Ok,
        r matches Ok(t) ==> t@ == json_quoted(s@),
{
    serde_json::to_string(s).map_err(|e| e.to_string())
}

/// Compresses `data` with flate2's `GzEncoder` (default level) into a vector.
/// The result is the gzip encoding of `data`, which flate2's `GzDecoder`
/// turns back into `data`. Writing into a `Vec` cannot fail, and the encoder
/// is driven as flate2 expects (all input, then `finish`), so its deflate
/// stream reports no error: the call always succeeds. The `Err` arm only
/// carries the I/O error's text through should that ever change.
#[verifier::external_body]
pub fn gzip_compress(data: &[u8]) -> (r: Result<Vec<u8>, String>)
    ensures
        r is Ok,
        r matches Ok(v) ==> v@ == gzip_encoded(data@) && gzip_decoded(v@) == Some(data@),
{
    let mut encoder = flate2::write::GzEncoder::new(Vec::new(), flate2::Compression::default());
    match encoder.write_all(data) {
        Ok(()) => {},
        Err(e) => return Err(e.to_string()),
    }
    encoder.finish().map_err(|e| e.to_string())
}

/// Decompresses gzip `data` with flate2's `GzDecoder`, reading to the end.
/// It succeeds exactly when `data` is a valid gzip stream, with its content;
/// the error is the I/O error's text.
#[verifier::external_body]
pub fn gzip_decompress(data: &[u8]) -> (r: Result<Vec<u8>, String>)
    ensures
        r matches Ok(v) ==> gzip_decoded(data@) == Some(v@),
        r is Err ==> gzip_decoded(data@) is None,
{
    let mut decoder = flate2::read::GzDecoder::new(data);
    let mut buf = Vec::new();
    match decoder.read_to_end(&mut buf) {
        Ok(_) => Ok(buf),
        Err(e) => Err(e.to_string()),
    }
}

/// `String::from_utf8_lossy`: valid UTF-8 is decoded as it is; invalid
/// sequences become U+FFFD.
#[verifier::external_body]
pub fn from_utf8_lossy(bytes: &[u8]) -> (s: String)
    ensures
        s@ == utf8_lossy(bytes@),
        vstd::utf8::valid_utf8(bytes@) ==> s@ == vstd::utf8::decode_utf8(bytes@),
{
    String::from_utf8_lossy(bytes).to_string()
}

/// Parses `bytes` as a JSON value with `serde_json::from_slice` and reads the
/// string that `pointer` reaches (`Value::pointer`, `Value::as_str`). The
/// error is serde_json's message.
#[verifier::external_body]
pub fn json_str_at(bytes: &[u8], pointer: &str) -> (r: Result<Option<String>, String>)
    ensures
        r matches Ok(t) ==> json_pointer_str(bytes@, pointer@) == Some(
            match t {
                Some(s) => Some(s@),
                None => None,
            },
        ),
        r is Err ==> json_pointer_str(bytes@, pointer@) is None,
{
    match serde_json::from_slice::<serde_json::Value>(bytes) {
        Ok(v) => Ok(v.pointer(pointer).and_then(serde_json::Value::as_str).map(String::from)),
        Err(e) => Err(e.to_string()),
    }
}

/// Parses `text` as a JSON value with `serde_json::from_str` and reads its
/// string member `key` (`Value::get`, `Value::as_str`). The error is
/// serde_json's message.
#[verifier::external_body]
pub fn json_str_member(text: &str, key: &str) -> (r: Result<Option<String>, String>)
    ensures
        r matches Ok(t) ==> json_member_str(text@, key@) == Some(
            match t {
                Some(s) => Some(s@),
                None => None,
            },
        ),
        r is Err ==> json_member_str(text@, key@) is None,
{
    match serde_json::from_str::<serde_json::Value>(text) {
        Ok(v) => Ok(v.get(key).and_then(serde_json::Value::as_str).map(String::from)),
        Err(e) => Err(e.to_string()),
    }
}

/// Parses `text` as a JSON value with `serde_json::from_str` and reads its
/// boolean member `key` (`Value::get`, `Value::as_bool`). The error is
/// serde_json's message.
#[verifier::external_body]
pub fn json_bool_member(text: &str, key: &str) -> (r: Result<Option<bool>, String>)
    ensures
        r matches Ok(b) ==> json_member_bool(text@, key@) == Some(b),
        r is Err ==> json_member_bool(text@, key@) is None,
{
    match serde_json::from_str::<serde_json::Value>(text) {
        Ok(v) => Ok(v.get(key).and_then(serde_json::Value::as_bool)),
        Err(e) => Err(e.to_string()),
    }
}

} // verus!
