//! MessagePack through the `rmpv` crate: the file-name metadata sent with a
//! file, and the keys of a submitted form.

use vstd::prelude::*;
use vstd::utf8::encode_utf8;

verus! {

/// The MessagePack string header for a length `n < 2^32`: fixstr below 32,
/// then str8, str16 and str32, the length written big-endian.
pub open spec fn msgpack_str_header(n: nat) -> Seq<u8> {
    if n < 32 {
        seq![(0xa0 + n) as u8]
    } else if n < 0x100 {
        seq![0xd9u8, n as u8]
    } else if n < 0x1_0000 {
        seq![0xdau8, (n / 0x100) as u8, (n % 0x100) as u8]
    } else {
        seq![
            0xdbu8,
            (n / 0x100_0000) as u8,
            ((n / 0x1_0000) % 0x100) as u8,
            ((n / 0x100) % 0x100) as u8,
            (n % 0x100) as u8,
        ]
    }
}

/// The MessagePack string holding the UTF-8 bytes `bytes`. The encoder
/// takes the length modulo `2^32`.
pub open spec fn msgpack_str(bytes: Seq<u8>) -> Seq<u8> {
    msgpack_str_header(bytes.len() % 0x1_0000_0000) + bytes
}

/// The MessagePack map with the one entry `key => value`, both strings.
pub open spec fn msgpack_single_map(key: Seq<char>, value: Seq<char>) -> Seq<u8> {
    seq![0x81u8] + msgpack_str(encode_utf8(key)) + msgpack_str(encode_utf8(value))
}

/// Calls `rmpv::encode::write_value` on the map `{key: value}` into a new
/// buffer. Trusted: the bytes are a fixmap of one entry followed by the two
/// strings, each with the shortest string header for its byte length (the
/// encoder writes into a `Vec`, which cannot fail).
#[verifier::external_body]
fn encode_single_map(key: &str, value: &str) -> (r: Vec<u8>)
    ensures
        r@ == msgpack_single_map(key@, value@),
{
    let mut buf = Vec::new();
    let map = rmpv::Value::Map(vec![(rmpv::Value::from(key), rmpv::Value::from(value))]);
    let _ = rmpv::encode::write_value(&mut buf, &map);
    buf
}

/// The metadata sent with a file: the map `{"name": file_name}`.
pub fn file_name_metadata(file_name: &str) -> (r: Vec<u8>)
    ensures
        r@ == msgpack_single_map("name"@, file_name@),
{
    encode_single_map("name", file_name)
}


/// The keys of the MessagePack map that `data` starts with, in order, each
/// as its text (`None` for a key that is no UTF-8 string); `None` when
/// `data` does not start with a map.
pub uninterp spec fn msgpack_map_keys_of(data: Seq<u8>) -> Option<Seq<Option<Seq<char>>>>;

/// The views of a sequence of optional strings.
pub open spec fn key_views(keys: Seq<Option<String>>) -> Seq<Option<Seq<char>>> {
    keys.map_values(
        |k: Option<String>|
            match k {
                Some(s) => Some(s@),
                None => None,
            },
    )
}

/// Calls `rmpv::decode::read_value` on `data` and, when it reads a map,
/// gives each pair's key as `Value::as_str` gives it. Trusted: the result
/// is `msgpack_map_keys_of(data)`, a function of the bytes alone.
#[verifier::external_body]
pub(crate) fn msgpack_map_keys(data: &[u8]) -> (r: Option<Vec<Option<String>>>)
    ensures
        match r {
            Some(keys) => msgpack_map_keys_of(data@) == Some(key_views(keys@)),
            None => msgpack_map_keys_of(data@) is None,
        },
{
    match rmpv::decode::read_value(&mut &data[..]) {
        Ok(rmpv::Value::Map(pairs)) => Some(
            pairs.iter().map(|(k, _)| k.as_str().map(|s| s.to_string())).collect(),
        ),
        _ => None,
    }
}

} // verus!
