//! Encoding of text values with bincode, the format in which the store
//! keeps its values.

use vstd::prelude::*;
use crate::error::Error;

verus! {

#[verifier::external_type_specification]
#[verifier::external_body]
pub struct ExBincodeErrorKind(bincode::ErrorKind);

/// The bytes that `bincode::serialize` produces for a string with this text.
pub uninterp spec fn bincode_text(text: Seq<char>) -> Seq<u8>;

/// The text that `bincode::deserialize::<String>` reads from these bytes, or
/// `None` where it fails.
pub uninterp spec fn bincode_read_text(bytes: Seq<u8>) -> Option<Seq<char>>;

/// The number that the little-endian bytes `b` stand for.
pub open spec fn le_value(b: Seq<u8>) -> nat
    decreases b.len(),
{
    if b.len() == 0 {
        0
    } else {
        b[0] as nat + 256 * le_value(b.skip(1))
    }
}

/// `bincode::serialize` applied to a `str`. It succeeds: bincode's
/// `serialize` uses an `Infinite` size limit, whose `add` never fails, and
/// writes into a `Vec`, whose writes never fail. The bytes are `bincode_text`
/// of the text, and `bincode::deserialize::<String>` reads them back as the
/// same text: bincode's source writes the length as a little-endian `u64`
/// followed by the UTF-8 bytes, and reads a `String` as that length followed
/// by that many bytes of valid UTF-8. So the first eight bytes hold, little
/// endian, the number of bytes that follow them.
#[verifier::external_body]
fn bincode_serialize_str(s: &str) -> (r: Result<Vec<u8>, Box<bincode::ErrorKind>>)
    ensures
        r is Ok,
        r matches Ok(b) ==> b@ == bincode_text(s@) && bincode_read_text(b@) == Some(s@),
        r matches Ok(b) ==> b@.len() >= 8 && le_value(b@.take(8)) == b@.len() - 8,
{
    bincode::serialize(s)
}

/// `bincode::deserialize::<String>` applied to `bytes`: it succeeds exactly
/// when `bincode_read_text` gives a text, and gives that text.
#[verifier::external_body]
fn bincode_deserialize_string(bytes: &[u8]) -> (r: Result<String, Box<bincode::ErrorKind>>)
    ensures
        (r is Ok) == (bincode_read_text(bytes@) is Some),
        r matches Ok(s) ==> bincode_read_text(bytes@) == Some(s@),
{
    bincode::deserialize::<String>(bytes)
}

/// The text that `Display` writes for a bincode error. Nothing is promised
/// of the text.
#[verifier::external_body]
fn bincode_error_text(e: &bincode::ErrorKind) -> String {
    e.to_string()
}

/// `prefix` followed by the description of `e`, whose text bincode
/// decides.
fn describe(prefix: &str, e: &bincode::ErrorKind) -> (s: String)
    ensures
        exists|t: Seq<char>| s@ == prefix@ + t,
{
    let mut s = String::from_str(prefix);
    let t = bincode_error_text(e);
    s.append(t.as_str());
    assert(s@ == prefix@ + t@);
    s
}

/// Encodes a text value.
pub fn encode_text(value: &str) -> (r: Result<Vec<u8>, Error>)
    ensures
        r matches Ok(b) && b@ == bincode_text(value@) && bincode_read_text(b@) == Some(value@),
        bincode_text(value@).len() >= 8,
        le_value(bincode_text(value@).take(8)) == bincode_text(value@).len() - 8,
{
    match bincode_serialize_str(value) {
        Ok(b) => Ok(b),
        Err(e) => Err(Error::Serialize(describe("failed to serialize value: ", &e))),
    }
}

/// Decodes a text value.
pub fn decode_text(bytes: &[u8]) -> (r: Result<String, Error>)
    ensures
        (r is Ok) == (bincode_read_text(bytes@) is Some),
        r matches Ok(s) ==> bincode_read_text(bytes@) == Some(s@),
        r matches Err(e) ==> decode_failure(e),
{
    match bincode_deserialize_string(bytes) {
        Ok(s) => Ok(s),
        Err(e) => Err(Error::Serialize(describe("failed to deserialize: ", &e))),
    }
}

/// `r` is what decoding `bytes` as text gives: the text when the bytes
/// hold one, a serialization error otherwise.
pub open spec fn decodes_to(r: Result<String, Error>, bytes: Seq<u8>) -> bool {
    match bincode_read_text(bytes) {
        Some(t) => r matches Ok(s) && s@ == t,
        None => r matches Err(e) && decode_failure(e),
    }
}

/// `e` is the error of a failed decoding: a serialization error whose
/// message starts with "failed to deserialize: ", followed by bincode's
/// description.
pub open spec fn decode_failure(e: Error) -> bool {
    match e {
        Error::Serialize(m) => exists|t: Seq<char>| m@ == "failed to deserialize: "@ + t,
        _ => false,
    }
}

/// `out` is `raw` with every value decoded as text, pair by pair.
pub open spec fn decodes_pairs(out: Seq<(Seq<char>, Seq<char>)>, raw: Seq<(Seq<char>, Seq<u8>)>) -> bool {
    &&& out.len() == raw.len()
    &&& forall|i: int|
        0 <= i < raw.len() ==> #[trigger] out[i].0 == raw[i].0 && bincode_read_text(raw[i].1)
            == Some(out[i].1)
}

/// Some value of `raw` does not hold a text.
pub open spec fn some_undecodable(raw: Seq<(Seq<char>, Seq<u8>)>) -> bool {
    exists|i: int| 0 <= i < raw.len() && (#[trigger] bincode_read_text(raw[i].1)) is None
}

/// A list of text pairs taken by their views.
pub open spec fn text_pairs(r: Seq<(String, String)>) -> Seq<(Seq<char>, Seq<char>)> {
    r.map_values(|p: (String, String)| (p.0@, p.1@))
}

/// Decodes the value of every pair as text; fails with the first value that
/// does not hold one.
pub fn decode_pairs(items: &Vec<(String, Vec<u8>)>) -> (r: Result<Vec<(String, String)>, Error>)
    ensures
        r matches Ok(out) ==> decodes_pairs(
            text_pairs(out@),
            items@.map_values(|p: (String, Vec<u8>)| (p.0@, p.1@)),
        ),
        r matches Err(e) ==> decode_failure(e) && some_undecodable(
            items@.map_values(|p: (String, Vec<u8>)| (p.0@, p.1@)),
        ),
{
    let ghost raw = items@.map_values(|p: (String, Vec<u8>)| (p.0@, p.1@));
    let mut out: Vec<(String, String)> = Vec::new();
    let mut i: usize = 0;
    while i < items.len()
        invariant
            i <= items.len(),
            raw == items@.map_values(|p: (String, Vec<u8>)| (p.0@, p.1@)),
            out@.len() == i,
            forall|j: int|
                0 <= j < i ==> #[trigger] text_pairs(out@)[j].0 == raw[j].0 && bincode_read_text(
                    raw[j].1,
                ) == Some(text_pairs(out@)[j].1),
        decreases items.len() - i,
    {
        match decode_text(items[i].1.as_slice()) {
            Ok(text) => {
                let k = items[i].0.clone();
                let ghost before = text_pairs(out@);
                out.push((k, text));
                proof {
                    assert(text_pairs(out@) =~= before.push((raw[i as int].0, text@)));
                    assert forall|j: int| 0 <= j < i + 1 implies #[trigger] text_pairs(out@)[j].0
                        == raw[j].0 && bincode_read_text(raw[j].1) == Some(text_pairs(out@)[j].1) by {
                        if j < i {
                            assert(text_pairs(out@)[j] == before[j]);
                        }
                    }
                }
            },
            Err(e) => {
                assert(bincode_read_text(raw[i as int].1) is None);
                return Err(e);
            },
        }
        i = i + 1;
    }
    Ok(out)
}

} // verus!
