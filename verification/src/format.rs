//! How keys and values are written as text: as they are, in hexadecimal, or
//! in base64.

use crate::error::Error;
use vstd::prelude::*;
use vstd::slice::slice_to_vec;
use vstd::utf8::{decode_utf8, encode_utf8, valid_utf8};

verus! {

/// A way to write bytes as text.
#[allow(non_camel_case_types)]
#[derive(Clone, Copy, Debug, PartialEq, Eq, Structural)]
pub enum Format {
    utf8,
    hex,
    base64,
}

/// The format that a pair of switches and a named format ask for: a switch
/// goes before the name, and hexadecimal before base64.
pub open spec fn spec_to_format(hex: bool, base64: bool, format: Format) -> Format {
    if hex {
        Format::hex
    } else if base64 {
        Format::base64
    } else {
        format
    }
}

/// How the user asked for keys to be written.
#[derive(Clone, Copy, Debug)]
pub struct KeyFormatOptions {
    /// Whether keys are hexadecimal.
    pub hex: bool,
    /// Whether keys are base64.
    pub base64: bool,
    /// The format of keys where neither switch is set.
    pub format: Format,
}

/// How the user asked for values to be written.
#[derive(Clone, Copy, Debug)]
pub struct ValueFormatOptions {
    /// Whether values are hexadecimal.
    pub hex: bool,
    /// Whether values are base64.
    pub base64: bool,
    /// The format of values where neither switch is set.
    pub format: Format,
}

impl KeyFormatOptions {
    /// The format that these options ask for.
    pub fn to_format(&self) -> (format: Format)
        ensures
            format == spec_to_format(self.hex, self.base64, self.format),
    {
        if self.hex {
            Format::hex
        } else if self.base64 {
            Format::base64
        } else {
            self.format
        }
    }
}

impl ValueFormatOptions {
    /// The format that these options ask for.
    pub fn to_format(&self) -> (format: Format)
        ensures
            format == spec_to_format(self.hex, self.base64, self.format),
    {
        if self.hex {
            Format::hex
        } else if self.base64 {
            Format::base64
        } else {
            self.format
        }
    }
}

/// The lowercase hexadecimal digit for `n`, which is below sixteen.
pub open spec fn spec_hex_digit(n: u8) -> char {
    if n < 10 {
        (48 + n) as char
    } else {
        (87 + n) as char
    }
}

/// The hexadecimal text of `bytes`: two lowercase digits for every byte,
/// the high one first.
pub open spec fn spec_hex(bytes: Seq<u8>) -> Seq<char> {
    Seq::new(
        2 * bytes.len(),
        |i: int|
            spec_hex_digit(
                if i % 2 == 0 {
                    bytes[i / 2] / 16
                } else {
                    bytes[i / 2] % 16
                },
            ),
    )
}

/// The number that the hexadecimal digit `c` stands for, in either case, or
/// nothing where `c` is no such digit.
pub open spec fn spec_hex_value(c: char) -> Option<u8> {
    let n = c as u32;
    if 48 <= n <= 57 {
        Some((n - 48) as u8)
    } else if 65 <= n <= 70 {
        Some((n - 55) as u8)
    } else if 97 <= n <= 102 {
        Some((n - 87) as u8)
    } else {
        None
    }
}

/// Whether every character of `text` is a hexadecimal digit.
pub open spec fn spec_all_hex(text: Seq<char>) -> bool {
    forall|i: int| 0 <= i < text.len() ==> spec_hex_value(#[trigger] text[i]) is Some
}

/// The bytes that the hexadecimal text `text` stands for: one byte for
/// every two digits, the high one first; nothing where a character is no
/// digit or the digits are odd in number.
pub open spec fn spec_hex_decode(text: Seq<char>) -> Option<Seq<u8>> {
    if text.len() % 2 != 0 || !spec_all_hex(text) {
        None
    } else {
        Some(
            Seq::new(
                text.len() / 2,
                |i: int|
                    (spec_hex_value(text[2 * i])->Some_0 * 16 + spec_hex_value(
                        text[2 * i + 1],
                    )->Some_0) as u8,
            ),
        )
    }
}

/// What `base64::encode` gives for `bytes`.
pub uninterp spec fn base64_encoded(bytes: Seq<u8>) -> Seq<char>;

/// What `base64::decode` gives for `text`: the bytes, or nothing where it
/// fails.
pub uninterp spec fn base64_decoded(text: Seq<char>) -> Option<Seq<u8>>;

/// Calls `hex::encode`, which writes every byte as two lowercase
/// hexadecimal digits.
#[verifier::external_body]
fn hex_encode(data: &[u8]) -> (text: String)
    ensures
        text@ == spec_hex(data@),
{
    hex::encode(data)
}

/// Calls `hex::decode` and drops the detail of a failure. It reads the
/// bytes of `text` two by two as digits in either case, and fails on an odd
/// number of bytes and on a byte that is no digit; a character outside ASCII
/// has no byte that is one.
#[verifier::external_body]
fn hex_decode(text: &str) -> (r: Option<Vec<u8>>)
    ensures
        match r {
            Some(bytes) => spec_hex_decode(text@) == Some(bytes@),
            None => spec_hex_decode(text@).is_none(),
        },
{
    hex::decode(text).ok()
}

/// Calls `base64::encode`, which writes in the standard alphabet with
/// padding. The outcome depends on `data` alone.
#[verifier::external_body]
fn base64_encode(data: &[u8]) -> (text: String)
    ensures
        text@ == base64_encoded(data@),
{
    base64::encode(data)
}

/// Calls `base64::decode` and drops the detail of a failure. The outcome
/// depends on `text` alone.
#[verifier::external_body]
fn base64_decode(text: &str) -> (r: Option<Vec<u8>>)
    ensures
        match r {
            Some(bytes) => base64_decoded(text@) == Some(bytes@),
            None => base64_decoded(text@).is_none(),
        },
{
    base64::decode(text).ok()
}

/// Calls `String::from_utf8`, which gives the text that `data` encodes
/// where `data` is valid UTF-8 and fails else, and drops the detail of a
/// failure.
#[verifier::external_body]
fn string_from_utf8(data: Vec<u8>) -> (r: Option<String>)
    ensures
        match r {
            Some(text) => valid_utf8(data@) && text@ == decode_utf8(data@),
            None => !valid_utf8(data@),
        },
{
    String::from_utf8(data).ok()
}

/// The bytes that `data` stands for in `format`, or the failure of reading
/// it in that format.
pub open spec fn spec_decode(format: Format, data: Seq<char>) -> Result<Seq<u8>, Error> {
    match format {
        Format::utf8 => Ok(encode_utf8(data)),
        Format::hex => match spec_hex_decode(data) {
            Some(bytes) => Ok(bytes),
            None => Err(Error::InvalidHex),
        },
        Format::base64 => match base64_decoded(data) {
            Some(bytes) => Ok(bytes),
            None => Err(Error::InvalidBase64),
        },
    }
}

/// The text that stands for `data` in `format`, or `InvalidUtf8` where the
/// bytes are to be written as they are and are no text.
pub open spec fn spec_encode(format: Format, data: Seq<u8>) -> Result<Seq<char>, Error> {
    match format {
        Format::utf8 => if valid_utf8(data) {
            Ok(decode_utf8(data))
        } else {
            Err(Error::InvalidUtf8)
        },
        Format::hex => Ok(spec_hex(data)),
        Format::base64 => Ok(base64_encoded(data)),
    }
}

/// Reads the bytes that `data` stands for in `format`.
pub fn decode(format: Format, data: String) -> (r: Result<Vec<u8>, Error>)
    ensures
        match r {
            Ok(bytes) => spec_decode(format, data@) == Ok::<Seq<u8>, Error>(bytes@),
            Err(e) => spec_decode(format, data@) == Err::<Seq<u8>, Error>(e),
        },
{
    match format {
        Format::utf8 => Ok(slice_to_vec(data.as_str().as_bytes())),
        Format::hex => match hex_decode(data.as_str()) {
            Some(bytes) => Ok(bytes),
            None => Err(Error::InvalidHex),
        },
        Format::base64 => match base64_decode(data.as_str()) {
            Some(bytes) => Ok(bytes),
            None => Err(Error::InvalidBase64),
        },
    }
}

/// Writes `data` as text in `format`.
pub fn encode(format: Format, data: Vec<u8>) -> (r: Result<String, Error>)
    ensures
        match r {
            Ok(text) => spec_encode(format, data@) == Ok::<Seq<char>, Error>(text@),
            Err(e) => spec_encode(format, data@) == Err::<Seq<char>, Error>(e),
        },
{
    match format {
        Format::utf8 => match string_from_utf8(data) {
            Some(text) => Ok(text),
            None => Err(Error::InvalidUtf8),
        },
        Format::hex => Ok(hex_encode(data.as_slice())),
        Format::base64 => Ok(base64_encode(data.as_slice())),
    }
}

} // verus!
