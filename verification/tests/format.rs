use sparkey::error::Error;
use sparkey::format::{decode, encode, Format, KeyFormatOptions, ValueFormatOptions};

#[test]
fn switches_go_before_the_named_format() {
    let plain = KeyFormatOptions { hex: false, base64: false, format: Format::utf8 };
    assert_eq!(plain.to_format(), Format::utf8);
    let named = KeyFormatOptions { hex: false, base64: false, format: Format::base64 };
    assert_eq!(named.to_format(), Format::base64);
    let hex = KeyFormatOptions { hex: true, base64: false, format: Format::base64 };
    assert_eq!(hex.to_format(), Format::hex);
    let both = KeyFormatOptions { hex: true, base64: true, format: Format::utf8 };
    assert_eq!(both.to_format(), Format::hex);
    let base64 = KeyFormatOptions { hex: false, base64: true, format: Format::hex };
    assert_eq!(base64.to_format(), Format::base64);

    let plain = ValueFormatOptions { hex: false, base64: false, format: Format::hex };
    assert_eq!(plain.to_format(), Format::hex);
    let hex = ValueFormatOptions { hex: true, base64: true, format: Format::utf8 };
    assert_eq!(hex.to_format(), Format::hex);
    let base64 = ValueFormatOptions { hex: false, base64: true, format: Format::utf8 };
    assert_eq!(base64.to_format(), Format::base64);
}

#[test]
fn hexadecimal_text() {
    assert_eq!(encode(Format::hex, vec![1, 2, 3, 15, 16]), Ok("0102030f10".to_string()));
    assert_eq!(encode(Format::hex, vec![0xf9, 0xb4, 0xca]), Ok("f9b4ca".to_string()));
    assert_eq!(encode(Format::hex, vec![]), Ok(String::new()));
    assert_eq!(decode(Format::hex, "48656c6c6f".to_string()), Ok(b"Hello".to_vec()));
    assert_eq!(decode(Format::hex, "F9b4Ca".to_string()), Ok(vec![0xf9, 0xb4, 0xca]));
    assert_eq!(decode(Format::hex, "123".to_string()), Err(Error::InvalidHex));
    assert_eq!(decode(Format::hex, "zz".to_string()), Err(Error::InvalidHex));
    assert_eq!(decode(Format::hex, "0g".to_string()), Err(Error::InvalidHex));
    assert_eq!(decode(Format::hex, "é".to_string()), Err(Error::InvalidHex));
    assert_eq!(decode(Format::hex, "aé1".to_string()), Err(Error::InvalidHex));
    assert_eq!(decode(Format::hex, "".to_string()), Ok(vec![]));
    assert_eq!(decode(Format::hex, "00ff7F".to_string()), Ok(vec![0, 255, 127]));
}

#[test]
fn base64_text() {
    assert_eq!(
        encode(Format::base64, b"hello world".to_vec()),
        Ok("aGVsbG8gd29ybGQ=".to_string())
    );
    assert_eq!(
        decode(Format::base64, "aGVsbG8gd29ybGQ=".to_string()),
        Ok(b"hello world".to_vec())
    );
    assert_eq!(decode(Format::base64, "a".to_string()), Err(Error::InvalidBase64));
    assert_eq!(decode(Format::base64, "####".to_string()), Err(Error::InvalidBase64));
}

#[test]
fn plain_text() {
    assert_eq!(decode(Format::utf8, "käse".to_string()), Ok("käse".as_bytes().to_vec()));
    assert_eq!(encode(Format::utf8, "käse".as_bytes().to_vec()), Ok("käse".to_string()));
    assert_eq!(encode(Format::utf8, vec![0xff, 0xfe]), Err(Error::InvalidUtf8));
    assert_eq!(encode(Format::utf8, vec![]), Ok(String::new()));
}
