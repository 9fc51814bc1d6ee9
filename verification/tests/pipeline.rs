use byteconv::args::{InputFormat, OutputFormat, Pem};
use byteconv::codec::{convert, decode, decode_dec, encode, strip_whitespace, DecodeError};

const B64: InputFormat = InputFormat::Base64 { url_safe: false };
const B64_OUT: OutputFormat = OutputFormat::Base64 { url_safe: false };

#[test]
fn hex_to_base64() {
    let out = convert(b"68656c6c6f".to_vec(), InputFormat::Hex, B64_OUT).unwrap();
    assert_eq!(out, b"aGVsbG8=".to_vec());
}

#[test]
fn base64_to_hex() {
    let out = convert(b"aGVsbG8=".to_vec(), B64, OutputFormat::Hex).unwrap();
    assert_eq!(out, b"68656c6c6f".to_vec());
}

#[test]
fn dec_to_hex() {
    let out = convert(
        b"104 101 108 108 111".to_vec(),
        InputFormat::Dec,
        OutputFormat::Hex,
    )
    .unwrap();
    assert_eq!(out, b"68656c6c6f".to_vec());
}

#[test]
fn hex_decode_failure_produces_no_output() {
    let r = convert(b"zz".to_vec(), InputFormat::Hex, B64_OUT);
    assert_eq!(r.unwrap_err(), DecodeError::Hex);
}

#[test]
fn dec_range_enforced() {
    assert_eq!(
        decode(b"256".to_vec(), InputFormat::Dec).unwrap_err(),
        DecodeError::ByteRangeOrParse
    );
    assert_eq!(decode(b"255".to_vec(), InputFormat::Dec).unwrap(), vec![0xFF]);
    assert_eq!(decode(b"0".to_vec(), InputFormat::Dec).unwrap(), vec![0x00]);
}

#[test]
fn dec_skips_any_nondigit_separators() {
    let out = decode_dec(b"104,101;108x108--111").unwrap();
    assert_eq!(out, b"hello".to_vec());
    assert_eq!(decode_dec(b"  ").unwrap(), Vec::<u8>::new());
    assert_eq!(decode_dec(b"007").unwrap(), vec![7]);
    assert!(decode_dec(b"1 2 999 3").is_err());
}

#[test]
fn round_trip_every_self_inverse_format() {
    let payload: Vec<u8> = vec![0, 1, 2, 254, 255, 104, 101, 108, 108, 111, 10, 32];
    let cases = [
        (OutputFormat::Hex, InputFormat::Hex),
        (B64_OUT, B64),
        (
            OutputFormat::Base64 { url_safe: true },
            InputFormat::Base64 { url_safe: true },
        ),
        (OutputFormat::Bin, InputFormat::Bin),
    ];
    for (to, from) in cases {
        let encoded = encode(payload.clone(), to);
        let decoded = decode(encoded, from).unwrap();
        assert_eq!(decoded, payload);
    }
}

#[test]
fn round_trip_pem_every_kind() {
    let payload: Vec<u8> = (0u16..80).map(|v| (v % 256) as u8).collect();
    let kinds = [
        Pem::Crt,
        Pem::Csr,
        Pem::PrivateKey,
        Pem::EncryptedPrivateKey,
        Pem::PublicKey,
    ];
    for kind in kinds {
        let armored = encode(payload.clone(), OutputFormat::Pem(kind));
        let decoded = decode(armored, InputFormat::Pem).unwrap();
        assert_eq!(decoded, payload);
    }
}

#[test]
fn whitespace_insignificant_for_hex_and_base64() {
    let plain = decode(b"68656c6c6f".to_vec(), InputFormat::Hex).unwrap();
    let spaced = decode(b" 68 65\t6c\r\n6c 6f ".to_vec(), InputFormat::Hex).unwrap();
    assert_eq!(plain, spaced);
    let plain = decode(b"aGVsbG8=".to_vec(), B64).unwrap();
    let spaced = decode(b"aGVs\nbG8 =\t".to_vec(), B64).unwrap();
    assert_eq!(plain, spaced);
}

#[test]
fn whitespace_significant_for_bin() {
    let raw = b" h e\tl\nl o \r".to_vec();
    let decoded = decode(raw.clone(), InputFormat::Bin).unwrap();
    assert_eq!(decoded, raw);
}

#[test]
fn pem_empty_certificate_armor() {
    let out = encode(Vec::new(), OutputFormat::Pem(Pem::Crt));
    assert_eq!(
        out,
        b"-----BEGIN CERTIFICATE-----\n-----END CERTIFICATE-----\n".to_vec()
    );
}

#[test]
fn pem_armor_exact_for_short_contents() {
    let out = convert(
        b"68656c6c6f".to_vec(),
        InputFormat::Hex,
        OutputFormat::Pem(Pem::PublicKey),
    )
    .unwrap();
    assert_eq!(
        out,
        b"-----BEGIN PUBLIC KEY-----\naGVsbG8=\n-----END PUBLIC KEY-----\n".to_vec()
    );
}

#[test]
fn pem_body_wraps_at_64_characters() {
    // 60 bytes encode to 80 Base64 characters: one full line and one of 16
    let payload: Vec<u8> = vec![0u8; 60];
    let armored = encode(payload.clone(), OutputFormat::Pem(Pem::Crt));
    let text = String::from_utf8(armored.clone()).unwrap();
    let lines: Vec<&str> = text.lines().collect();
    assert_eq!(lines.len(), 4);
    assert_eq!(lines[0], "-----BEGIN CERTIFICATE-----");
    assert_eq!(lines[1].len(), 64);
    assert_eq!(lines[2].len(), 16);
    assert_eq!(lines[3], "-----END CERTIFICATE-----");
    assert_eq!(decode(armored, InputFormat::Pem).unwrap(), payload);
}

#[test]
fn every_decode_error_variant_reachable() {
    assert_eq!(
        decode(b"!!".to_vec(), B64).unwrap_err(),
        DecodeError::Base64
    );
    assert_eq!(
        decode(b"abc".to_vec(), InputFormat::Hex).unwrap_err(),
        DecodeError::Hex
    );
    assert_eq!(
        decode(b"999".to_vec(), InputFormat::Dec).unwrap_err(),
        DecodeError::ByteRangeOrParse
    );
    assert_eq!(
        decode(b"no armor here".to_vec(), InputFormat::Pem).unwrap_err(),
        DecodeError::Pem
    );
}

#[test]
fn empty_inputs() {
    assert_eq!(decode(Vec::new(), InputFormat::Hex).unwrap(), Vec::<u8>::new());
    assert_eq!(decode(Vec::new(), B64).unwrap(), Vec::<u8>::new());
    assert_eq!(decode(Vec::new(), InputFormat::Dec).unwrap(), Vec::<u8>::new());
    assert_eq!(decode(Vec::new(), InputFormat::Bin).unwrap(), Vec::<u8>::new());
    assert!(decode(Vec::new(), InputFormat::Pem).is_err());
    assert_eq!(encode(Vec::new(), OutputFormat::Hex), Vec::<u8>::new());
    assert_eq!(encode(Vec::new(), B64_OUT), Vec::<u8>::new());
}

#[test]
fn encoders_transform_their_input() {
    assert_eq!(encode(vec![0xDE, 0xAD], OutputFormat::Hex), b"dead".to_vec());
    assert_eq!(encode(vec![0, 0, 0], B64_OUT), b"AAAA".to_vec());
    assert_eq!(
        encode(vec![0xFB, 0xFF], OutputFormat::Base64 { url_safe: true }),
        b"-_8=".to_vec()
    );
    assert_eq!(
        encode(vec![0xFB, 0xFF], B64_OUT),
        b"+/8=".to_vec()
    );
    assert_eq!(decode(b"AAAA".to_vec(), B64).unwrap(), vec![0, 0, 0]);
    assert_eq!(
        decode(b"-_8=".to_vec(), InputFormat::Base64 { url_safe: true }).unwrap(),
        vec![0xFB, 0xFF]
    );
    assert_eq!(
        decode(b"DEAD".to_vec(), InputFormat::Hex).unwrap(),
        vec![0xDE, 0xAD]
    );
}

#[test]
fn strip_whitespace_removes_only_ascii_whitespace() {
    assert_eq!(strip_whitespace(b" a b\tc\r\nd\x0c"), b"abcd".to_vec());
    assert_eq!(strip_whitespace(b""), Vec::<u8>::new());
    assert_eq!(strip_whitespace(b"xyz"), b"xyz".to_vec());
}
