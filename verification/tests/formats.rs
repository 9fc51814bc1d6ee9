use byteconv::args::{InputFormat, OutputFormat, Pem};

#[test]
fn resolve_is_case_insensitive() {
    assert!(matches!(InputFormat::from_str("hex"), Ok(InputFormat::Hex)));
    assert!(matches!(InputFormat::from_str("Hex"), Ok(InputFormat::Hex)));
    assert!(matches!(InputFormat::from_str("HEX"), Ok(InputFormat::Hex)));
    assert!(matches!(OutputFormat::from_str("hex"), Ok(OutputFormat::Hex)));
    assert!(matches!(OutputFormat::from_str("Hex"), Ok(OutputFormat::Hex)));
    assert!(matches!(OutputFormat::from_str("HEX"), Ok(OutputFormat::Hex)));
}

#[test]
fn resolve_every_input_token() {
    assert_eq!(InputFormat::from_str("dec").unwrap(), InputFormat::Dec);
    assert_eq!(InputFormat::from_str("hex").unwrap(), InputFormat::Hex);
    assert_eq!(
        InputFormat::from_str("b64").unwrap(),
        InputFormat::Base64 { url_safe: false }
    );
    assert_eq!(
        InputFormat::from_str("base64").unwrap(),
        InputFormat::Base64 { url_safe: false }
    );
    assert_eq!(
        InputFormat::from_str("B64URL").unwrap(),
        InputFormat::Base64 { url_safe: true }
    );
    assert_eq!(InputFormat::from_str("bin").unwrap(), InputFormat::Bin);
    assert_eq!(InputFormat::from_str("pem").unwrap(), InputFormat::Pem);
}

#[test]
fn resolve_every_output_token() {
    assert_eq!(OutputFormat::from_str("hex").unwrap(), OutputFormat::Hex);
    assert_eq!(
        OutputFormat::from_str("b64").unwrap(),
        OutputFormat::Base64 { url_safe: false }
    );
    assert_eq!(
        OutputFormat::from_str("Base64").unwrap(),
        OutputFormat::Base64 { url_safe: false }
    );
    assert_eq!(
        OutputFormat::from_str("b64url").unwrap(),
        OutputFormat::Base64 { url_safe: true }
    );
    assert_eq!(OutputFormat::from_str("bin").unwrap(), OutputFormat::Bin);
    assert_eq!(
        OutputFormat::from_str("crt").unwrap(),
        OutputFormat::Pem(Pem::Crt)
    );
    assert_eq!(
        OutputFormat::from_str("csr").unwrap(),
        OutputFormat::Pem(Pem::Csr)
    );
    assert_eq!(
        OutputFormat::from_str("key").unwrap(),
        OutputFormat::Pem(Pem::PrivateKey)
    );
    assert_eq!(
        OutputFormat::from_str("ekey").unwrap(),
        OutputFormat::Pem(Pem::EncryptedPrivateKey)
    );
    assert_eq!(
        OutputFormat::from_str("pub").unwrap(),
        OutputFormat::Pem(Pem::PublicKey)
    );
}

#[test]
fn resolve_rejects_unknown_tokens() {
    let e = InputFormat::from_str("b65").unwrap_err();
    assert_eq!(e.0, "b65");
    assert!(InputFormat::from_str("").is_err());
    assert!(InputFormat::from_str("hexx").is_err());
    assert!(InputFormat::from_str("crt").is_err());
    let e = OutputFormat::from_str("dec").unwrap_err();
    assert_eq!(e.0, "dec");
    assert!(OutputFormat::from_str("pem").is_err());
}

#[test]
fn whitespace_policy_per_format() {
    assert!(!InputFormat::Base64 { url_safe: false }.whitespace_is_relevant());
    assert!(!InputFormat::Base64 { url_safe: true }.whitespace_is_relevant());
    assert!(!InputFormat::Hex.whitespace_is_relevant());
    assert!(InputFormat::Dec.whitespace_is_relevant());
    assert!(InputFormat::Bin.whitespace_is_relevant());
    assert!(InputFormat::Pem.whitespace_is_relevant());
}

#[test]
fn pem_tag_per_kind() {
    assert_eq!(Pem::Crt.tag(), "CERTIFICATE");
    assert_eq!(Pem::Csr.tag(), "CERTIFICATE REQUEST");
    assert_eq!(Pem::PrivateKey.tag(), "PRIVATE KEY");
    assert_eq!(Pem::EncryptedPrivateKey.tag(), "ENCRYPTED PRIVATE KEY");
    assert_eq!(Pem::PublicKey.tag(), "PUBLIC KEY");
}
