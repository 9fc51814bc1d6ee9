//! Format descriptors: which encodings exist, how their selector tokens
//! resolve, and whether whitespace is significant payload for each format.

use vstd::prelude::*;

verus! {

/// Supported conversion formats for the input side.
#[derive(Debug, Copy, Clone, PartialEq, Eq, Structural)]
pub enum InputFormat {
    Base64 { url_safe: bool },
    Hex,
    Dec,
    Bin,
    Pem,
}

/// Supported conversion formats for the output side.
#[derive(Debug, Copy, Clone, PartialEq, Eq, Structural)]
pub enum OutputFormat {
    Base64 { url_safe: bool },
    Hex,
    Bin,
    Pem(Pem),
}

/// The PEM envelope kinds an output can be wrapped in.
#[derive(Debug, Copy, Clone, PartialEq, Eq, Structural)]
pub enum Pem {
    Crt,
    Csr,
    PrivateKey,
    EncryptedPrivateKey,
    PublicKey,
}

/// Error while parsing a format selector token; carries the invalid token.
#[derive(Debug)]
pub struct ParseFormatError(pub String);

/// The resolved pair of format selectors a single run works with.
#[derive(Debug, Copy, Clone)]
pub struct Args {
    /// How the input bytes are to be interpreted.
    pub from: InputFormat,
    /// How the canonical bytes are to be rendered.
    pub to: OutputFormat,
}

/// The character code compared when tokens are matched: ASCII uppercase
/// letters are mapped to their lowercase counterparts, all else is kept.
pub open spec fn lower_code(c: char) -> u32 {
    if 65 <= c as u32 && c as u32 <= 90 {
        (c as u32 + 32) as u32
    } else {
        c as u32
    }
}

/// ASCII-case-insensitive equality of two character sequences.
pub open spec fn eq_ignore_case(a: Seq<char>, b: Seq<char>) -> bool {
    a.len() == b.len() && forall|i: int| 0 <= i < a.len() ==> lower_code(a[i]) == lower_code(b[i])
}

/// Compare two strings for equality ignoring ASCII case.
fn eq_ignore_ascii_case(a: &str, b: &str) -> (r: bool)
    ensures
        r == eq_ignore_case(a@, b@),
{
    let alen = a.unicode_len();
    let blen = b.unicode_len();
    if alen != blen {
        return false;
    }
    let mut i: usize = 0;
    while i < alen
        invariant
            alen == a@.len(),
            blen == b@.len(),
            alen == blen,
            i <= alen,
            forall|j: int| 0 <= j < i ==> lower_code(a@[j]) == lower_code(b@[j]),
        decreases alen - i,
    {
        let ua = a.get_char(i) as u32;
        let ub = b.get_char(i) as u32;
        let la = if 65 <= ua && ua <= 90 {
            ua + 32
        } else {
            ua
        };
        let lb = if 65 <= ub && ub <= 90 {
            ub + 32
        } else {
            ub
        };
        if la != lb {
            return false;
        }
        i = i + 1;
    }
    true
}

impl InputFormat {
    /// Whether whitespace bytes may change the payload content.
    pub open spec fn spec_whitespace_is_relevant(self) -> bool {
        match self {
            InputFormat::Base64 { .. } | InputFormat::Hex => false,
            InputFormat::Dec | InputFormat::Bin | InputFormat::Pem => true,
        }
    }

    /// Whether whitespaces may change the payload content.
    pub fn whitespace_is_relevant(&self) -> (r: bool)
        ensures
            r == self.spec_whitespace_is_relevant(),
    {
        match self {
            InputFormat::Base64 { .. } | InputFormat::Hex => false,
            InputFormat::Dec | InputFormat::Bin | InputFormat::Pem => true,
        }
    }

    /// The input format a selector token resolves to, if any; matching is
    /// exact up to ASCII case.
    pub open spec fn spec_from_str(s: Seq<char>) -> Option<InputFormat> {
        if eq_ignore_case(s, "dec"@) {
            Some(InputFormat::Dec)
        } else if eq_ignore_case(s, "hex"@) {
            Some(InputFormat::Hex)
        } else if eq_ignore_case(s, "b64"@) || eq_ignore_case(s, "base64"@) {
            Some(InputFormat::Base64 { url_safe: false })
        } else if eq_ignore_case(s, "b64url"@) {
            Some(InputFormat::Base64 { url_safe: true })
        } else if eq_ignore_case(s, "bin"@) {
            Some(InputFormat::Bin)
        } else if eq_ignore_case(s, "pem"@) {
            Some(InputFormat::Pem)
        } else {
            None
        }
    }

    /// Resolve an input-side selector token; an unrecognized token is an
    /// error carrying that token, never a default format.
    pub fn from_str(input: &str) -> (r: Result<InputFormat, ParseFormatError>)
        ensures
            match r {
                Ok(f) => InputFormat::spec_from_str(input@) == Some(f),
                Err(e) => InputFormat::spec_from_str(input@) is None && e.0@ == input@,
            },
    {
        if eq_ignore_ascii_case(input, "dec") {
            Ok(InputFormat::Dec)
        } else if eq_ignore_ascii_case(input, "hex") {
            Ok(InputFormat::Hex)
        } else if eq_ignore_ascii_case(input, "b64") || eq_ignore_ascii_case(input, "base64") {
            Ok(InputFormat::Base64 { url_safe: false })
        } else if eq_ignore_ascii_case(input, "b64url") {
            Ok(InputFormat::Base64 { url_safe: true })
        } else if eq_ignore_ascii_case(input, "bin") {
            Ok(InputFormat::Bin)
        } else if eq_ignore_ascii_case(input, "pem") {
            Ok(InputFormat::Pem)
        } else {
            Err(ParseFormatError(input.to_owned()))
        }
    }
}

impl Pem {
    /// The tag written between `-----BEGIN ` and `-----` for this kind.
    pub open spec fn spec_tag(self) -> Seq<char> {
        match self {
            Pem::Crt => "CERTIFICATE"@,
            Pem::Csr => "CERTIFICATE REQUEST"@,
            Pem::PrivateKey => "PRIVATE KEY"@,
            Pem::EncryptedPrivateKey => "ENCRYPTED PRIVATE KEY"@,
            Pem::PublicKey => "PUBLIC KEY"@,
        }
    }

    /// Get the PEM tag.
    pub fn tag(&self) -> (r: &str)
        ensures
            r@ == self.spec_tag(),
    {
        match self {
            Pem::Crt => "CERTIFICATE",
            Pem::Csr => "CERTIFICATE REQUEST",
            Pem::PrivateKey => "PRIVATE KEY",
            Pem::EncryptedPrivateKey => "ENCRYPTED PRIVATE KEY",
            Pem::PublicKey => "PUBLIC KEY",
        }
    }
}

impl OutputFormat {
    /// The output format a selector token resolves to, if any; matching is
    /// exact up to ASCII case.
    pub open spec fn spec_from_str(s: Seq<char>) -> Option<OutputFormat> {
        if eq_ignore_case(s, "hex"@) {
            Some(OutputFormat::Hex)
        } else if eq_ignore_case(s, "b64"@) || eq_ignore_case(s, "base64"@) {
            Some(OutputFormat::Base64 { url_safe: false })
        } else if eq_ignore_case(s, "b64url"@) {
            Some(OutputFormat::Base64 { url_safe: true })
        } else if eq_ignore_case(s, "bin"@) {
            Some(OutputFormat::Bin)
        } else if eq_ignore_case(s, "crt"@) {
            Some(OutputFormat::Pem(Pem::Crt))
        } else if eq_ignore_case(s, "csr"@) {
            Some(OutputFormat::Pem(Pem::Csr))
        } else if eq_ignore_case(s, "key"@) {
            Some(OutputFormat::Pem(Pem::PrivateKey))
        } else if eq_ignore_case(s, "ekey"@) {
            Some(OutputFormat::Pem(Pem::EncryptedPrivateKey))
        } else if eq_ignore_case(s, "pub"@) {
            Some(OutputFormat::Pem(Pem::PublicKey))
        } else {
            None
        }
    }

    /// Resolve an output-side selector token; an unrecognized token is an
    /// error carrying that token, never a default format.
    pub fn from_str(input: &str) -> (r: Result<OutputFormat, ParseFormatError>)
        ensures
            match r {
                Ok(f) => OutputFormat::spec_from_str(input@) == Some(f),
                Err(e) => OutputFormat::spec_from_str(input@) is None && e.0@ == input@,
            },
    {
        if eq_ignore_ascii_case(input, "hex") {
            Ok(OutputFormat::Hex)
        } else if eq_ignore_ascii_case(input, "b64") || eq_ignore_ascii_case(input, "base64") {
            Ok(OutputFormat::Base64 { url_safe: false })
        } else if eq_ignore_ascii_case(input, "b64url") {
            Ok(OutputFormat::Base64 { url_safe: true })
        } else if eq_ignore_ascii_case(input, "bin") {
            Ok(OutputFormat::Bin)
        } else if eq_ignore_ascii_case(input, "crt") {
            Ok(OutputFormat::Pem(Pem::Crt))
        } else if eq_ignore_ascii_case(input, "csr") {
            Ok(OutputFormat::Pem(Pem::Csr))
        } else if eq_ignore_ascii_case(input, "key") {
            Ok(OutputFormat::Pem(Pem::PrivateKey))
        } else if eq_ignore_ascii_case(input, "ekey") {
            Ok(OutputFormat::Pem(Pem::EncryptedPrivateKey))
        } else if eq_ignore_ascii_case(input, "pub") {
            Ok(OutputFormat::Pem(Pem::PublicKey))
        } else {
            Err(ParseFormatError(input.to_owned()))
        }
    }
}

} // verus!
