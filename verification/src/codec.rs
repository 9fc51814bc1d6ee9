//! The codec pipeline: whitespace normalization, decoding each input
//! format to canonical bytes, and encoding canonical bytes to the output
//! representation.

use crate::args::{InputFormat, OutputFormat, Pem};
use vstd::prelude::*;

verus! {

/// Why a decode step failed, one variant per input format grammar.
#[derive(Debug, Copy, Clone, PartialEq, Eq, Structural)]
pub enum DecodeError {
    Base64,
    Hex,
    ByteRangeOrParse,
    Pem,
}

/// The ASCII whitespace bytes: space, tab, line feed, form feed,
/// carriage return.
pub open spec fn is_ws(b: u8) -> bool {
    b == 32 || b == 9 || b == 10 || b == 12 || b == 13
}

/// `s` with every ASCII whitespace byte removed.
pub open spec fn strip_ws(s: Seq<u8>) -> Seq<u8>
    decreases s.len(),
{
    if s.len() == 0 {
        Seq::empty()
    } else if is_ws(s[0]) {
        strip_ws(s.drop_first())
    } else {
        seq![s[0]] + strip_ws(s.drop_first())
    }
}

/// Stripping distributes over concatenation.
pub proof fn lemma_strip_ws_concat(a: Seq<u8>, b: Seq<u8>)
    ensures
        strip_ws(a + b) == strip_ws(a) + strip_ws(b),
    decreases a.len(),
{
    if a.len() == 0 {
        assert(a + b =~= b);
        assert(strip_ws(a) + strip_ws(b) =~= strip_ws(b));
    } else {
        assert((a + b).drop_first() =~= a.drop_first() + b);
        lemma_strip_ws_concat(a.drop_first(), b);
        if !is_ws(a[0]) {
            assert(seq![a[0]] + (strip_ws(a.drop_first()) + strip_ws(b)) =~= (seq![a[0]]
                + strip_ws(a.drop_first())) + strip_ws(b));
        }
    }
}

/// Remove every ASCII whitespace byte from `input`.
pub fn strip_whitespace(input: &[u8]) -> (r: Vec<u8>)
    ensures
        r@ == strip_ws(input@),
{
    let mut out: Vec<u8> = Vec::new();
    let mut i: usize = 0;
    while i < input.len()
        invariant
            i <= input.len(),
            out@ == strip_ws(input@.take(i as int)),
        decreases input.len() - i,
    {
        let b = input[i];
        proof {
            reveal_with_fuel(strip_ws, 2);
            assert(input@.take(i as int + 1) =~= input@.take(i as int) + seq![input@[i as int]]);
            lemma_strip_ws_concat(input@.take(i as int), seq![input@[i as int]]);
            assert(seq![input@[i as int]].drop_first() =~= Seq::<u8>::empty());
            if is_ws(input@[i as int]) {
                assert(strip_ws(seq![input@[i as int]]) =~= Seq::<u8>::empty());
                assert(strip_ws(input@.take(i as int + 1)) =~= strip_ws(input@.take(i as int)));
            } else {
                assert(strip_ws(seq![input@[i as int]]) =~= seq![input@[i as int]]);
            }
        }
        if !(b == 32 || b == 9 || b == 10 || b == 12 || b == 13) {
            out.push(b);
            proof {
                assert(out@ =~= strip_ws(input@.take(i as int + 1)));
            }
        }
        i = i + 1;
    }
    proof {
        assert(input@.take(input@.len() as int) =~= input@);
    }
    out
}

/// The bytes of an ASCII character sequence.
pub open spec fn ascii_bytes(s: Seq<char>) -> Seq<u8> {
    Seq::new(s.len(), |i: int| (s[i] as u32) as u8)
}

/// ASCII codes of the hexadecimal digits, both cases.
pub open spec fn is_hex_digit(b: u8) -> bool {
    (48 <= b && b <= 57) || (97 <= b && b <= 102) || (65 <= b && b <= 70)
}

/// The value of one hexadecimal digit.
pub open spec fn hex_val(b: u8) -> int {
    if 48 <= b && b <= 57 {
        b - 48
    } else if 97 <= b && b <= 102 {
        b - 87
    } else {
        b - 55
    }
}

/// A well-formed hexadecimal text: an even number of hex digits.
pub open spec fn hex_valid(s: Seq<u8>) -> bool {
    s.len() % 2 == 0 && forall|i: int| 0 <= i < s.len() ==> is_hex_digit(#[trigger] s[i])
}

/// The bytes a well-formed hexadecimal text denotes, digit pair by pair.
pub open spec fn hex_decoded(s: Seq<u8>) -> Seq<u8> {
    Seq::new((s.len() / 2) as nat, |i: int| (hex_val(s[2 * i]) * 16 + hex_val(s[2 * i + 1])) as u8)
}

/// The lowercase hexadecimal digit for a value below 16.
pub open spec fn hex_digit(v: int) -> u8 {
    if v < 10 {
        (48 + v) as u8
    } else {
        (87 + v) as u8
    }
}

/// The lowercase hexadecimal rendering of a byte sequence.
pub open spec fn hex_encoded(b: Seq<u8>) -> Seq<u8> {
    Seq::new(
        (b.len() * 2) as nat,
        |i: int|
            if i % 2 == 0 {
                hex_digit(b[i / 2] as int / 16)
            } else {
                hex_digit(b[i / 2] as int % 16)
            },
    )
}

/// The character for a six-bit value in the standard or URL-safe Base64
/// alphabet (RFC 4648).
pub open spec fn b64_char(v: int, url_safe: bool) -> u8 {
    if v < 26 {
        (65 + v) as u8  // 'A'..'Z'

    } else if v < 52 {
        (97 + v - 26) as u8  // 'a'..'z'

    } else if v < 62 {
        (48 + v - 52) as u8  // '0'..'9'

    } else if v == 62 {
        if url_safe {
            45u8  // '-'

        } else {
            43u8  // '+'

        }
    } else {
        if url_safe {
            95u8  // '_'

        } else {
            47u8  // '/'

        }
    }
}

/// The byte at `i`, or 0 past the end: the zero bits that pad the last
/// Base64 group.
pub open spec fn b64_byte_at(b: Seq<u8>, i: int) -> int {
    if 0 <= i < b.len() {
        b[i] as int
    } else {
        0
    }
}

/// The `p`-th six-bit value of the `g`-th three-byte group of `b`.
pub open spec fn b64_sextet(b: Seq<u8>, g: int, p: int) -> int {
    if p == 0 {
        b64_byte_at(b, 3 * g) / 4
    } else if p == 1 {
        (b64_byte_at(b, 3 * g) % 4) * 16 + b64_byte_at(b, 3 * g + 1) / 16
    } else if p == 2 {
        (b64_byte_at(b, 3 * g + 1) % 16) * 4 + b64_byte_at(b, 3 * g + 2) / 64
    } else {
        b64_byte_at(b, 3 * g + 2) % 64
    }
}

/// The padded Base64 rendering of a byte sequence: four characters per
/// three-byte group, `=` where the last group has no data bits.
pub open spec fn b64_encoded(b: Seq<u8>, url_safe: bool) -> Seq<u8> {
    Seq::new(
        (((b.len() + 2) / 3) * 4) as nat,
        |j: int|
            {
                let g = j / 4;
                let p = j % 4;
                if p == 3 && b.len() - 3 * g < 3 {
                    61u8  // '='

                } else if p == 2 && b.len() - 3 * g < 2 {
                    61u8  // '='

                } else {
                    b64_char(b64_sextet(b, g, p), url_safe)
                }
            },
    )
}

/// ASCII codes of the decimal digits.
pub open spec fn is_digit(b: u8) -> bool {
    48 <= b && b <= 57
}

/// The length of the maximal decimal-digit prefix of `s`.
pub open spec fn digit_run_len(s: Seq<u8>) -> nat
    decreases s.len(),
{
    if s.len() == 0 || !is_digit(s[0]) {
        0
    } else {
        1 + digit_run_len(s.drop_first())
    }
}

/// The numeric value of a sequence of decimal digits.
pub open spec fn digits_val(s: Seq<u8>) -> int
    decreases s.len(),
{
    if s.len() == 0 {
        0
    } else {
        digits_val(s.drop_last()) * 10 + (s.last() - 48)
    }
}

/// A digit run's length is at most the sequence's length.
proof fn lemma_digit_run_len_le(s: Seq<u8>)
    ensures
        digit_run_len(s) <= s.len(),
    decreases s.len(),
{
    if s.len() != 0 && is_digit(s[0]) {
        lemma_digit_run_len_le(s.drop_first());
    }
}

/// The decimal-byte decoding of `s`: skip to the next digit run, read it
/// as one byte, continue after it; a run whose value exceeds 255 fails.
pub open spec fn dec_decoded(s: Seq<u8>) -> Option<Seq<u8>>
    decreases s.len(),
    via dec_decoded_decreases
{
    if s.len() == 0 {
        Some(Seq::empty())
    } else if !is_digit(s[0]) {
        dec_decoded(s.drop_first())
    } else {
        let n = digit_run_len(s) as int;
        let v = digits_val(s.take(n));
        if v > 255 {
            None
        } else {
            match dec_decoded(s.skip(n)) {
                Some(rest) => Some(seq![v as u8] + rest),
                None => None,
            }
        }
    }
}

#[via_fn]
proof fn dec_decoded_decreases(s: Seq<u8>) {
    if s.len() != 0 && is_digit(s[0]) {
        lemma_digit_run_len_le(s);
    }
}

/// Every byte within the digit run is a digit.
proof fn lemma_digit_run_digits(s: Seq<u8>)
    ensures
        forall|j: int| 0 <= j < digit_run_len(s) ==> is_digit(#[trigger] s[j]),
    decreases s.len(),
{
    if s.len() != 0 && is_digit(s[0]) {
        lemma_digit_run_len_le(s);
        lemma_digit_run_len_le(s.drop_first());
        lemma_digit_run_digits(s.drop_first());
        assert forall|j: int| 0 <= j < digit_run_len(s) implies is_digit(#[trigger] s[j]) by {
            if j > 0 {
                assert(0 <= j - 1 < digit_run_len(s.drop_first()));
                assert(s.drop_first()[j - 1] == s[j]);
            }
        }
    }
}

/// A digit prefix of length `m` makes the digit run at least that long.
proof fn lemma_digit_run_ge(s: Seq<u8>, m: int)
    requires
        0 <= m <= s.len(),
        forall|j: int| 0 <= j < m ==> is_digit(#[trigger] s[j]),
    ensures
        digit_run_len(s) >= m,
    decreases m,
{
    if m > 0 {
        assert forall|j: int| 0 <= j < m - 1 implies is_digit(#[trigger] s.drop_first()[j]) by {
            assert(s.drop_first()[j] == s[j + 1]);
        }
        lemma_digit_run_ge(s.drop_first(), m - 1);
    }
}

/// The digit run reaches exactly to the first non-digit byte.
proof fn lemma_digit_run_exact(s: Seq<u8>, m: int)
    requires
        0 <= m <= s.len(),
        forall|j: int| 0 <= j < m ==> is_digit(#[trigger] s[j]),
        m == s.len() || !is_digit(s[m]),
    ensures
        digit_run_len(s) == m,
    decreases m,
{
    if m == 0 {
    } else {
        assert(is_digit(s[0]));
        assert forall|j: int| 0 <= j < m - 1 implies is_digit(#[trigger] s.drop_first()[j]) by {
            assert(s.drop_first()[j] == s[j + 1]);
        }
        if m < s.len() {
            assert(s.drop_first()[m - 1] == s[m]);
        }
        lemma_digit_run_exact(s.drop_first(), m - 1);
    }
}

/// Once a digit prefix exceeds 255, appending further digits keeps the
/// value above 255.
proof fn lemma_digits_val_grows(s: Seq<u8>, k: int)
    requires
        forall|j: int| 0 <= j < s.len() ==> is_digit(#[trigger] s[j]),
        0 <= k <= s.len(),
        digits_val(s.take(k)) > 255,
    ensures
        digits_val(s) > 255,
    decreases s.len() - k,
{
    if k == s.len() {
        assert(s.take(k) =~= s);
    } else {
        assert(s.take(k + 1).drop_last() =~= s.take(k));
        assert(s.take(k + 1).last() == s[k]);
        assert(digits_val(s.take(k + 1)) == digits_val(s.take(k)) * 10 + (s[k] - 48));
        lemma_digits_val_grows(s, k + 1);
    }
}

/// `rest` with `pre` put before its contents; failure stays failure.
spec fn opt_prepend(pre: Seq<u8>, rest: Option<Seq<u8>>) -> Option<Seq<u8>> {
    match rest {
        Some(v) => Some(pre + v),
        None => None,
    }
}

/// Decode a whitespace-or-otherwise separated list of decimal bytes, each
/// in 0..=255.
#[verifier::loop_isolation(false)]
#[verifier::rlimit(60)]
pub fn decode_dec(input: &[u8]) -> (r: Result<Vec<u8>, DecodeError>)
    ensures
        match r {
            Ok(v) => dec_decoded(input@) == Some(v@) && v@.len() <= input@.len(),
            Err(e) => dec_decoded(input@) is None && e == DecodeError::ByteRangeOrParse,
        },
{
    let mut out: Vec<u8> = Vec::new();
    let mut i: usize = 0;
    proof {
        assert(input@.skip(0) =~= input@);
        match dec_decoded(input@) {
            Some(v) => {
                assert(Seq::<u8>::empty() + v =~= v);
            },
            None => {},
        }
    }
    while i < input.len()
        invariant
            i <= input.len(),
            out@.len() <= i,
            opt_prepend(out@, dec_decoded(input@.skip(i as int))) == dec_decoded(input@),
        decreases input.len() - i,
    {
        let b = input[i];
        if !(48 <= b && b <= 57) {
            proof {
                let t = input@.skip(i as int);
                assert(t[0] == input@[i as int]);
                assert(t.drop_first() =~= input@.skip(i as int + 1));
            }
            i = i + 1;
        } else {
            let mut j: usize = i;
            let mut acc: u32 = 0;
            proof {
                assert(input@.subrange(i as int, i as int) =~= Seq::<u8>::empty());
            }
            while j < input.len() && 48 <= input[j] && input[j] <= 57
                invariant
                    i <= j <= input.len(),
                    acc <= 255,
                    forall|q: int| i <= q < j ==> is_digit(#[trigger] input@[q]),
                    acc as int == digits_val(input@.subrange(i as int, j as int)),
                decreases input.len() - j,
            {
                let d: u32 = (input[j] - 48) as u32;
                let na: u32 = acc * 10 + d;
                proof {
                    assert(input@.subrange(i as int, j as int + 1).drop_last() =~= input@.subrange(
                        i as int,
                        j as int,
                    ));
                    assert(input@.subrange(i as int, j as int + 1).last() == input@[j as int]);
                    assert(na as int == digits_val(input@.subrange(i as int, j as int + 1)));
                }
                if na > 255 {
                    proof {
                        let t = input@.skip(i as int);
                        lemma_digit_run_len_le(t);
                        let k = j - i + 1;
                        assert forall|q: int| 0 <= q < k implies is_digit(#[trigger] t[q]) by {
                            assert(t[q] == input@[i + q]);
                        }
                        lemma_digit_run_ge(t, k);
                        let n = digit_run_len(t) as int;
                        let run = t.take(n);
                        lemma_digit_run_digits(t);
                        assert forall|q: int| 0 <= q < run.len() implies is_digit(
                            #[trigger] run[q],
                        ) by {
                            assert(run[q] == t[q]);
                        }
                        assert(run.take(k) =~= input@.subrange(i as int, j as int + 1));
                        lemma_digits_val_grows(run, k);
                        assert(is_digit(t[0]));
                        assert(dec_decoded(t) is None);
                    }
                    return Err(DecodeError::ByteRangeOrParse);
                }
                acc = na;
                j = j + 1;
            }
            proof {
                assert(j > i);
                let t = input@.skip(i as int);
                let m = j - i;
                assert forall|q: int| 0 <= q < m implies is_digit(#[trigger] t[q]) by {
                    assert(t[q] == input@[i + q]);
                }
                if m < t.len() {
                    assert(t[m] == input@[j as int]);
                }
                lemma_digit_run_exact(t, m);
                assert(t.take(m) =~= input@.subrange(i as int, j as int));
                assert(t.skip(m) =~= input@.skip(j as int));
                assert(is_digit(t[0]));
            }
            let ghost out0 = out@;
            out.push(acc as u8);
            proof {
                let t = input@.skip(i as int);
                let m = j - i;
                let v = digits_val(t.take(m));
                assert(v == acc as int);
                assert(seq![v as u8] =~= seq![acc as u8]);
                match dec_decoded(input@.skip(j as int)) {
                    Some(rest) => {
                        assert(dec_decoded(t) == Some(seq![acc as u8] + rest));
                        assert(out0 + (seq![acc as u8] + rest) =~= (out0 + seq![acc as u8]) + rest);
                    },
                    None => {
                        assert(dec_decoded(t) is None);
                    },
                }
            }
            i = j;
        }
    }
    proof {
        assert(input@.skip(input@.len() as int) =~= Seq::<u8>::empty());
        assert(out@ + Seq::<u8>::empty() =~= out@);
    }
    Ok(out)
}

/// The tag bytes a PEM kind writes into its armor.
pub open spec fn tag_bytes(k: Pem) -> Seq<u8> {
    ascii_bytes(k.spec_tag())
}

/// A Base64 text broken into lines of 64 characters, each line closed by
/// a line feed; empty text has no lines.
pub open spec fn pem_body(e: Seq<u8>) -> Seq<u8>
    decreases e.len(),
{
    if e.len() == 0 {
        Seq::empty()
    } else if e.len() <= 64 {
        e + seq![10u8]
    } else {
        e.take(64) + seq![10u8] + pem_body(e.skip(64))
    }
}

/// The PEM armor around `contents`: begin line with `tag`, the standard
/// Base64 body wrapped at 64 characters, end line; line feeds only.
pub open spec fn pem_armor(tag: Seq<u8>, contents: Seq<u8>) -> Seq<u8> {
    ascii_bytes("-----BEGIN "@) + tag + ascii_bytes("-----"@) + seq![10u8] + pem_body(
        b64_encoded(contents, false),
    ) + ascii_bytes("-----END "@) + tag + ascii_bytes("-----"@) + seq![10u8]
}

/// Relies on hex::encode: each byte becomes two lowercase hex digits, in
/// order, nothing else.
#[verifier::external_body]
fn hex_encode_raw(bytes: &[u8]) -> (r: Vec<u8>)
    requires
        bytes@.len() <= usize::MAX as int / 4,
    ensures
        r@ == hex_encoded(bytes@),
{
    hex::encode(bytes).into_bytes()
}

/// Relies on hex::decode: succeeds exactly on an even number of hex
/// digits of either case, and yields the denoted bytes.
#[verifier::external_body]
fn hex_decode_raw(input: &[u8]) -> (r: Result<Vec<u8>, DecodeError>)
    ensures
        r matches Ok(v) ==> hex_valid(input@) && v@ == hex_decoded(input@),
        r matches Err(e) ==> !hex_valid(input@) && e == DecodeError::Hex,
{
    match hex::decode(input) {
        Ok(v) => Ok(v),
        Err(_) => Err(DecodeError::Hex),
    }
}

/// Relies on base64::encode_config with the padded standard or URL-safe
/// alphabet (RFC 4648).
#[verifier::external_body]
fn b64_encode_raw(bytes: &[u8], url_safe: bool) -> (r: Vec<u8>)
    requires
        bytes@.len() <= usize::MAX as int / 4,
    ensures
        r@ == b64_encoded(bytes@, url_safe),
{
    let config = if url_safe {
        base64::URL_SAFE
    } else {
        base64::STANDARD
    };
    base64::encode_config(bytes, config).into_bytes()
}

/// What base64::decode_config returns: a function of the input bytes and
/// the chosen alphabet alone.
pub uninterp spec fn b64_decoded_of(s: Seq<u8>, url_safe: bool) -> Option<Seq<u8>>;

/// Relies on base64::decode_config with the padded standard or URL-safe
/// alphabet: deterministic in input and alphabet, never longer than its
/// input, and it decodes this alphabet's own encoding back.
#[verifier::external_body]
fn b64_decode_raw(input: &[u8], url_safe: bool) -> (r: Result<Vec<u8>, DecodeError>)
    requires
        input@.len() <= usize::MAX as int - 3,
    ensures
        r matches Ok(v) ==> b64_decoded_of(input@, url_safe) == Some(v@) && v@.len()
            <= input@.len(),
        r matches Ok(v) ==> forall|b: Seq<u8>|
            input@ == #[trigger] b64_encoded(b, url_safe) ==> v@ == b,
        r matches Err(e) ==> b64_decoded_of(input@, url_safe) is None && e == DecodeError::Base64
            && forall|b: Seq<u8>| input@ != #[trigger] b64_encoded(b, url_safe),
{
    let config = if url_safe {
        base64::URL_SAFE
    } else {
        base64::STANDARD
    };
    match base64::decode_config(input, config) {
        Ok(v) => Ok(v),
        Err(_) => Err(DecodeError::Base64),
    }
}

/// What pem::parse returns, reduced to the block contents: a function of
/// the input bytes alone.
pub uninterp spec fn pem_parsed(s: Seq<u8>) -> Option<Seq<u8>>;

/// Relies on pem::parse: deterministic in the input, the contents decode
/// from the Base64 body and are never longer than the input, and the
/// exact armor this library writes for its tags parses back to its
/// contents.
#[verifier::external_body]
fn pem_parse_raw(input: &[u8]) -> (r: Result<Vec<u8>, DecodeError>)
    requires
        input@.len() <= usize::MAX as int / 8,
    ensures
        r matches Ok(v) ==> pem_parsed(input@) == Some(v@) && v@.len() <= input@.len(),
        r matches Ok(v) ==> forall|k: Pem, b: Seq<u8>|
            input@ == #[trigger] pem_armor(tag_bytes(k), b) ==> v@ == b,
        r matches Err(e) ==> pem_parsed(input@) is None && e == DecodeError::Pem && forall|
            k: Pem,
            b: Seq<u8>,
        |
            input@ != #[trigger] pem_armor(tag_bytes(k), b),
{
    match pem::parse(input) {
        Ok(p) => Ok(p.contents),
        Err(_) => Err(DecodeError::Pem),
    }
}

/// Relies on pem::encode_config with LF line endings: begin line, the
/// standard Base64 body wrapped at 64 characters, end line.
#[verifier::external_body]
fn pem_encode_raw(tag: &str, contents: &[u8]) -> (r: Vec<u8>)
    requires
        contents@.len() <= usize::MAX as int / 8,
        tag@ == "CERTIFICATE"@ || tag@ == "CERTIFICATE REQUEST"@ || tag@ == "PRIVATE KEY"@ || tag@
            == "ENCRYPTED PRIVATE KEY"@ || tag@ == "PUBLIC KEY"@,
    ensures
        r@ == pem_armor(ascii_bytes(tag@), contents@),
{
    let p = pem::Pem { tag: tag.to_owned(), contents: contents.to_vec() };
    pem::encode_config(&p, pem::EncodeConfig { line_ending: pem::LineEnding::LF }).into_bytes()
}

/// Stripping never lengthens a sequence.
pub proof fn lemma_strip_ws_len(s: Seq<u8>)
    ensures
        strip_ws(s).len() <= s.len(),
    decreases s.len(),
{
    if s.len() != 0 {
        lemma_strip_ws_len(s.drop_first());
    }
}

/// A sequence without whitespace is unchanged by stripping.
pub proof fn lemma_strip_ws_id(s: Seq<u8>)
    requires
        forall|i: int| 0 <= i < s.len() ==> !is_ws(#[trigger] s[i]),
    ensures
        strip_ws(s) == s,
    decreases s.len(),
{
    if s.len() != 0 {
        assert forall|i: int| 0 <= i < s.len() - 1 implies !is_ws(#[trigger] s.drop_first()[i]) by {
            assert(s.drop_first()[i] == s[i + 1]);
        }
        lemma_strip_ws_id(s.drop_first());
        assert(seq![s[0]] + s.drop_first() =~= s);
    }
}

/// A sequence of whitespace alone strips to nothing.
pub proof fn lemma_strip_ws_all(s: Seq<u8>)
    requires
        forall|i: int| 0 <= i < s.len() ==> is_ws(#[trigger] s[i]),
    ensures
        strip_ws(s) == Seq::<u8>::empty(),
    decreases s.len(),
{
    if s.len() != 0 {
        assert forall|i: int| 0 <= i < s.len() - 1 implies is_ws(#[trigger] s.drop_first()[i]) by {
            assert(s.drop_first()[i] == s[i + 1]);
        }
        lemma_strip_ws_all(s.drop_first());
    }
}

/// The input as the decoder sees it: whitespace stripped where the format
/// treats whitespace as formatting, untouched where it is payload.
pub open spec fn normalized(s: Seq<u8>, from: InputFormat) -> Seq<u8> {
    if from.spec_whitespace_is_relevant() {
        s
    } else {
        strip_ws(s)
    }
}

/// The canonical bytes a normalized input denotes under `from`, if it
/// conforms to that format's grammar.
pub open spec fn decode_spec(s: Seq<u8>, from: InputFormat) -> Option<Seq<u8>> {
    match from {
        InputFormat::Base64 { url_safe } => b64_decoded_of(s, url_safe),
        InputFormat::Hex => if hex_valid(s) {
            Some(hex_decoded(s))
        } else {
            None
        },
        InputFormat::Dec => dec_decoded(s),
        InputFormat::Bin => Some(s),
        InputFormat::Pem => pem_parsed(s),
    }
}

/// The error a failed decode under `from` reports. (A `Bin` decode cannot
/// fail; its arm is never reached.)
pub open spec fn decode_error(from: InputFormat) -> DecodeError {
    match from {
        InputFormat::Base64 { .. } => DecodeError::Base64,
        InputFormat::Hex => DecodeError::Hex,
        InputFormat::Dec => DecodeError::ByteRangeOrParse,
        InputFormat::Bin => DecodeError::ByteRangeOrParse,
        InputFormat::Pem => DecodeError::Pem,
    }
}

/// The output rendering of canonical bytes under `to`.
pub open spec fn encode_spec(b: Seq<u8>, to: OutputFormat) -> Seq<u8> {
    match to {
        OutputFormat::Base64 { url_safe } => b64_encoded(b, url_safe),
        OutputFormat::Hex => hex_encoded(b),
        OutputFormat::Bin => b,
        OutputFormat::Pem(k) => pem_armor(tag_bytes(k), b),
    }
}

/// Normalize `input` per the format's whitespace policy and decode it to
/// canonical bytes.
pub fn decode(input: Vec<u8>, from: InputFormat) -> (r: Result<Vec<u8>, DecodeError>)
    requires
        input@.len() <= usize::MAX as int / 8,
    ensures
        match r {
            Ok(v) => decode_spec(normalized(input@, from), from) == Some(v@) && v@.len()
                <= input@.len(),
            Err(e) => decode_spec(normalized(input@, from), from) is None && e == decode_error(
                from,
            ),
        },
        r matches Ok(v) ==> forall|b: Seq<u8>, url_safe: bool|
            from == (InputFormat::Base64 { url_safe }) && normalized(input@, from)
                == #[trigger] b64_encoded(b, url_safe) ==> v@ == b,
        r matches Err(e) ==> forall|b: Seq<u8>, url_safe: bool|
            from == (InputFormat::Base64 { url_safe }) ==> normalized(input@, from)
                != #[trigger] b64_encoded(b, url_safe),
        r matches Ok(v) ==> forall|k: Pem, b: Seq<u8>|
            from == InputFormat::Pem && input@ == #[trigger] pem_armor(tag_bytes(k), b) ==> v@ == b,
        r matches Err(e) ==> forall|k: Pem, b: Seq<u8>|
            from == InputFormat::Pem ==> input@ != #[trigger] pem_armor(tag_bytes(k), b),
{
    let ghost s0 = input@;
    let data: Vec<u8> = if from.whitespace_is_relevant() {
        input
    } else {
        strip_whitespace(input.as_slice())
    };
    proof {
        assert(data@ == normalized(s0, from));
        lemma_strip_ws_len(s0);
    }
    match from {
        InputFormat::Base64 { url_safe } => b64_decode_raw(data.as_slice(), url_safe),
        InputFormat::Hex => hex_decode_raw(data.as_slice()),
        InputFormat::Dec => decode_dec(data.as_slice()),
        InputFormat::Bin => Ok(data),
        InputFormat::Pem => pem_parse_raw(data.as_slice()),
    }
}

/// Render canonical bytes in the output format.
pub fn encode(bytes: Vec<u8>, to: OutputFormat) -> (r: Vec<u8>)
    requires
        bytes@.len() <= usize::MAX as int / 8,
    ensures
        r@ == encode_spec(bytes@, to),
{
    match to {
        OutputFormat::Base64 { url_safe } => b64_encode_raw(bytes.as_slice(), url_safe),
        OutputFormat::Hex => hex_encode_raw(bytes.as_slice()),
        OutputFormat::Bin => bytes,
        OutputFormat::Pem(k) => {
            let t = k.tag();
            pem_encode_raw(t, bytes.as_slice())
        },
    }
}

/// One full run of the pipeline: normalize per the input format, decode
/// to canonical bytes, encode those in the output format. On error no
/// output is produced.
pub fn convert(input: Vec<u8>, from: InputFormat, to: OutputFormat) -> (r: Result<
    Vec<u8>,
    DecodeError,
>)
    requires
        input@.len() <= usize::MAX as int / 8,
    ensures
        match r {
            Ok(out) => decode_spec(normalized(input@, from), from) matches Some(c) && out@
                == encode_spec(c, to),
            Err(e) => decode_spec(normalized(input@, from), from) is None && e == decode_error(
                from,
            ),
        },
{
    match decode(input, from) {
        Ok(c) => Ok(encode(c, to)),
        Err(e) => Err(e),
    }
}

/// Law: decoding the hex pipeline's own encoding, whitespace policy
/// included, yields the original bytes.
pub proof fn lemma_hex_round_trip(b: Seq<u8>)
    ensures
        decode_spec(normalized(hex_encoded(b), InputFormat::Hex), InputFormat::Hex) == Some(b),
{
    let e = hex_encoded(b);
    assert forall|i: int| 0 <= i < e.len() implies !is_ws(#[trigger] e[i]) by {
        assert(is_hex_digit(e[i]));
    }
    lemma_strip_ws_id(e);
    assert(hex_valid(e));
    assert forall|i: int| 0 <= i < b.len() implies hex_decoded(e)[i] == b[i] by {
        assert(e[2 * i] == hex_digit(b[i] as int / 16));
        assert(e[2 * i + 1] == hex_digit(b[i] as int % 16));
        assert(hex_val(e[2 * i]) == b[i] as int / 16);
        assert(hex_val(e[2 * i + 1]) == b[i] as int % 16);
    }
    assert(hex_decoded(e) =~= b);
}

/// Law: a Bin input is the canonical byte sequence itself; every input
/// byte, whitespace included, appears in it unchanged.
pub proof fn lemma_bin_identity(b: Seq<u8>)
    ensures
        normalized(b, InputFormat::Bin) == b,
        decode_spec(normalized(b, InputFormat::Bin), InputFormat::Bin) == Some(b),
{
}

/// Law: a Base64 rendering holds no whitespace, so the pipeline's
/// stripping step leaves it unchanged; with the decoder's contract this
/// closes the Base64 round trip.
pub proof fn lemma_b64_encoded_no_ws(b: Seq<u8>, url_safe: bool)
    ensures
        strip_ws(b64_encoded(b, url_safe)) == b64_encoded(b, url_safe),
{
    let e = b64_encoded(b, url_safe);
    assert forall|i: int| 0 <= i < e.len() implies !is_ws(#[trigger] e[i]) by {
        let g = i / 4;
        let p = i % 4;
        if !(p == 3 && b.len() - 3 * g < 3) && !(p == 2 && b.len() - 3 * g < 2) {
            let v = b64_sextet(b, g, p);
            assert(0 <= v < 64);
            assert(!is_ws(b64_char(v, url_safe)));
        }
    }
    lemma_strip_ws_id(e);
}

/// Law: where the input format treats whitespace as formatting, inserting
/// ASCII whitespace anywhere in a valid input does not change what the
/// pipeline decodes.
pub proof fn lemma_whitespace_insensitive(from: InputFormat, a: Seq<u8>, w: Seq<u8>, b: Seq<u8>)
    requires
        !from.spec_whitespace_is_relevant(),
        forall|i: int| 0 <= i < w.len() ==> is_ws(#[trigger] w[i]),
    ensures
        decode_spec(normalized(a + w + b, from), from) == decode_spec(
            normalized(a + b, from),
            from,
        ),
{
    lemma_strip_ws_concat(a + w, b);
    lemma_strip_ws_concat(a, w);
    lemma_strip_ws_concat(a, b);
    lemma_strip_ws_all(w);
    assert((strip_ws(a) + Seq::<u8>::empty()) + strip_ws(b) =~= strip_ws(a) + strip_ws(b));
}

} // verus!
