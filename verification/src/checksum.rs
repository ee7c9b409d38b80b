//! The CRC protocol: CRC-32 of field bytes, and the CRC-32 of the header
//! text with the stored CRC blanked out.
use crate::error::GbfError;
use crate::header::Header;
use crate::text::{
    hex8, hex8_text, same_text, trim_text, trimmed, upper_ascii, upper_text,
};
use vstd::prelude::*;
use vstd::string::StringExecFns;
use vstd::utf8::encode_utf8;

verus! {

/// The CRC-32 (IEEE 802.3, reflected) of a byte sequence, as
/// `crc32fast::hash` computes it.
pub uninterp spec fn crc32_of(bytes: Seq<u8>) -> u32;

/// What `regex::Regex::new(pattern)` followed by `Regex::replace` makes of a
/// text: the text with its leftmost match replaced (and the text itself
/// where nothing matches), or `None` where the pattern is not a regular
/// expression.
pub uninterp spec fn regex_replaced(
    pattern: Seq<char>,
    text: Seq<char>,
    replacement: Seq<char>,
) -> Option<Seq<char>>;

/// Whether `regex::Regex::new(pattern)` followed by `Regex::is_match` finds
/// a match in a text, or `None` where the pattern is not a regular
/// expression.
pub uninterp spec fn regex_matched(pattern: Seq<char>, text: Seq<char>) -> Option<bool>;

/// `crc32fast::hash` is the CRC-32 of its argument.
pub assume_specification[ crc32fast::hash ](buf: &[u8]) -> (crc: u32)
    ensures
        crc == crc32_of(buf@),
;

/// `regex::Regex::new` on `pattern`, then `Regex::replace` of the leftmost
/// match in `text` by `replacement`, in which `$1` stands for the first
/// group. `None` where the pattern does not compile.
#[verifier::external_body]
fn regex_replace_first(pattern: &str, text: &str, replacement: &str) -> (r: Option<String>)
    ensures
        r is Some <==> regex_replaced(pattern@, text@, replacement@) is Some,
        r matches Some(s) ==> regex_replaced(pattern@, text@, replacement@) == Some(s@),
{
    match regex::Regex::new(pattern) {
        Ok(re) => Some(re.replace(text, replacement).into_owned()),
        Err(_) => None,
    }
}

/// `regex::Regex::new` on `pattern`, then `Regex::is_match` on `text`.
/// `None` where the pattern does not compile.
#[verifier::external_body]
fn regex_finds(pattern: &str, text: &str) -> (r: Option<bool>)
    ensures
        r == regex_matched(pattern@, text@),
{
    match regex::Regex::new(pattern) {
        Ok(re) => Some(re.is_match(text)),
        Err(_) => None,
    }
}

/// The CRC-32 of `bytes`.
pub fn compute_crc32(bytes: &[u8]) -> (crc: u32)
    ensures
        crc == crc32_of(bytes@),
{
    crc32fast::hash(bytes)
}

/// The pattern of the stored header CRC: the key, a colon with any
/// whitespace around it, and eight hexadecimal digits in quotes.
pub open spec fn crc_pattern() -> Seq<char> {
    "\"header_crc32_hex\"(\\s*:\\s*)\"([0-9A-Fa-f]{8})\""@
}

/// What the stored header CRC is replaced by: the same key and whitespace,
/// and eight zeros.
pub open spec fn crc_blank() -> Seq<char> {
    "\"header_crc32_hex\"$1\"00000000\""@
}

/// The pattern of a stored header CRC of any form.
pub open spec fn crc_fallback_pattern() -> Seq<char> {
    "\"header_crc32_hex\"\\s*:\\s*\"[^\"]+\""@
}

/// What a stored header CRC of any form is replaced by.
pub open spec fn crc_fallback_blank() -> Seq<char> {
    "\"header_crc32_hex\":\"00000000\""@
}

/// The header text that the CRC is computed over, given whether the precise
/// pattern matches and what the substitution that is then due made of the
/// text: the text itself where the substitution could not be made.
pub open spec fn pick_substitution(json: Seq<char>, replaced: Option<Seq<char>>) -> Seq<char> {
    match replaced {
        Some(r) => r,
        None => json,
    }
}

/// The header text with the value of the stored CRC replaced by eight
/// zeros: by the precise substitution, which keeps the whitespace around
/// the colon, where its pattern matches, and else by the fallback.
pub open spec fn placeholder_text(json: Seq<char>) -> Seq<char> {
    if regex_matched(crc_pattern(), json) == Some(true) {
        pick_substitution(json, regex_replaced(crc_pattern(), json, crc_blank()))
    } else {
        pick_substitution(
            json,
            regex_replaced(crc_fallback_pattern(), json, crc_fallback_blank()),
        )
    }
}

/// The header CRC of a header text: the CRC-32 of the UTF-8 bytes of
/// [`placeholder_text`], as eight upper-case hexadecimal digits.
pub open spec fn header_crc_text(json: Seq<char>) -> Seq<char> {
    hex8(crc32_of(encode_utf8(placeholder_text(json))))
}

/// What a substitution made of a text, or the text itself where it could
/// not be made.
pub fn choose_substitution(json: &str, replaced: Option<String>) -> (r: String)
    ensures
        r@ == pick_substitution(json@, crate::value::text_view(replaced)),
{
    match replaced {
        Some(p) => p,
        None => String::from_str(json),
    }
}

/// The header text with the value of the stored CRC replaced by eight
/// zeros. Where the stored CRC is eight hexadecimal digits the whitespace
/// around the colon stays as it is; a stored CRC of another form is replaced
/// together with that whitespace.
pub fn header_json_with_placeholder_crc(header_json: &str) -> (r: String)
    ensures
        r@ == placeholder_text(header_json@),
{
    let precise = regex_finds("\"header_crc32_hex\"(\\s*:\\s*)\"([0-9A-Fa-f]{8})\"", header_json);
    let is_precise = match precise {
        Some(b) => b,
        None => false,
    };
    if is_precise {
        let replaced = regex_replace_first(
            "\"header_crc32_hex\"(\\s*:\\s*)\"([0-9A-Fa-f]{8})\"",
            header_json,
            "\"header_crc32_hex\"$1\"00000000\"",
        );
        choose_substitution(header_json, replaced)
    } else {
        let replaced = regex_replace_first(
            "\"header_crc32_hex\"\\s*:\\s*\"[^\"]+\"",
            header_json,
            "\"header_crc32_hex\":\"00000000\"",
        );
        choose_substitution(header_json, replaced)
    }
}

/// The header CRC of a header text, as eight upper-case hexadecimal
/// digits. Never fails.
pub fn compute_header_crc32_hex_from_original_json(header_json: &str) -> (r: Result<
    String,
    GbfError,
>)
    ensures
        r matches Ok(s) && s@ == header_crc_text(header_json@),
{
    let blank = header_json_with_placeholder_crc(header_json);
    let crc = compute_crc32(blank.as_str().as_bytes());
    Ok(hex8_text(crc))
}

/// Whether a stored header CRC agrees with the computed one: an empty
/// stored CRC (after trimming) agrees with everything, any other agrees
/// where its upper-case form is the computed text.
pub open spec fn header_crc_agrees(stored: Seq<char>, got: Seq<char>) -> bool {
    trimmed(stored).len() == 0 || upper_text(trimmed(stored)) == got
}

/// Holds the stored header CRC against the computed one.
///
/// Succeeds exactly where [`header_crc_agrees`]; otherwise the error names
/// the stored CRC, trimmed and in upper case, and the computed one.
pub fn check_header_crc(stored: &str, got: String) -> (r: Result<(), GbfError>)
    ensures
        r is Ok <==> header_crc_agrees(stored@, got@),
        r matches Err(e) ==> (e matches GbfError::HeaderCrcMismatch { expected, got: g }
            && expected@ == upper_text(trimmed(stored@)) && g@ == got@),
{
    let t = trim_text(stored);
    if t.is_empty() {
        return Ok(());
    }
    let expected = upper_ascii(t);
    if !same_text(expected.as_str(), got.as_str()) {
        return Err(GbfError::HeaderCrcMismatch { expected, got });
    }
    Ok(())
}

/// Holds the CRC that the header stores against the CRC of the header text
/// as it was read. An empty stored CRC is not checked.
pub fn validate_header_crc(header: &Header, header_json: &str) -> (r: Result<(), GbfError>)
    ensures
        r is Ok <==> header_crc_agrees(header.header_crc32_hex@, header_crc_text(header_json@)),
        r matches Err(e) ==> (e matches GbfError::HeaderCrcMismatch { expected, got }
            && expected@ == upper_text(trimmed(header.header_crc32_hex@)) && got@
            == header_crc_text(header_json@)),
{
    if trim_text(header.header_crc32_hex.as_str()).is_empty() {
        return Ok(());
    }
    let got = match compute_header_crc32_hex_from_original_json(header_json) {
        Ok(g) => g,
        Err(e) => {
            return Err(e);
        },
    };
    check_header_crc(header.header_crc32_hex.as_str(), got)
}

} // verus!
