//! Texts that go out with the browser's replies.

use vstd::prelude::*;
use vstd::string::StringExecFns;
use vstd::utf8::encode_utf8;

verus! {

/// Whether a byte stands for itself in a percent-encoded text.
pub open spec fn unreserved(b: u8) -> bool {
    ||| 0x30 <= b <= 0x39
    ||| 0x41 <= b <= 0x5A
    ||| 0x61 <= b <= 0x7A
    ||| b == 0x2D
    ||| b == 0x2E
    ||| b == 0x5F
    ||| b == 0x7E
}

/// The upper-case hexadecimal digit of a number under 16.
pub open spec fn hex_digit(n: u8) -> u8 {
    if n < 10 {
        (0x30 + n) as u8
    } else {
        (0x37 + n) as u8
    }
}

/// A byte, percent-encoded: itself where it is unreserved, else `%` and
/// its two hexadecimal digits.
pub open spec fn escaped_byte(b: u8) -> Seq<u8> {
    if unreserved(b) {
        seq![b]
    } else {
        seq![0x25u8, hex_digit(b / 16), hex_digit(b % 16)]
    }
}

/// Bytes, percent-encoded one by one.
pub open spec fn percent_encoded(bytes: Seq<u8>) -> Seq<u8>
    decreases bytes.len(),
{
    if bytes.len() == 0 {
        Seq::empty()
    } else {
        percent_encoded(bytes.drop_last()) + escaped_byte(bytes.last())
    }
}

/// The text whose characters are the given ASCII bytes.
pub open spec fn ascii_text(bytes: Seq<u8>) -> Seq<char> {
    Seq::new(bytes.len(), |i: int| bytes[i] as char)
}

/// The media type that `mime_guess` has for a file extension.
pub uninterp spec fn mime_of_extension(extension: Seq<char>) -> Seq<char>;

/// The JSON text of an object of two members, one a truth value and one
/// a string, as `serde_json` writes it.
pub uninterp spec fn json_flag_text(
    flag_key: Seq<char>,
    flag: bool,
    text_key: Seq<char>,
    text: Seq<char>,
) -> Seq<char>;

/// `urlencoding::encode`, owned: every byte of the text's UTF-8 form but
/// letters, digits and `-`, `_`, `.`, `~` becomes `%` and two upper-case
/// hexadecimal digits.
#[verifier::external_body]
fn percent_encode(text: &str) -> (encoded: String)
    ensures
        encoded@ == ascii_text(percent_encoded(encode_utf8(text@))),
{
    urlencoding::encode(text).into_owned()
}

/// `mime_guess::from_ext`, then `MimeGuess::first_or_octet_stream`, as
/// text. The guess is looked up in a table that is part of the crate, so
/// the contract names the result; it adds that the empty extension has no
/// guess and so gets the type of plain bytes.
#[verifier::external_body]
fn mime_for_extension(extension: &str) -> (mime: String)
    ensures
        mime@ == mime_of_extension(extension@),
        extension@.len() == 0 ==> mime@ == "application/octet-stream"@,
{
    mime_guess::from_ext(extension).first_or_octet_stream().to_string()
}

/// `serde_json::to_string` of an object built with `serde_json::Map`. The
/// contract names the result and says no more.
#[verifier::external_body]
fn json_flag_and_text(flag_key: &str, flag: bool, text_key: &str, text: &str) -> (body: String)
    ensures
        body@ == json_flag_text(flag_key@, flag, text_key@, text@),
{
    let mut members = serde_json::Map::new();
    members.insert(flag_key.to_string(), serde_json::Value::Bool(flag));
    members.insert(text_key.to_string(), serde_json::Value::String(text.to_string()));
    match serde_json::to_string(&serde_json::Value::Object(members)) {
        Ok(body) => body,
        Err(_) => String::new(),
    }
}

/// Where a request for a page that does not exist is sent: the start
/// page, with the path asked for as the `redirect` parameter.
pub fn redirect_target(path: &str) -> (target: String)
    ensures
        target@ == "/?redirect="@ + ascii_text(percent_encoded(encode_utf8(path@))),
{
    String::from_str("/?redirect=").concat(percent_encode(path).as_str())
}

/// The body of a reply that reports a failure: `ok` is false and `error`
/// is the message.
pub fn make_error(error: &str) -> (body: String)
    ensures
        body@ == json_flag_text("ok"@, false, "error"@, error@),
{
    json_flag_and_text("ok", false, "error", error)
}

/// The content type and the content disposition under which a file goes
/// out: the type by the extension of the file's path, which is that of
/// plain bytes where the path has no extension, and the name the client
/// asked for.
pub fn file_headers(extension: &str, filename: &str) -> (headers: (String, String))
    ensures
        headers.0@ == mime_of_extension(extension@),
        extension@.len() == 0 ==> headers.0@ == "application/octet-stream"@,
        headers.1@ == "inline; filename="@ + filename@,
{
    (mime_for_extension(extension), String::from_str("inline; filename=").concat(filename))
}

} // verus!
