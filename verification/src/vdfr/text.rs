//! Text out of bytes and code units. Decoding is lossy: malformed input is
//! repaired with U+FFFD and never refused.

use vstd::prelude::*;
use vstd::utf8::{decode_utf8, encode_utf8, encode_utf8_decode_utf8, valid_utf8};

verus! {

/// What `String::from_utf8_lossy` makes of bytes that are not valid UTF-8.
pub uninterp spec fn utf8_repaired(bytes: Seq<u8>) -> Seq<char>;

/// What `String::from_utf16_lossy` makes of code units among which there is
/// a surrogate.
pub uninterp spec fn utf16_repaired(units: Seq<u16>) -> Seq<char>;

/// The text that bytes stand for: their decoding where they are valid
/// UTF-8, the repaired text otherwise.
pub open spec fn utf8_text(bytes: Seq<u8>) -> Seq<char> {
    if valid_utf8(bytes) {
        decode_utf8(bytes)
    } else {
        utf8_repaired(bytes)
    }
}

/// Whether a code unit is one half of a surrogate pair.
pub open spec fn is_surrogate(unit: u16) -> bool {
    0xD800 <= unit <= 0xDFFF
}

/// No code unit is a surrogate.
pub open spec fn surrogate_free(units: Seq<u16>) -> bool {
    forall|i: int| 0 <= i < units.len() ==> !is_surrogate(#[trigger] units[i])
}

/// The text that UTF-16 code units stand for: unit by unit where none is a
/// surrogate, the repaired text otherwise.
pub open spec fn utf16_text(units: Seq<u16>) -> Seq<char> {
    if surrogate_free(units) {
        Seq::new(units.len(), |i: int| units[i] as char)
    } else {
        utf16_repaired(units)
    }
}

/// `String::from_utf8_lossy`, owned. Valid UTF-8 comes back as the string
/// it encodes; of other input the contract only names the result.
#[verifier::external_body]
pub(crate) fn string_from_utf8_lossy(bytes: &[u8]) -> (text: String)
    ensures
        text@ == (if valid_utf8(bytes@) {
            decode_utf8(bytes@)
        } else {
            utf8_repaired(bytes@)
        }),
{
    String::from_utf8_lossy(bytes).into_owned()
}

/// `String::from_utf16_lossy`. A code unit outside the surrogate range is
/// the character of that number; where a surrogate occurs the contract only
/// names the result.
#[verifier::external_body]
pub(crate) fn string_from_utf16_lossy(units: &[u16]) -> (text: String)
    ensures
        text@ == (if surrogate_free(units@) {
            Seq::new(units@.len(), |i: int| units@[i] as char)
        } else {
            utf16_repaired(units@)
        }),
{
    String::from_utf16_lossy(units)
}

/// Whether two strings hold the same characters.
pub fn str_eq(a: &str, b: &str) -> (same: bool)
    ensures
        same == (a@ == b@),
{
    let x = a.as_bytes();
    let y = b.as_bytes();
    proof {
        encode_utf8_decode_utf8(a@);
        encode_utf8_decode_utf8(b@);
    }
    if x.len() != y.len() {
        return false;
    }
    let mut i: usize = 0;
    while i < x.len()
        invariant
            i <= x.len(),
            x.len() == y.len(),
            x@ == encode_utf8(a@),
            y@ == encode_utf8(b@),
            forall|j: int| 0 <= j < i ==> x@[j] == y@[j],
        decreases x.len() - i,
    {
        if x[i] != y[i] {
            return false;
        }
        i += 1;
    }
    assert(x@ =~= y@);
    true
}

/// `String::push`: the character goes to the end.
pub assume_specification[ String::push ](s: &mut String, c: char)
    ensures
        final(s)@ == old(s)@.push(c),
;

/// A character as it stands between quotes: a quote and a backslash get a
/// backslash in front.
pub open spec fn escaped_char(c: char) -> Seq<char> {
    if c == '"' {
        seq!['\\', '"']
    } else if c == '\\' {
        seq!['\\', '\\']
    } else {
        seq![c]
    }
}

/// A text as it stands between quotes.
pub open spec fn escaped(s: Seq<char>) -> Seq<char>
    decreases s.len(),
{
    if s.len() == 0 {
        Seq::empty()
    } else {
        escaped(s.drop_last()) + escaped_char(s.last())
    }
}

/// Escapes quotes and backslashes.
pub fn fmt_string(s: &str) -> (out: String)
    ensures
        out@ == escaped(s@),
{
    let mut out = String::new();
    for c in it: s.chars()
        invariant
            it.seq() == s@,
            out@ == escaped(s@.subrange(0, it.index() as int)),
    {
        let ghost upto = s@.subrange(0, it.index() + 1);
        assert(upto.drop_last() =~= s@.subrange(0, it.index() as int));
        assert(upto.last() == c);
        if c == '"' {
            out.push('\\');
            out.push('"');
        } else if c == '\\' {
            out.push('\\');
            out.push('\\');
        } else {
            out.push(c);
        }
        assert(out@ =~= escaped(s@.subrange(0, it.index() as int)) + escaped_char(c));
    }
    assert(s@.subrange(0, s@.len() as int) =~= s@);
    out
}

} // verus!
