//! Primitives of the wire format: fixed-width integers and terminated
//! strings, read at a position of a byte slice.

use vstd::prelude::*;
use vstd::slice::slice_subrange;
use crate::vdfr::error::{truncated, unterminated, ParseFault, ReadFault, VdfrError};
use crate::vdfr::text::{string_from_utf16_lossy, string_from_utf8_lossy, utf16_text, utf8_text};

verus! {

/// A value read, with the position after it; or why reading stopped.
pub type Parsed<T> = Result<(T, int), VdfrError>;

/// Whether `n` bytes lie at `pos`.
pub open spec fn has_bytes(b: Seq<u8>, pos: int, n: int) -> bool {
    0 <= pos && pos + n <= b.len()
}

/// The number of the two bytes at `pos`, low byte first.
pub open spec fn le16(b: Seq<u8>, pos: int) -> int {
    b[pos] as int + 0x100 * (b[pos + 1] as int)
}

/// The number of the two bytes at `pos`, high byte first.
pub open spec fn be16(b: Seq<u8>, pos: int) -> int {
    0x100 * (b[pos] as int) + b[pos + 1] as int
}

/// The number of the four bytes at `pos`, low byte first.
pub open spec fn le32(b: Seq<u8>, pos: int) -> int {
    le16(b, pos) + 0x1_0000 * le16(b, pos + 2)
}

/// The number of the eight bytes at `pos`, low byte first.
pub open spec fn le64(b: Seq<u8>, pos: int) -> int {
    le32(b, pos) + 0x1_0000_0000 * le32(b, pos + 4)
}

/// The number that `bits` low bits of `n` are in two's complement.
pub open spec fn signed(n: int, bits: int) -> int
    recommends
        bits == 32 || bits == 64,
{
    let half = if bits == 32 { 0x8000_0000int } else { 0x8000_0000_0000_0000int };
    if n < half {
        n
    } else {
        n - 2 * half
    }
}

/// One byte.
pub open spec fn spec_u8(b: Seq<u8>, pos: int) -> Parsed<u8> {
    if has_bytes(b, pos, 1) {
        Ok((b[pos], pos + 1))
    } else {
        Err(truncated())
    }
}

/// An unsigned 16-bit number, low byte first.
pub open spec fn spec_u16_le(b: Seq<u8>, pos: int) -> Parsed<u16> {
    if has_bytes(b, pos, 2) {
        Ok((le16(b, pos) as u16, pos + 2))
    } else {
        Err(truncated())
    }
}

/// An unsigned 16-bit number, high byte first.
pub open spec fn spec_u16_be(b: Seq<u8>, pos: int) -> Parsed<u16> {
    if has_bytes(b, pos, 2) {
        Ok((be16(b, pos) as u16, pos + 2))
    } else {
        Err(truncated())
    }
}

/// An unsigned 32-bit number, low byte first.
pub open spec fn spec_u32_le(b: Seq<u8>, pos: int) -> Parsed<u32> {
    if has_bytes(b, pos, 4) {
        Ok((le32(b, pos) as u32, pos + 4))
    } else {
        Err(truncated())
    }
}

/// A signed 32-bit number in two's complement, low byte first.
pub open spec fn spec_i32_le(b: Seq<u8>, pos: int) -> Parsed<i32> {
    if has_bytes(b, pos, 4) {
        Ok((signed(le32(b, pos), 32) as i32, pos + 4))
    } else {
        Err(truncated())
    }
}

/// An unsigned 64-bit number, low byte first.
pub open spec fn spec_u64_le(b: Seq<u8>, pos: int) -> Parsed<u64> {
    if has_bytes(b, pos, 8) {
        Ok((le64(b, pos) as u64, pos + 8))
    } else {
        Err(truncated())
    }
}

/// A signed 64-bit number in two's complement, low byte first.
pub open spec fn spec_i64_le(b: Seq<u8>, pos: int) -> Parsed<i64> {
    if has_bytes(b, pos, 8) {
        Ok((signed(le64(b, pos), 64) as i64, pos + 8))
    } else {
        Err(truncated())
    }
}

/// Whether an executable result is the one that the model gives.
pub open spec fn agrees<T>(r: Result<(T, usize), VdfrError>, s: Parsed<T>) -> bool {
    match r {
        Ok((v, p)) => s == Ok::<(T, int), VdfrError>((v, p as int)),
        Err(e) => s == Err::<(T, int), VdfrError>(e),
    }
}

/// Reads one byte.
pub fn read_u8(data: &[u8], pos: usize) -> (r: Result<(u8, usize), VdfrError>)
    ensures
        agrees(r, spec_u8(data@, pos as int)),
{
    if pos < data.len() {
        Ok((data[pos], pos + 1))
    } else {
        Err(VdfrError::ReadError(ReadFault::UnexpectedEnd))
    }
}

/// Reads an unsigned 16-bit number, low byte first.
pub fn read_u16_le(data: &[u8], pos: usize) -> (r: Result<(u16, usize), VdfrError>)
    ensures
        agrees(r, spec_u16_le(data@, pos as int)),
{
    if pos <= data.len() && data.len() - pos >= 2 {
        let v: u16 = data[pos] as u16 + 0x100 * (data[pos + 1] as u16);
        Ok((v, pos + 2))
    } else {
        Err(VdfrError::ReadError(ReadFault::UnexpectedEnd))
    }
}

/// Reads an unsigned 16-bit number, high byte first.
pub fn read_u16_be(data: &[u8], pos: usize) -> (r: Result<(u16, usize), VdfrError>)
    ensures
        agrees(r, spec_u16_be(data@, pos as int)),
{
    if pos <= data.len() && data.len() - pos >= 2 {
        let v: u16 = 0x100 * (data[pos] as u16) + data[pos + 1] as u16;
        Ok((v, pos + 2))
    } else {
        Err(VdfrError::ReadError(ReadFault::UnexpectedEnd))
    }
}

/// Reads an unsigned 32-bit number, low byte first.
pub fn read_u32_le(data: &[u8], pos: usize) -> (r: Result<(u32, usize), VdfrError>)
    ensures
        agrees(r, spec_u32_le(data@, pos as int)),
{
    if pos <= data.len() && data.len() - pos >= 4 {
        let lo: u32 = data[pos] as u32 + 0x100 * (data[pos + 1] as u32);
        let hi: u32 = data[pos + 2] as u32 + 0x100 * (data[pos + 3] as u32);
        Ok((lo + 0x1_0000 * hi, pos + 4))
    } else {
        Err(VdfrError::ReadError(ReadFault::UnexpectedEnd))
    }
}

/// Reads a signed 32-bit number, low byte first.
pub fn read_i32_le(data: &[u8], pos: usize) -> (r: Result<(i32, usize), VdfrError>)
    ensures
        agrees(r, spec_i32_le(data@, pos as int)),
{
    match read_u32_le(data, pos) {
        Ok((u, p)) => {
            assert((u as i32) as int == (if u < 0x8000_0000u32 {
                u as int
            } else {
                u as int - 0x1_0000_0000
            })) by (bit_vector);
            Ok((u as i32, p))
        },
        Err(e) => Err(e),
    }
}

/// Reads a binary32 number, low byte first, and hands out its bits.
pub fn read_f32_le(data: &[u8], pos: usize) -> (r: Result<(u32, usize), VdfrError>)
    ensures
        agrees(r, spec_u32_le(data@, pos as int)),
{
    read_u32_le(data, pos)
}

/// Reads an unsigned 64-bit number, low byte first.
pub fn read_u64_le(data: &[u8], pos: usize) -> (r: Result<(u64, usize), VdfrError>)
    ensures
        agrees(r, spec_u64_le(data@, pos as int)),
{
    if pos <= data.len() && data.len() - pos >= 8 {
        let lo: (u32, usize) = match read_u32_le(data, pos) {
            Ok(x) => x,
            Err(e) => { return Err(e); },
        };
        let hi: (u32, usize) = match read_u32_le(data, pos + 4) {
            Ok(x) => x,
            Err(e) => { return Err(e); },
        };
        Ok((lo.0 as u64 + 0x1_0000_0000 * (hi.0 as u64), pos + 8))
    } else {
        Err(VdfrError::ReadError(ReadFault::UnexpectedEnd))
    }
}

/// Reads a signed 64-bit number, low byte first.
pub fn read_i64_le(data: &[u8], pos: usize) -> (r: Result<(i64, usize), VdfrError>)
    ensures
        agrees(r, spec_i64_le(data@, pos as int)),
{
    match read_u64_le(data, pos) {
        Ok((u, p)) => {
            assert((u as i64) as int == (if u < 0x8000_0000_0000_0000u64 {
                u as int
            } else {
                u as int - 0x1_0000_0000_0000_0000
            })) by (bit_vector);
            Ok((u as i64, p))
        },
        Err(e) => Err(e),
    }
}

/// Whether the first NUL byte at or after `from` is the one at `i`.
pub open spec fn nul_at(b: Seq<u8>, from: int, i: int) -> bool {
    &&& 0 <= from <= i < b.len()
    &&& b[i] == 0
    &&& forall|j: int| from <= j < i ==> b[j] != 0
}

/// Whether there is a NUL byte at or after `from`.
pub open spec fn has_nul(b: Seq<u8>, from: int) -> bool {
    exists|i: int| nul_at(b, from, i)
}

/// Where the first NUL byte at or after `from` is.
pub open spec fn first_nul(b: Seq<u8>, from: int) -> int {
    choose|i: int| nul_at(b, from, i)
}

/// A string of UTF-8 bytes up to the first NUL, which is read and left out
/// of the text.
pub open spec fn spec_utf8_cstr(b: Seq<u8>, pos: int) -> Parsed<Seq<char>> {
    if has_nul(b, pos) {
        Ok((utf8_text(b.subrange(pos, first_nul(b, pos))), first_nul(b, pos) + 1))
    } else {
        Err(unterminated())
    }
}

/// Whether the `k`-th 16-bit unit counted from `pos` is zero.
pub open spec fn unit_is_nul(b: Seq<u8>, pos: int, k: int) -> bool {
    b[pos + 2 * k] == 0 && b[pos + 2 * k + 1] == 0
}

/// Whether the first zero unit at or after `pos`, in steps of two bytes, is
/// the `k`-th.
pub open spec fn wide_end_at(b: Seq<u8>, pos: int, k: int) -> bool {
    &&& 0 <= pos
    &&& 0 <= k
    &&& pos + 2 * k + 2 <= b.len()
    &&& unit_is_nul(b, pos, k)
    &&& forall|j: int| 0 <= j < k ==> !unit_is_nul(b, pos, j)
}

/// Whether a wide string that starts at `pos` ends.
pub open spec fn has_wide_end(b: Seq<u8>, pos: int) -> bool {
    exists|k: int| wide_end_at(b, pos, k)
}

/// How many units of a wide string that starts at `pos` come before the
/// zero unit.
pub open spec fn wide_end(b: Seq<u8>, pos: int) -> int {
    choose|k: int| wide_end_at(b, pos, k)
}

/// `count` units from `pos` on, each read in the byte order given.
pub open spec fn wide_units(b: Seq<u8>, pos: int, count: int, little: bool) -> Seq<u16> {
    Seq::new(
        count as nat,
        |j: int|
            if little {
                le16(b, pos + 2 * j) as u16
            } else {
                be16(b, pos + 2 * j) as u16
            },
    )
}

/// The byte-order mark that a wide string of `k` units starts with, read big
/// end first; zero where the string is empty.
pub open spec fn wide_mark(b: Seq<u8>, pos: int, k: int) -> int {
    if k > 0 {
        be16(b, pos)
    } else {
        0
    }
}

/// Whether a wide string's first unit is a byte-order mark.
pub open spec fn is_mark(mark: int) -> bool {
    mark == 0xFEFF || mark == 0xFFFE
}

/// A string of 16-bit units up to the first zero unit, which is read and
/// left out of the text. A first unit FE FF is a byte-order mark for big
/// end first, FF FE one for little end first; a mark is read and left out
/// too. Without a mark the units are big end first.
pub open spec fn spec_utf16_cstr(b: Seq<u8>, pos: int) -> Parsed<Seq<char>> {
    if has_wide_end(b, pos) {
        let k = wide_end(b, pos);
        let mark = wide_mark(b, pos, k);
        let skip: int = if is_mark(mark) { 1 } else { 0 };
        Ok(
            (
                utf16_text(wide_units(b, pos + 2 * skip, k - skip, mark == 0xFFFE)),
                pos + 2 * k + 2,
            ),
        )
    } else {
        Err(unterminated())
    }
}

/// Exactly `n` bytes.
pub open spec fn spec_fixed(b: Seq<u8>, pos: int, n: int) -> Parsed<Seq<u8>> {
    if has_bytes(b, pos, n) {
        Ok((b.subrange(pos, pos + n), pos + n))
    } else {
        Err(truncated())
    }
}

/// Whether an executable result holds the text that the model gives.
pub open spec fn agrees_text(r: Result<(String, usize), VdfrError>, s: Parsed<Seq<char>>) -> bool {
    match r {
        Ok((v, p)) => s == Ok::<(Seq<char>, int), VdfrError>((v@, p as int)),
        Err(e) => s == Err::<(Seq<char>, int), VdfrError>(e),
    }
}

/// Reads a NUL-terminated string of UTF-8 bytes. Bytes that are no valid UTF-8
/// are repaired, not refused.
pub fn read_utf8_cstr(data: &[u8], pos: usize) -> (r: Result<(String, usize), VdfrError>)
    ensures
        agrees_text(r, spec_utf8_cstr(data@, pos as int)),
{
    let mut i: usize = pos;
    while i < data.len() && data[i] != 0
        invariant
            pos <= i,
            forall|j: int| pos <= j < i && j < data.len() ==> data@[j] != 0,
        decreases data.len() - i,
    {
        i += 1;
    }
    if i < data.len() {
        assert(nul_at(data@, pos as int, i as int));
        let text = string_from_utf8_lossy(slice_subrange(data, pos, i));
        Ok((text, i + 1))
    } else {
        assert(!has_nul(data@, pos as int));
        Err(VdfrError::ParseError(ParseFault::MissingNul))
    }
}

/// Reads a string of 16-bit units that ends with a zero unit. Units that are
/// no valid UTF-16 are repaired, not refused.
pub fn read_utf16_cstr(data: &[u8], pos: usize) -> (r: Result<(String, usize), VdfrError>)
    ensures
        agrees_text(r, spec_utf16_cstr(data@, pos as int)),
{
    if pos > data.len() {
        assert(!has_wide_end(data@, pos as int));
        return Err(VdfrError::ParseError(ParseFault::MissingNul));
    }
    let mut end: usize = pos;
    let ghost mut k: int = 0;
    while data.len() - end >= 2 && !(data[end] == 0 && data[end + 1] == 0)
        invariant
            pos <= end <= data.len(),
            0 <= k,
            end == pos + 2 * k,
            forall|j: int| 0 <= j < k ==> !unit_is_nul(data@, pos as int, j),
        decreases data.len() - end,
    {
        end += 2;
        proof {
            k = k + 1;
        }
    }
    if data.len() - end < 2 {
        assert forall|n: int| !wide_end_at(data@, pos as int, n) by {
            if wide_end_at(data@, pos as int, n) {
                assert(n < k);
            }
        }
        return Err(VdfrError::ParseError(ParseFault::MissingNul));
    }
    assert(wide_end_at(data@, pos as int, k));
    let mut little: bool = false;
    let mut start: usize = pos;
    if end > pos {
        if data[pos] == 0xFE && data[pos + 1] == 0xFF {
            start = pos + 2;
        } else if data[pos] == 0xFF && data[pos + 1] == 0xFE {
            start = pos + 2;
            little = true;
        }
    }
    let ghost skip: int = if start == pos { 0 } else { 1 };
    assert(skip == if is_mark(wide_mark(data@, pos as int, k)) { 1int } else { 0int });
    assert(little == (wide_mark(data@, pos as int, k) == 0xFFFE));
    let mut units: Vec<u16> = Vec::new();
    let mut at: usize = start;
    while at < end
        invariant
            start <= at <= end <= data.len(),
            end - start == 2 * (k - skip),
            at == start + 2 * units@.len(),
            forall|j: int|
                0 <= j < units@.len() ==> units@[j] == #[trigger] wide_units(
                    data@,
                    start as int,
                    k - skip,
                    little,
                )[j],
        decreases end - at,
    {
        let unit: u16 = if little {
            data[at] as u16 + 0x100 * (data[at + 1] as u16)
        } else {
            0x100 * (data[at] as u16) + data[at + 1] as u16
        };
        units.push(unit);
        at += 2;
    }
    assert(units@ =~= wide_units(data@, start as int, k - skip, little));
    let text = string_from_utf16_lossy(units.as_slice());
    Ok((text, end + 2))
}

/// Reads exactly `N` bytes.
pub fn read_fixed<const N: usize>(data: &[u8], pos: usize) -> (r: Result<
    ([u8; N], usize),
    VdfrError,
>)
    ensures
        match r {
            Ok((bytes, p)) => spec_fixed(data@, pos as int, N as int) == Ok::<
                (Seq<u8>, int),
                VdfrError,
            >((bytes@, p as int)),
            Err(e) => spec_fixed(data@, pos as int, N as int) == Err::<(Seq<u8>, int), VdfrError>(
                e,
            ),
        },
{
    if pos > data.len() || data.len() - pos < N {
        return Err(VdfrError::ReadError(ReadFault::UnexpectedEnd));
    }
    let mut bytes: [u8; N] = [0u8; N];
    let mut i: usize = 0;
    while i < N
        invariant
            i <= N,
            pos + N <= data.len(),
            forall|j: int| 0 <= j < i ==> bytes@[j] == data@[pos + j],
        decreases N - i,
    {
        bytes[i] = data[pos + i];
        i += 1;
    }
    assert(bytes@ =~= data@.subrange(pos as int, pos + N));
    Ok((bytes, pos + N))
}

} // verus!
