//! The bytes that stand for a tree, keys in the stream: what a writer of
//! the format puts out, stated so that it can be held against the reader.

use vstd::prelude::*;
use vstd::utf8::{
    char_is_scalar, encode_scalar, encode_utf8, encode_utf8_decode_utf8, encode_utf8_valid_utf8,
    is_scalar,
};
use crate::vdfr::decode::{
    inline_keys, spec_keyvalues, spec_table, spec_value, BIN_COLOR, BIN_END, BIN_FLOAT32,
    BIN_INT32, BIN_INT64, BIN_NONE, BIN_POINTER, BIN_STRING, BIN_UINT64, BIN_WIDESTRING,
    MAX_DEPTH,
};
use crate::vdfr::error::VdfrError;
use crate::vdfr::reader::{
    be16, first_nul, le32, le64, nul_at, signed, spec_i32_le, spec_i64_le, spec_u32_le,
    spec_u64_le, spec_utf16_cstr, spec_utf8_cstr, unit_is_nul, wide_end, wide_end_at, wide_mark,
    wide_units,
};
use crate::vdfr::text::{is_surrogate, surrogate_free, utf16_text};
use crate::vdfr::value::{distinct_keys, has_key, slot_at, table_insert, Node, Slot};

verus! {

/// Whether `enc` stands in `b` at `pos`.
pub open spec fn holds_at(b: Seq<u8>, pos: int, enc: Seq<u8>) -> bool {
    &&& 0 <= pos
    &&& pos + enc.len() <= b.len()
    &&& b.subrange(pos, pos + enc.len()) == enc
}

/// The four bytes of a 32-bit number, low byte first.
pub open spec fn u32_bytes(n: u32) -> Seq<u8> {
    seq![
        (n % 0x100) as u8,
        (n / 0x100 % 0x100) as u8,
        (n / 0x1_0000 % 0x100) as u8,
        (n / 0x100_0000) as u8,
    ]
}

/// The eight bytes of a 64-bit number, low byte first.
pub open spec fn u64_bytes(n: u64) -> Seq<u8> {
    u32_bytes((n % 0x1_0000_0000) as u32) + u32_bytes((n / 0x1_0000_0000) as u32)
}

/// The four bytes of a signed number in two's complement, low byte first.
pub open spec fn i32_bytes(n: i32) -> Seq<u8> {
    u32_bytes(
        (if n < 0 {
            n + 0x1_0000_0000
        } else {
            n as int
        }) as u32,
    )
}

/// The eight bytes of a signed number in two's complement, low byte first.
pub open spec fn i64_bytes(n: i64) -> Seq<u8> {
    u64_bytes(
        (if n < 0 {
            n + 0x1_0000_0000_0000_0000
        } else {
            n as int
        }) as u64,
    )
}

/// No character is U+0000.
pub open spec fn nul_free(s: Seq<char>) -> bool {
    forall|i: int| 0 <= i < s.len() ==> (#[trigger] s[i]) as u32 != 0
}

/// A string in UTF-8 with its terminator.
pub open spec fn cstr_bytes(s: Seq<char>) -> Seq<u8> {
    encode_utf8(s).push(0u8)
}

/// Whether a string can stand as a wide string without byte-order mark:
/// every character is one 16-bit unit and not U+0000, and the first is no
/// byte-order mark in either byte order.
pub open spec fn wide_plain(s: Seq<char>) -> bool {
    &&& forall|i: int| 0 <= i < s.len() ==> 0 < (#[trigger] s[i]) as u32 <= 0xFFFF
    &&& s.len() > 0 ==> s[0] as u32 != 0xFEFF && s[0] as u32 != 0xFFFE
}

/// A string in 16-bit units, big end first, without byte-order mark, with
/// its terminator.
pub open spec fn wide_bytes(s: Seq<char>) -> Seq<u8> {
    Seq::new(
        2 * s.len() + 2,
        |i: int|
            if i >= 2 * s.len() {
                0u8
            } else if i % 2 == 0 {
                (s[i / 2] as u32 / 0x100) as u8
            } else {
                (s[i / 2] as u32 % 0x100) as u8
            },
    )
}

proof fn lemma_u32_at(b: Seq<u8>, pos: int, n: u32)
    requires
        holds_at(b, pos, u32_bytes(n)),
    ensures
        le32(b, pos) == n,
        spec_u32_le(b, pos) == Ok::<(u32, int), VdfrError>((n, pos + 4)),
{
    let enc = u32_bytes(n);
    let part = b.subrange(pos, pos + 4);
    assert(b[pos] == part[0] && b[pos + 1] == part[1] && b[pos + 2] == part[2] && b[pos + 3]
        == part[3]);
    assert(b[pos] == enc[0] && b[pos + 1] == enc[1] && b[pos + 2] == enc[2] && b[pos + 3]
        == enc[3]);
}

proof fn lemma_i32_at(b: Seq<u8>, pos: int, n: i32)
    requires
        holds_at(b, pos, i32_bytes(n)),
    ensures
        spec_i32_le(b, pos) == Ok::<(i32, int), VdfrError>((n, pos + 4)),
{
    let u = (if n < 0 {
        n + 0x1_0000_0000
    } else {
        n as int
    }) as u32;
    lemma_u32_at(b, pos, u);
}

proof fn lemma_u64_at(b: Seq<u8>, pos: int, n: u64)
    requires
        holds_at(b, pos, u64_bytes(n)),
    ensures
        le64(b, pos) == n,
        spec_u64_le(b, pos) == Ok::<(u64, int), VdfrError>((n, pos + 8)),
{
    let lo = (n % 0x1_0000_0000) as u32;
    let hi = (n / 0x1_0000_0000) as u32;
    let enc = u64_bytes(n);
    assert(b.subrange(pos, pos + 4) =~= enc.subrange(0, 4));
    assert(enc.subrange(0, 4) =~= u32_bytes(lo));
    assert(b.subrange(pos + 4, pos + 8) =~= enc.subrange(4, 8));
    assert(enc.subrange(4, 8) =~= u32_bytes(hi));
    lemma_u32_at(b, pos, lo);
    lemma_u32_at(b, pos + 4, hi);
}

proof fn lemma_i64_at(b: Seq<u8>, pos: int, n: i64)
    requires
        holds_at(b, pos, i64_bytes(n)),
    ensures
        spec_i64_le(b, pos) == Ok::<(i64, int), VdfrError>((n, pos + 8)),
{
    let u = (if n < 0 {
        n + 0x1_0000_0000_0000_0000
    } else {
        n as int
    }) as u64;
    lemma_u64_at(b, pos, u);
}

proof fn lemma_scalar_nonzero(c: u32)
    requires
        is_scalar(c),
        c != 0,
    ensures
        forall|i: int| 0 <= i < encode_scalar(c).len() ==> encode_scalar(c)[i] != 0,
{
    assert(c <= 0x7F && c != 0 ==> (c & 0x7F) as u8 != 0) by (bit_vector);
    assert((0xC0u8 | ((c >> 6) & 0x1F) as u8) != 0) by (bit_vector);
    assert((0xE0u8 | ((c >> 12) & 0x0F) as u8) != 0) by (bit_vector);
    assert((0xF0u8 | ((c >> 18) & 0x7) as u8) != 0) by (bit_vector);
    assert((0x80u8 | (c & 0x3F) as u8) != 0) by (bit_vector);
    assert((0x80u8 | ((c >> 6) & 0x3F) as u8) != 0) by (bit_vector);
    assert((0x80u8 | ((c >> 12) & 0x3F) as u8) != 0) by (bit_vector);
}

/// The UTF-8 bytes of a string without U+0000 hold no zero byte.
proof fn lemma_utf8_nonzero(s: Seq<char>)
    requires
        nul_free(s),
    ensures
        forall|i: int| 0 <= i < encode_utf8(s).len() ==> encode_utf8(s)[i] != 0,
    decreases s.len(),
{
    if s.len() > 0 {
        char_is_scalar(s[0]);
        lemma_scalar_nonzero(s[0] as u32);
        let first = encode_scalar(s[0] as u32);
        let rest = s.drop_first();
        assert(nul_free(rest)) by {
            assert forall|i: int| 0 <= i < rest.len() implies (#[trigger] rest[i]) as u32 != 0 by {
                assert(rest[i] == s[i + 1]);
            }
        }
        lemma_utf8_nonzero(rest);
        assert forall|i: int| 0 <= i < encode_utf8(s).len() implies encode_utf8(s)[i] != 0 by {
            if i < first.len() {
                assert(encode_utf8(s)[i] == first[i]);
            } else {
                assert(encode_utf8(s)[i] == encode_utf8(rest)[i - first.len()]);
            }
        }
    }
}

proof fn lemma_cstr_at(b: Seq<u8>, pos: int, s: Seq<char>)
    requires
        holds_at(b, pos, cstr_bytes(s)),
        nul_free(s),
    ensures
        spec_utf8_cstr(b, pos) == Ok::<(Seq<char>, int), VdfrError>(
            (s, pos + cstr_bytes(s).len()),
        ),
{
    let enc = encode_utf8(s);
    let end = pos + enc.len();
    lemma_utf8_nonzero(s);
    assert forall|j: int| pos <= j < end implies b[j] != 0 by {
        assert(b[j] == b.subrange(pos, end + 1)[j - pos]);
        assert(cstr_bytes(s)[j - pos] == enc[j - pos]);
    }
    assert(b[end] == b.subrange(pos, end + 1)[end - pos]);
    assert(nul_at(b, pos, end));
    assert(first_nul(b, pos) == end);
    assert(b.subrange(pos, end) =~= enc);
    encode_utf8_valid_utf8(s);
    encode_utf8_decode_utf8(s);
}

/// The `j`-th unit of a wide string that stands at `pos` is its `j`-th
/// character.
proof fn lemma_wide_unit(b: Seq<u8>, pos: int, s: Seq<char>, j: int)
    requires
        holds_at(b, pos, wide_bytes(s)),
        wide_plain(s),
        0 <= j < s.len(),
    ensures
        !unit_is_nul(b, pos, j),
        be16(b, pos + 2 * j) == s[j] as u32,
        0 < be16(b, pos + 2 * j) <= 0xFFFF,
        !(0xD800 <= be16(b, pos + 2 * j) <= 0xDFFF),
        (be16(b, pos + 2 * j) as u16) as char == s[j],
{
    let enc = wide_bytes(s);
    let part = b.subrange(pos, pos + enc.len());
    assert(b[pos + 2 * j] == part[2 * j]);
    assert(b[pos + 2 * j + 1] == part[2 * j + 1]);
    char_is_scalar(s[j]);
    let c = s[j] as u32;
    assert(0 < c <= 0xFFFF);
    assert(enc[2 * j] == (c / 0x100) as u8);
    assert(enc[2 * j + 1] == (c % 0x100) as u8);
    vstd::utf8::char_u32_cast(s[j], c);
}

proof fn lemma_wide_at(b: Seq<u8>, pos: int, s: Seq<char>)
    requires
        holds_at(b, pos, wide_bytes(s)),
        wide_plain(s),
    ensures
        spec_utf16_cstr(b, pos) == Ok::<(Seq<char>, int), VdfrError>(
            (s, pos + wide_bytes(s).len()),
        ),
{
    let enc = wide_bytes(s);
    let k = s.len() as int;
    let part = b.subrange(pos, pos + enc.len());
    assert forall|j: int| 0 <= j < k implies !unit_is_nul(b, pos, j) by {
        lemma_wide_unit(b, pos, s, j);
    }
    assert(b[pos + 2 * k] == part[2 * k]);
    assert(b[pos + 2 * k + 1] == part[2 * k + 1]);
    assert(wide_end_at(b, pos, k));
    assert(wide_end(b, pos) == k) by {
        let chosen = wide_end(b, pos);
        assert(wide_end_at(b, pos, chosen));
        if chosen < k {
            assert(!unit_is_nul(b, pos, chosen));
        }
    }
    if k > 0 {
        lemma_wide_unit(b, pos, s, 0);
    }
    let mark = wide_mark(b, pos, k);
    assert(mark != 0xFEFF && mark != 0xFFFE);
    let units = wide_units(b, pos, k, false);
    assert(surrogate_free(units)) by {
        assert forall|j: int| 0 <= j < units.len() implies !is_surrogate(
            #[trigger] units[j],
        ) by {
            lemma_wide_unit(b, pos, s, j);
        }
    }
    assert(utf16_text(units) =~= s) by {
        assert forall|j: int| 0 <= j < k implies units[j] as char == s[j] by {
            lemma_wide_unit(b, pos, s, j);
        }
    }
}

/// The tag byte that announces a value.
pub open spec fn tag_of(node: Node) -> u8 {
    match node {
        Node::Text(_) => BIN_STRING,
        Node::WideText(_) => BIN_WIDESTRING,
        Node::Int32(_) => BIN_INT32,
        Node::Pointer(_) => BIN_POINTER,
        Node::Color(_) => BIN_COLOR,
        Node::UInt64(_) => BIN_UINT64,
        Node::Int64(_) => BIN_INT64,
        Node::Float32(_) => BIN_FLOAT32,
        Node::Table(_) => BIN_NONE,
    }
}

/// The bytes of a value, without tag and key.
pub open spec fn encode_value(node: Node) -> Seq<u8>
    decreases node,
{
    match node {
        Node::Text(s) => cstr_bytes(s),
        Node::WideText(s) => wide_bytes(s),
        Node::Int32(n) => i32_bytes(n),
        Node::Pointer(n) => i32_bytes(n),
        Node::Color(n) => i32_bytes(n),
        Node::UInt64(n) => u64_bytes(n),
        Node::Int64(n) => i64_bytes(n),
        Node::Float32(bits) => u32_bytes(bits),
        Node::Table(slots) => encode_table(slots),
    }
}

/// The bytes of a table: each slot as tag, key and value, in the table's
/// order, and the end byte.
pub open spec fn encode_table(slots: Seq<Slot>) -> Seq<u8>
    decreases slots,
{
    if slots.len() == 0 {
        seq![BIN_END]
    } else {
        seq![tag_of(slots[0].value)] + cstr_bytes(slots[0].key) + encode_value(slots[0].value)
            + encode_table(slots.drop_first())
    }
}

/// Whether a value can be written and read back: a string has no U+0000, a
/// wide string is plain, and a table is writable one level further down.
pub open spec fn writable_value(node: Node, depth: nat) -> bool
    decreases node,
{
    match node {
        Node::Text(s) => nul_free(s),
        Node::WideText(s) => wide_plain(s),
        Node::Table(slots) => depth > 0 && writable(slots, (depth - 1) as nat),
        _ => true,
    }
}

/// Whether a table can be written and read back with tables `depth` deep
/// inside it: no key occurs twice, no key has a U+0000, and every value is
/// writable.
pub open spec fn writable(slots: Seq<Slot>, depth: nat) -> bool
    decreases slots,
{
    &&& distinct_keys(slots)
    &&& forall|i: int|
        0 <= i < slots.len() ==> nul_free((#[trigger] slots[i]).key) && writable_value(
            slots[i].value,
            depth,
        )
}

proof fn lemma_holds_split(b: Seq<u8>, pos: int, x: Seq<u8>, y: Seq<u8>)
    requires
        holds_at(b, pos, x + y),
    ensures
        holds_at(b, pos, x),
        holds_at(b, pos + x.len(), y),
{
    let whole = b.subrange(pos, pos + (x + y).len());
    assert(b.subrange(pos, pos + x.len()) =~= whole.subrange(0, x.len() as int));
    assert((x + y).subrange(0, x.len() as int) =~= x);
    assert(b.subrange(pos + x.len(), pos + x.len() + y.len()) =~= whole.subrange(
        x.len() as int,
        (x + y).len() as int,
    ));
    assert((x + y).subrange(x.len() as int, (x + y).len() as int) =~= y);
}

proof fn lemma_value_at(b: Seq<u8>, pos: int, node: Node, depth: nat)
    requires
        holds_at(b, pos, encode_value(node)),
        writable_value(node, depth),
    ensures
        spec_value(b, pos, tag_of(node), inline_keys(), depth) == Ok::<(Node, int), VdfrError>(
            (node, pos + encode_value(node).len()),
        ),
    decreases node,
{
    match node {
        Node::Text(s) => {
            lemma_cstr_at(b, pos, s);
        },
        Node::WideText(s) => {
            lemma_wide_at(b, pos, s);
        },
        Node::Int32(n) => {
            lemma_i32_at(b, pos, n);
        },
        Node::Pointer(n) => {
            lemma_i32_at(b, pos, n);
        },
        Node::Color(n) => {
            lemma_i32_at(b, pos, n);
        },
        Node::UInt64(n) => {
            lemma_u64_at(b, pos, n);
        },
        Node::Int64(n) => {
            lemma_i64_at(b, pos, n);
        },
        Node::Float32(bits) => {
            lemma_u32_at(b, pos, bits);
        },
        Node::Table(slots) => {
            assert(Seq::<Slot>::empty() + slots =~= slots);
            lemma_table_at(b, pos, slots, Seq::empty(), (depth - 1) as nat);
        },
    }
}

proof fn lemma_table_at(b: Seq<u8>, pos: int, pending: Seq<Slot>, done: Seq<Slot>, depth: nat)
    requires
        holds_at(b, pos, encode_table(pending)),
        writable(pending, depth),
        distinct_keys(done + pending),
    ensures
        spec_table(b, pos, inline_keys(), depth, done) == Ok::<(Seq<Slot>, int), VdfrError>(
            (done + pending, pos + encode_table(pending).len()),
        ),
    decreases pending,
{
    let enc = encode_table(pending);
    assert(b[pos] == b.subrange(pos, pos + enc.len())[0]);
    if pending.len() == 0 {
        assert(done + pending =~= done);
    } else {
        let slot = pending[0];
        let rest = pending.drop_first();
        let tag = seq![tag_of(slot.value)];
        let key = cstr_bytes(slot.key);
        let value = encode_value(slot.value);
        let tail = encode_table(rest);
        assert(enc == ((tag + key) + value) + tail);
        lemma_holds_split(b, pos, (tag + key) + value, tail);
        lemma_holds_split(b, pos, tag + key, value);
        lemma_holds_split(b, pos, tag, key);
        assert(b[pos] == tag_of(slot.value));
        lemma_cstr_at(b, pos + 1, slot.key);
        let after_key = pos + 1 + key.len();
        lemma_value_at(b, after_key, slot.value, depth);
        let next = after_key + value.len();
        assert(!has_key(done, slot.key)) by {
            let all = done + pending;
            assert(all[done.len() as int] == slot);
            if has_key(done, slot.key) {
                let i = choose|i: int| slot_at(done, slot.key, i);
                assert(all[i] == done[i]);
            }
        }
        let grown = done.push(slot);
        assert(table_insert(done, slot.key, slot.value) == grown);
        assert(grown + rest =~= done + pending);
        assert(writable(rest, depth)) by {
            assert forall|i: int, j: int| 0 <= i < j < rest.len() implies (#[trigger] rest[i]).key
                != (#[trigger] rest[j]).key by {
                assert(rest[i] == pending[i + 1] && rest[j] == pending[j + 1]);
            }
            assert forall|i: int| 0 <= i < rest.len() implies nul_free((#[trigger] rest[i]).key)
                && writable_value(rest[i].value, depth) by {
                assert(rest[i] == pending[i + 1]);
            }
        }
        lemma_table_at(b, next, rest, grown, depth);
    }
}

/// A tree that is written and read back is the same tree, slot for slot.
///
/// The trees meant are those that [`writable`] describes: what the format
/// cannot carry, a U+0000 inside a string or tables more than
/// [`MAX_DEPTH`] deep, does not come back, and of wide strings only those
/// of 16-bit characters are covered.
pub proof fn lemma_round_trip(tree: Seq<Slot>)
    requires
        writable(tree, MAX_DEPTH as nat),
    ensures
        spec_keyvalues(encode_table(tree)) == Ok::<Seq<Slot>, VdfrError>(tree),
{
    let b = encode_table(tree);
    assert(b.subrange(0, b.len() as int) =~= b);
    assert(Seq::<Slot>::empty() + tree =~= tree);
    lemma_table_at(b, 0, tree, Seq::empty(), MAX_DEPTH as nat);
}

} // verus!
