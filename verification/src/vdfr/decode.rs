//! The key-value stream: a table is a run of entries closed by an end byte;
//! an entry is a tag byte, a key, and the value that the tag announces.

use vstd::prelude::*;
use crate::vdfr::error::{truncated, ParseFault, VdfrError};
use crate::vdfr::reader::{
    agrees_text, read_f32_le, read_i32_le, read_i64_le, read_u32_le, read_u64_le, read_u8,
    read_utf16_cstr, read_utf8_cstr, spec_i32_le, spec_i64_le, spec_u32_le, spec_u64_le, spec_u8,
    spec_utf16_cstr, spec_utf8_cstr, Parsed,
};
use crate::vdfr::value::{table_insert, KeyValue, Node, Slot, Value};

verus! {

/// The tag of a nested table.
pub const BIN_NONE: u8 = 0x00;

/// The tag of a string of UTF-8 bytes.
pub const BIN_STRING: u8 = 0x01;

/// The tag of a signed 32-bit number.
pub const BIN_INT32: u8 = 0x02;

/// The tag of a binary32 number.
pub const BIN_FLOAT32: u8 = 0x03;

/// The tag of a pointer, kept as a signed 32-bit number.
pub const BIN_POINTER: u8 = 0x04;

/// The tag of a string of 16-bit units.
pub const BIN_WIDESTRING: u8 = 0x05;

/// The tag of a color, kept as a signed 32-bit number.
pub const BIN_COLOR: u8 = 0x06;

/// The tag of an unsigned 64-bit number.
pub const BIN_UINT64: u8 = 0x07;

/// The byte that closes a table.
pub const BIN_END: u8 = 0x08;

/// The tag of a signed 64-bit number.
pub const BIN_INT64: u8 = 0x0A;

/// The byte that closes a table in the alternative format.
pub const BIN_END_ALT: u8 = 0x0B;

/// How many tables may stand one inside the other below the outermost one.
/// Real files stay under ten; the bound keeps a hostile input from
/// exhausting the stack.
pub const MAX_DEPTH: usize = 256;

/// How a stream is to be read.
#[derive(Debug, Clone)]
pub struct KeyValueOptions {
    /// With a pool, a key is a 32-bit index into it; without, a key is a
    /// NUL-terminated string in the stream.
    pub string_pool: Option<Vec<String>>,
    /// Tables end with 0x0B in place of 0x08.
    pub alt_format: bool,
}

/// The options, as mathematics.
pub struct Dialect {
    pub pool: Option<Seq<Seq<char>>>,
    pub alt: bool,
}

/// The texts of a pool of strings.
pub open spec fn texts(pool: Seq<String>) -> Seq<Seq<char>> {
    Seq::new(pool.len(), |i: int| pool[i]@)
}

impl View for KeyValueOptions {
    type V = Dialect;

    open spec fn view(&self) -> Dialect {
        Dialect {
            pool: match self.string_pool {
                Some(pool) => Some(texts(pool@)),
                None => None,
            },
            alt: self.alt_format,
        }
    }
}

impl Default for KeyValueOptions {
    fn default() -> (options: KeyValueOptions)
        ensures
            options@ == inline_keys(),
    {
        KeyValueOptions { string_pool: None, alt_format: false }
    }
}

/// Keys in the stream, tables closed by 0x08.
pub open spec fn inline_keys() -> Dialect {
    Dialect { pool: None, alt: false }
}

/// Keys by index into `pool`, tables closed by 0x08.
pub open spec fn pooled_keys(pool: Seq<Seq<char>>) -> Dialect {
    Dialect { pool: Some(pool), alt: false }
}

/// The byte that closes a table.
pub open spec fn end_tag(d: Dialect) -> u8 {
    if d.alt {
        BIN_END_ALT
    } else {
        BIN_END
    }
}

/// The key of an entry.
pub open spec fn spec_key(b: Seq<u8>, pos: int, d: Dialect) -> Parsed<Seq<char>> {
    match d.pool {
        None => spec_utf8_cstr(b, pos),
        Some(pool) => match spec_u32_le(b, pos) {
            Err(e) => Err(e),
            Ok((index, next)) => if index < pool.len() {
                Ok((pool[index as int], next))
            } else {
                Err(VdfrError::InvalidStringIndex(index as usize, pool.len() as usize))
            },
        },
    }
}

/// The value that `tag` announces, where it is no table.
pub open spec fn spec_scalar(b: Seq<u8>, pos: int, tag: u8) -> Parsed<Node> {
    if tag == BIN_STRING {
        match spec_utf8_cstr(b, pos) {
            Ok((text, next)) => Ok((Node::Text(text), next)),
            Err(e) => Err(e),
        }
    } else if tag == BIN_WIDESTRING {
        match spec_utf16_cstr(b, pos) {
            Ok((text, next)) => Ok((Node::WideText(text), next)),
            Err(e) => Err(e),
        }
    } else if tag == BIN_INT32 || tag == BIN_POINTER || tag == BIN_COLOR {
        match spec_i32_le(b, pos) {
            Ok((n, next)) => Ok(
                (
                    if tag == BIN_INT32 {
                        Node::Int32(n)
                    } else if tag == BIN_POINTER {
                        Node::Pointer(n)
                    } else {
                        Node::Color(n)
                    },
                    next,
                ),
            ),
            Err(e) => Err(e),
        }
    } else if tag == BIN_UINT64 {
        match spec_u64_le(b, pos) {
            Ok((n, next)) => Ok((Node::UInt64(n), next)),
            Err(e) => Err(e),
        }
    } else if tag == BIN_INT64 {
        match spec_i64_le(b, pos) {
            Ok((n, next)) => Ok((Node::Int64(n), next)),
            Err(e) => Err(e),
        }
    } else if tag == BIN_FLOAT32 {
        match spec_u32_le(b, pos) {
            Ok((bits, next)) => Ok((Node::Float32(bits), next)),
            Err(e) => Err(e),
        }
    } else {
        Err(VdfrError::InvalidType(tag))
    }
}

/// The value that `tag` announces. A table may hold tables `depth` deep.
pub open spec fn spec_value(b: Seq<u8>, pos: int, tag: u8, d: Dialect, depth: nat) -> Parsed<Node>
    decreases b.len() - pos, 1nat,
{
    if tag == BIN_NONE {
        if depth == 0 {
            Err(VdfrError::ParseError(ParseFault::TooDeep))
        } else {
            match spec_table(b, pos, d, (depth - 1) as nat, Seq::empty()) {
                Ok((slots, next)) => Ok((Node::Table(slots), next)),
                Err(e) => Err(e),
            }
        }
    } else {
        spec_scalar(b, pos, tag)
    }
}

/// The table whose entries start at `pos`, added to the slots in `acc`: the
/// entries up to the end byte, each set in turn, so that of two entries
/// with one key the later one stays.
///
/// The comparison of positions never fails (see `lemma_table_advances`):
/// it is what shows that the definition is well-founded.
pub open spec fn spec_table(b: Seq<u8>, pos: int, d: Dialect, depth: nat, acc: Seq<Slot>) -> Parsed<
    Seq<Slot>,
>
    decreases b.len() - pos, 0nat,
{
    match spec_u8(b, pos) {
        Err(e) => Err(e),
        Ok((tag, after_tag)) => if tag == end_tag(d) {
            Ok((acc, after_tag))
        } else {
            match spec_key(b, after_tag, d) {
                Err(e) => Err(e),
                Ok((key, after_key)) => match spec_value(b, after_key, tag, d, depth) {
                    Err(e) => Err(e),
                    Ok((value, next)) => if after_key <= next <= b.len() {
                        spec_table(b, next, d, depth, table_insert(acc, key, value))
                    } else {
                        Err(truncated())
                    },
                },
            }
        },
    }
}

/// A value ends after the place where it starts, and inside the input.
pub proof fn lemma_value_advances(b: Seq<u8>, pos: int, tag: u8, d: Dialect, depth: nat)
    ensures
        match spec_value(b, pos, tag, d, depth) {
            Ok((_, next)) => pos < next <= b.len(),
            Err(_) => true,
        },
    decreases b.len() - pos, 1nat,
{
    if tag == BIN_NONE && depth > 0 {
        lemma_table_advances(b, pos, d, (depth - 1) as nat, Seq::empty());
    }
}

/// A table ends after the place where it starts, and inside the input.
pub proof fn lemma_table_advances(b: Seq<u8>, pos: int, d: Dialect, depth: nat, acc: Seq<Slot>)
    ensures
        match spec_table(b, pos, d, depth, acc) {
            Ok((_, next)) => pos < next <= b.len(),
            Err(_) => true,
        },
    decreases b.len() - pos, 0nat,
{
    if let Ok((tag, after_tag)) = spec_u8(b, pos) {
        if tag != end_tag(d) {
            if let Ok((key, after_key)) = spec_key(b, after_tag, d) {
                lemma_value_advances(b, after_key, tag, d, depth);
                if let Ok((value, next)) = spec_value(b, after_key, tag, d, depth) {
                    lemma_table_advances(b, next, d, depth, table_insert(acc, key, value));
                }
            }
        }
    }
}

/// Whether an executable result holds the value that the model gives.
pub open spec fn agrees_value(r: Result<(Value, usize), VdfrError>, s: Parsed<Node>) -> bool {
    match r {
        Ok((v, p)) => s == Ok::<(Node, int), VdfrError>((v@, p as int)),
        Err(e) => s == Err::<(Node, int), VdfrError>(e),
    }
}

/// Whether an executable result holds the table that the model gives.
pub open spec fn agrees_table(r: Result<(KeyValue, usize), VdfrError>, s: Parsed<Seq<Slot>>) -> bool {
    match r {
        Ok((kv, p)) => s == Ok::<(Seq<Slot>, int), VdfrError>((kv@, p as int)),
        Err(e) => s == Err::<(Seq<Slot>, int), VdfrError>(e),
    }
}

/// Reads the key of an entry.
pub fn read_key(data: &[u8], pos: usize, options: &KeyValueOptions) -> (r: Result<
    (String, usize),
    VdfrError,
>)
    ensures
        agrees_text(r, spec_key(data@, pos as int, options@)),
{
    match &options.string_pool {
        None => read_utf8_cstr(data, pos),
        Some(pool) => match read_u32_le(data, pos) {
            Err(e) => Err(e),
            Ok((index, next)) => {
                let index = index as usize;
                if index < pool.len() {
                    Ok((pool[index].clone(), next))
                } else {
                    Err(VdfrError::InvalidStringIndex(index, pool.len()))
                }
            },
        },
    }
}

/// Reads the value that `tag` announces, where it is no table.
pub fn read_scalar(data: &[u8], pos: usize, tag: u8) -> (r: Result<(Value, usize), VdfrError>)
    ensures
        agrees_value(r, spec_scalar(data@, pos as int, tag)),
{
    if tag == BIN_STRING {
        match read_utf8_cstr(data, pos) {
            Ok((text, next)) => Ok((Value::StringType(text), next)),
            Err(e) => Err(e),
        }
    } else if tag == BIN_WIDESTRING {
        match read_utf16_cstr(data, pos) {
            Ok((text, next)) => Ok((Value::WideStringType(text), next)),
            Err(e) => Err(e),
        }
    } else if tag == BIN_INT32 || tag == BIN_POINTER || tag == BIN_COLOR {
        match read_i32_le(data, pos) {
            Ok((n, next)) => {
                let value = if tag == BIN_INT32 {
                    Value::Int32Type(n)
                } else if tag == BIN_POINTER {
                    Value::PointerType(n)
                } else {
                    Value::ColorType(n)
                };
                Ok((value, next))
            },
            Err(e) => Err(e),
        }
    } else if tag == BIN_UINT64 {
        match read_u64_le(data, pos) {
            Ok((n, next)) => Ok((Value::UInt64Type(n), next)),
            Err(e) => Err(e),
        }
    } else if tag == BIN_INT64 {
        match read_i64_le(data, pos) {
            Ok((n, next)) => Ok((Value::Int64Type(n), next)),
            Err(e) => Err(e),
        }
    } else if tag == BIN_FLOAT32 {
        match read_f32_le(data, pos) {
            Ok((bits, next)) => Ok((Value::Float32Type(bits), next)),
            Err(e) => Err(e),
        }
    } else {
        Err(VdfrError::InvalidType(tag))
    }
}

/// Reads the table whose entries start at `pos`. Tables may stand `depth`
/// deep inside it.
pub fn parse_table(data: &[u8], pos: usize, options: &KeyValueOptions, depth: usize) -> (r: Result<
    (KeyValue, usize),
    VdfrError,
>)
    ensures
        agrees_table(r, spec_table(data@, pos as int, options@, depth as nat, Seq::empty())),
    decreases data.len() - pos,
{
    let bin_end = if options.alt_format {
        BIN_END_ALT
    } else {
        BIN_END
    };
    let mut node = KeyValue::new();
    let mut at: usize = pos;
    loop
        invariant
            pos <= at,
            bin_end == end_tag(options@),
            spec_table(data@, pos as int, options@, depth as nat, Seq::empty()) == spec_table(
                data@,
                at as int,
                options@,
                depth as nat,
                node@,
            ),
        decreases data.len() - at,
    {
        let (bin, after_tag) = match read_u8(data, at) {
            Ok(x) => x,
            Err(e) => {
                return Err(e);
            },
        };
        if bin == bin_end {
            return Ok((node, after_tag));
        }
        let (key, after_key) = match read_key(data, after_tag, options) {
            Ok(x) => x,
            Err(e) => {
                return Err(e);
            },
        };
        proof {
            lemma_value_advances(data@, after_key as int, bin, options@, depth as nat);
        }
        let (value, next) = if bin == BIN_NONE {
            if depth == 0 {
                return Err(VdfrError::ParseError(ParseFault::TooDeep));
            }
            match parse_table(data, after_key, options, depth - 1) {
                Ok((inner, next)) => (Value::KeyValueType(inner), next),
                Err(e) => {
                    return Err(e);
                },
            }
        } else {
            match read_scalar(data, after_key, bin) {
                Ok(x) => x,
                Err(e) => {
                    return Err(e);
                },
            }
        };
        node.insert(key, value);
        at = next;
    }
}

/// Reads the table whose entries start at `pos`, and says where it ends.
pub fn parse_bytes_kv(data: &[u8], pos: usize, options: &KeyValueOptions) -> (r: Result<
    (KeyValue, usize),
    VdfrError,
>)
    ensures
        agrees_table(r, spec_table(data@, pos as int, options@, MAX_DEPTH as nat, Seq::empty())),
{
    parse_table(data, pos, options, MAX_DEPTH)
}

/// The table that a stream with keys in it starts with.
pub open spec fn spec_keyvalues(b: Seq<u8>) -> Result<Seq<Slot>, VdfrError> {
    match spec_table(b, 0, inline_keys(), MAX_DEPTH as nat, Seq::empty()) {
        Ok((slots, _)) => Ok(slots),
        Err(e) => Err(e),
    }
}

/// Whether `r` is what decoding `b` gives.
pub open spec fn decoded(b: Seq<u8>, r: Result<KeyValue, VdfrError>) -> bool {
    match r {
        Ok(kv) => spec_keyvalues(b) == Ok::<Seq<Slot>, VdfrError>(kv@),
        Err(e) => spec_keyvalues(b) == Err::<Seq<Slot>, VdfrError>(e),
    }
}

/// Reads a stream that holds one table, keys in the stream. What follows
/// the table is not looked at.
pub fn parse_keyvalues(data: &[u8]) -> (r: Result<KeyValue, VdfrError>)
    ensures
        decoded(data@, r),
{
    let options = KeyValueOptions::default();
    match parse_bytes_kv(data, 0, &options) {
        Ok((kv, _)) => Ok(kv),
        Err(e) => Err(e),
    }
}

/// Whether a tag byte announces a value.
pub open spec fn is_value_tag(tag: u8) -> bool {
    tag == BIN_NONE || tag == BIN_STRING || tag == BIN_INT32 || tag == BIN_FLOAT32 || tag
        == BIN_POINTER || tag == BIN_WIDESTRING || tag == BIN_COLOR || tag == BIN_UINT64 || tag
        == BIN_INT64
}

} // verus!
