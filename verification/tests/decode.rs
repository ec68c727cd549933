use backend::vdfr::decode::{
    parse_bytes_kv, parse_keyvalues, parse_table, read_key, read_scalar, KeyValueOptions, MAX_DEPTH,
};
use backend::vdfr::error::{ParseFault, ReadFault, VdfrError};
use backend::vdfr::value::{KeyValue, Value};

fn show(value: &Value) -> String {
    match value {
        Value::StringType(s) => format!("S:{}", s),
        Value::WideStringType(s) => format!("W:{}", s),
        Value::Int32Type(n) => format!("I:{}", n),
        Value::PointerType(n) => format!("P:{}", n),
        Value::ColorType(n) => format!("C:{}", n),
        Value::UInt64Type(n) => format!("U:{}", n),
        Value::Int64Type(n) => format!("L:{}", n),
        Value::Float32Type(bits) => format!("F:{}", f32::from_bits(*bits)),
        Value::KeyValueType(kv) => show_table(kv),
    }
}

fn show_table(kv: &KeyValue) -> String {
    let mut parts: Vec<String> = Vec::new();
    for i in 0..kv.len() {
        parts.push(format!("{}={}", kv.key_at(i), show(kv.value_at(i))));
    }
    format!("{{{}}}", parts.join(","))
}

fn text_of(value: Option<&Value>) -> String {
    match value {
        Some(v) => show(v),
        None => String::from("-"),
    }
}

fn pooled(pool: &[&str]) -> KeyValueOptions {
    KeyValueOptions {
        string_pool: Some(pool.iter().map(|s| s.to_string()).collect()),
        alt_format: false,
    }
}

#[test]
fn stream_with_every_scalar_kind() {
    let mut bytes: Vec<u8> = Vec::new();
    bytes.extend_from_slice(&[0x02, b'a', 0x00, 5, 0, 0, 0]);
    bytes.extend_from_slice(&[0x07, b'b', 0x00, 7, 0, 0, 0, 0, 0, 0, 0]);
    bytes.extend_from_slice(&[0x03, b'c', 0x00]);
    bytes.extend_from_slice(&1.5f32.to_le_bytes());
    bytes.extend_from_slice(&[0x01, b'd', 0x00, b'h', b'i', 0x00]);
    bytes.push(0x08);
    let kv = parse_keyvalues(&bytes).unwrap();
    assert_eq!(kv.len(), 4);
    assert!(matches!(kv.get("a"), Some(Value::Int32Type(5))));
    assert!(matches!(kv.get("b"), Some(Value::UInt64Type(7))));
    assert_eq!(text_of(kv.get("c")), "F:1.5");
    assert!(matches!(kv.get("c"), Some(Value::Float32Type(0x3FC0_0000))));
    assert_eq!(text_of(kv.get("d")), "S:hi");
    assert!(kv.get("e").is_none());
}

#[test]
fn every_tag_gives_its_kind() {
    let mut bytes: Vec<u8> = Vec::new();
    bytes.extend_from_slice(&[0x02, b'i', 0x00, 0xFE, 0xFF, 0xFF, 0xFF]);
    bytes.extend_from_slice(&[0x04, b'p', 0x00, 0x78, 0x56, 0x34, 0x12]);
    bytes.extend_from_slice(&[0x06, b'c', 0x00, 0x00, 0x00, 0x00, 0x80]);
    bytes.extend_from_slice(&[0x07, b'u', 0x00, 0xFF, 0xFF, 0xFF, 0xFF, 0xFF, 0xFF, 0xFF, 0xFF]);
    bytes.extend_from_slice(&[0x0A, b'l', 0x00, 0xFF, 0xFF, 0xFF, 0xFF, 0xFF, 0xFF, 0xFF, 0xFF]);
    bytes.extend_from_slice(&[0x0A, b'm', 0x00, 0x00, 0x00, 0x00, 0x00, 0x00, 0x00, 0x00, 0x80]);
    bytes.extend_from_slice(&[0x00, b't', 0x00, 0x08]);
    bytes.push(0x08);
    let kv = parse_keyvalues(&bytes).unwrap();
    assert_eq!(
        show_table(&kv),
        "{i=I:-2,p=P:305419896,c=C:-2147483648,u=U:18446744073709551615,l=L:-1,\
         m=L:-9223372036854775808,t={}}"
    );
}

#[test]
fn pool_indexed_keys() {
    let options = pooled(&["alpha", "beta"]);
    let bytes = [0x01, 0x00, 0x00, 0x00, 0x00, b'x', 0x00, 0x08];
    let (kv, next) = parse_bytes_kv(&bytes, 0, &options).unwrap();
    assert_eq!(next, 8);
    assert_eq!(show_table(&kv), "{alpha=S:x}");
    assert!(kv.get("beta").is_none());
}

#[test]
fn pool_index_out_of_range() {
    let options = pooled(&["alpha", "beta"]);
    let bytes = [0x01, 0x02, 0x00, 0x00, 0x00, b'x', 0x00, 0x08];
    assert_eq!(
        parse_bytes_kv(&bytes, 0, &options).unwrap_err(),
        VdfrError::InvalidStringIndex(2, 2)
    );
    let empty = pooled(&[]);
    let bytes = [0x02, 0x00, 0x00, 0x00, 0x00, 1, 0, 0, 0, 0x08];
    assert_eq!(
        parse_bytes_kv(&bytes, 0, &empty).unwrap_err(),
        VdfrError::InvalidStringIndex(0, 0)
    );
    assert_eq!(show_table(&parse_bytes_kv(&[0x08], 0, &empty).unwrap().0), "{}");
}

#[test]
fn pool_reaches_nested_tables() {
    let options = pooled(&["outer", "inner"]);
    let bytes = [0x00, 0, 0, 0, 0, 0x02, 1, 0, 0, 0, 9, 0, 0, 0, 0x08, 0x08];
    let (kv, next) = parse_bytes_kv(&bytes, 0, &options).unwrap();
    assert_eq!(next, bytes.len());
    assert_eq!(show_table(&kv), "{outer={inner=I:9}}");
}

#[test]
fn unknown_tag_is_reported_with_its_byte() {
    assert_eq!(parse_keyvalues(&[0x09, b'k', 0x00]).unwrap_err(), VdfrError::InvalidType(0x09));
    assert_eq!(
        parse_keyvalues(&[0x09, b'k', 0x00, 1, 2, 3]).unwrap_err(),
        VdfrError::InvalidType(0x09)
    );
    assert_eq!(parse_keyvalues(&[0x0B, b'k', 0x00]).unwrap_err(), VdfrError::InvalidType(0x0B));
    assert_eq!(parse_keyvalues(&[0xFF, 0x00]).unwrap_err(), VdfrError::InvalidType(0xFF));
    // the key is read first
    assert_eq!(
        parse_keyvalues(&[0x09, b'k']).unwrap_err(),
        VdfrError::ParseError(ParseFault::MissingNul)
    );
    assert_eq!(read_scalar(&[1, 2, 3], 0, 0x08).unwrap_err(), VdfrError::InvalidType(0x08));
}

#[test]
fn alternative_end_byte() {
    let alt = KeyValueOptions { string_pool: None, alt_format: true };
    let bytes = [0x02, b'a', 0x00, 1, 0, 0, 0, 0x0B];
    let (kv, next) = parse_bytes_kv(&bytes, 0, &alt).unwrap();
    assert_eq!((show_table(&kv), next), (String::from("{a=I:1}"), 8));
    let usual = [0x02, b'a', 0x00, 1, 0, 0, 0, 0x08, b'x', 0x00];
    assert_eq!(parse_bytes_kv(&usual, 0, &alt).unwrap_err(), VdfrError::InvalidType(0x08));
    let plain = KeyValueOptions::default();
    assert!(plain.string_pool.is_none());
    assert!(!plain.alt_format);
    assert_eq!(
        parse_bytes_kv(&bytes, 0, &plain).unwrap_err(),
        VdfrError::ParseError(ParseFault::MissingNul)
    );
    let closed_twice = [0x02, b'a', 0x00, 1, 0, 0, 0, 0x0B, b'x', 0x00];
    assert_eq!(parse_bytes_kv(&closed_twice, 0, &plain).unwrap_err(), VdfrError::InvalidType(0x0B));
}

#[test]
fn later_entry_wins_and_keeps_the_place() {
    let bytes = [
        0x02, b'a', 0x00, 1, 0, 0, 0, 0x02, b'b', 0x00, 2, 0, 0, 0, 0x01, b'a', 0x00, b'z', 0x00,
        0x08,
    ];
    let kv = parse_keyvalues(&bytes).unwrap();
    assert_eq!(kv.len(), 2);
    assert_eq!(show_table(&kv), "{a=S:z,b=I:2}");
}

#[test]
fn what_follows_the_table_is_left_alone() {
    let bytes = [0x08, 0x09, 0x09];
    assert_eq!(parse_keyvalues(&bytes).unwrap().len(), 0);
    let (kv, next) = parse_bytes_kv(&bytes, 0, &KeyValueOptions::default()).unwrap();
    assert_eq!((kv.len(), next), (0, 1));
    let from_one = [0xAA, 0x02, b'a', 0x00, 1, 0, 0, 0, 0x08];
    let (kv, next) = parse_bytes_kv(&from_one, 1, &KeyValueOptions::default()).unwrap();
    assert_eq!((show_table(&kv), next), (String::from("{a=I:1}"), 9));
}

#[test]
fn truncated_streams() {
    let end = VdfrError::ReadError(ReadFault::UnexpectedEnd);
    let nul = VdfrError::ParseError(ParseFault::MissingNul);
    assert_eq!(parse_keyvalues(&[]).unwrap_err(), end);
    assert_eq!(parse_keyvalues(&[0x02]).unwrap_err(), nul);
    assert_eq!(parse_keyvalues(&[0x02, b'a', 0x00, 1, 0, 0]).unwrap_err(), end);
    assert_eq!(parse_keyvalues(&[0x02, b'a', 0x00, 1, 0, 0, 0]).unwrap_err(), end);
    assert_eq!(parse_keyvalues(&[0x07, b'a', 0x00, 1, 0, 0, 0, 0, 0, 0]).unwrap_err(), end);
    assert_eq!(parse_keyvalues(&[0x01, b'k', 0x00, b'v']).unwrap_err(), nul);
    assert_eq!(parse_keyvalues(&[0x05, b'k', 0x00, 0x00, 0x41, 0x00]).unwrap_err(), nul);
    assert_eq!(parse_keyvalues(&[0x00, b'k', 0x00]).unwrap_err(), end);
    assert_eq!(parse_keyvalues(&[0x00, b'k', 0x00, 0x08]).unwrap_err(), end);
    let options = pooled(&["a"]);
    assert_eq!(parse_bytes_kv(&[0x02, 0, 0, 0], 0, &options).unwrap_err(), end);
    assert_eq!(parse_bytes_kv(&[0x08], 1, &options).unwrap_err(), end);
    assert_eq!(parse_bytes_kv(&[0x08], 7, &options).unwrap_err(), end);
}

#[test]
fn lossy_utf8() {
    let bytes = [0x01, b'k', 0xFF, 0x00, b'a', 0xC3, 0x00, 0x08];
    let kv = parse_keyvalues(&bytes).unwrap();
    assert_eq!(show_table(&kv), "{k\u{FFFD}=S:a\u{FFFD}}");
    let fine = [0x01, b'k', 0x00, 0xC3, 0xA9, 0xE2, 0x82, 0xAC, 0x00, 0x08];
    assert_eq!(show_table(&parse_keyvalues(&fine).unwrap()), "{k=S:\u{E9}\u{20AC}}");
}

#[test]
fn wide_string_without_mark_is_big_endian() {
    let bytes = [0x05, b'w', 0x00, 0x00, 0x47, 0x20, 0xAC, 0x00, 0x00, 0x08];
    let kv = parse_keyvalues(&bytes).unwrap();
    match kv.get("w") {
        Some(Value::WideStringType(s)) => assert_eq!(s, "G\u{20AC}"),
        _ => panic!("no wide string"),
    }
}

#[test]
fn wide_string_with_little_endian_mark() {
    let bytes = [0x05, b'w', 0x00, 0xFF, 0xFE, 0x47, 0x00, 0xAC, 0x20, 0x00, 0x00, 0x08];
    let kv = parse_keyvalues(&bytes).unwrap();
    match kv.get("w") {
        Some(Value::WideStringType(s)) => assert_eq!(s, "G\u{20AC}"),
        _ => panic!("no wide string"),
    }
}

#[test]
fn wide_string_with_big_endian_mark() {
    let bytes = [0x05, b'w', 0x00, 0xFE, 0xFF, 0x00, 0x47, 0x00, 0x00, 0x08];
    assert_eq!(show_table(&parse_keyvalues(&bytes).unwrap()), "{w=W:G}");
    let only_mark = [0x05, b'w', 0x00, 0xFF, 0xFE, 0x00, 0x00, 0x08];
    assert_eq!(show_table(&parse_keyvalues(&only_mark).unwrap()), "{w=W:}");
    let empty = [0x05, b'w', 0x00, 0x00, 0x00, 0x08];
    assert_eq!(show_table(&parse_keyvalues(&empty).unwrap()), "{w=W:}");
}

#[test]
fn wide_string_ends_at_a_whole_zero_unit() {
    // 0x4100 0x0041: the two zero bytes in the middle belong to two units
    let bytes = [0x05, b'w', 0x00, 0x41, 0x00, 0x00, 0x41, 0x00, 0x00, 0x08];
    assert_eq!(show_table(&parse_keyvalues(&bytes).unwrap()), "{w=W:\u{4100}A}");
}

#[test]
fn wide_string_surrogates() {
    let pair = [0x05, b'w', 0x00, 0xD8, 0x34, 0xDD, 0x1E, 0x00, 0x00, 0x08];
    assert_eq!(show_table(&parse_keyvalues(&pair).unwrap()), "{w=W:\u{1D11E}}");
    let lone = [0x05, b'w', 0x00, 0xD8, 0x34, 0x00, 0x41, 0x00, 0x00, 0x08];
    assert_eq!(show_table(&parse_keyvalues(&lone).unwrap()), "{w=W:\u{FFFD}A}");
}

#[test]
fn nesting_is_bounded() {
    let mut deep: Vec<u8> = Vec::new();
    for _ in 0..MAX_DEPTH {
        deep.extend_from_slice(&[0x00, b'k', 0x00]);
    }
    for _ in 0..MAX_DEPTH + 1 {
        deep.push(0x08);
    }
    let kv = parse_keyvalues(&deep).unwrap();
    let mut table = &kv;
    let mut levels = 0;
    while let Some(Value::KeyValueType(inner)) = table.get("k") {
        table = inner;
        levels += 1;
    }
    assert_eq!(levels, MAX_DEPTH);
    let mut deeper: Vec<u8> = vec![0x00, b'k', 0x00];
    deeper.extend_from_slice(&deep);
    deeper.push(0x08);
    assert_eq!(
        parse_keyvalues(&deeper).unwrap_err(),
        VdfrError::ParseError(ParseFault::TooDeep)
    );
    let options = KeyValueOptions::default();
    let one = [0x00, b'k', 0x00, 0x08, 0x08];
    assert_eq!(
        parse_table(&one, 0, &options, 0).unwrap_err(),
        VdfrError::ParseError(ParseFault::TooDeep)
    );
    assert_eq!(parse_table(&one, 0, &options, 1).unwrap().1, 5);
}

#[test]
fn keys_of_both_kinds() {
    let inline = KeyValueOptions::default();
    assert_eq!(read_key(b"name\0rest", 0, &inline).unwrap(), (String::from("name"), 5));
    assert_eq!(read_key(b"name\0rest", 2, &inline).unwrap(), (String::from("me"), 5));
    let options = pooled(&["zero", "one"]);
    assert_eq!(read_key(&[1, 0, 0, 0, 9], 0, &options).unwrap(), (String::from("one"), 4));
    assert_eq!(
        read_key(&[0, 1, 0, 0], 0, &options).unwrap_err(),
        VdfrError::InvalidStringIndex(256, 2)
    );
}

#[test]
fn decoding_twice_gives_the_same() {
    let bytes = [
        0x00, b't', 0x00, 0x01, b'a', 0x00, b'x', 0x00, 0x08, 0x02, b'n', 0x00, 7, 0, 0, 0, 0x08,
    ];
    let first = parse_keyvalues(&bytes).unwrap();
    let second = parse_keyvalues(&bytes).unwrap();
    assert_eq!(show_table(&first), show_table(&second));
    assert_eq!(show_table(&first), "{t={a=S:x},n=I:7}");
    let broken = [0x00, b't', 0x00, 0x33, b'a', 0x00];
    assert_eq!(parse_keyvalues(&broken).unwrap_err(), parse_keyvalues(&broken).unwrap_err());
}

fn put_cstr(out: &mut Vec<u8>, text: &str) {
    out.extend_from_slice(text.as_bytes());
    out.push(0);
}

fn put_table(out: &mut Vec<u8>, kv: &KeyValue) {
    for i in 0..kv.len() {
        let value = kv.value_at(i);
        let tag: u8 = match value {
            Value::KeyValueType(_) => 0x00,
            Value::StringType(_) => 0x01,
            Value::Int32Type(_) => 0x02,
            Value::Float32Type(_) => 0x03,
            Value::PointerType(_) => 0x04,
            Value::WideStringType(_) => 0x05,
            Value::ColorType(_) => 0x06,
            Value::UInt64Type(_) => 0x07,
            Value::Int64Type(_) => 0x0A,
        };
        out.push(tag);
        put_cstr(out, kv.key_at(i));
        match value {
            Value::KeyValueType(inner) => put_table(out, inner),
            Value::StringType(s) => put_cstr(out, s),
            Value::WideStringType(s) => {
                for unit in s.encode_utf16() {
                    out.extend_from_slice(&unit.to_be_bytes());
                }
                out.extend_from_slice(&[0, 0]);
            }
            Value::Int32Type(n) | Value::PointerType(n) | Value::ColorType(n) => {
                out.extend_from_slice(&n.to_le_bytes())
            }
            Value::Float32Type(bits) => out.extend_from_slice(&bits.to_le_bytes()),
            Value::UInt64Type(n) => out.extend_from_slice(&n.to_le_bytes()),
            Value::Int64Type(n) => out.extend_from_slice(&n.to_le_bytes()),
        }
    }
    out.push(0x08);
}

#[test]
fn written_tree_reads_back() {
    let mut common = KeyValue::new();
    common.insert(String::from("name"), Value::StringType(String::from("Caf\u{E9} \"Game\"")));
    common.insert(String::from("wide"), Value::WideStringType(String::from("\u{3042}b")));
    common.insert(String::from("int"), Value::Int32Type(-1195449660));
    common.insert(String::from("ptr"), Value::PointerType(i32::MIN));
    common.insert(String::from("color"), Value::ColorType(i32::MAX));
    common.insert(String::from("u64"), Value::UInt64Type(u64::MAX));
    common.insert(String::from("i64"), Value::Int64Type(i64::MIN));
    common.insert(String::from("float"), Value::Float32Type(f32::NAN.to_bits()));
    common.insert(String::from(""), Value::KeyValueType(KeyValue::new()));
    let mut appinfo = KeyValue::new();
    appinfo.insert(String::from("common"), Value::KeyValueType(common));
    appinfo.insert(String::from("appid"), Value::Int32Type(10));
    let mut tree = KeyValue::new();
    tree.insert(String::from("appinfo"), Value::KeyValueType(appinfo));
    let mut bytes: Vec<u8> = Vec::new();
    put_table(&mut bytes, &tree);
    let back = parse_keyvalues(&bytes).unwrap();
    assert_eq!(show_table(&back), show_table(&tree));
    let mut again: Vec<u8> = Vec::new();
    put_table(&mut again, &back);
    assert_eq!(again, bytes);
}
