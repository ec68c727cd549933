//! The key-value tree: what it holds, and how it is searched.

use vstd::prelude::*;
use crate::vdfr::text::str_eq;

verus! {

/// A value of the tree, as mathematics.
pub enum Node {
    Text(Seq<char>),
    WideText(Seq<char>),
    Int32(i32),
    Pointer(i32),
    Color(i32),
    UInt64(u64),
    Int64(i64),
    /// The 32 bits of an IEEE-754 binary32 number.
    Float32(u32),
    Table(Seq<Slot>),
}

/// One key of a table with the value it maps to.
pub struct Slot {
    pub key: Seq<char>,
    pub value: Node,
}

/// Whether the first slot of the table under `key` is the one at `i`.
pub open spec fn slot_at(slots: Seq<Slot>, key: Seq<char>, i: int) -> bool {
    &&& 0 <= i < slots.len()
    &&& slots[i].key == key
    &&& forall|j: int| 0 <= j < i ==> (#[trigger] slots[j]).key != key
}

/// Whether the table has a slot under `key`.
pub open spec fn has_key(slots: Seq<Slot>, key: Seq<char>) -> bool {
    exists|i: int| slot_at(slots, key, i)
}

/// Where the first slot under `key` stands.
pub open spec fn key_index(slots: Seq<Slot>, key: Seq<char>) -> int {
    choose|i: int| slot_at(slots, key, i)
}

/// The value that a table maps `key` to.
pub open spec fn lookup(slots: Seq<Slot>, key: Seq<char>) -> Option<Node> {
    if has_key(slots, key) {
        Some(slots[key_index(slots, key)].value)
    } else {
        None
    }
}

/// The table after `key` is set to `value`: a key already there keeps its
/// place and takes the new value, a new key goes to the end.
pub open spec fn table_insert(slots: Seq<Slot>, key: Seq<char>, value: Node) -> Seq<Slot> {
    if has_key(slots, key) {
        slots.update(key_index(slots, key), Slot { key, value })
    } else {
        slots.push(Slot { key, value })
    }
}

/// After `key` is set to `value`, the table maps `key` to `value` and
/// every other key to what it mapped it to before: of two values set for
/// one key the later one stays.
pub proof fn lemma_insert_lookup(slots: Seq<Slot>, key: Seq<char>, value: Node, other: Seq<char>)
    ensures
        lookup(table_insert(slots, key, value), other) == if other == key {
            Some(value)
        } else {
            lookup(slots, other)
        },
{
    let after = table_insert(slots, key, value);
    if has_key(slots, key) {
        let at = key_index(slots, key);
        assert(slot_at(slots, key, at));
        if other == key {
            assert(slot_at(after, key, at));
        } else if has_key(slots, other) {
            let i = key_index(slots, other);
            assert(slot_at(slots, other, i));
            assert(slot_at(after, other, i));
        } else if has_key(after, other) {
            let i = key_index(after, other);
            assert(slot_at(after, other, i));
            assert(after[i].key == slots[i].key);
            lemma_key_found(slots, other, i);
        }
    } else {
        if other == key {
            assert forall|j: int| 0 <= j < slots.len() implies (#[trigger] after[j]).key != key by {
                if slots[j].key == key {
                    lemma_key_found(slots, key, j);
                }
            }
            assert(slot_at(after, key, slots.len() as int));
        } else if has_key(slots, other) {
            let i = key_index(slots, other);
            assert(slot_at(slots, other, i));
            assert(slot_at(after, other, i));
        } else if has_key(after, other) {
            let i = key_index(after, other);
            assert(slot_at(after, other, i));
            lemma_key_found(slots, other, i);
        }
    }
}

/// A table with a slot under `key` has a first such slot.
pub proof fn lemma_key_found(slots: Seq<Slot>, key: Seq<char>, at: int)
    requires
        0 <= at < slots.len(),
        slots[at].key == key,
    ensures
        has_key(slots, key),
    decreases at,
{
    if exists|j: int| 0 <= j < at && (#[trigger] slots[j]).key == key {
        let j = choose|j: int| 0 <= j < at && (#[trigger] slots[j]).key == key;
        lemma_key_found(slots, key, j);
    } else {
        assert(slot_at(slots, key, at));
    }
}

/// No key occurs twice.
pub open spec fn distinct_keys(slots: Seq<Slot>) -> bool {
    forall|i: int, j: int|
        0 <= i < j < slots.len() ==> (#[trigger] slots[i]).key != (#[trigger] slots[j]).key
}

/// The value at the end of a path of keys: every key but the last leads to a
/// table, in which the next key is looked up. The empty path leads nowhere.
pub open spec fn lookup_path(slots: Seq<Slot>, path: Seq<Seq<char>>) -> Option<Node>
    decreases path.len(),
{
    if path.len() == 0 {
        None
    } else if path.len() == 1 {
        lookup(slots, path[0])
    } else {
        match lookup(slots, path[0]) {
            Some(Node::Table(inner)) => lookup_path(inner, path.drop_first()),
            _ => None,
        }
    }
}

/// A value of the tree: one of nine kinds.
#[derive(Debug)]
pub enum Value {
    StringType(String),
    WideStringType(String),
    Int32Type(i32),
    PointerType(i32),
    ColorType(i32),
    UInt64Type(u64),
    Int64Type(i64),
    /// The bits of the number; `f32::from_bits` gives the number.
    Float32Type(u32),
    KeyValueType(KeyValue),
}

/// A key with its value.
#[derive(Debug)]
struct Entry {
    key: String,
    value: Value,
}

/// A table from keys to values. A key occurs once; the keys stay in the
/// order in which they first came.
#[derive(Debug)]
pub struct KeyValue {
    entries: Vec<Entry>,
}

/// What a value holds, its tables taken slot by slot.
spec fn node_of(v: Value) -> Node
    decreases v,
{
    match v {
        Value::StringType(s) => Node::Text(s@),
        Value::WideStringType(s) => Node::WideText(s@),
        Value::Int32Type(i) => Node::Int32(i),
        Value::PointerType(i) => Node::Pointer(i),
        Value::ColorType(i) => Node::Color(i),
        Value::UInt64Type(i) => Node::UInt64(i),
        Value::Int64Type(i) => Node::Int64(i),
        Value::Float32Type(bits) => Node::Float32(bits),
        Value::KeyValueType(kv) => Node::Table(slots_of(kv.entries@)),
    }
}

/// The slots of a table's entries, in their order.
spec fn slots_of(es: Seq<Entry>) -> Seq<Slot>
    decreases es,
{
    Seq::new(
        es.len(),
        |i: int|
            Slot {
                key: es[i].key@,
                value: if 0 <= i < es.len() {
                    node_of(es[i].value)
                } else {
                    Node::Table(Seq::empty())
                },
            },
    )
}

impl View for KeyValue {
    type V = Seq<Slot>;

    closed spec fn view(&self) -> Seq<Slot> {
        slots_of(self.entries@)
    }
}

impl View for Value {
    type V = Node;

    open spec fn view(&self) -> Node {
        match self {
            Value::StringType(s) => Node::Text(s@),
            Value::WideStringType(s) => Node::WideText(s@),
            Value::Int32Type(i) => Node::Int32(*i),
            Value::PointerType(i) => Node::Pointer(*i),
            Value::ColorType(i) => Node::Color(*i),
            Value::UInt64Type(i) => Node::UInt64(*i),
            Value::Int64Type(i) => Node::Int64(*i),
            Value::Float32Type(bits) => Node::Float32(*bits),
            Value::KeyValueType(kv) => Node::Table(kv@),
        }
    }
}

/// Both ways of saying what a value holds say the same.
proof fn lemma_node_of(v: Value)
    ensures
        node_of(v) == v@,
{
}

impl KeyValue {
    #[verifier::type_invariant]
    spec fn keys_once(&self) -> bool {
        distinct_keys(self@)
    }

    /// The table without keys.
    pub fn new() -> (kv: KeyValue)
        ensures
            kv@ == Seq::<Slot>::empty(),
    {
        let kv = KeyValue { entries: Vec::new() };
        assert(slots_of(kv.entries@) =~= Seq::<Slot>::empty());
        kv
    }

    /// The number of keys.
    pub fn len(&self) -> (n: usize)
        ensures
            n == self@.len(),
            distinct_keys(self@),
    {
        proof {
            use_type_invariant(self);
        }
        self.entries.len()
    }

    /// The key at place `i`.
    pub fn key_at(&self, i: usize) -> (key: &String)
        requires
            i < self@.len(),
        ensures
            key@ == self@[i as int].key,
    {
        &self.entries[i].key
    }

    /// The value at place `i`.
    pub fn value_at(&self, i: usize) -> (value: &Value)
        requires
            i < self@.len(),
        ensures
            value@ == self@[i as int].value,
    {
        proof {
            lemma_node_of(self.entries@[i as int].value);
        }
        &self.entries[i].value
    }

    /// Where `key` stands, if it is there.
    fn position(&self, key: &str) -> (at: Option<usize>)
        ensures
            match at {
                Some(i) => slot_at(self@, key@, i as int),
                None => forall|j: int| 0 <= j < self@.len() ==> (#[trigger] self@[j]).key != key@,
            },
    {
        let mut i: usize = 0;
        while i < self.entries.len()
            invariant
                i <= self.entries.len(),
                forall|j: int| 0 <= j < i ==> (#[trigger] self@[j]).key != key@,
            decreases self.entries.len() - i,
        {
            if str_eq(self.entries[i].key.as_str(), key) {
                return Some(i);
            }
            i += 1;
        }
        None
    }

    /// The value under `key`.
    pub fn get(&self, key: &str) -> (found: Option<&Value>)
        ensures
            match found {
                Some(v) => lookup(self@, key@) == Some(v@),
                None => lookup(self@, key@) is None,
            },
    {
        match self.position(key) {
            Some(i) => {
                proof {
                    lemma_node_of(self.entries@[i as int].value);
                }
                Some(&self.entries[i].value)
            },
            None => None,
        }
    }

    /// Sets `key` to `value`. What the key held before is dropped.
    pub fn insert(&mut self, key: String, value: Value)
        ensures
            final(self)@ == table_insert(old(self)@, key@, value@),
    {
        proof {
            use_type_invariant(&*self);
            lemma_node_of(value);
        }
        let at = self.position(key.as_str());
        let ghost slot = Slot { key: key@, value: value@ };
        let mut taken = KeyValue::new();
        std::mem::swap(self, &mut taken);
        let mut entries = taken.entries;
        let ghost before = entries@;
        assert(distinct_keys(slots_of(before)));
        match at {
            Some(i) => {
                entries[i] = Entry { key, value };
                assert(slots_of(entries@) =~= slots_of(before).update(i as int, slot));
            },
            None => {
                entries.push(Entry { key, value });
                assert(slots_of(entries@) =~= slots_of(before).push(slot));
            },
        }
        assert(distinct_keys(slots_of(entries@)));
        *self = KeyValue { entries };
    }
}

} // verus!
