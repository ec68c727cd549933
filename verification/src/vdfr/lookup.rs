//! Looking values up: by a path of keys, and the names of an application.

use vstd::prelude::*;
use crate::vdfr::appinfo::App;
use crate::vdfr::value::{lookup_path, KeyValue, Node, Slot, Value};

verus! {

/// The texts of a path of keys.
pub open spec fn path_of(keys: Seq<&str>) -> Seq<Seq<char>> {
    Seq::new(keys.len(), |i: int| keys[i]@)
}

/// The text of a value that is a string of either kind.
pub open spec fn text_of(node: Node) -> Option<Seq<char>> {
    match node {
        Node::Text(text) => Some(text),
        Node::WideText(text) => Some(text),
        _ => None,
    }
}

/// The slots that hold a string, each as its key and its text, in the
/// table's order.
pub open spec fn text_slots(slots: Seq<Slot>) -> Seq<(Seq<char>, Seq<char>)>
    decreases slots.len(),
{
    if slots.len() == 0 {
        Seq::empty()
    } else {
        match text_of(slots.last().value) {
            Some(text) => text_slots(slots.drop_last()).push((slots.last().key, text)),
            None => text_slots(slots.drop_last()),
        }
    }
}

/// The texts of pairs of strings.
pub open spec fn pair_texts(pairs: Seq<(String, String)>) -> Seq<(Seq<char>, Seq<char>)> {
    Seq::new(pairs.len(), |i: int| (pairs[i].0@, pairs[i].1@))
}

/// Where a catalog keeps an application's name.
pub open spec fn name_path() -> Seq<Seq<char>> {
    seq!["appinfo"@, "common"@, "name"@]
}

/// Where a catalog keeps an application's names by language.
pub open spec fn name_localized_path() -> Seq<Seq<char>> {
    seq!["appinfo"@, "common"@, "name_localized"@]
}

/// The name of an application with this table.
pub open spec fn spec_app_name(slots: Seq<Slot>) -> Option<Seq<char>> {
    match lookup_path(slots, name_path()) {
        Some(node) => text_of(node),
        None => None,
    }
}

/// The names by language of an application with this table.
pub open spec fn spec_localized_name(slots: Seq<Slot>) -> Seq<(Seq<char>, Seq<char>)> {
    match lookup_path(slots, name_localized_path()) {
        Some(Node::Table(names)) => text_slots(names),
        _ => Seq::empty(),
    }
}

/// Follows `keys` down the tree: every key but the last has to lead to a
/// table. Nothing is found on the empty path.
pub fn find_keys<'a>(kv: &'a KeyValue, keys: &[&str]) -> (found: Option<&'a Value>)
    ensures
        match found {
            Some(v) => lookup_path(kv@, path_of(keys@)) == Some(v@),
            None => lookup_path(kv@, path_of(keys@)) is None,
        },
{
    if keys.len() == 0 {
        return None;
    }
    let ghost path = path_of(keys@);
    let mut table: &KeyValue = kv;
    let mut i: usize = 0;
    assert(path.subrange(0, path.len() as int) =~= path);
    while i + 1 < keys.len()
        invariant
            i < keys.len(),
            path == path_of(keys@),
            lookup_path(kv@, path) == lookup_path(table@, path.subrange(i as int, path.len() as int)),
        decreases keys.len() - i,
    {
        let ghost rest = path.subrange(i as int, path.len() as int);
        assert(rest.drop_first() =~= path.subrange(i + 1, path.len() as int));
        assert(rest[0] == keys@[i as int]@);
        match table.get(keys[i]) {
            Some(Value::KeyValueType(inner)) => {
                table = inner;
            },
            _ => {
                return None;
            },
        }
        i += 1;
    }
    let ghost rest = path.subrange(i as int, path.len() as int);
    assert(rest.len() == 1 && rest[0] == keys@[i as int]@);
    table.get(keys[i])
}

impl App {
    /// The value at the end of a path of keys in the application's table.
    pub fn get(&self, keys: &[&str]) -> (found: Option<&Value>)
        ensures
            match found {
                Some(v) => lookup_path(self.key_values@, path_of(keys@)) == Some(v@),
                None => lookup_path(self.key_values@, path_of(keys@)) is None,
            },
    {
        find_keys(&self.key_values, keys)
    }

    /// The name of the application, where the catalog has one that is a
    /// string.
    pub fn app_name(&self) -> (name: Option<String>)
        ensures
            match name {
                Some(text) => spec_app_name(self.key_values@) == Some(text@),
                None => spec_app_name(self.key_values@) is None,
            },
    {
        let keys: [&str; 3] = ["appinfo", "common", "name"];
        assert(path_of(keys@) =~= name_path());
        match self.get(keys.as_slice()) {
            Some(Value::StringType(name)) => Some(name.clone()),
            Some(Value::WideStringType(name)) => Some(name.clone()),
            _ => None,
        }
    }

    /// The names of the application by language: each entry of the
    /// catalog's table of localized names that is a string, in the table's
    /// order.
    pub fn localized_name(&self) -> (names: Vec<(String, String)>)
        ensures
            pair_texts(names@) == spec_localized_name(self.key_values@),
    {
        let mut names: Vec<(String, String)> = Vec::new();
        let keys: [&str; 3] = ["appinfo", "common", "name_localized"];
        assert(path_of(keys@) =~= name_localized_path());
        assert(pair_texts(names@) =~= Seq::empty());
        if let Some(Value::KeyValueType(kv)) = self.get(keys.as_slice()) {
            let mut i: usize = 0;
            while i < kv.len()
                invariant
                    i <= kv@.len(),
                    pair_texts(names@) == text_slots(kv@.subrange(0, i as int)),
                decreases kv@.len() - i,
            {
                let ghost before = pair_texts(names@);
                let ghost upto = kv@.subrange(0, i + 1);
                assert(upto.drop_last() =~= kv@.subrange(0, i as int));
                assert(upto.last() == kv@[i as int]);
                match kv.value_at(i) {
                    Value::StringType(text) => {
                        names.push((kv.key_at(i).clone(), text.clone()));
                        assert(pair_texts(names@) =~= before.push((kv@[i as int].key, text@)));
                    },
                    Value::WideStringType(text) => {
                        names.push((kv.key_at(i).clone(), text.clone()));
                        assert(pair_texts(names@) =~= before.push((kv@[i as int].key, text@)));
                    },
                    _ => {},
                }
                i += 1;
            }
            assert(kv@.subrange(0, i as int) =~= kv@);
        }
        names
    }
}

} // verus!
