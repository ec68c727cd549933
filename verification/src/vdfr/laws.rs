//! What holds of every decode.

use vstd::prelude::*;
use crate::vdfr::appinfo::{
    loaded, record_head, spec_app, spec_apps, spec_catalog_pool, spec_load, spec_pool,
    spec_pool_offset, AppInfo, AppView, HEADER_29, MAGIC_29,
};
use crate::vdfr::decode::{
    decoded, end_tag, is_value_tag, pooled_keys, spec_key, spec_table, spec_value, Dialect,
    BIN_NONE, MAX_DEPTH,
};
use crate::vdfr::error::VdfrError;
use crate::vdfr::reader::{spec_u32_le, spec_u8};
use crate::vdfr::value::{
    distinct_keys, has_key, key_index, lemma_key_found, lookup, lookup_path, table_insert,
    KeyValue, Node, Slot,
};

verus! {

/// Decoding the same bytes twice gives the same table, or the same error.
pub proof fn lemma_decode_deterministic(
    b: Seq<u8>,
    first: Result<KeyValue, VdfrError>,
    second: Result<KeyValue, VdfrError>,
)
    requires
        decoded(b, first),
        decoded(b, second),
    ensures
        match (first, second) {
            (Ok(x), Ok(y)) => x@ == y@,
            (Err(e), Err(f)) => e == f,
            _ => false,
        },
{
}

/// Loading the same bytes twice gives the same catalog, or the same error.
pub proof fn lemma_load_deterministic(
    b: Seq<u8>,
    first: Result<AppInfo, VdfrError>,
    second: Result<AppInfo, VdfrError>,
)
    requires
        loaded(b, first),
        loaded(b, second),
    ensures
        match (first, second) {
            (Ok(x), Ok(y)) => x@ == y@,
            (Err(e), Err(f)) => e == f,
            _ => false,
        },
{
}

/// An entry whose tag byte announces no value, and closes no table, fails
/// the decode with that byte as soon as its key is read: whatever follows
/// the key, and even where nothing does.
pub proof fn lemma_unknown_tag(b: Seq<u8>, pos: int, d: Dialect, depth: nat, acc: Seq<Slot>)
    requires
        0 <= pos < b.len(),
        b[pos] != end_tag(d),
        !is_value_tag(b[pos]),
        spec_key(b, pos + 1, d) is Ok,
    ensures
        spec_table(b, pos, d, depth, acc) == Err::<(Seq<Slot>, int), VdfrError>(
            VdfrError::InvalidType(b[pos]),
        ),
{
    let after_key = spec_key(b, pos + 1, d)->Ok_0.1;
    assert(spec_value(b, after_key, b[pos], d, depth) == Err::<(Node, int), VdfrError>(
        VdfrError::InvalidType(b[pos]),
    ));
}

/// Whether no table of the tree, at any depth, has a key twice.
pub open spec fn keys_once(slots: Seq<Slot>) -> bool
    decreases slots,
{
    &&& distinct_keys(slots)
    &&& forall|i: int|
        0 <= i < slots.len() ==> match (#[trigger] slots[i]).value {
            Node::Table(inner) => keys_once(inner),
            _ => true,
        }
}

proof fn lemma_value_once(b: Seq<u8>, pos: int, tag: u8, d: Dialect, depth: nat)
    ensures
        match spec_value(b, pos, tag, d, depth) {
            Ok((Node::Table(inner), _)) => keys_once(inner),
            _ => true,
        },
    decreases b.len() - pos, 1nat,
{
    if tag == BIN_NONE && depth > 0 {
        lemma_table_once(b, pos, d, (depth - 1) as nat, Seq::empty());
    }
}

/// A table that was read has no key twice, at any depth: an entry with a
/// key that came before takes that key's place.
pub proof fn lemma_table_once(b: Seq<u8>, pos: int, d: Dialect, depth: nat, acc: Seq<Slot>)
    requires
        keys_once(acc),
    ensures
        match spec_table(b, pos, d, depth, acc) {
            Ok((slots, _)) => keys_once(slots),
            Err(_) => true,
        },
    decreases b.len() - pos, 0nat,
{
    if let Ok((tag, after_tag)) = spec_u8(b, pos) {
        if tag != end_tag(d) {
            if let Ok((key, after_key)) = spec_key(b, after_tag, d) {
                lemma_value_once(b, after_key, tag, d, depth);
                if let Ok((value, next)) = spec_value(b, after_key, tag, d, depth) {
                    if after_key <= next <= b.len() {
                        let slots = table_insert(acc, key, value);
                        assert(distinct_keys(slots)) by {
                            assert forall|i: int, j: int| 0 <= i < j < slots.len() implies
                                (#[trigger] slots[i]).key != (#[trigger] slots[j]).key by {
                                if has_key(acc, key) {
                                    assert(slots[i].key == acc[i].key);
                                    assert(slots[j].key == acc[j].key);
                                } else if j < acc.len() {
                                    assert(slots[i] == acc[i] && slots[j] == acc[j]);
                                } else if acc[i].key == key {
                                    lemma_key_found(acc, key, i);
                                }
                            }
                        }
                        assert(keys_once(slots)) by {
                            assert forall|i: int| 0 <= i < slots.len() implies match
                                (#[trigger] slots[i]).value {
                                Node::Table(inner) => keys_once(inner),
                                _ => true,
                            } by {
                                if has_key(acc, key) {
                                    if i != key_index(acc, key) {
                                        assert(slots[i] == acc[i]);
                                    }
                                } else if i < acc.len() {
                                    assert(slots[i] == acc[i]);
                                }
                            }
                        }
                        lemma_table_once(b, next, d, depth, slots);
                    }
                }
            }
        }
    }
}

/// Whether every key of the tree, at every depth, is one of `pool`.
pub open spec fn keys_within(slots: Seq<Slot>, pool: Seq<Seq<char>>) -> bool
    decreases slots,
{
    forall|i: int|
        0 <= i < slots.len() ==> pool.contains((#[trigger] slots[i]).key) && match slots[i].value {
            Node::Table(inner) => keys_within(inner, pool),
            _ => true,
        }
}

proof fn lemma_value_keys(b: Seq<u8>, pos: int, tag: u8, pool: Seq<Seq<char>>, depth: nat)
    ensures
        match spec_value(b, pos, tag, pooled_keys(pool), depth) {
            Ok((Node::Table(inner), _)) => keys_within(inner, pool),
            _ => true,
        },
    decreases b.len() - pos, 1nat,
{
    if tag == BIN_NONE && depth > 0 {
        lemma_table_keys(b, pos, pool, (depth - 1) as nat, Seq::empty());
    }
}

proof fn lemma_table_keys(b: Seq<u8>, pos: int, pool: Seq<Seq<char>>, depth: nat, acc: Seq<Slot>)
    requires
        keys_within(acc, pool),
    ensures
        match spec_table(b, pos, pooled_keys(pool), depth, acc) {
            Ok((slots, _)) => keys_within(slots, pool),
            Err(_) => true,
        },
    decreases b.len() - pos, 0nat,
{
    let d = pooled_keys(pool);
    if let Ok((tag, after_tag)) = spec_u8(b, pos) {
        if tag != end_tag(d) {
            if let Ok((key, after_key)) = spec_key(b, after_tag, d) {
                lemma_value_keys(b, after_key, tag, pool, depth);
                if let Ok((value, next)) = spec_value(b, after_key, tag, d, depth) {
                    if after_key <= next <= b.len() {
                        let index = spec_u32_le(b, after_tag)->Ok_0.0;
                        assert(pool[index as int] == key);
                        let slots = table_insert(acc, key, value);
                        assert(keys_within(slots, pool)) by {
                            assert forall|i: int| 0 <= i < slots.len() implies pool.contains(
                                (#[trigger] slots[i]).key,
                            ) && match slots[i].value {
                                Node::Table(inner) => keys_within(inner, pool),
                                _ => true,
                            } by {
                                if has_key(acc, key) {
                                    if i != key_index(acc, key) {
                                        assert(slots[i] == acc[i]);
                                    }
                                } else {
                                    if i < acc.len() {
                                        assert(slots[i] == acc[i]);
                                    }
                                }
                            }
                        }
                        lemma_table_keys(b, next, pool, depth, slots);
                    }
                }
            }
        }
    }
}

/// Whether every key of every record is one of `pool`.
pub open spec fn apps_within(apps: Map<u32, AppView>, pool: Seq<Seq<char>>) -> bool {
    forall|id: u32| #[trigger] apps.contains_key(id) ==> keys_within(apps[id].key_values, pool)
}

proof fn lemma_apps_keys(
    b: Seq<u8>,
    pos: int,
    pool: Seq<Seq<char>>,
    version: u32,
    acc: Map<u32, AppView>,
)
    requires
        apps_within(acc, pool),
    ensures
        match spec_apps(b, pos, pooled_keys(pool), version, acc) {
            Ok(apps) => apps_within(apps, pool),
            Err(_) => true,
        },
    decreases b.len() - pos,
{
    let d = pooled_keys(pool);
    if let Ok((Some(app), next)) = spec_app(b, pos, d, version) {
        if pos < next <= b.len() {
            assert(keys_within(Seq::<Slot>::empty(), pool));
            lemma_table_keys(
                b,
                pos + 4 + record_head(version),
                pool,
                MAX_DEPTH as nat,
                Seq::empty(),
            );
            lemma_apps_keys(b, next, pool, version, acc.insert(app.id, app));
        }
    }
}

/// In a catalog of version 29, every key of every record's tree, at every
/// depth, is a string of the file's pool.
pub proof fn lemma_pool_membership(b: Seq<u8>)
    ensures
        match (spec_load(b), spec_catalog_pool(b)) {
            (Ok(catalog), Ok(pool)) => catalog.version == MAGIC_29 ==> apps_within(
                catalog.apps,
                pool,
            ),
            _ => true,
        },
{
    if let Ok((version, _)) = spec_u32_le(b, 0) {
        if version == MAGIC_29 {
            if let Ok(offset) = spec_pool_offset(b) {
                if let Ok(pool) = spec_pool(b.subrange(offset, b.len() as int)) {
                    lemma_apps_keys(
                        b.subrange(HEADER_29 as int, offset),
                        0,
                        pool,
                        version,
                        Map::empty(),
                    );
                }
            }
        }
    }
}

/// Whether `tables` leads from `slots` along `path` to `v`: the first table
/// is `slots`, each key but the last is in its table the key of the next
/// table, and the last key is in the last table the key of `v`.
pub open spec fn is_chain(
    slots: Seq<Slot>,
    path: Seq<Seq<char>>,
    tables: Seq<Seq<Slot>>,
    v: Node,
) -> bool {
    &&& path.len() >= 1
    &&& tables.len() == path.len()
    &&& tables[0] == slots
    &&& forall|i: int|
        0 <= i < path.len() - 1 ==> lookup(#[trigger] tables[i], path[i]) == Some(
            Node::Table(tables[i + 1]),
        )
    &&& lookup(tables[path.len() - 1], path[path.len() - 1]) == Some(v)
}

/// A path of keys leads to a value exactly where a chain of tables does.
/// So a lookup finds nothing on the empty path, on a key that is not
/// there, and behind a key that holds no table.
pub proof fn lemma_lookup_chain(slots: Seq<Slot>, path: Seq<Seq<char>>, v: Node)
    ensures
        lookup_path(slots, path) == Some(v) <==> exists|tables: Seq<Seq<Slot>>|
            is_chain(slots, path, tables, v),
    decreases path.len(),
{
    if path.len() == 0 {
    } else if path.len() == 1 {
        if lookup_path(slots, path) == Some(v) {
            assert(is_chain(slots, path, seq![slots], v));
        }
    } else {
        let rest = path.drop_first();
        if lookup_path(slots, path) == Some(v) {
            let inner = lookup(slots, path[0])->Some_0->Table_0;
            lemma_lookup_chain(inner, rest, v);
            let below = choose|tables: Seq<Seq<Slot>>| is_chain(inner, rest, tables, v);
            let tables = seq![slots] + below;
            assert forall|i: int| 0 <= i < path.len() - 1 implies lookup(
                #[trigger] tables[i],
                path[i],
            ) == Some(Node::Table(tables[i + 1])) by {
                if i > 0 {
                    assert(tables[i] == below[i - 1]);
                    assert(tables[i + 1] == below[i]);
                    assert(path[i] == rest[i - 1]);
                }
            }
            assert(tables[path.len() - 1] == below[rest.len() - 1]);
            assert(is_chain(slots, path, tables, v));
        }
        if exists|tables: Seq<Seq<Slot>>| is_chain(slots, path, tables, v) {
            let tables = choose|tables: Seq<Seq<Slot>>| is_chain(slots, path, tables, v);
            let below = tables.drop_first();
            assert(lookup(tables[0], path[0]) == Some(Node::Table(tables[1])));
            assert forall|i: int| 0 <= i < rest.len() - 1 implies lookup(
                #[trigger] below[i],
                rest[i],
            ) == Some(Node::Table(below[i + 1])) by {
                assert(below[i] == tables[i + 1]);
                assert(lookup(tables[i + 1], path[i + 1]) == Some(Node::Table(tables[i + 2])));
            }
            assert(is_chain(tables[1], rest, below, v));
            lemma_lookup_chain(tables[1], rest, v);
        }
    }
}

} // verus!
