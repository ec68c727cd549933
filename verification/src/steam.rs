//! Steam identifiers, shortcuts, and the names the catalog gives to
//! applications.

use std::collections::HashMap;
use vstd::prelude::*;
use vstd::string::StringExecFns;
use crate::vdfr::appinfo::App;
use crate::vdfr::decode::{parse_keyvalues, spec_keyvalues};
use crate::vdfr::lookup::{spec_app_name, spec_localized_name, pair_texts, text_of};
use crate::vdfr::value::{lookup, KeyValue, Node, Slot, Value};

verus! {

/// The account part of a 64-bit Steam id starts counting here.
pub const ID64_IDENT: u64 = 76561197960265728;

/// A minimal representation of a Steam user.
#[derive(Clone, Debug)]
pub struct LoginUser {
    pub username: String,
    pub display_name: String,
    pub timestamp: u64,
}

/// A minimal representation of a Steam shortcut.
#[derive(Clone, Debug)]
pub struct SteamShortcut {
    pub id: u32,
    pub name: String,
}

/// The account number of the textual Steam id.
pub fn steamid64_to_steamid(steamid64: u64) -> (id: u64)
    requires
        steamid64 >= ID64_IDENT,
    ensures
        id == (steamid64 - ID64_IDENT) / 2,
{
    let acct = steamid64 - ID64_IDENT;
    acct / 2
}

/// The account id: the name of the user's directory.
pub fn steamid64_to_usteamid(steamid64: u64) -> (id: u64)
    requires
        steamid64 >= ID64_IDENT,
    ensures
        id == steamid64 - ID64_IDENT,
{
    steamid64 - ID64_IDENT
}

/// The low 24 bits of a number in two's complement.
pub open spec fn low24(value: i32) -> u32 {
    ((value as int) % 0x0100_0000) as u32
}

/// The low 24 bits of `value`, read as two's complement: the id under which
/// Steam files a shortcut's screenshots.
pub fn clamp_i32_to_u24(value: i32) -> (id: u32)
    ensures
        id == low24(value),
        id == (value as u32) & 0x00FF_FFFF,
        id <= 0x00FF_FFFF,
{
    let id: u32 = (value as u32) & 0x00FF_FFFF;
    assert(((value as u32) & 0x00FF_FFFFu32) as int == (value as int) % 0x0100_0000)
        by (bit_vector);
    assert(((value as u32) & 0x00FF_FFFFu32) <= 0x00FF_FFFFu32) by (bit_vector);
    id
}

/// The character of a decimal digit.
pub open spec fn digit_char(d: nat) -> char {
    if d == 0 {
        '0'
    } else if d == 1 {
        '1'
    } else if d == 2 {
        '2'
    } else if d == 3 {
        '3'
    } else if d == 4 {
        '4'
    } else if d == 5 {
        '5'
    } else if d == 6 {
        '6'
    } else if d == 7 {
        '7'
    } else if d == 8 {
        '8'
    } else {
        '9'
    }
}

/// A number in decimal digits, without sign and without leading zeros.
pub open spec fn decimal(n: nat) -> Seq<char>
    decreases n,
{
    if n < 10 {
        seq![digit_char(n)]
    } else {
        decimal(n / 10).push(digit_char(n % 10))
    }
}

fn digit_str(d: u32) -> (s: &'static str)
    requires
        d < 10,
    ensures
        s@ == seq![digit_char(d as nat)],
{
    proof {
        reveal_strlit("0");
        reveal_strlit("1");
        reveal_strlit("2");
        reveal_strlit("3");
        reveal_strlit("4");
        reveal_strlit("5");
        reveal_strlit("6");
        reveal_strlit("7");
        reveal_strlit("8");
        reveal_strlit("9");
    }
    let s = if d == 0 {
        "0"
    } else if d == 1 {
        "1"
    } else if d == 2 {
        "2"
    } else if d == 3 {
        "3"
    } else if d == 4 {
        "4"
    } else if d == 5 {
        "5"
    } else if d == 6 {
        "6"
    } else if d == 7 {
        "7"
    } else if d == 8 {
        "8"
    } else {
        "9"
    };
    assert(s@ =~= seq![digit_char(d as nat)]);
    s
}

/// Writes a number in decimal digits.
pub fn decimal_string(n: u32) -> (s: String)
    ensures
        s@ == decimal(n as nat),
{
    let mut s = String::from_str(digit_str(n % 10));
    let mut rest: u32 = n / 10;
    assert(decimal(n as nat) =~= if rest > 0 {
        decimal(rest as nat) + s@
    } else {
        s@
    });
    while rest > 0
        invariant
            decimal(n as nat) == if rest > 0 {
                decimal(rest as nat) + s@
            } else {
                s@
            },
        decreases rest,
    {
        let ghost tail = s@;
        let digit = digit_str(rest % 10);
        s = String::from_str(digit).concat(s.as_str());
        assert(decimal(n as nat) =~= if rest / 10 > 0 {
            decimal((rest / 10) as nat) + s@
        } else {
            s@
        });
        rest = rest / 10;
    }
    s
}

/// The key of a shortcut's id.
pub open spec fn appid_key() -> Seq<char> {
    "appid"@
}

/// The key of a shortcut's name.
pub open spec fn app_name_key() -> Seq<char> {
    "AppName"@
}

/// The key of the table of shortcuts.
pub open spec fn shortcuts_key() -> Seq<char> {
    "shortcuts"@
}

/// The id and the name of a shortcut: of a table that has a 32-bit number
/// under `appid` and a string under `AppName`. The id is the low 24 bits of
/// the number.
pub open spec fn shortcut_of(node: Node) -> Option<(u32, Seq<char>)> {
    match node {
        Node::Table(fields) => match lookup(fields, appid_key()) {
            Some(Node::Int32(appid)) => match lookup(fields, app_name_key()) {
                Some(name) => match text_of(name) {
                    Some(text) => Some((low24(appid), text)),
                    None => None,
                },
                None => None,
            },
            _ => None,
        },
        _ => None,
    }
}

/// The names of the shortcuts among `children` by id. Where two have one
/// id, the later one stays.
pub open spec fn spec_shortcuts(children: Seq<Slot>) -> Map<u32, Seq<char>>
    decreases children.len(),
{
    if children.len() == 0 {
        Map::empty()
    } else {
        match shortcut_of(children.last().value) {
            Some((id, name)) => spec_shortcuts(children.drop_last()).insert(id, name),
            None => spec_shortcuts(children.drop_last()),
        }
    }
}

/// The names of the shortcuts of a shortcuts file by id: those in the
/// table under `shortcuts`; none where there is no such table.
pub open spec fn spec_extract(top: Seq<Slot>) -> Map<u32, Seq<char>> {
    match lookup(top, shortcuts_key()) {
        Some(Node::Table(children)) => spec_shortcuts(children),
        _ => Map::empty(),
    }
}

/// Whether shortcuts by id are filed under their own ids and have the
/// names given.
pub open spec fn shortcuts_are(found: Map<u32, SteamShortcut>, names: Map<u32, Seq<char>>) -> bool {
    &&& found.dom() == names.dom()
    &&& forall|id: u32| #[trigger]
        found.contains_key(id) ==> found[id].id == id && found[id].name@ == names[id]
}

/// The shortcuts of a decoded shortcuts file by id. Entries that are no
/// shortcut are passed over.
pub fn extract_shortcuts(kv: &KeyValue) -> (found: HashMap<u32, SteamShortcut>)
    ensures
        shortcuts_are(found@, spec_extract(kv@)),
{
    let mut found: HashMap<u32, SteamShortcut> = HashMap::new();
    proof {
        reveal_strlit("shortcuts");
        reveal_strlit("appid");
        reveal_strlit("AppName");
    }
    if let Some(Value::KeyValueType(shortcuts)) = kv.get("shortcuts") {
        let mut i: usize = 0;
        assert(found@.dom() =~= Map::<u32, Seq<char>>::empty().dom());
        while i < shortcuts.len()
            invariant
                i <= shortcuts@.len(),
                shortcuts_are(found@, spec_shortcuts(shortcuts@.subrange(0, i as int))),
            decreases shortcuts@.len() - i,
        {
            let ghost upto = shortcuts@.subrange(0, i + 1);
            assert(upto.drop_last() =~= shortcuts@.subrange(0, i as int));
            assert(upto.last() == shortcuts@[i as int]);
            let ghost names = spec_shortcuts(shortcuts@.subrange(0, i as int));
            if let Value::KeyValueType(shortcut) = shortcuts.value_at(i) {
                if let Some(Value::Int32Type(appid)) = shortcut.get("appid") {
                    let id = clamp_i32_to_u24(*appid);
                    match shortcut.get("AppName") {
                        Some(Value::StringType(name)) => {
                            found.insert(id, SteamShortcut { id, name: name.clone() });
                            assert(found@.dom() =~= names.insert(id, name@).dom());
                        },
                        Some(Value::WideStringType(name)) => {
                            found.insert(id, SteamShortcut { id, name: name.clone() });
                            assert(found@.dom() =~= names.insert(id, name@).dom());
                        },
                        _ => {},
                    }
                }
            }
            i += 1;
        }
        assert(shortcuts@.subrange(0, i as int) =~= shortcuts@);
    } else {
        assert(found@.dom() =~= Map::<u32, Seq<char>>::empty().dom());
    }
    found
}

/// The shortcuts that the bytes of a shortcuts file hold; none where the
/// bytes cannot be decoded.
pub fn read_shortcuts(data: &[u8]) -> (found: HashMap<u32, SteamShortcut>)
    ensures
        match spec_keyvalues(data@) {
            Ok(top) => shortcuts_are(found@, spec_extract(top)),
            Err(_) => found@ == Map::<u32, SteamShortcut>::empty(),
        },
{
    match parse_keyvalues(data) {
        Ok(kv) => extract_shortcuts(&kv),
        Err(_) => HashMap::new(),
    }
}

/// The name that stands in for an application without one.
pub open spec fn fallback_name(id: u32) -> Seq<char> {
    "Steam App "@ + decimal(id as nat)
}

/// The name of an application: the catalog's, or `Steam App` and the id.
pub fn get_app_name(app: &App) -> (name: String)
    ensures
        name@ == match spec_app_name(app.key_values@) {
            Some(text) => text,
            None => fallback_name(app.id),
        },
{
    match app.app_name() {
        Some(name) => name,
        None => String::from_str("Steam App ").concat(decimal_string(app.id).as_str()),
    }
}

/// The names of an application by language.
pub fn get_localized_app_name(app: &App) -> (names: Vec<(String, String)>)
    ensures
        pair_texts(names@) == spec_localized_name(app.key_values@),
{
    app.localized_name()
}

} // verus!
