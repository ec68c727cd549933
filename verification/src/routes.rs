//! The rules behind the browser's answers: what is shown of an
//! application, which files count as screenshots, and which of them a page
//! holds.

use std::collections::HashMap;
use vstd::prelude::*;
use vstd::string::StringExecFns;
use crate::models::{AppInfo, Pagination, User};
use crate::steam::{
    decimal, decimal_string, fallback_name, get_app_name, get_localized_app_name,
    steamid64_to_steamid, steamid64_to_usteamid, LoginUser, SteamShortcut, ID64_IDENT,
};
use crate::vdfr::appinfo::{App, AppView};
use crate::vdfr::decode::texts;
use crate::vdfr::lookup::{pair_texts, path_of, spec_app_name, spec_localized_name};
use crate::vdfr::text::str_eq;
use crate::vdfr::value::{lookup, lookup_path, Node, Slot, Value};

verus! {

/// The id under which Steam files its own screenshots.
pub const STEAM_CLIENT: u32 = 7;

/// Where a catalog keeps the developers and publishers of an application.
pub open spec fn associations_path() -> Seq<Seq<char>> {
    seq!["appinfo"@, "common"@, "associations"@]
}

/// The kind and the name of an association: of a table that has a string
/// under `name` and a string under `type`.
pub open spec fn association_of(node: Node) -> Option<(Seq<char>, Seq<char>)> {
    match node {
        Node::Table(fields) => match lookup(fields, "name"@) {
            Some(Node::Text(name)) => match lookup(fields, "type"@) {
                Some(Node::Text(kind)) => Some((kind, name)),
                _ => None,
            },
            _ => None,
        },
        _ => None,
    }
}

/// The names of the associations of one kind, in the table's order.
pub open spec fn associated(children: Seq<Slot>, kind: Seq<char>) -> Seq<Seq<char>>
    decreases children.len(),
{
    if children.len() == 0 {
        Seq::empty()
    } else {
        match association_of(children.last().value) {
            Some((k, name)) => if k == kind {
                associated(children.drop_last(), kind).push(name)
            } else {
                associated(children.drop_last(), kind)
            },
            None => associated(children.drop_last(), kind),
        }
    }
}

/// The associations of an application with this table.
pub open spec fn spec_associations(slots: Seq<Slot>) -> Seq<Slot> {
    match lookup_path(slots, associations_path()) {
        Some(Node::Table(children)) => children,
        _ => Seq::empty(),
    }
}

/// Whether the first pair with the language `key` is the one at `i`.
pub open spec fn pair_at(pairs: Seq<(Seq<char>, Seq<char>)>, key: Seq<char>, i: int) -> bool {
    &&& 0 <= i < pairs.len()
    &&& pairs[i].0 == key
    &&& forall|j: int| 0 <= j < i ==> (#[trigger] pairs[j]).0 != key
}

/// The name in the language `key`.
pub open spec fn name_in(pairs: Seq<(Seq<char>, Seq<char>)>, key: Seq<char>) -> Option<Seq<char>> {
    if exists|i: int| pair_at(pairs, key, i) {
        Some(pairs[choose|i: int| pair_at(pairs, key, i)].1)
    } else {
        None
    }
}

/// The name under which an application is shown: the English one, or
/// else the catalog's, or else `Steam App` and the id.
pub open spec fn shown_name(slots: Seq<Slot>, id: u32) -> Seq<char> {
    match name_in(spec_localized_name(slots), "english"@) {
        Some(name) => name,
        None => match spec_app_name(slots) {
            Some(name) => name,
            None => fallback_name(id),
        },
    }
}

/// Whether `info` is what is shown of the catalog's application `app`: its
/// id, the name it is shown under, its names by language, its developers
/// and its publishers.
pub open spec fn shows_app(info: AppInfo, app: AppView) -> bool {
    &&& info.id == app.id
    &&& info.name@ == shown_name(app.key_values, app.id)
    &&& pair_texts(info.localized_name@) == spec_localized_name(app.key_values)
    &&& texts(info.developers@) == associated(spec_associations(app.key_values), "developer"@)
    &&& texts(info.publishers@) == associated(spec_associations(app.key_values), "publisher"@)
    &&& !info.non_steam
}

/// What is shown of an application of the catalog.
pub fn transform_vdfr_to_app(app: &App) -> (info: AppInfo)
    ensures
        shows_app(info, app@),
{
    let app_name = get_app_name(app);
    let mut developers: Vec<String> = Vec::new();
    let mut publishers: Vec<String> = Vec::new();
    let keys: [&str; 3] = ["appinfo", "common", "associations"];
    assert(path_of(keys@) =~= associations_path());
    assert(texts(developers@) =~= Seq::<Seq<char>>::empty());
    assert(texts(publishers@) =~= Seq::<Seq<char>>::empty());
    if let Some(Value::KeyValueType(associations)) = app.get(keys.as_slice()) {
        let mut i: usize = 0;
        while i < associations.len()
            invariant
                i <= associations@.len(),
                texts(developers@) == associated(
                    associations@.subrange(0, i as int),
                    "developer"@,
                ),
                texts(publishers@) == associated(
                    associations@.subrange(0, i as int),
                    "publisher"@,
                ),
            decreases associations@.len() - i,
        {
            let ghost upto = associations@.subrange(0, i + 1);
            assert(upto.drop_last() =~= associations@.subrange(0, i as int));
            assert(upto.last() == associations@[i as int]);
            let ghost devs = texts(developers@);
            let ghost pubs = texts(publishers@);
            proof {
                reveal_strlit("developer");
                reveal_strlit("publisher");
                assert("developer"@[0] != "publisher"@[0]);
            }
            if let Value::KeyValueType(kv) = associations.value_at(i) {
                if let Some(Value::StringType(name)) = kv.get("name") {
                    if let Some(Value::StringType(kind_type)) = kv.get("type") {
                        if str_eq(kind_type.as_str(), "developer") {
                            developers.push(name.clone());
                            assert(texts(developers@) =~= devs.push(name@));
                        } else if str_eq(kind_type.as_str(), "publisher") {
                            publishers.push(name.clone());
                            assert(texts(publishers@) =~= pubs.push(name@));
                        }
                    }
                }
            }
            i += 1;
        }
        assert(associations@.subrange(0, i as int) =~= associations@);
    }
    let localized_name = get_localized_app_name(app);
    let name = match find_language(&localized_name, "english") {
        Some(i) => localized_name[i].1.clone(),
        None => app_name,
    };
    AppInfo { id: app.id, name, localized_name, developers, publishers, non_steam: false }
}

/// Where the name in a language stands.
fn find_language(names: &Vec<(String, String)>, language: &str) -> (at: Option<usize>)
    ensures
        match at {
            Some(i) => pair_at(pair_texts(names@), language@, i as int),
            None => name_in(pair_texts(names@), language@) is None,
        },
{
    let mut i: usize = 0;
    while i < names.len()
        invariant
            i <= names.len(),
            forall|j: int| 0 <= j < i ==> (#[trigger] pair_texts(names@)[j]).0 != language@,
        decreases names.len() - i,
    {
        if str_eq(names[i].0.as_str(), language) {
            return Some(i);
        }
        i += 1;
    }
    None
}

/// Whether `info` is what is shown of a shortcut: its id and its name,
/// marked as no application of Steam's.
pub open spec fn shows_shortcut(info: AppInfo, shortcut: SteamShortcut) -> bool {
    &&& info.id == shortcut.id
    &&& info.name@ == shortcut.name@
    &&& info.localized_name@.len() == 0
    &&& info.developers@.len() == 0
    &&& info.publishers@.len() == 0
    &&& info.non_steam
}

/// What is shown of a shortcut.
pub fn transform_shortcut_to_app(shortcut: &SteamShortcut) -> (info: AppInfo)
    ensures
        shows_shortcut(info, *shortcut),
{
    AppInfo {
        id: shortcut.id,
        name: shortcut.name.clone(),
        localized_name: Vec::new(),
        developers: Vec::new(),
        publishers: Vec::new(),
        non_steam: true,
    }
}

/// Whether a record shows nothing but an id and a name.
pub open spec fn bare(info: AppInfo, id: u32, name: Seq<char>) -> bool {
    &&& info.id == id
    &&& info.name@ == name
    &&& info.localized_name@.len() == 0
    &&& info.developers@.len() == 0
    &&& info.publishers@.len() == 0
    &&& !info.non_steam
}

/// Whether `info` is what is shown for the directory of the id `app_id`:
/// Steam itself for [`STEAM_CLIENT`]; else the application of the catalog
/// with that id; else the user's shortcut with that id; else a stand-in.
pub open spec fn shows_directory(
    info: AppInfo,
    apps: Map<u32, App>,
    shortcuts: Map<u32, SteamShortcut>,
    app_id: u32,
) -> bool {
    if app_id == STEAM_CLIENT {
        bare(info, app_id, "Steam"@)
    } else if apps.contains_key(app_id) {
        shows_app(info, apps[app_id]@)
    } else if shortcuts.contains_key(app_id) {
        shows_shortcut(info, shortcuts[app_id])
    } else {
        bare(info, app_id, "Unknown App "@ + decimal(app_id as nat))
    }
}

/// What is shown for the directory of the id `app_id`.
pub fn resolve_app(
    apps: &HashMap<u32, App>,
    shortcuts: &HashMap<u32, SteamShortcut>,
    app_id: u32,
) -> (info: AppInfo)
    ensures
        shows_directory(info, apps@, shortcuts@, app_id),
{
    if app_id == STEAM_CLIENT {
        let mut info = AppInfo::default();
        info.id = app_id;
        info.name = String::from_str("Steam");
        return info;
    }
    match apps.get(&app_id) {
        Some(app) => transform_vdfr_to_app(app),
        None => match shortcuts.get(&app_id) {
            Some(shortcut) => transform_shortcut_to_app(shortcut),
            None => {
                let mut info = AppInfo::default();
                info.id = app_id;
                info.name = String::from_str("Unknown App ").concat(
                    decimal_string(app_id).as_str(),
                );
                info
            },
        },
    }
}

/// The number of a decimal digit; `None` for any other character.
pub open spec fn digit_value(c: char) -> Option<nat> {
    if c == '0' {
        Some(0)
    } else if c == '1' {
        Some(1)
    } else if c == '2' {
        Some(2)
    } else if c == '3' {
        Some(3)
    } else if c == '4' {
        Some(4)
    } else if c == '5' {
        Some(5)
    } else if c == '6' {
        Some(6)
    } else if c == '7' {
        Some(7)
    } else if c == '8' {
        Some(8)
    } else if c == '9' {
        Some(9)
    } else {
        None
    }
}

/// The number that decimal digits stand for; `None` where a character is
/// no digit.
pub open spec fn digits_value(s: Seq<char>) -> Option<nat>
    decreases s.len(),
{
    if s.len() == 0 {
        Some(0)
    } else {
        match (digits_value(s.drop_last()), digit_value(s.last())) {
            (Some(n), Some(d)) => Some(10 * n + d),
            _ => None,
        }
    }
}

/// The digits of a number that may have a `+` in front.
pub open spec fn unsigned_digits(s: Seq<char>) -> Seq<char> {
    if s.len() > 0 && s[0] == '+' {
        s.drop_first()
    } else {
        s
    }
}

/// The id that the name of a directory stands for: the name is one or more
/// decimal digits, a `+` in front allowed, and the number fits in 32 bits.
pub open spec fn spec_app_id(name: Seq<char>) -> Option<u32> {
    if unsigned_digits(name).len() == 0 {
        None
    } else {
        match digits_value(unsigned_digits(name)) {
            Some(n) => if n <= u32::MAX {
                Some(n as u32)
            } else {
                None
            },
            None => None,
        }
    }
}

/// Digits with a character among them that is no digit stand for no
/// number.
proof fn lemma_not_digits(s: Seq<char>, at: int)
    requires
        0 <= at < s.len(),
        digit_value(s[at]) is None,
    ensures
        digits_value(s) is None,
    decreases s.len(),
{
    if at < s.len() - 1 {
        lemma_not_digits(s.drop_last(), at);
    }
}

/// Digits stand for no smaller number than the first `n` of them do.
proof fn lemma_digits_grow(s: Seq<char>, n: int)
    requires
        0 <= n <= s.len(),
    ensures
        match (digits_value(s.subrange(0, n)), digits_value(s)) {
            (Some(part), Some(whole)) => part <= whole,
            _ => true,
        },
    decreases s.len() - n,
{
    if n == s.len() {
        assert(s.subrange(0, n) =~= s);
    } else {
        assert(s.drop_last().subrange(0, n) =~= s.subrange(0, n));
        lemma_digits_grow(s.drop_last(), n);
    }
}

/// Reads the name of a directory as the id of an application.
pub fn parse_app_id(name: &str) -> (id: Option<u32>)
    ensures
        id == spec_app_id(name@),
{
    let mut value: u32 = 0;
    let mut first: bool = true;
    let mut any_digit: bool = false;
    let ghost body = unsigned_digits(name@);
    let ghost start: int = name@.len() - body.len();
    let ghost mut digits: int = 0;
    assert(body.subrange(0, 0) =~= Seq::<char>::empty());
    for c in it: name.chars()
        invariant
            it.seq() == name@,
            body == unsigned_digits(name@),
            start == name@.len() - body.len(),
            first == (it.index() == 0),
            any_digit == (digits > 0),
            it.index() == 0 ==> digits == 0,
            it.index() >= 1 ==> digits == it.index() - start,
            digits_value(body.subrange(0, digits)) == Some(value as nat),
    {
        if first && c == '+' {
            first = false;
        } else {
            let ghost at: int = it.index() - start;
            assert(body[at] == c);
            let d: u32 = if c == '0' {
                0
            } else if c == '1' {
                1
            } else if c == '2' {
                2
            } else if c == '3' {
                3
            } else if c == '4' {
                4
            } else if c == '5' {
                5
            } else if c == '6' {
                6
            } else if c == '7' {
                7
            } else if c == '8' {
                8
            } else if c == '9' {
                9
            } else {
                proof {
                    lemma_not_digits(body, at);
                }
                return None;
            };
            let ghost upto = body.subrange(0, at + 1);
            assert(upto.drop_last() =~= body.subrange(0, at));
            assert(upto.last() == c);
            if value > (u32::MAX - d) / 10 {
                proof {
                    lemma_digits_grow(body, at + 1);
                }
                return None;
            }
            value = value * 10 + d;
            first = false;
            any_digit = true;
            proof {
                digits = digits + 1;
            }
        }
    }
    assert(body.subrange(0, body.len() as int) =~= body);
    if any_digit {
        Some(value)
    } else {
        None
    }
}

/// What is shown for an entry of the directory of screenshots: nothing
/// for a file, and for a directory whose name is no id; else what is shown
/// for the directory of that id.
pub fn directory_entry(
    apps: &HashMap<u32, App>,
    shortcuts: &HashMap<u32, SteamShortcut>,
    name: &str,
    is_dir: bool,
) -> (shown: Option<AppInfo>)
    ensures
        match shown {
            Some(info) => is_dir && spec_app_id(name@) is Some && shows_directory(
                info,
                apps@,
                shortcuts@,
                spec_app_id(name@)->Some_0,
            ),
            None => !is_dir || spec_app_id(name@) is None,
        },
{
    if !is_dir {
        return None;
    }
    match parse_app_id(name) {
        Some(app_id) => Some(resolve_app(apps, shortcuts, app_id)),
        None => None,
    }
}

/// The three forms of a user's id with the user's names.
pub fn user_of(user_id: u64, login: &LoginUser) -> (user: User)
    requires
        user_id >= ID64_IDENT,
    ensures
        user.id == (user_id - ID64_IDENT) / 2,
        user.id3 == user_id - ID64_IDENT,
        user.id64 == user_id,
        user.username@ == login.username@,
        user.display_name@ == login.display_name@,
        user.timestamp == login.timestamp,
{
    User {
        id: steamid64_to_steamid(user_id),
        id3: steamid64_to_usteamid(user_id),
        id64: user_id,
        username: login.username.clone(),
        display_name: login.display_name.clone(),
        timestamp: login.timestamp,
    }
}

/// The page asked for where none is named.
pub const DEFAULT_PAGE: usize = 0;

/// The length of a page where none is named.
pub const DEFAULT_PER_PAGE: usize = 10;

/// Whether a page may have this length.
pub open spec fn allowed_per_page(per_page: usize) -> bool {
    per_page == 10 || per_page == 20 || per_page == 50 || per_page == 100
}

/// The page and the length of a page that a request asks for, the
/// defaults filled in; `None` where the length is not allowed.
pub fn page_request(pagination: &Pagination) -> (asked: Option<(usize, usize)>)
    ensures
        asked == (if allowed_per_page(
            match pagination.per_page {
                Some(n) => n,
                None => DEFAULT_PER_PAGE,
            },
        ) {
            Some(
                (
                    match pagination.page {
                        Some(n) => n,
                        None => DEFAULT_PAGE,
                    },
                    match pagination.per_page {
                        Some(n) => n,
                        None => DEFAULT_PER_PAGE,
                    },
                ),
            )
        } else {
            None
        }),
{
    let page = match pagination.page {
        Some(n) => n,
        None => DEFAULT_PAGE,
    };
    let per_page = match pagination.per_page {
        Some(n) => n,
        None => DEFAULT_PER_PAGE,
    };
    if per_page == 10 || per_page == 20 || per_page == 50 || per_page == 100 {
        Some((page, per_page))
    } else {
        None
    }
}

/// The smaller of two numbers.
pub open spec fn least(a: int, b: int) -> int {
    if a <= b {
        a
    } else {
        b
    }
}

/// Where page number `page` starts in a list of `total` items.
pub open spec fn page_start(total: int, page: int, per_page: int) -> int {
    least(page * per_page, total)
}

/// Where page number `page` ends in a list of `total` items.
pub open spec fn page_end(total: int, page: int, per_page: int) -> int {
    least(page_start(total, page, per_page) + per_page, total)
}

/// The items of page number `page`, pages counted from 0 and `per_page`
/// long: the items left after `page` whole pages, and of them at most
/// `per_page`.
pub fn paginate(items: &Vec<String>, page: usize, per_page: usize) -> (shown: Vec<String>)
    ensures
        texts(shown@) == texts(items@).subrange(
            page_start(items@.len() as int, page as int, per_page as int),
            page_end(items@.len() as int, page as int, per_page as int),
        ),
{
    let total = items.len();
    let start: usize = match page.checked_mul(per_page) {
        Some(n) => if n < total {
            n
        } else {
            total
        },
        None => total,
    };
    let end: usize = if per_page < total - start {
        start + per_page
    } else {
        total
    };
    let mut shown: Vec<String> = Vec::new();
    let mut i: usize = start;
    assert(texts(shown@) =~= texts(items@).subrange(start as int, start as int));
    while i < end
        invariant
            start <= i <= end <= items@.len(),
            texts(shown@) == texts(items@).subrange(start as int, i as int),
        decreases end - i,
    {
        let ghost before = texts(shown@);
        shown.push(items[i].clone());
        assert(texts(shown@) =~= before.push(items@[i as int]@));
        assert(texts(items@).subrange(start as int, i + 1) =~= before.push(items@[i as int]@));
        i += 1;
    }
    shown
}

/// Whether a file with this extension is a screenshot.
pub fn is_screenshot_extension(extension: &str) -> (is: bool)
    ensures
        is == (extension@ == "jpg"@ || extension@ == "png"@ || extension@ == "webp"@),
{
    str_eq(extension, "jpg") || str_eq(extension, "png") || str_eq(extension, "webp")
}

} // verus!
