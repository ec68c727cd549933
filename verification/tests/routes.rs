use std::collections::HashMap;

use backend::models::{AppInfo, Pagination};
use backend::routes::{
    directory_entry, is_screenshot_extension, page_request, paginate, parse_app_id, resolve_app,
    transform_shortcut_to_app, transform_vdfr_to_app, user_of,
};
use backend::state::SharedAppState;
use backend::steam::{LoginUser, SteamShortcut};
use backend::vdfr::appinfo::{AppInfo as Catalog, MAGIC_28};
use std::sync::Arc;
use backend::vdfr::appinfo::App;
use backend::vdfr::value::{KeyValue, Value};

fn text(s: &str) -> Value {
    Value::StringType(String::from(s))
}

fn table(entries: Vec<(&str, Value)>) -> KeyValue {
    let mut kv = KeyValue::new();
    for (key, value) in entries {
        kv.insert(String::from(key), value);
    }
    kv
}

fn app_with(id: u32, common: KeyValue) -> App {
    App {
        id,
        size: 0,
        state: 0,
        last_update: 0,
        access_token: 0,
        checksum_txt: [0; 20],
        checksum_bin: None,
        change_number: 0,
        key_values: table(vec![(
            "appinfo",
            Value::KeyValueType(table(vec![("common", Value::KeyValueType(common))])),
        )]),
    }
}

fn association(kind: &str, name: &str) -> Value {
    Value::KeyValueType(table(vec![("type", text(kind)), ("name", text(name))]))
}

fn strings(items: &[&str]) -> Vec<String> {
    items.iter().map(|s| s.to_string()).collect()
}

#[test]
fn application_of_the_catalog() {
    let associations = table(vec![
        ("0", association("developer", "Valve")),
        ("1", association("publisher", "Valve Corp")),
        ("2", association("franchise", "Half-Life")),
        ("3", association("developer", "Gearbox")),
        ("4", Value::KeyValueType(table(vec![("type", text("developer"))]))),
        ("5", Value::KeyValueType(table(vec![("name", text("Nobody"))]))),
        (
            "6",
            Value::KeyValueType(table(vec![
                ("type", Value::WideStringType(String::from("developer"))),
                ("name", text("Wide")),
            ])),
        ),
        ("7", text("developer")),
    ]);
    let localized = table(vec![("german", text("Halbwertszeit")), ("english", text("Half-Life (EN)"))]);
    let common = table(vec![
        ("name", text("Half-Life")),
        ("associations", Value::KeyValueType(associations)),
        ("name_localized", Value::KeyValueType(localized)),
    ]);
    let info = transform_vdfr_to_app(&app_with(70, common));
    assert_eq!(info.id, 70);
    assert_eq!(info.name, "Half-Life (EN)");
    assert_eq!(
        info.localized_name,
        vec![
            (String::from("german"), String::from("Halbwertszeit")),
            (String::from("english"), String::from("Half-Life (EN)")),
        ]
    );
    assert_eq!(info.developers, strings(&["Valve", "Gearbox"]));
    assert_eq!(info.publishers, strings(&["Valve Corp"]));
    assert!(!info.non_steam);
}

#[test]
fn application_without_english_name() {
    let localized = table(vec![("german", text("Halbwertszeit"))]);
    let common = table(vec![("name", text("Half-Life")), ("name_localized", Value::KeyValueType(localized))]);
    let info = transform_vdfr_to_app(&app_with(70, common));
    assert_eq!(info.name, "Half-Life");
    assert!(info.developers.is_empty());
    assert!(info.publishers.is_empty());
    let bare = transform_vdfr_to_app(&app_with(71, KeyValue::new()));
    assert_eq!(bare.name, "Steam App 71");
    assert_eq!(bare.id, 71);
    assert!(bare.localized_name.is_empty());
}

#[test]
fn shortcut_as_application() {
    let info = transform_shortcut_to_app(&SteamShortcut { id: 12509892, name: String::from("Game") });
    assert_eq!(info.id, 12509892);
    assert_eq!(info.name, "Game");
    assert!(info.localized_name.is_empty());
    assert!(info.developers.is_empty());
    assert!(info.publishers.is_empty());
    assert!(info.non_steam);
}

#[test]
fn default_application() {
    let info = AppInfo::default();
    assert_eq!(info.id, 0);
    assert_eq!(info.name, "");
    assert!(info.localized_name.is_empty());
    assert!(info.developers.is_empty());
    assert!(info.publishers.is_empty());
    assert!(!info.non_steam);
}

#[test]
fn what_a_directory_stands_for() {
    let mut apps: HashMap<u32, App> = HashMap::new();
    apps.insert(70, app_with(70, table(vec![("name", text("Half-Life"))])));
    apps.insert(7, app_with(7, table(vec![("name", text("Steam Client"))])));
    apps.insert(9, app_with(9, table(vec![("name", text("In both"))])));
    let mut shortcuts: HashMap<u32, SteamShortcut> = HashMap::new();
    shortcuts.insert(12509892, SteamShortcut { id: 12509892, name: String::from("Game") });
    shortcuts.insert(9, SteamShortcut { id: 9, name: String::from("Shortcut nine") });
    shortcuts.insert(7, SteamShortcut { id: 7, name: String::from("Shortcut seven") });

    let steam = resolve_app(&apps, &shortcuts, 7);
    assert_eq!((steam.id, steam.name.as_str(), steam.non_steam), (7, "Steam", false));
    let catalog = resolve_app(&apps, &shortcuts, 70);
    assert_eq!((catalog.id, catalog.name.as_str(), catalog.non_steam), (70, "Half-Life", false));
    let both = resolve_app(&apps, &shortcuts, 9);
    assert_eq!((both.id, both.name.as_str(), both.non_steam), (9, "In both", false));
    let shortcut = resolve_app(&apps, &shortcuts, 12509892);
    assert_eq!((shortcut.id, shortcut.name.as_str(), shortcut.non_steam), (12509892, "Game", true));
    let unknown = resolve_app(&apps, &shortcuts, 123);
    assert_eq!((unknown.id, unknown.name.as_str(), unknown.non_steam), (123, "Unknown App 123", false));
    assert!(unknown.developers.is_empty());
    let empty = resolve_app(&HashMap::new(), &HashMap::new(), 7);
    assert_eq!((empty.id, empty.name.as_str()), (7, "Steam"));
}

#[test]
fn three_forms_of_a_user_id() {
    let login = LoginUser {
        username: String::from("gordon"),
        display_name: String::from("Gordon F."),
        timestamp: 1700000000,
    };
    let user = user_of(76561198000000001, &login);
    assert_eq!(user.id, 19867136);
    assert_eq!(user.id3, 39734273);
    assert_eq!(user.id64, 76561198000000001);
    assert_eq!(user.username, "gordon");
    assert_eq!(user.display_name, "Gordon F.");
    assert_eq!(user.timestamp, 1700000000);
}

#[test]
fn page_requests() {
    assert_eq!(page_request(&Pagination { page: None, per_page: None }), Some((0, 10)));
    assert_eq!(page_request(&Pagination { page: Some(3), per_page: Some(20) }), Some((3, 20)));
    assert_eq!(page_request(&Pagination { page: Some(1), per_page: Some(50) }), Some((1, 50)));
    assert_eq!(page_request(&Pagination { page: None, per_page: Some(100) }), Some((0, 100)));
    assert_eq!(page_request(&Pagination { page: Some(usize::MAX), per_page: None }), Some((usize::MAX, 10)));
    for bad in [0usize, 1, 9, 11, 25, 99, 101, 1000, usize::MAX] {
        assert_eq!(page_request(&Pagination { page: Some(0), per_page: Some(bad) }), None);
    }
}

#[test]
fn pages_of_a_list() {
    let items: Vec<String> = (0..25).map(|i| format!("shot{:02}.jpg", i)).collect();
    assert_eq!(paginate(&items, 0, 10), items[0..10].to_vec());
    assert_eq!(paginate(&items, 1, 10), items[10..20].to_vec());
    assert_eq!(paginate(&items, 2, 10), items[20..25].to_vec());
    assert!(paginate(&items, 3, 10).is_empty());
    assert_eq!(paginate(&items, 0, 100), items);
    assert_eq!(paginate(&items, 1, 20), items[20..25].to_vec());
    assert!(paginate(&items, 1, 25).is_empty());
    assert!(paginate(&items, 0, 0).is_empty());
    assert!(paginate(&items, usize::MAX, 10).is_empty());
    assert!(paginate(&items, usize::MAX, usize::MAX).is_empty());
    assert_eq!(paginate(&items, 0, usize::MAX), items);
    assert!(paginate(&Vec::new(), 0, 10).is_empty());
}

#[test]
fn screenshot_extensions() {
    assert!(is_screenshot_extension("jpg"));
    assert!(is_screenshot_extension("png"));
    assert!(is_screenshot_extension("webp"));
    assert!(!is_screenshot_extension("JPG"));
    assert!(!is_screenshot_extension("jpeg"));
    assert!(!is_screenshot_extension("gif"));
    assert!(!is_screenshot_extension(""));
    assert!(!is_screenshot_extension("pn"));
    assert!(!is_screenshot_extension("vdf"));
}

#[test]
fn directory_of_a_known_and_of_an_unknown_user() {
    let mut apps: HashMap<u32, App> = HashMap::new();
    apps.insert(70, app_with(70, table(vec![("name", text("Half-Life"))])));
    let mut shortcuts: HashMap<u32, SteamShortcut> = HashMap::new();
    shortcuts.insert(5, SteamShortcut { id: 5, name: String::from("Five") });
    let mut by_user: HashMap<u64, HashMap<u32, SteamShortcut>> = HashMap::new();
    by_user.insert(39734273, shortcuts);
    by_user.insert(1, HashMap::new());
    let state = SharedAppState {
        app_info: Arc::new(Catalog { version: MAGIC_28, universe: 1, apps }),
        steam_users: Arc::new(HashMap::new()),
        users_shortcuts: Arc::new(by_user),
    };
    let shared = state.clone();
    assert_eq!(shared.app_entry(39734273, 70).unwrap().name, "Half-Life");
    let five = state.app_entry(39734273, 5).unwrap();
    assert_eq!((five.id, five.name.as_str(), five.non_steam), (5, "Five", true));
    assert_eq!(state.app_entry(1, 5).unwrap().name, "Unknown App 5");
    assert_eq!(state.app_entry(1, 7).unwrap().name, "Steam");
    assert!(state.app_entry(2, 70).is_none());
    assert!(state.app_entry(2, 7).is_none());
}

#[test]
fn directory_names_as_ids() {
    assert_eq!(parse_app_id("0"), Some(0));
    assert_eq!(parse_app_id("7"), Some(7));
    assert_eq!(parse_app_id("12509892"), Some(12509892));
    assert_eq!(parse_app_id("+7"), Some(7));
    assert_eq!(parse_app_id("007"), Some(7));
    assert_eq!(parse_app_id("+000"), Some(0));
    assert_eq!(parse_app_id("4294967295"), Some(u32::MAX));
    assert_eq!(parse_app_id("0004294967295"), Some(u32::MAX));
    assert_eq!(parse_app_id("4294967296"), None);
    assert_eq!(parse_app_id("4294967300"), None);
    assert_eq!(parse_app_id("42949672950"), None);
    assert_eq!(parse_app_id("99999999999999999999999999"), None);
    assert_eq!(parse_app_id(""), None);
    assert_eq!(parse_app_id("+"), None);
    assert_eq!(parse_app_id("-1"), None);
    assert_eq!(parse_app_id("-0"), None);
    assert_eq!(parse_app_id("++1"), None);
    assert_eq!(parse_app_id("1+"), None);
    assert_eq!(parse_app_id(" 1"), None);
    assert_eq!(parse_app_id("1 "), None);
    assert_eq!(parse_app_id("1a"), None);
    assert_eq!(parse_app_id("0x10"), None);
    assert_eq!(parse_app_id("1_000"), None);
    assert_eq!(parse_app_id("thumbnails"), None);
    assert_eq!(parse_app_id("\u{661}"), None);
    assert_eq!(parse_app_id("1\u{FF11}"), None);
    for name in ["", "+", "0", "+0", "-0", "12", "012", "4294967295", "4294967296", "1e3", "٣"] {
        assert_eq!(parse_app_id(name), name.parse::<u32>().ok(), "{:?}", name);
    }
}

#[test]
fn entries_of_the_screenshot_directory() {
    let mut apps: HashMap<u32, App> = HashMap::new();
    apps.insert(70, app_with(70, table(vec![("name", text("Half-Life"))])));
    let shortcuts: HashMap<u32, SteamShortcut> = HashMap::new();
    assert_eq!(directory_entry(&apps, &shortcuts, "70", true).unwrap().name, "Half-Life");
    assert_eq!(directory_entry(&apps, &shortcuts, "070", true).unwrap().id, 70);
    assert_eq!(directory_entry(&apps, &shortcuts, "7", true).unwrap().name, "Steam");
    assert_eq!(directory_entry(&apps, &shortcuts, "71", true).unwrap().name, "Unknown App 71");
    assert!(directory_entry(&apps, &shortcuts, "70", false).is_none());
    assert!(directory_entry(&apps, &shortcuts, "thumbnails", true).is_none());
    assert!(directory_entry(&apps, &shortcuts, "", true).is_none());
    assert!(directory_entry(&apps, &shortcuts, "4294967296", true).is_none());
}
