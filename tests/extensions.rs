use goose_extensions::config::{Config, PlatformExtension};
use goose_extensions::extensions::{
    get_all_extension_names, get_all_extensions, get_enabled_extensions, get_extension_by_name,
    is_extension_enabled, parse_extension, remove_extension, set_extension, set_extension_enabled,
    ExtensionConfig, ExtensionEntry,
};
use goose_extensions::json::{JsonField, StoredEntry, StoredValue};
use goose_extensions::key::name_to_key;
use goose_extensions::keymap::KeyMap;

fn platform() -> Vec<PlatformExtension> {
    vec![
        PlatformExtension { name: "todo".to_string(), description: "Task list".to_string() },
        PlatformExtension { name: "chatrecall".to_string(), description: "Recall".to_string() },
    ]
}

fn entry_fields(enabled: bool, name: &str, description: Option<&str>) -> KeyMap<JsonField> {
    let mut m = KeyMap::new();
    m.insert("enabled".to_string(), JsonField::Bool(enabled));
    m.insert("type".to_string(), JsonField::Str("stdio".to_string()));
    m.insert("name".to_string(), JsonField::Str(name.to_string()));
    if let Some(d) = description {
        m.insert("description".to_string(), JsonField::Str(d.to_string()));
    }
    m.insert("cmd".to_string(), JsonField::Str("run".to_string()));
    m
}

fn store_with(entries: Vec<(&str, StoredEntry)>) -> Config {
    store_with_platform(platform(), entries)
}

fn store_with_platform(p: Vec<PlatformExtension>, entries: Vec<(&str, StoredEntry)>) -> Config {
    let mut c = Config::new(p);
    let mut obj = KeyMap::new();
    for (k, e) in entries {
        obj.insert(k.to_string(), e);
    }
    c.set_param("extensions", StoredValue::Object(obj));
    c
}

fn new_entry(name: &str, enabled: bool) -> ExtensionEntry {
    let mut fields = KeyMap::new();
    fields.insert("cmd".to_string(), JsonField::Str("run".to_string()));
    ExtensionEntry {
        enabled,
        config: ExtensionConfig::new("stdio".to_string(), name.to_string(), "d".to_string(), fields).unwrap(),
    }
}

fn sorted(mut v: Vec<String>) -> Vec<String> {
    v.sort();
    v
}

#[test]
fn normalize_strips_whitespace_and_lowercases() {
    assert_eq!(name_to_key("My Group\tName\n"), "mygroupname");
    assert_eq!(name_to_key("ABC"), "abc");
    assert_eq!(name_to_key("a b"), "ab");
    assert_eq!(name_to_key(""), "");
}

#[test]
fn normalize_is_idempotent_on_examples() {
    for s in ["  Dev Eloper ", "MIXED case\u{3000}Name", "plain"] {
        let once = name_to_key(s);
        assert_eq!(name_to_key(&once), once);
        assert!(!once.chars().any(|c| c.is_whitespace()));
        assert_eq!(once.to_lowercase(), once);
    }
}

#[test]
fn missing_store_value_loads_empty() {
    let c = Config::new(platform());
    assert!(get_all_extensions(&c).is_empty());
}

#[test]
fn non_object_store_value_loads_empty() {
    let mut c = Config::new(platform());
    c.set_param("extensions", StoredValue::Other("[1,2]".to_string()));
    assert!(get_all_extensions(&c).is_empty());
}

#[test]
fn empty_object_gets_no_platform_extensions() {
    let c = store_with(vec![]);
    assert!(get_all_extensions(&c).is_empty());
    assert!(get_all_extension_names(&c).is_empty());
}

#[test]
fn one_extension_gets_platform_extensions() {
    let c = store_with(vec![("dev", StoredEntry::Object(entry_fields(true, "Dev", Some("x"))))]);
    let names = sorted(get_all_extension_names(&c));
    assert_eq!(names, vec!["chatrecall".to_string(), "dev".to_string(), "todo".to_string()]);
    let all = get_all_extensions(&c);
    let todo = all.iter().find(|e| e.config.name() == "todo").unwrap();
    assert!(todo.enabled);
    assert_eq!(todo.config.kind(), "platform");
    assert_eq!(todo.config.description(), "Task list");
    assert!(matches!(todo.config.fields().get("bundled"), Some(JsonField::Bool(true))));
}

#[test]
fn configured_platform_extension_is_kept() {
    let c = store_with(vec![("todo", StoredEntry::Object(entry_fields(false, "todo", Some("mine"))))]);
    let all = get_all_extensions(&c);
    assert_eq!(all.len(), 2);
    let todo = all.iter().find(|e| e.config.name() == "todo").unwrap();
    assert!(!todo.enabled);
    assert_eq!(todo.config.description(), "mine");
}

#[test]
fn malformed_entry_is_skipped() {
    let mut bad = entry_fields(true, "Bad", Some("x"));
    bad.remove("name");
    let c = store_with_platform(Vec::new(), vec![
        ("good", StoredEntry::Object(entry_fields(true, "Good", Some("x")))),
        ("bad", StoredEntry::Object(bad)),
    ]);
    let all = get_all_extensions(&c);
    assert_eq!(all.len(), 1);
    assert_eq!(all[0].config.name(), "Good");
}

#[test]
fn non_object_entry_is_skipped() {
    let c = store_with(vec![
        ("good", StoredEntry::Object(entry_fields(true, "Good", Some("x")))),
        ("odd", StoredEntry::Other("42".to_string())),
    ]);
    let names = get_all_extension_names(&c);
    assert!(names.contains(&"good".to_string()));
    assert!(!names.contains(&"odd".to_string()));
}

#[test]
fn wrong_kind_of_enabled_is_skipped() {
    let mut e = entry_fields(true, "Good", Some("x"));
    e.insert("enabled".to_string(), JsonField::Str("yes".to_string()));
    assert!(parse_extension(&StoredEntry::Object(e)).is_none());
}

#[test]
fn missing_description_defaults_to_empty() {
    let e = parse_extension(&StoredEntry::Object(entry_fields(true, "Dev", None))).unwrap();
    assert_eq!(e.config.description(), "");
    assert_eq!(e.config.name(), "Dev");
    assert!(matches!(e.config.fields().get("cmd"), Some(JsonField::Str(s)) if s == "run"));
    assert!(e.config.fields().get("name").is_none());
}

#[test]
fn null_description_defaults_to_empty() {
    let mut f = entry_fields(true, "Dev", None);
    f.insert("description".to_string(), JsonField::Null);
    let e = parse_extension(&StoredEntry::Object(f)).unwrap();
    assert_eq!(e.config.description(), "");
}

#[test]
fn save_then_load_round_trip() {
    let mut c = Config::new(platform());
    set_extension(&mut c, new_entry("My Ext", true));
    let all = get_all_extensions(&c);
    assert_eq!(all.len(), 3);
    let mine = all.iter().find(|e| e.config.name() == "My Ext").unwrap();
    assert!(mine.enabled);
    assert_eq!(mine.config.kind(), "stdio");
    assert_eq!(mine.config.description(), "d");
    assert!(matches!(mine.config.fields().get("cmd"), Some(JsonField::Str(s)) if s == "run"));
    assert!(get_all_extension_names(&c).contains(&"myext".to_string()));
}

#[test]
fn set_extension_replaces_same_key() {
    let mut c = Config::new(platform());
    set_extension(&mut c, new_entry("My Ext", true));
    set_extension(&mut c, new_entry("myext", false));
    assert!(!is_extension_enabled(&c, "myext"));
    assert_eq!(get_all_extensions(&c).len(), 3);
}

#[test]
fn set_enabled_on_missing_key_is_noop() {
    let mut c = Config::new(platform());
    set_extension(&mut c, new_entry("dev", false));
    let before = c.writes();
    set_extension_enabled(&mut c, "x", true);
    assert_eq!(c.writes(), before);
    assert!(!is_extension_enabled(&c, "x"));
}

#[test]
fn set_enabled_on_present_key_saves() {
    let mut c = Config::new(platform());
    set_extension(&mut c, new_entry("dev", false));
    let before = c.writes();
    set_extension_enabled(&mut c, "dev", true);
    assert_eq!(c.writes(), before + 1);
    assert!(is_extension_enabled(&c, "dev"));
}

#[test]
fn remove_saves_even_when_absent() {
    let mut c = Config::new(platform());
    set_extension(&mut c, new_entry("dev", true));
    let before = c.writes();
    remove_extension(&mut c, "nothing");
    assert_eq!(c.writes(), before + 1);
    remove_extension(&mut c, "dev");
    assert!(!get_all_extension_names(&c).contains(&"dev".to_string()));
}

#[test]
fn get_by_name_matches_display_name() {
    let mut c = Config::new(platform());
    set_extension(&mut c, new_entry("My Ext", true));
    assert_eq!(get_extension_by_name(&c, "My Ext").unwrap().name(), "My Ext");
    assert!(get_extension_by_name(&c, "myext").is_none());
    assert_eq!(get_extension_by_name(&c, "todo").unwrap().key(), "todo");
}

#[test]
fn enabled_extensions_are_listed() {
    let mut c = Config::new(platform());
    set_extension(&mut c, new_entry("off", false));
    set_extension(&mut c, new_entry("on", true));
    let names = sorted(get_enabled_extensions(&c).into_iter().map(|x| x.name()).collect());
    assert_eq!(names, vec!["chatrecall".to_string(), "on".to_string(), "todo".to_string()]);
}

#[test]
fn config_rejects_reserved_field() {
    let mut fields = KeyMap::new();
    fields.insert("enabled".to_string(), JsonField::Bool(false));
    assert!(ExtensionConfig::new("stdio".to_string(), "x".to_string(), String::new(), fields).is_none());
    let mut ok = KeyMap::new();
    ok.insert("cmd".to_string(), JsonField::Str("run".to_string()));
    ok.insert("args".to_string(), JsonField::Strs(vec!["-v".to_string()]));
    let c = ExtensionConfig::new("stdio".to_string(), "x".to_string(), String::new(), ok).unwrap();
    assert_eq!(c.fields().len(), 2);
}

#[test]
fn set_then_read_keeps_flag() {
    let mut c = Config::new(platform());
    set_extension(&mut c, new_entry("Flag Test", true));
    assert!(is_extension_enabled(&c, "flagtest"));
    set_extension(&mut c, new_entry("Flag Test", false));
    assert!(!is_extension_enabled(&c, "flagtest"));
}

#[test]
fn normalize_removes_unicode_whitespace() {
    assert_eq!(name_to_key("a\u{a0}b\u{2009}c\u{3000}d\u{85}e"), "abcde");
    assert_eq!(name_to_key("x\u{200b}y"), "x\u{200b}y");
    for u in 0u32..0x3100 {
        if let Some(c) = char::from_u32(u) {
            let s = format!("a{}b", c);
            let expect = if c.is_whitespace() { "ab".to_string() } else { s.to_lowercase() };
            assert_eq!(name_to_key(&s), expect);
        }
    }
}
