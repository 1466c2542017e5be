use goose_extensions::config::Config;
use goose_extensions::extensions::{is_extension_enabled, set_extension, ExtensionConfig, ExtensionEntry};
use goose_extensions::groups::{
    disable_extension_group, enable_extension_group, get_all_extension_group_names,
    get_all_extension_groups, get_extension_group_by_name, get_extension_group_state,
    is_extension_group_enabled, remove_extension_group, set_extension_group,
    set_extension_group_enabled, ExtensionGroup, ExtensionGroupState,
};
use goose_extensions::json::{JsonField, StoredEntry, StoredValue};
use goose_extensions::keymap::KeyMap;

fn entry(name: &str, enabled: bool) -> ExtensionEntry {
    ExtensionEntry {
        enabled,
        config: ExtensionConfig::new("builtin".to_string(), name.to_string(), String::new(), KeyMap::new()).unwrap(),
    }
}

fn group(name: &str, keys: &[&str]) -> ExtensionGroup {
    ExtensionGroup { name: name.to_string(), extension_keys: keys.iter().map(|k| k.to_string()).collect() }
}

fn setup(a: bool, b: Option<bool>) -> Config {
    let mut c = Config::new(Vec::new());
    set_extension(&mut c, entry("a", a));
    if let Some(b) = b {
        set_extension(&mut c, entry("b", b));
    }
    set_extension_group(&mut c, group("Pair", &["a", "b"]));
    c
}

#[test]
fn group_key_is_normalized_name() {
    let g = group("My Tools", &["a"]);
    assert_eq!(g.key(), "mytools");
    assert_eq!(g.name(), "My Tools");
    assert_eq!(g.extension_keys(), &["a".to_string()][..]);
}

#[test]
fn empty_group_is_disabled() {
    let mut c = Config::new(Vec::new());
    set_extension_group(&mut c, group("Empty", &[]));
    assert_eq!(get_extension_group_state(&c, "Empty"), Some(ExtensionGroupState::Disabled));
}

#[test]
fn all_enabled_group_is_enabled() {
    let c = setup(true, Some(true));
    assert_eq!(get_extension_group_state(&c, "pair"), Some(ExtensionGroupState::Enabled));
    assert!(is_extension_group_enabled(&c, "pair"));
}

#[test]
fn partly_enabled_group_is_mixed() {
    let c = setup(true, Some(false));
    assert_eq!(get_extension_group_state(&c, "Pair"), Some(ExtensionGroupState::Mixed));
    assert!(!is_extension_group_enabled(&c, "pair"));
}

#[test]
fn absent_member_counts_as_not_enabled() {
    let c = setup(true, None);
    assert_eq!(get_extension_group_state(&c, "Pair"), Some(ExtensionGroupState::Mixed));
    assert!(!is_extension_group_enabled(&c, "pair"));
}

#[test]
fn all_disabled_group_is_disabled() {
    let c = setup(false, Some(false));
    assert_eq!(get_extension_group_state(&c, "Pair"), Some(ExtensionGroupState::Disabled));
}

#[test]
fn state_of_missing_group_is_none() {
    let c = setup(true, Some(true));
    assert_eq!(get_extension_group_state(&c, "nope"), None);
    assert!(!is_extension_group_enabled(&c, "nope"));
}

#[test]
fn enable_fully_enabled_group_writes_nothing() {
    let mut c = setup(true, Some(true));
    let before = c.writes();
    assert_eq!(enable_extension_group(&mut c, "Pair"), Ok(()));
    assert_eq!(c.writes(), before);
}

#[test]
fn enable_group_enables_members() {
    let mut c = setup(false, Some(true));
    let before = c.writes();
    assert_eq!(enable_extension_group(&mut c, "Pair"), Ok(()));
    assert_eq!(c.writes(), before + 1);
    assert!(is_extension_enabled(&c, "a"));
    assert_eq!(get_extension_group_state(&c, "Pair"), Some(ExtensionGroupState::Enabled));
}

#[test]
fn disable_group_disables_members() {
    let mut c = setup(true, Some(true));
    assert_eq!(disable_extension_group(&mut c, "pair"), Ok(()));
    assert!(!is_extension_enabled(&c, "a"));
    assert!(!is_extension_enabled(&c, "b"));
    let before = c.writes();
    assert_eq!(disable_extension_group(&mut c, "pair"), Ok(()));
    assert_eq!(c.writes(), before);
}

#[test]
fn enable_missing_group_is_an_error() {
    let mut c = setup(false, Some(false));
    let before = c.writes();
    assert_eq!(enable_extension_group(&mut c, "missing"), Err("Extension group 'missing' not found".to_string()));
    assert_eq!(disable_extension_group(&mut c, "missing"), Err("Extension group 'missing' not found".to_string()));
    assert_eq!(c.writes(), before);
    assert!(!is_extension_enabled(&c, "a"));
}

#[test]
fn set_group_enabled_by_key() {
    let mut c = setup(false, None);
    set_extension_group_enabled(&mut c, "pair", true);
    assert!(is_extension_enabled(&c, "a"));
    assert!(!is_extension_enabled(&c, "b"));
    let before = c.writes();
    set_extension_group_enabled(&mut c, "Pair", false);
    assert_eq!(c.writes(), before);
    assert!(is_extension_enabled(&c, "a"));
}

#[test]
fn group_by_name_normalizes() {
    let c = setup(true, Some(true));
    let g = get_extension_group_by_name(&c, " PAIR ").unwrap();
    assert_eq!(g.name, "Pair");
    assert_eq!(g.extension_keys, vec!["a".to_string(), "b".to_string()]);
}

#[test]
fn groups_list_and_remove() {
    let mut c = setup(true, Some(true));
    set_extension_group(&mut c, group("Other", &["a"]));
    assert_eq!(get_all_extension_groups(&c).len(), 2);
    let mut names = get_all_extension_group_names(&c);
    names.sort();
    assert_eq!(names, vec!["other".to_string(), "pair".to_string()]);
    remove_extension_group(&mut c, "pair");
    assert_eq!(get_all_extension_group_names(&c), vec!["other".to_string()]);
}

#[test]
fn malformed_group_is_skipped() {
    let mut c = Config::new(Vec::new());
    let mut good = KeyMap::new();
    good.insert("name".to_string(), JsonField::Str("Good".to_string()));
    good.insert("extension_keys".to_string(), JsonField::Strs(vec!["a".to_string()]));
    let mut bad = KeyMap::new();
    bad.insert("name".to_string(), JsonField::Str("Bad".to_string()));
    bad.insert("extension_keys".to_string(), JsonField::Other("[1]".to_string()));
    let mut obj = KeyMap::new();
    obj.insert("good".to_string(), StoredEntry::Object(good));
    obj.insert("bad".to_string(), StoredEntry::Object(bad));
    obj.insert("odd".to_string(), StoredEntry::Other("null".to_string()));
    c.set_param("extension_groups", StoredValue::Object(obj));
    assert_eq!(get_all_extension_group_names(&c), vec!["good".to_string()]);
}
