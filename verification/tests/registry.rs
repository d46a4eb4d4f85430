use indexmap::IndexMap;
use jot_core::error::Error;
use jot_core::note::NoteId;
use jot_core::registry::{
    registry_from_read, retained_entry_keys, retained_from_text, retained_keys, Entry, LoadedEntry, Registry, RegistryRead,
};

const A: &str = "01a03d20-a54c-7977-a1f4-1a88b38855dd";
const B: &str = "01a03d30-2b6b-7c22-9def-abcdef123456";

fn uuid(s: &str) -> u128 {
    NoteId::parse(s).unwrap().as_u128()
}

/// 2026-08-30T00:00:00Z and an hour later, in nanoseconds.
const T0: i128 = 1_788_048_000_000_000_000;
const T1: i128 = T0 + 3_600_000_000_000;

fn loaded(id: &str, path: &str, last_opened: &str, exists: bool) -> LoadedEntry {
    LoadedEntry {
        id: uuid(id),
        path: path.to_owned(),
        name: String::from("V"),
        last_opened: last_opened.to_owned(),
        path_exists: exists,
    }
}

// ---------------------------------------------------------------- keying and mutation

#[test]
fn upsert_by_id_replaces_not_duplicates() {
    let mut registry = Registry::new();
    registry.upsert(Entry::new(uuid(A), String::from("/old"), String::from("V"), T0, true));
    assert_eq!(registry.len(), 1);

    registry.upsert(Entry::new(uuid(A), String::from("/new"), String::from("V"), T1, true));
    assert_eq!(registry.len(), 1, "same id must replace, not add");
    assert_eq!(registry.get(uuid(A)).unwrap().path(), "/new");
}

#[test]
fn remove_leaves_a_dangling_current_untouched() {
    let mut registry = Registry::new();
    registry.upsert(Entry::new(uuid(A), String::from("/v"), String::from("V"), T0, true));
    registry.set_current(uuid(A));

    registry.remove(uuid(A));
    assert!(registry.get(uuid(A)).is_none());
    assert_eq!(registry.current(), Some(uuid(A)), "current is a dangling reference now, not silently cleared");
}

#[test]
fn entries_come_back_in_registration_order_and_a_replacement_keeps_its_place() {
    let mut registry = Registry::new();
    registry.upsert(Entry::new(uuid(B), String::from("/b"), String::from("B"), T0, true));
    registry.upsert(Entry::new(uuid(A), String::from("/a"), String::from("A"), T0, true));
    registry.upsert(Entry::new(uuid(B), String::from("/b2"), String::from("B"), T1, true));
    let ids: Vec<u128> = registry.entries().iter().map(|e| e.id()).collect();
    assert_eq!(ids, vec![uuid(B), uuid(A)]);
    assert_eq!(registry.entries()[0].last_opened(), T1);
    assert!(registry.contains(uuid(A)) && !registry.is_empty());
    registry.clear_current();
    assert_eq!(registry.current(), None);
}

// ---------------------------------------------------------------- staleness

#[test]
fn stale_entry_is_retained_and_reported() {
    let vanished = String::from("/nonexistent-jot-dir/gone");
    let raws = vec![LoadedEntry {
        id: uuid(B),
        path: vanished.clone(),
        name: String::from("Gone"),
        last_opened: String::from("2026-08-30T00:00:00Z"),
        path_exists: false,
    }];
    let loaded = Registry::from_loaded(None, raws, toml::map::Map::new(), IndexMap::new()).unwrap();
    assert_eq!(loaded.len(), 1, "stale entries are retained, not dropped");
    let entry = loaded.get(uuid(B)).unwrap();
    assert!(entry.is_stale());
    assert_eq!(entry.path(), vanished.as_str());

    let stale = loaded.stale_entries();
    assert_eq!(stale.len(), 1);
    assert_eq!(stale[0].id(), uuid(B));
}

#[test]
fn existing_path_is_not_stale() {
    let entry = Entry::new(uuid(A), String::from("/v"), String::from("V"), T0, true);
    assert!(!entry.is_stale());
}

#[test]
fn set_path_recomputes_staleness() {
    let mut entry = Entry::new(uuid(A), String::from("/nope"), String::from("V"), T0, false);
    assert!(entry.is_stale());

    entry.set_path(String::from("/v"), true);
    assert!(!entry.is_stale());
    assert_eq!(entry.path(), "/v");
    entry.set_name(String::from("W"));
    entry.touch(T1);
    assert_eq!((entry.name(), entry.last_opened()), ("W", T1));
}

// ---------------------------------------------------------------- loading

#[test]
fn a_loaded_file_keeps_its_order_and_its_current() {
    let raws = vec![
        loaded(A, "/a", "2026-08-30T00:00:00Z", true),
        loaded(B, "/b", "2026-08-30T01:00:00+00:00", false),
    ];
    let registry = Registry::from_loaded(Some(uuid(B)), raws, toml::map::Map::new(), IndexMap::new()).unwrap();
    assert_eq!(registry.current(), Some(uuid(B)));
    assert_eq!(registry.len(), 2);
    assert_eq!(registry.get(uuid(A)).unwrap().last_opened(), T0);
    assert_eq!(registry.get(uuid(B)).unwrap().last_opened(), T1);
    assert!(registry.get(uuid(B)).unwrap().is_stale());
    assert!(registry.recovered().is_none());
}

#[test]
fn a_timestamp_with_an_offset_is_read_as_utc() {
    let raws = vec![loaded(A, "/a", "2026-08-30T09:00:00+09:00", true)];
    let registry = Registry::from_loaded(None, raws, toml::map::Map::new(), IndexMap::new()).unwrap();
    assert_eq!(registry.get(uuid(A)).unwrap().last_opened(), T0);
}

#[test]
fn semantically_invalid_registry_is_corrupt_naming_the_workspace() {
    let raws = vec![
        loaded(A, "/a", "2026-08-30T00:00:00Z", true),
        loaded(B, "C:\\notes", "not a timestamp", true),
    ];
    let Err(message) = Registry::from_loaded(None, raws, toml::map::Map::new(), IndexMap::new()) else {
        panic!("a bad last_opened makes the file corrupt");
    };
    assert!(message.starts_with(&format!("workspace `{B}`: last_opened `not a timestamp` is not RFC 3339: ")), "{message}");

    let recovered = Registry::recovered_empty(Error::RegistryCorrupt { path: String::from("w.toml"), message });
    assert!(recovered.is_empty());
    assert!(matches!(recovered.recovered(), Some(Error::RegistryCorrupt { .. })));
}

#[test]
fn removing_an_entry_drops_the_unknown_keys_that_belonged_to_it() {
    let mut table = toml::map::Map::new();
    table.insert(String::from("color"), toml::Value::String(String::from("blue")));
    let mut per_entry = IndexMap::new();
    per_entry.insert(uuid(A), table);
    let raws = vec![loaded(A, "/a", "2026-08-30T00:00:00Z", true)];
    let mut registry = Registry::from_loaded(None, raws, toml::map::Map::new(), per_entry).unwrap();
    assert!(registry.unknown_for(uuid(A)).is_some());

    registry.remove(uuid(A));
    assert!(registry.unknown_for(uuid(A)).is_none());
    assert!(registry.unknown().is_empty());
}

#[test]
fn the_top_level_keys_a_newer_build_wrote_are_carried_unchanged() {
    let mut top = toml::map::Map::new();
    top.insert(String::from("theme"), toml::Value::String(String::from("dark")));
    let mut registry =
        Registry::from_loaded(None, Vec::new(), top.clone(), IndexMap::new()).unwrap();
    registry.upsert(Entry::new(uuid(A), String::from("/a"), String::from("A"), T0, true));
    registry.set_current(uuid(A));
    assert_eq!(registry.unknown(), &top);
    assert!(Registry::new().unknown().is_empty());
}

// ---------------------------------------------------------------- what a newer build wrote

#[test]
fn the_keys_outside_the_known_list_are_kept_in_order() {
    let mut table = toml::map::Map::new();
    table.insert(String::from("id"), toml::Value::String(String::from(A)));
    table.insert(String::from("color"), toml::Value::String(String::from("blue")));
    table.insert(String::from("path"), toml::Value::String(String::from("/a")));
    table.insert(String::from("pinned"), toml::Value::Boolean(true));
    let kept = retained_keys(&table, &vec!["id", "path", "name", "last_opened"]);
    let keys: Vec<&str> = kept.keys().map(|k| k.as_str()).collect();
    assert_eq!(keys, vec!["color", "pinned"]);
    assert_eq!(kept.get("pinned"), Some(&toml::Value::Boolean(true)));
    assert!(retained_keys(&table, &vec!["id", "color", "path", "pinned"]).is_empty());
    assert_eq!(retained_keys(&table, &Vec::new()).len(), 4);
}

#[test]
fn a_registry_file_carries_its_unknown_keys_by_table() {
    let text = format!(
        "current = \"{A}\"\ntheme = \"dark\"\n\n[[workspace]]\nid = \"{A}\"\npath = \"/a\"\nname = \"A\"\nlast_opened = \"2026-08-30T00:00:00Z\"\ncolor = \"blue\"\n\n[[workspace]]\nid = \"{B}\"\npath = \"/b\"\nname = \"B\"\nlast_opened = \"2026-08-30T00:00:00Z\"\n"
    );
    let (top, per_entry) = retained_from_text(&text);
    let keys: Vec<&str> = top.keys().map(|k| k.as_str()).collect();
    assert_eq!(keys, vec!["theme"]);
    assert_eq!(per_entry.len(), 1, "a table with only known keys carries nothing");
    let color = per_entry.get(&uuid(A)).unwrap();
    assert_eq!(color.get("color"), Some(&toml::Value::String(String::from("blue"))));
    assert_eq!(color.len(), 1);
}

#[test]
fn text_that_is_not_toml_carries_nothing() {
    let (top, per_entry) = retained_from_text("this = is = not toml");
    assert!(top.is_empty());
    assert!(per_entry.is_empty());
}

#[test]
fn a_workspace_item_without_a_readable_id_is_skipped() {
    let text = "[[workspace]]\nid = \"not-a-uuid\"\ncolor = \"red\"\n\n[[workspace]]\npath = \"/x\"\ncolor = \"green\"\n";
    let table: toml::Table = toml::from_str(text).unwrap();
    assert!(retained_entry_keys(&table).is_empty());

    let mut odd = toml::map::Map::new();
    odd.insert(String::from("workspace"), toml::Value::Array(vec![toml::Value::Integer(3)]));
    assert!(retained_entry_keys(&odd).is_empty());
}

#[test]
fn a_repeated_workspace_id_keeps_its_first_place_and_its_last_keys() {
    let text = format!(
        "[[workspace]]\nid = \"{A}\"\ncolor = \"red\"\n\n[[workspace]]\nid = \"{B}\"\ncolor = \"green\"\n\n[[workspace]]\nid = \"{A}\"\ncolor = \"blue\"\n"
    );
    let table: toml::Table = toml::from_str(&text).unwrap();
    let per_entry = retained_entry_keys(&table);
    let ids: Vec<u128> = per_entry.keys().copied().collect();
    assert_eq!(ids, vec![uuid(A), uuid(B)]);
    assert_eq!(per_entry.get(&uuid(A)).unwrap().get("color"), Some(&toml::Value::String(String::from("blue"))));
}

#[test]
fn a_read_that_finds_no_file_is_an_empty_registry() {
    let r = registry_from_read("w.toml", RegistryRead::Missing);
    assert!(r.is_empty() && r.current().is_none() && r.recovered().is_none());
}

#[test]
fn an_unreadable_or_malformed_file_recovers_naming_the_path() {
    let r = registry_from_read("w.toml", RegistryRead::Unreadable(String::from("denied")));
    assert!(r.is_empty());
    assert!(matches!(r.recovered(), Some(Error::RegistryUnreadable { path, message }) if path == "w.toml" && message == "denied"));
    let r = registry_from_read("w.toml", RegistryRead::Malformed(String::from("bad toml")));
    assert!(matches!(r.recovered(), Some(Error::RegistryCorrupt { path, message }) if path == "w.toml" && message == "bad toml"));
}

#[test]
fn a_bad_timestamp_in_a_parsed_file_recovers_as_corrupt() {
    let raws = vec![loaded(A, "/a", "yesterday", true)];
    let r = registry_from_read("w.toml", RegistryRead::Parsed { current: None, raws, text: String::new() });
    assert!(r.is_empty());
    assert!(matches!(r.recovered(), Some(Error::RegistryCorrupt { path, .. }) if path == "w.toml"));
}

#[test]
fn a_parsed_file_keeps_each_workspace_its_own_unknown_keys() {
    let text = format!(
        "current = \"{A}\"\ntheme = \"dark\"\n\n[[workspace]]\nid = \"{A}\"\npath = \"/a\"\nname = \"A\"\nlast_opened = \"2026-08-30T00:00:00Z\"\ncolor = \"blue\"\n\n[[workspace]]\nid = \"{B}\"\npath = \"/b\"\nname = \"B\"\nlast_opened = \"2026-08-30T00:00:00Z\"\npinned = true\n"
    );
    let raws = vec![loaded(A, "/a", "2026-08-30T00:00:00Z", true), loaded(B, "/b", "2026-08-30T00:00:00Z", true)];
    let r = registry_from_read("w.toml", RegistryRead::Parsed { current: Some(uuid(A)), raws, text });
    assert_eq!(r.len(), 2);
    assert_eq!(r.current(), Some(uuid(A)));
    assert_eq!(r.unknown().get("theme"), Some(&toml::Value::String(String::from("dark"))));
    let a = r.unknown_for(uuid(A)).unwrap();
    assert_eq!(a.get("color"), Some(&toml::Value::String(String::from("blue"))));
    assert_eq!(a.len(), 1);
    let b = r.unknown_for(uuid(B)).unwrap();
    assert_eq!(b.get("pinned"), Some(&toml::Value::Boolean(true)));
    assert_eq!(b.len(), 1);
}
