use sha1::Digest;
use std::path::PathBuf;
use termepub::state::{config_dir_for, JsonValue};
use termepub::StateStore;

fn obj(members: Vec<(&str, JsonValue)>) -> JsonValue {
    JsonValue::Object(members.into_iter().map(|(k, v)| (k.to_string(), v)).collect())
}

fn field<'a>(store: &'a StateStore, key: &str, name: &str) -> Option<&'a JsonValue> {
    store
        .entries()
        .iter()
        .find(|(k, _)| k.as_str() == key)
        .and_then(|(_, f)| f.iter().find(|(n, _)| n.as_str() == name).map(|(_, v)| v))
}

#[test]
fn book_key_matches_sha1() {
    let key = StateStore::book_key("/tmp/test.epub");
    assert_eq!(key.len(), 40);
    let mut hasher = sha1::Sha1::new();
    hasher.update("/tmp/test.epub".as_bytes());
    let expected = format!("{:x}", hasher.finalize());
    assert_eq!(key, expected);
}

#[test]
fn book_key_of_empty_path() {
    assert_eq!(StateStore::book_key(""), "da39a3ee5e6b4b0d3255bfef95601890afd80709");
}

#[test]
fn empty_state_returns_defaults() {
    let store = StateStore::open("state.json".into(), None);
    assert_eq!(store.get_theme(), "dark");
    assert!(store.get_show_header());
    assert!(!store.get_justify_text());
    assert_eq!(store.get_last_book_path(), None);
    let st = store.get_state_for_book("abc");
    assert_eq!((st.chapter_index, st.page_index), (0, 0));
    assert!(store.get_bookmark("abc").is_none());
    assert_eq!(store.path(), "state.json");
}

#[test]
fn config_dir_is_termepub_subdir_of_home_config() {
    assert_eq!(
        PathBuf::from(config_dir_for("/home/testuser")),
        PathBuf::from("/home/testuser/.config/termepub")
    );
    assert_eq!(
        PathBuf::from(config_dir_for("/home/testuser")),
        PathBuf::from("/home/testuser")
            .join(".config")
            .join("termepub")
    );
    assert_eq!(config_dir_for("/"), "/.config/termepub");
    assert_eq!(config_dir_for(""), ".config/termepub");
}

#[test]
fn non_object_roots_and_entries_are_dropped() {
    let store = StateStore::open("s".into(), Some(JsonValue::Array(vec![])));
    assert!(store.entries().is_empty());
    let root = obj(vec![
        ("keep", obj(vec![("chapter_index", JsonValue::UInt(3))])),
        ("drop", JsonValue::Str("x".into())),
        ("_global", obj(vec![("theme", JsonValue::Str("light".into()))])),
    ]);
    let store = StateStore::open("s".into(), Some(root));
    let keys: Vec<&str> = store.entries().iter().map(|(k, _)| k.as_str()).collect();
    assert_eq!(keys, vec!["keep", "_global"]);
    assert_eq!(store.get_theme(), "light");
    assert_eq!(store.get_state_for_book("keep").chapter_index, 3);
}

#[test]
fn invalid_indices_read_as_zero() {
    let root = obj(vec![(
        "k",
        obj(vec![
            ("chapter_index", JsonValue::NegInt(-4)),
            ("page_index", JsonValue::Str("7".into())),
        ]),
    )]);
    let store = StateStore::open("s".into(), Some(root));
    let st = store.get_state_for_book("k");
    assert_eq!((st.chapter_index, st.page_index), (0, 0));
}

#[test]
fn position_round_trip_keeps_unknown_fields_and_bookmark() {
    let root = obj(vec![(
        "k",
        obj(vec![
            ("note", JsonValue::Str("hello".into())),
            ("bookmark", JsonValue::Bool(true)),
            ("bookmark_chapter_index", JsonValue::UInt(2)),
            ("bookmark_page_index", JsonValue::UInt(5)),
        ]),
    )]);
    let mut store = StateStore::open("s".into(), Some(root));
    store.set_state_for_book("k", 7, 9);
    let st = store.get_state_for_book("k");
    assert_eq!((st.chapter_index, st.page_index), (7, 9));
    let bm = store.get_bookmark("k").unwrap();
    assert_eq!((bm.chapter_index, bm.page_index), (2, 5));
    assert!(matches!(field(&store, "k", "note"), Some(JsonValue::Str(s)) if s == "hello"));
}

#[test]
fn bookmark_round_trip_leaves_position() {
    let mut store = StateStore::open("s".into(), None);
    store.set_state_for_book("k", 1, 2);
    store.set_bookmark("k", 4, 8).unwrap();
    let bm = store.get_bookmark("k").unwrap();
    assert_eq!((bm.chapter_index, bm.page_index), (4, 8));
    let st = store.get_state_for_book("k");
    assert_eq!((st.chapter_index, st.page_index), (1, 2));
    assert!(store.get_bookmark("other").is_none());
}

#[test]
fn legacy_bookmarks_are_migrated_on_open() {
    let root = obj(vec![
        (
            "old",
            obj(vec![
                ("bookmark", JsonValue::Bool(true)),
                ("chapter_index", JsonValue::UInt(3)),
                ("page_index", JsonValue::UInt(11)),
            ]),
        ),
        (
            "_global",
            obj(vec![("bookmark", JsonValue::Bool(true))]),
        ),
    ]);
    let mut store = StateStore::open("s".into(), Some(root));
    assert!(matches!(field(&store, "old", "bookmark_chapter_index"), Some(JsonValue::UInt(3))));
    assert!(matches!(field(&store, "old", "bookmark_page_index"), Some(JsonValue::UInt(11))));
    assert!(field(&store, "_global", "bookmark_chapter_index").is_none());
    // Reading on no longer moves the bookmark.
    store.set_state_for_book("old", 5, 0);
    let bm = store.get_bookmark("old").unwrap();
    assert_eq!((bm.chapter_index, bm.page_index), (3, 11));
}

#[test]
fn unmigrated_bookmark_falls_back_to_position_fields() {
    // A dedicated chapter field without a page field is not migrated; the
    // page then comes from the shared field.
    let root = obj(vec![(
        "k",
        obj(vec![
            ("bookmark", JsonValue::Bool(true)),
            ("bookmark_chapter_index", JsonValue::UInt(1)),
            ("page_index", JsonValue::UInt(6)),
        ]),
    )]);
    let store = StateStore::open("s".into(), Some(root));
    let bm = store.get_bookmark("k").unwrap();
    assert_eq!((bm.chapter_index, bm.page_index), (1, 6));
}

#[test]
fn global_settings_round_trip() {
    let mut store = StateStore::open("s".into(), None);
    store.set_global_str("theme", "solarized-dark");
    store.set_global_bool("show_header", false);
    store.set_global_bool("justify_text", true);
    store.set_global_str("last_book_path", "/books/a.epub");
    assert_eq!(store.get_theme(), "solarized-dark");
    assert!(!store.get_show_header());
    assert!(store.get_justify_text());
    assert_eq!(store.get_last_book_path().as_deref(), Some("/books/a.epub"));
    store.set_global_str("theme", "light");
    assert_eq!(store.get_theme(), "light");
    assert_eq!(store.entries().len(), 1, "all settings live in one _global entry");
}

#[test]
fn bookmark_survives_later_position_and_setting_writes() {
    let root = obj(vec![("K", obj(vec![("bookmark", JsonValue::Bool(true)), ("chapter_index", JsonValue::UInt(3)), ("page_index", JsonValue::UInt(7))]))]);
    let mut store = StateStore::open("s".into(), Some(root));
    let bm = store.get_bookmark("K").unwrap();
    assert_eq!((bm.chapter_index, bm.page_index), (3, 7));
    store.set_state_for_book("K", 0, 0);
    let bm = store.get_bookmark("K").unwrap();
    assert_eq!((bm.chapter_index, bm.page_index), (3, 7));
    let st = store.get_state_for_book("K");
    assert_eq!((st.chapter_index, st.page_index), (0, 0));

    assert!(store.set_bookmark("B", 4, 2).is_ok());
    store.set_state_for_book("B", 9, 9);
    store.set_state_for_book("other", 1, 1);
    store.set_global_str("theme", "light");
    store.set_global_bool("show_header", false);
    let bm = store.get_bookmark("B").unwrap();
    assert_eq!((bm.chapter_index, bm.page_index), (4, 2));
    assert!(store.get_bookmark("other").is_none());
}
