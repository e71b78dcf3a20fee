use termepub::dictionary::{lookup_word, Dictionary, Definition};
use termepub::state::JsonValue;

fn entry(word: &str, headword: Option<&str>, def: Option<&str>) -> (String, JsonValue) {
    let mut f = Vec::new();
    if let Some(h) = headword {
        f.push(("headword".to_string(), JsonValue::Str(h.into())));
    }
    if let Some(d) = def {
        f.push(("def".to_string(), JsonValue::Str(d.into())));
    }
    (word.to_string(), JsonValue::Object(f))
}

fn sample() -> Dictionary {
    Dictionary::from_entries(vec![
        entry("apple", Some("apple"), Some("n. a fruit")),
        entry("apply", None, Some("v. to put to use")),
        entry("co-op", Some("co-op"), Some("n. a cooperative")),
        ("broken".to_string(), JsonValue::Str("not an object".into())),
        entry("word", Some("Word"), Some("n. a unit of language")),
        entry("world", Some("world"), None),
        entry("ward", Some("ward"), Some("n. a division")),
        entry("worm", Some("worm"), Some("n. a creature")),
    ])
}

#[test]
fn lookup_is_deterministic() {
    let d = Some(sample());
    let r1 = lookup_word("zzzzzzzzz", Some(&d));
    let r2 = lookup_word("zzzzzzzzz", Some(&d));
    assert_eq!(r1, r2, "suggestions must be deterministic");
}

#[test]
fn exact_match_is_lower_cased() {
    let d = Some(sample());
    assert_eq!(lookup_word("WORD", Some(&d)), "Word\n\nfound: Word\nn. a unit of language");
    assert_eq!(lookup_word("apply", Some(&d)), "apply\n\nfound: apply\nv. to put to use");
    assert_eq!(lookup_word("World", Some(&d)), "world\n\nfound: world\n");
}

#[test]
fn punctuation_is_stripped_on_retry() {
    let d = Some(sample());
    assert_eq!(lookup_word("\"apple,\"", Some(&d)), "apple\n\nfound: apple\nn. a fruit");
    assert_eq!(lookup_word("co-op.", Some(&d)), "co-op\n\nfound: co-op\nn. a cooperative");
}

#[test]
fn suggestions_rank_by_score_then_word() {
    let d = Some(sample());
    assert_eq!(
        lookup_word("wor", Some(&d)),
        "Not found: wor\n\nDid you mean: Word, world, worm, ward, co-op?"
    );
    assert_eq!(
        lookup_word("qqqqq", Some(&d)),
        "Not found: qqqqq\n\nNo suggestions available."
    );
}

#[test]
fn loading_and_missing_dictionary_messages() {
    assert_eq!(
        lookup_word("x", None),
        "Dictionary is still loading \u{2014} try again in a moment."
    );
    assert_eq!(lookup_word("Hello", Some(&None)), "Dictionary not available: hello");
}

#[test]
fn malformed_entries_are_skipped_and_later_entries_win() {
    let d = sample();
    assert!(d.get("broken").is_none());
    assert_eq!(d.len(), 7);
    let d = Dictionary::from_entries(vec![
        entry("b", Some("first"), None),
        entry("a", None, None),
        entry("b", Some("second"), Some("x")),
    ]);
    assert_eq!(d.len(), 2);
    let b = d.get("b").unwrap();
    assert_eq!((b.headword.as_str(), b.definition.as_str()), ("second", "x"));
    let a = d.get("a").unwrap();
    assert_eq!((a.headword.as_str(), a.definition.as_str()), ("a", ""));
}

#[test]
fn insert_keeps_one_entry_per_word() {
    let mut d = Dictionary::new();
    d.insert("m".into(), Definition { headword: "m".into(), definition: "1".into() });
    d.insert("a".into(), Definition { headword: "a".into(), definition: "2".into() });
    d.insert("m".into(), Definition { headword: "M".into(), definition: "3".into() });
    assert_eq!(d.len(), 2);
    assert_eq!(d.get("m").unwrap().headword, "M");
}

#[test]
fn at_most_max_candidates_are_examined_in_all() {
    // Five thousand keys share the word's first letter and score nothing;
    // the one key that would score lies beyond the cap.
    let letters: Vec<char> = "dfghjklmnprstuvwxyz".chars().collect();
    let mut entries = Vec::new();
    'outer: for a in &letters {
        for b in &letters {
            for c in &letters {
                entries.push(entry(&format!("b{a}{b}{c}"), None, Some("x")));
                if entries.len() == 5_000 {
                    break 'outer;
                }
            }
        }
    }
    entries.push(entry("cqqq", None, Some("y")));
    let d = Dictionary::from_entries(entries);
    assert_eq!(lookup_word("bqqq", Some(&Some(d))), "Not found: bqqq\n\nNo suggestions available.");
    let d2 = Dictionary::from_entries(vec![entry("bxyz", None, Some("x")), entry("cqqq", None, Some("y"))]);
    assert_eq!(lookup_word("bqqq", Some(&Some(d2))), "Not found: bqqq\n\nDid you mean: cqqq?");
}
