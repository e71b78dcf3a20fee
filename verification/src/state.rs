//! Reading state: positions, bookmarks and global settings, kept in the
//! shape of `state.json`.
//!
//! The state file is a JSON object.  Each book has an object entry under its
//! key (the SHA-1 of its path); global settings live in the `_global`
//! entry.  Unknown fields and entries are carried along unchanged, so a file
//! written by another version of the reader keeps what this one does not
//! read.  Reading and writing the file is the caller's part; this module
//! takes the parsed document and gives back the one to write.

use vstd::prelude::*;
use vstd::string::StringSliceAdditionalSpecFns;
use crate::text::{str_chars, string_from_chars, chars_eq, push_str};
use sha1::Digest;

verus! {

/// A JSON value.
#[derive(Debug)]
pub enum JsonValue {
    Null,
    Bool(bool),
    /// A number that is a non-negative integer.
    UInt(u64),
    /// A number that is a negative integer.
    NegInt(i64),
    /// Any other number, as its JSON text.
    Float(String),
    Str(String),
    Array(Vec<JsonValue>),
    /// An object's members in order; keys are unique, as in any JSON object.
    Object(Vec<(String, JsonValue)>),
}

/// Represents a single book's saved reading position.
#[derive(Debug, Clone)]
pub struct BookState {
    /// Zero-based chapter index, clamped to zero on load if invalid.
    pub chapter_index: usize,
    /// Zero-based page index, clamped to zero on load if invalid.
    pub page_index: usize,
}

impl Default for BookState {
    fn default() -> (s: Self)
        ensures
            s.chapter_index == 0 && s.page_index == 0,
    {
        BookState { chapter_index: 0, page_index: 0 }
    }
}

// ---------------------------------------------------------------------------
// Objects as keyed sequences
// ---------------------------------------------------------------------------

/// The keys of a keyed sequence.
pub open spec fn keys_of<V>(m: Seq<(Seq<char>, V)>) -> Seq<Seq<char>> {
    m.map_values(|e: (Seq<char>, V)| e.0)
}

/// The keys of object members, as character sequences.
pub open spec fn str_keys<V>(m: Seq<(String, V)>) -> Seq<Seq<char>> {
    m.map_values(|e: (String, V)| e.0@)
}

/// Index of the first occurrence of `k` in `keys`, or -1.
pub open spec fn key_index(keys: Seq<Seq<char>>, k: Seq<char>) -> int
    decreases keys.len(),
{
    if keys.len() == 0 {
        -1
    } else {
        let i = key_index(keys.drop_last(), k);
        if i >= 0 {
            i
        } else if keys.last() == k {
            keys.len() - 1
        } else {
            -1
        }
    }
}

/// The value under the key `k`, if any.
pub open spec fn key_get<V>(m: Seq<(Seq<char>, V)>, k: Seq<char>) -> Option<V> {
    let i = key_index(keys_of(m), k);
    if i >= 0 {
        Some(m[i].1)
    } else {
        None
    }
}

/// `m` with the value under `k` replaced by `v`, or with `(k, v)` added at
/// the end when `k` is not a key.
pub open spec fn key_put<V>(m: Seq<(Seq<char>, V)>, k: Seq<char>, v: V) -> Seq<(Seq<char>, V)> {
    let i = key_index(keys_of(m), k);
    if i >= 0 {
        m.update(i, (k, v))
    } else {
        m.push((k, v))
    }
}

/// `key_index` finds the first occurrence.
pub proof fn lemma_key_index(keys: Seq<Seq<char>>, k: Seq<char>)
    ensures
        -1 <= key_index(keys, k) < keys.len(),
        key_index(keys, k) >= 0 ==> keys[key_index(keys, k)] == k,
        forall|j: int| 0 <= j < key_index(keys, k) ==> keys[j] != k,
        key_index(keys, k) < 0 ==> forall|j: int| 0 <= j < keys.len() ==> keys[j] != k,
    decreases keys.len(),
{
    if keys.len() > 0 {
        let init = keys.drop_last();
        lemma_key_index(init, k);
        assert forall|j: int| 0 <= j < keys.len() - 1 implies keys[j] == init[j] by {}
    }
}

/// The first index holding `k`, characterized.
proof fn lemma_key_index_is(keys: Seq<Seq<char>>, k: Seq<char>, i: int)
    requires
        0 <= i < keys.len(),
        keys[i] == k,
        forall|j: int| 0 <= j < i ==> keys[j] != k,
    ensures
        key_index(keys, k) == i,
{
    lemma_key_index(keys, k);
}

/// No index holds `k`.
proof fn lemma_key_index_none(keys: Seq<Seq<char>>, k: Seq<char>)
    requires
        forall|j: int| 0 <= j < keys.len() ==> keys[j] != k,
    ensures
        key_index(keys, k) == -1,
{
    lemma_key_index(keys, k);
}

/// A read after a write: the written key gives the written value, every
/// other key what it gave before.
pub proof fn lemma_put_get<V>(m: Seq<(Seq<char>, V)>, k: Seq<char>, v: V, k2: Seq<char>)
    ensures
        key_get(key_put(m, k, v), k2) == if k2 == k { Some(v) } else { key_get(m, k2) },
{
    let ks = keys_of(m);
    let m2 = key_put(m, k, v);
    let ks2 = keys_of(m2);
    let i = key_index(ks, k);
    lemma_key_index(ks, k);
    lemma_key_index(ks, k2);
    if i >= 0 {
        assert(ks2 =~= ks.update(i, k));
        assert(ks2 =~= ks);
    } else {
        assert(ks2 =~= ks.push(k));
    }
    lemma_key_index(ks2, k2);
    let j = key_index(ks, k2);
    if k2 == k {
        if i >= 0 {
            lemma_key_index_is(ks2, k, i);
        } else {
            lemma_key_index_is(ks2, k, ks.len() as int);
        }
    } else if j >= 0 {
        lemma_key_index_is(ks2, k2, j);
        assert(m2[j] == m[j]);
    } else {
        lemma_key_index_none(ks2, k2);
    }
}

/// The index of the first member with key `k`.
pub fn find_key<V>(m: &Vec<(String, V)>, k: &str) -> (r: Option<usize>)
    ensures
        match r {
            Some(i) => key_index(str_keys(m@), k@) == i && i < m@.len(),
            None => key_index(str_keys(m@), k@) == -1,
        },
{
    let kc = str_chars(k);
    let ghost ks = str_keys(m@);
    let mut i: usize = 0;
    while i < m.len()
        invariant
            i <= m@.len(),
            kc@ == k@,
            ks == str_keys(m@),
            forall|j: int| 0 <= j < i ==> ks[j] != k@,
        decreases m@.len() - i,
    {
        let c = str_chars(m[i].0.as_str());
        if chars_eq(&c, &kc) {
            proof { lemma_key_index_is(ks, k@, i as int); }
            return Some(i);
        }
        i += 1;
    }
    proof { lemma_key_index_none(ks, k@); }
    None
}

// ---------------------------------------------------------------------------
// The state document
// ---------------------------------------------------------------------------

/// An object's members, keys as character sequences.
pub type FieldsV = Seq<(Seq<char>, JsonValue)>;

/// The state document: each entry's key and the members of its object.
pub type RootV = Seq<(Seq<char>, FieldsV)>;

pub open spec fn fields_view(f: Seq<(String, JsonValue)>) -> FieldsV {
    f.map_values(|e: (String, JsonValue)| (e.0@, e.1))
}

pub open spec fn root_view(d: Seq<(String, Vec<(String, JsonValue)>)>) -> RootV {
    d.map_values(|e: (String, Vec<(String, JsonValue)>)| (e.0@, fields_view(e.1@)))
}

proof fn lemma_fields_keys(f: Seq<(String, JsonValue)>)
    ensures
        keys_of(fields_view(f)) == str_keys(f),
{
    assert(keys_of(fields_view(f)) =~= str_keys(f));
}

proof fn lemma_root_keys(d: Seq<(String, Vec<(String, JsonValue)>)>)
    ensures
        keys_of(root_view(d)) == str_keys(d),
{
    assert(keys_of(root_view(d)) =~= str_keys(d));
}

/// `as_u64` of a JSON value that may be absent.
pub open spec fn json_u64(v: Option<JsonValue>) -> Option<u64> {
    match v {
        Some(JsonValue::UInt(n)) => Some(n),
        _ => None,
    }
}

/// `as_bool` of a JSON value that may be absent.
pub open spec fn json_bool(v: Option<JsonValue>) -> Option<bool> {
    match v {
        Some(JsonValue::Bool(b)) => Some(b),
        _ => None,
    }
}

/// `as_str` of a JSON value that may be absent.
pub open spec fn json_str(v: Option<JsonValue>) -> Option<Seq<char>> {
    match v {
        Some(JsonValue::Str(s)) => Some(s@),
        _ => None,
    }
}

/// An index field read as a `usize`, zero when absent or not a
/// non-negative integer.
pub open spec fn index_or_zero(v: Option<JsonValue>) -> usize {
    match json_u64(v) {
        Some(n) => n as usize,
        None => 0,
    }
}

/// The first of two optional values that is present.
pub open spec fn or_else<T>(a: Option<T>, b: Option<T>) -> Option<T> {
    match a {
        Some(x) => Some(x),
        None => b,
    }
}

/// The reading position stored for `key` (zeros when there is none).
pub open spec fn position_of(r: RootV, key: Seq<char>) -> (usize, usize) {
    match key_get(r, key) {
        Some(f) => (index_or_zero(key_get(f, "chapter_index"@)), index_or_zero(key_get(f, "page_index"@))),
        None => (0, 0),
    }
}

/// The bookmark stored for `key`: present when the entry's `bookmark` is
/// `true`; its position is read from the dedicated fields, or from the
/// reading-position fields for an entry that has no dedicated field.
pub open spec fn bookmark_of(r: RootV, key: Seq<char>) -> Option<(usize, usize)> {
    match key_get(r, key) {
        Some(f) => if json_bool(key_get(f, "bookmark"@)) == Some(true) {
            Some((
                index_or_zero(or_else(key_get(f, "bookmark_chapter_index"@), key_get(f, "chapter_index"@))),
                index_or_zero(or_else(key_get(f, "bookmark_page_index"@), key_get(f, "page_index"@))),
            ))
        } else {
            None
        },
        None => None,
    }
}

/// The global setting `key`, if there is one.
pub open spec fn global_of(r: RootV, key: Seq<char>) -> Option<JsonValue> {
    match key_get(r, "_global"@) {
        Some(f) => key_get(f, key),
        None => None,
    }
}

/// The global string setting `key`.
pub open spec fn global_str_of(r: RootV, key: Seq<char>) -> Option<Seq<char>> {
    json_str(global_of(r, key))
}

/// The global boolean setting `key`, or `default`.
pub open spec fn global_bool_of(r: RootV, key: Seq<char>, default: bool) -> bool {
    match json_bool(global_of(r, key)) {
        Some(b) => b,
        None => default,
    }
}

/// The entry `key` with the member `field` set to `v` (a new, empty entry
/// when there was none).
pub open spec fn with_field(r: RootV, key: Seq<char>, field: Seq<char>, v: JsonValue) -> RootV {
    let f = match key_get(r, key) {
        Some(f) => f,
        None => Seq::<(Seq<char>, JsonValue)>::empty(),
    };
    key_put(r, key, key_put(f, field, v))
}

/// The document after saving the reading position of `key`.
pub open spec fn with_position(r: RootV, key: Seq<char>, chapter: usize, page: usize) -> RootV {
    let r1 = with_field(r, key, "chapter_index"@, JsonValue::UInt(chapter as u64));
    with_field(r1, key, "page_index"@, JsonValue::UInt(page as u64))
}

/// The document after setting the bookmark of `key`.
pub open spec fn with_bookmark(r: RootV, key: Seq<char>, chapter: usize, page: usize) -> RootV {
    let r1 = with_field(r, key, "bookmark_chapter_index"@, JsonValue::UInt(chapter as u64));
    let r2 = with_field(r1, key, "bookmark_page_index"@, JsonValue::UInt(page as u64));
    with_field(r2, key, "bookmark"@, JsonValue::Bool(true))
}

/// The object-valued members of a document root, in order.
pub open spec fn object_entries(m: Seq<(String, JsonValue)>) -> RootV
    decreases m.len(),
{
    if m.len() == 0 {
        seq![]
    } else {
        let prev = object_entries(m.drop_last());
        match m.last().1 {
            JsonValue::Object(f) => prev.push((m.last().0@, fields_view(f@))),
            _ => prev,
        }
    }
}

/// The document read from a parsed state file: the object-valued entries
/// of an object root, nothing for any other root or for no file.
pub open spec fn loaded_entries(root: Option<JsonValue>) -> RootV {
    match root {
        Some(JsonValue::Object(m)) => object_entries(m@),
        _ => seq![],
    }
}

/// One entry after bookmark migration: a bookmarked book entry without a
/// dedicated bookmark chapter field gets both dedicated fields, copied from
/// its reading position.
pub open spec fn migrated_entry(key: Seq<char>, f: FieldsV) -> FieldsV {
    if key != "_global"@ && json_bool(key_get(f, "bookmark"@)) == Some(true)
        && key_index(keys_of(f), "bookmark_chapter_index"@) < 0 {
        let c = match json_u64(key_get(f, "chapter_index"@)) { Some(n) => n, None => 0 };
        let p = match json_u64(key_get(f, "page_index"@)) { Some(n) => n, None => 0 };
        key_put(key_put(f, "bookmark_chapter_index"@, JsonValue::UInt(c)), "bookmark_page_index"@, JsonValue::UInt(p))
    } else {
        f
    }
}

/// The document after bookmark migration.
pub open spec fn migrated(r: RootV) -> RootV {
    r.map_values(|e: (Seq<char>, FieldsV)| (e.0, migrated_entry(e.0, e.1)))
}

/// An index field's value as a `usize`: zero when absent or not a
/// non-negative integer.
fn index_value(v: Option<&JsonValue>) -> (n: usize)
    ensures
        n == index_or_zero(match v { Some(x) => Some(*x), None => None::<JsonValue> }),
{
    match v {
        Some(JsonValue::UInt(n)) => *n as usize,
        _ => 0,
    }
}

// ---------------------------------------------------------------------------
// Laws of the state document
// ---------------------------------------------------------------------------

/// Setting a member of one entry: that entry gets the member, every other
/// entry is unchanged.
pub proof fn lemma_with_field(r: RootV, key: Seq<char>, field: Seq<char>, v: JsonValue, key2: Seq<char>)
    ensures
        key_get(with_field(r, key, field, v), key2) == if key2 == key {
            Some(key_put(
                match key_get(r, key) { Some(f) => f, None => Seq::<(Seq<char>, JsonValue)>::empty() },
                field,
                v,
            ))
        } else {
            key_get(r, key2)
        },
{
    let f = match key_get(r, key) { Some(f) => f, None => Seq::<(Seq<char>, JsonValue)>::empty() };
    lemma_put_get(r, key, key_put(f, field, v), key2);
}

/// The names of the fields this module reads are distinct.
proof fn lemma_field_names()
    ensures
        "chapter_index"@ != "page_index"@,
        "chapter_index"@ != "bookmark"@,
        "chapter_index"@ != "bookmark_chapter_index"@,
        "chapter_index"@ != "bookmark_page_index"@,
        "page_index"@ != "bookmark"@,
        "page_index"@ != "bookmark_chapter_index"@,
        "page_index"@ != "bookmark_page_index"@,
        "bookmark"@ != "bookmark_chapter_index"@,
        "bookmark"@ != "bookmark_page_index"@,
        "bookmark_chapter_index"@ != "bookmark_page_index"@,
{
    reveal_strlit("chapter_index");
    reveal_strlit("page_index");
    reveal_strlit("bookmark");
    reveal_strlit("bookmark_chapter_index");
    reveal_strlit("bookmark_page_index");
    assert("chapter_index"@[0] != "page_index"@[0]);
    assert("chapter_index"@[0] != "bookmark"@[0]);
    assert("page_index"@[0] != "bookmark"@[0]);
    assert("bookmark"@.len() != "bookmark_chapter_index"@.len());
    assert("bookmark"@.len() != "bookmark_page_index"@.len());
    assert("bookmark_chapter_index"@.len() != "bookmark_page_index"@.len());
}

/// Saving a reading position and reading it back gives the saved position.
pub proof fn lemma_position_round_trip(r: RootV, key: Seq<char>, chapter: usize, page: usize)
    ensures
        position_of(with_position(r, key, chapter, page), key) == (chapter, page),
{
    let r1 = with_field(r, key, "chapter_index"@, JsonValue::UInt(chapter as u64));
    let f0 = match key_get(r, key) { Some(f) => f, None => Seq::<(Seq<char>, JsonValue)>::empty() };
    lemma_with_field(r, key, "chapter_index"@, JsonValue::UInt(chapter as u64), key);
    let f1 = key_put(f0, "chapter_index"@, JsonValue::UInt(chapter as u64));
    lemma_with_field(r1, key, "page_index"@, JsonValue::UInt(page as u64), key);
    let f2 = key_put(f1, "page_index"@, JsonValue::UInt(page as u64));
    lemma_put_get(f1, "page_index"@, JsonValue::UInt(page as u64), "page_index"@);
    lemma_put_get(f1, "page_index"@, JsonValue::UInt(page as u64), "chapter_index"@);
    lemma_put_get(f0, "chapter_index"@, JsonValue::UInt(chapter as u64), "chapter_index"@);
    lemma_field_names();
}

/// The bookmark fields of a book's entry are both present when the book is
/// bookmarked.
pub open spec fn bookmark_fields_present(r: RootV, key: Seq<char>) -> bool {
    match key_get(r, key) {
        Some(f) => json_bool(key_get(f, "bookmark"@)) == Some(true) ==> (key_get(f, "bookmark_chapter_index"@) is Some
            && key_get(f, "bookmark_page_index"@) is Some),
        None => true,
    }
}

/// Saving a reading position leaves every bookmark as it was, provided the
/// bookmarked book's entry holds its dedicated bookmark fields (as after
/// migration and after any `set_bookmark`); it leaves the global settings
/// as they were too.
pub proof fn lemma_position_keeps_bookmarks(r: RootV, key: Seq<char>, chapter: usize, page: usize, other: Seq<char>)
    requires
        bookmark_fields_present(r, key),
    ensures
        bookmark_of(with_position(r, key, chapter, page), other) == bookmark_of(r, other),
        key != "_global"@ ==> global_of(with_position(r, key, chapter, page), other) == global_of(r, other),
{
    let cv = JsonValue::UInt(chapter as u64);
    let pv = JsonValue::UInt(page as u64);
    let r1 = with_field(r, key, "chapter_index"@, cv);
    let r2 = with_field(r1, key, "page_index"@, pv);
    lemma_with_field(r, key, "chapter_index"@, cv, other);
    lemma_with_field(r1, key, "page_index"@, pv, other);
    lemma_with_field(r, key, "chapter_index"@, cv, "_global"@);
    lemma_with_field(r1, key, "page_index"@, pv, "_global"@);
    if other == key {
        lemma_field_names();
        let f0 = match key_get(r, key) { Some(f) => f, None => Seq::<(Seq<char>, JsonValue)>::empty() };
        let f1 = key_put(f0, "chapter_index"@, cv);
        let f2 = key_put(f1, "page_index"@, pv);
        lemma_put_get(f0, "chapter_index"@, cv, "bookmark"@);
        lemma_put_get(f1, "page_index"@, pv, "bookmark"@);
        lemma_put_get(f0, "chapter_index"@, cv, "bookmark_chapter_index"@);
        lemma_put_get(f1, "page_index"@, pv, "bookmark_chapter_index"@);
        lemma_put_get(f0, "chapter_index"@, cv, "bookmark_page_index"@);
        lemma_put_get(f1, "page_index"@, pv, "bookmark_page_index"@);
    }
}

/// Setting a bookmark and reading it back gives the bookmarked position.
pub proof fn lemma_bookmark_round_trip(r: RootV, key: Seq<char>, chapter: usize, page: usize)
    ensures
        bookmark_of(with_bookmark(r, key, chapter, page), key) == Some((chapter, page)),
{
    let cv = JsonValue::UInt(chapter as u64);
    let pv = JsonValue::UInt(page as u64);
    let bv = JsonValue::Bool(true);
    let r1 = with_field(r, key, "bookmark_chapter_index"@, cv);
    let r2 = with_field(r1, key, "bookmark_page_index"@, pv);
    lemma_with_field(r, key, "bookmark_chapter_index"@, cv, key);
    lemma_with_field(r1, key, "bookmark_page_index"@, pv, key);
    lemma_with_field(r2, key, "bookmark"@, bv, key);
    let f0 = match key_get(r, key) { Some(f) => f, None => Seq::<(Seq<char>, JsonValue)>::empty() };
    let f1 = key_put(f0, "bookmark_chapter_index"@, cv);
    let f2 = key_put(f1, "bookmark_page_index"@, pv);
    lemma_field_names();
    lemma_put_get(f2, "bookmark"@, bv, "bookmark"@);
    lemma_put_get(f2, "bookmark"@, bv, "bookmark_chapter_index"@);
    lemma_put_get(f2, "bookmark"@, bv, "bookmark_page_index"@);
    lemma_put_get(f1, "bookmark_page_index"@, pv, "bookmark_page_index"@);
    lemma_put_get(f1, "bookmark_page_index"@, pv, "bookmark_chapter_index"@);
    lemma_put_get(f0, "bookmark_chapter_index"@, cv, "bookmark_chapter_index"@);
}

/// Setting a bookmark leaves every reading position as it was.
pub proof fn lemma_bookmark_keeps_positions(r: RootV, key: Seq<char>, chapter: usize, page: usize, other: Seq<char>)
    ensures
        position_of(with_bookmark(r, key, chapter, page), other) == position_of(r, other),
{
    let cv = JsonValue::UInt(chapter as u64);
    let pv = JsonValue::UInt(page as u64);
    let bv = JsonValue::Bool(true);
    let r1 = with_field(r, key, "bookmark_chapter_index"@, cv);
    let r2 = with_field(r1, key, "bookmark_page_index"@, pv);
    lemma_with_field(r, key, "bookmark_chapter_index"@, cv, other);
    lemma_with_field(r1, key, "bookmark_page_index"@, pv, other);
    lemma_with_field(r2, key, "bookmark"@, bv, other);
    if other == key {
        lemma_field_names();
        let f0 = match key_get(r, key) { Some(f) => f, None => Seq::<(Seq<char>, JsonValue)>::empty() };
        let f1 = key_put(f0, "bookmark_chapter_index"@, cv);
        let f2 = key_put(f1, "bookmark_page_index"@, pv);
        lemma_put_get(f0, "bookmark_chapter_index"@, cv, "chapter_index"@);
        lemma_put_get(f1, "bookmark_page_index"@, pv, "chapter_index"@);
        lemma_put_get(f2, "bookmark"@, bv, "chapter_index"@);
        lemma_put_get(f0, "bookmark_chapter_index"@, cv, "page_index"@);
        lemma_put_get(f1, "bookmark_page_index"@, pv, "page_index"@);
        lemma_put_get(f2, "bookmark"@, bv, "page_index"@);
    }
}

/// A global setting reads back as it was set, and setting it leaves the
/// other global settings and every book's position and bookmark as they
/// were.
pub proof fn lemma_global_round_trip(r: RootV, key: Seq<char>, v: JsonValue, other: Seq<char>, book: Seq<char>)
    ensures
        global_of(with_field(r, "_global"@, key, v), key) == Some(v),
        other != key ==> global_of(with_field(r, "_global"@, key, v), other) == global_of(r, other),
        book != "_global"@ ==> position_of(with_field(r, "_global"@, key, v), book) == position_of(r, book),
        book != "_global"@ ==> bookmark_of(with_field(r, "_global"@, key, v), book) == bookmark_of(r, book),
{
    let f0 = match key_get(r, "_global"@) { Some(f) => f, None => Seq::<(Seq<char>, JsonValue)>::empty() };
    lemma_with_field(r, "_global"@, key, v, "_global"@);
    lemma_with_field(r, "_global"@, key, v, book);
    lemma_put_get(f0, key, v, key);
    lemma_put_get(f0, key, v, other);
}

/// Migration keeps the keys of the document.
proof fn lemma_migrated_keys(r: RootV)
    ensures
        keys_of(migrated(r)) == keys_of(r),
{
    assert(keys_of(migrated(r)) =~= keys_of(r));
}

/// Bookmark migration changes no reading position, and no bookmark of an
/// entry whose bookmark fields are both present or both absent; afterwards
/// a bookmarked book's entry holds its dedicated bookmark chapter field.
pub proof fn lemma_migration(r: RootV, key: Seq<char>)
    ensures
        position_of(migrated(r), key) == position_of(r, key),
        (match key_get(r, key) {
            Some(f) => key_get(f, "bookmark_chapter_index"@) is Some || key_get(f, "bookmark_page_index"@) is None,
            None => true,
        }) ==> bookmark_of(migrated(r), key) == bookmark_of(r, key),
        key != "_global"@ && bookmark_of(migrated(r), key) is Some ==> (key_get(migrated(r), key) matches Some(f)
            && key_get(f, "bookmark_chapter_index"@) is Some),
{
    lemma_migrated_keys(r);
    let i = key_index(keys_of(r), key);
    lemma_key_index(keys_of(r), key);
    if i >= 0 {
        let (k, f) = r[i];
        let g = migrated_entry(k, f);
        assert(migrated(r)[i] == (k, g));
        assert(k == key);
        if key != "_global"@ && json_bool(key_get(f, "bookmark"@)) == Some(true)
            && key_index(keys_of(f), "bookmark_chapter_index"@) < 0 {
            let c = match json_u64(key_get(f, "chapter_index"@)) { Some(n) => n, None => 0 };
            let p = match json_u64(key_get(f, "page_index"@)) { Some(n) => n, None => 0 };
            let g1 = key_put(f, "bookmark_chapter_index"@, JsonValue::UInt(c));
            lemma_field_names();
            lemma_put_get(f, "bookmark_chapter_index"@, JsonValue::UInt(c), "chapter_index"@);
            lemma_put_get(g1, "bookmark_page_index"@, JsonValue::UInt(p), "chapter_index"@);
            lemma_put_get(f, "bookmark_chapter_index"@, JsonValue::UInt(c), "page_index"@);
            lemma_put_get(g1, "bookmark_page_index"@, JsonValue::UInt(p), "page_index"@);
            lemma_put_get(f, "bookmark_chapter_index"@, JsonValue::UInt(c), "bookmark"@);
            lemma_put_get(g1, "bookmark_page_index"@, JsonValue::UInt(p), "bookmark"@);
            lemma_put_get(f, "bookmark_chapter_index"@, JsonValue::UInt(c), "bookmark_chapter_index"@);
            lemma_put_get(g1, "bookmark_page_index"@, JsonValue::UInt(p), "bookmark_chapter_index"@);
            lemma_put_get(f, "bookmark_chapter_index"@, JsonValue::UInt(c), "bookmark_page_index"@);
            lemma_put_get(g1, "bookmark_page_index"@, JsonValue::UInt(p), "bookmark_page_index"@);
            assert(key_get(f, "bookmark_chapter_index"@) is None);
        } else if key != "_global"@ && json_bool(key_get(f, "bookmark"@)) == Some(true) {
            assert(key_get(f, "bookmark_chapter_index"@) is Some);
        }
    }
}

/// The SHA-1 digest of the bytes `b`.
pub uninterp spec fn sha1_digest(b: Seq<u8>) -> Seq<u8>;

/// `sha1::Sha1::new`, `update` with `b`, then `finalize`: the digest of
/// `b`, which has 20 bytes.  The contract names the digest; SHA-1 itself is
/// not restated here.
#[verifier::external_body]
fn sha1_bytes(b: &[u8]) -> (d: Vec<u8>)
    ensures
        d@ == sha1_digest(b@),
        d@.len() == 20,
{
    let mut hasher = sha1::Sha1::new();
    hasher.update(b);
    hasher.finalize().to_vec()
}

/// The lower-case hexadecimal digit for `d < 16`.
pub open spec fn hex_digit(d: nat) -> char {
    if d < 10 {
        (48 + d) as char
    } else {
        (87 + d) as char
    }
}

/// Bytes written as lower-case hexadecimal, two digits each.
pub open spec fn lower_hex(b: Seq<u8>) -> Seq<char>
    decreases b.len(),
{
    if b.len() == 0 {
        seq![]
    } else {
        lower_hex(b.drop_last()) + seq![hex_digit((b.last() / 16) as nat), hex_digit((b.last() % 16) as nat)]
    }
}

/// Two hexadecimal digits per byte.
pub(crate) proof fn lemma_lower_hex_len(b: Seq<u8>)
    ensures
        lower_hex(b).len() == 2 * b.len(),
    decreases b.len(),
{
    if b.len() > 0 {
        lemma_lower_hex_len(b.drop_last());
    }
}

fn hex_digit_exec(d: u8) -> (c: char)
    requires
        d < 16,
    ensures
        c == hex_digit(d as nat),
{
    if d < 10 {
        (48 + d) as char
    } else {
        (87 + d) as char
    }
}

/// `base` with the relative path `rel` adjoined, as `Path::join` does for a
/// relative `rel`: a `/` goes between them unless `base` is empty or ends
/// with one.
pub open spec fn join_path(base: Seq<char>, rel: Seq<char>) -> Seq<char> {
    if base.len() > 0 && base.last() != '/' {
        base + seq!['/'] + rel
    } else {
        base + rel
    }
}

/// Computes the termepub config directory for a given home directory:
/// `.config/termepub` under it.
pub fn config_dir_for(home: &str) -> (d: String)
    ensures
        d@ == join_path(join_path(home@, ".config"@), "termepub"@),
{
    let mut v = str_chars(home);
    if v.len() > 0 && v[v.len() - 1] != '/' {
        v.push('/');
    }
    push_str(&mut v, ".config");
    proof { reveal_strlit(".config"); }
    v.push('/');
    push_str(&mut v, "termepub");
    proof {
        let h = home@;
        let a = join_path(h, ".config"@);
        assert(a.len() > 0 && a.last() != '/');
    }
    string_from_chars(v.as_slice())
}

/// Persistent state store for reading positions, bookmarks, and global
/// settings.
pub struct StateStore {
    /// Path to the state file.
    path: String,
    /// The document's entries, each with its object's members; unknown
    /// fields and entries are kept.
    data: Vec<(String, Vec<(String, JsonValue)>)>,
}

/// `fields` with `field` set to `v`.
fn put_field(fields: &mut Vec<(String, JsonValue)>, field: &str, v: JsonValue)
    ensures
        fields_view(final(fields)@) == key_put(fields_view(old(fields)@), field@, v),
{
    proof { lemma_fields_keys(fields@); }
    let ghost f0 = fields_view(fields@);
    let name = string_from_chars(str_chars(field).as_slice());
    match find_key(fields, field) {
        Some(i) => {
            fields.set(i, (name, v));
            assert(fields_view(fields@) =~= f0.update(i as int, (field@, v)));
        },
        None => {
            fields.push((name, v));
            assert(fields_view(fields@) =~= f0.push((field@, v)));
        },
    }
}

impl StateStore {
    /// The state document.
    pub closed spec fn doc(&self) -> RootV {
        root_view(self.data@)
    }

    /// The path of the state file.
    pub closed spec fn file_path(&self) -> Seq<char> {
        self.path@
    }

    /// Opens the state of the file at `path`, parsed as `root` (`None` when
    /// there is no file).
    ///
    /// Only object-valued entries of an object root are kept; any other
    /// root gives an empty state.  Bookmarks written before bookmarks had
    /// their own fields are migrated.
    pub fn open(path: String, root: Option<JsonValue>) -> (s: StateStore)
        ensures
            s.file_path() == path@,
            s.doc() == migrated(loaded_entries(root)),
    {
        let mut data: Vec<(String, Vec<(String, JsonValue)>)> = Vec::new();
        match root {
            Some(JsonValue::Object(members)) => {
                let ghost mv = members@;
                let n: usize = members.len();
                let mut i: usize = 0;
                let mut rest = members;
                let mut kept: Vec<(String, Vec<(String, JsonValue)>)> = Vec::new();
                proof { assert(mv.take(0) =~= Seq::<(String, JsonValue)>::empty()); }
                while rest.len() > 0
                    invariant
                        i <= mv.len(),
                        mv.len() == n,
                        rest@ == mv.skip(i as int),
                        root_view(kept@) == object_entries(mv.take(i as int)),
                    decreases rest@.len(),
                {
                    assert(i < mv.len());
                    let (k, v) = rest.remove(0);
                    assert(mv.take(i + 1).drop_last() =~= mv.take(i as int));
                    assert(mv.take(i + 1).last() == mv[i as int]);
                    assert(mv.skip(i as int)[0] == mv[i as int]);
                    assert(rest@ =~= mv.skip(i + 1));
                    match v {
                        JsonValue::Object(f) => {
                            let ghost before = root_view(kept@);
                            kept.push((k, f));
                            assert(root_view(kept@) =~= before.push((k@, fields_view(f@))));
                        },
                        _ => {},
                    }
                    i += 1;
                }
                assert(mv.take(i as int) =~= mv);
                data = kept;
            },
            _ => {},
        }
        let mut s = StateStore { path, data };
        s.migrate_bookmarks();
        s
    }

    /// Returns the path to the state file.
    pub fn path(&self) -> (p: &str)
        ensures
            p@ == self.file_path(),
    {
        self.path.as_str()
    }

    /// The document's entries, each with its object's members, for writing
    /// the state file.
    pub fn entries(&self) -> (d: &[(String, Vec<(String, JsonValue)>)])
        ensures
            root_view(d@) == self.doc(),
    {
        self.data.as_slice()
    }

    /// The value of the member `field` of the entry `key`, if any.
    fn field(&self, key: &str, field: &str) -> (r: Option<&JsonValue>)
        ensures
            match key_get(self.doc(), key@) {
                Some(f) => match r {
                    Some(v) => key_get(f, field@) == Some(*v),
                    None => key_get(f, field@) is None,
                },
                None => r is None,
            },
    {
        proof { lemma_root_keys(self.data@); }
        match find_key(&self.data, key) {
            Some(i) => {
                let f = &self.data[i].1;
                proof { lemma_fields_keys(f@); }
                match find_key(f, field) {
                    Some(j) => Some(&f[j].1),
                    None => None,
                }
            },
            None => None,
        }
    }

    /// Reads an optional string from the `_global` object.
    fn get_global_str(&self, key: &str) -> (r: Option<String>)
        ensures
            match r {
                Some(s) => global_str_of(self.doc(), key@) == Some(s@),
                None => global_str_of(self.doc(), key@) is None,
            },
    {
        match self.field("_global", key) {
            Some(JsonValue::Str(s)) => Some(string_from_chars(str_chars(s.as_str()).as_slice())),
            _ => None,
        }
    }

    /// Reads a boolean from the `_global` object.
    fn get_global_bool(&self, key: &str, default: bool) -> (b: bool)
        ensures
            b == global_bool_of(self.doc(), key@, default),
    {
        match self.field("_global", key) {
            Some(JsonValue::Bool(x)) => *x,
            _ => default,
        }
    }

    /// Returns the current theme (default: "dark").
    pub fn get_theme(&self) -> (t: String)
        ensures
            t@ == match global_str_of(self.doc(), "theme"@) {
                Some(s) => s,
                None => "dark"@,
            },
    {
        match self.get_global_str("theme") {
            Some(t) => t,
            None => string_from_chars(str_chars("dark").as_slice()),
        }
    }

    /// Returns whether the header should be shown (default: true).
    pub fn get_show_header(&self) -> (b: bool)
        ensures
            b == global_bool_of(self.doc(), "show_header"@, true),
    {
        self.get_global_bool("show_header", true)
    }

    /// Returns whether text should be justified (default: false).
    pub fn get_justify_text(&self) -> (b: bool)
        ensures
            b == global_bool_of(self.doc(), "justify_text"@, false),
    {
        self.get_global_bool("justify_text", false)
    }

    /// Returns the last opened book path, if any.
    pub fn get_last_book_path(&self) -> (p: Option<String>)
        ensures
            match p {
                Some(s) => global_str_of(self.doc(), "last_book_path"@) == Some(s@),
                None => global_str_of(self.doc(), "last_book_path"@) is None,
            },
    {
        self.get_global_str("last_book_path")
    }

    /// Returns the reading position for a book key.
    pub fn get_state_for_book(&self, key: &str) -> (st: BookState)
        ensures
            (st.chapter_index, st.page_index) == position_of(self.doc(), key@),
    {
        let chapter_index = index_value(self.field(key, "chapter_index"));
        let page_index = index_value(self.field(key, "page_index"));
        BookState { chapter_index, page_index }
    }

    /// Sets the member `field` of the entry `key` (created when missing).
    fn set_field(&mut self, key: &str, field: &str, v: JsonValue)
        ensures
            final(self).doc() == with_field(old(self).doc(), key@, field@, v),
            final(self).file_path() == old(self).file_path(),
    {
        proof { lemma_root_keys(self.data@); }
        let ghost d0 = self.doc();
        match find_key(&self.data, key) {
            Some(i) => {
                proof {
                    lemma_key_index(str_keys(self.data@), key@);
                    assert(str_keys(self.data@)[i as int] == self.data@[i as int].0@);
                }
                let mut entry: (String, Vec<(String, JsonValue)>) = (String::new(), Vec::new());
                self.data.set_and_swap(i, &mut entry);
                assert(d0[i as int] == (entry.0@, fields_view(entry.1@)));
                assert(entry.0@ == key@);
                put_field(&mut entry.1, field, v);
                self.data.set_and_swap(i, &mut entry);
                assert(self.doc() =~= d0.update(i as int, (key@, key_put(d0[i as int].1, field@, v))));
            },
            None => {
                let mut f: Vec<(String, JsonValue)> = Vec::new();
                assert(fields_view(f@) =~= Seq::<(Seq<char>, JsonValue)>::empty());
                put_field(&mut f, field, v);
                self.data.push((string_from_chars(str_chars(key).as_slice()), f));
                assert(self.doc() =~= d0.push((key@, fields_view(f@))));
            },
        }
    }

    /// Updates the reading position for a book.
    ///
    /// Preserves unknown fields in the existing book entry.
    pub fn set_state_for_book(&mut self, key: &str, chapter: usize, page: usize)
        ensures
            final(self).doc() == with_position(old(self).doc(), key@, chapter, page),
            final(self).file_path() == old(self).file_path(),
    {
        self.set_field(key, "chapter_index", JsonValue::UInt(chapter as u64));
        self.set_field(key, "page_index", JsonValue::UInt(page as u64));
    }

    /// Sets a bookmark for a book.
    ///
    /// The bookmark is stored in dedicated `bookmark_chapter_index` /
    /// `bookmark_page_index` fields so that saving a reading position (which
    /// writes `chapter_index` / `page_index`) never clobbers it.
    pub fn set_bookmark(&mut self, key: &str, chapter: usize, page: usize) -> (r: Result<(), crate::error::EpubError>)
        ensures
            r is Ok,
            final(self).doc() == with_bookmark(old(self).doc(), key@, chapter, page),
            final(self).file_path() == old(self).file_path(),
    {
        self.set_field(key, "bookmark_chapter_index", JsonValue::UInt(chapter as u64));
        self.set_field(key, "bookmark_page_index", JsonValue::UInt(page as u64));
        self.set_field(key, "bookmark", JsonValue::Bool(true));
        Ok(())
    }

    /// Returns the bookmark position for a book, if set.
    ///
    /// Reads the dedicated bookmark fields, falling back to the shared
    /// `chapter_index` / `page_index` fields for files written before the
    /// split that were not migrated.
    pub fn get_bookmark(&self, key: &str) -> (r: Option<BookState>)
        ensures
            match r {
                Some(b) => bookmark_of(self.doc(), key@) == Some((b.chapter_index, b.page_index)),
                None => bookmark_of(self.doc(), key@) is None,
            },
    {
        let set = match self.field(key, "bookmark") {
            Some(JsonValue::Bool(b)) => *b,
            _ => false,
        };
        if !set {
            return None;
        }
        let c = match self.field(key, "bookmark_chapter_index") {
            Some(v) => Some(v),
            None => self.field(key, "chapter_index"),
        };
        let p = match self.field(key, "bookmark_page_index") {
            Some(v) => Some(v),
            None => self.field(key, "page_index"),
        };
        Some(BookState { chapter_index: index_value(c), page_index: index_value(p) })
    }

    /// Sets a global string value in the `_global` object.
    pub fn set_global_str(&mut self, key: &str, value: &str)
        ensures
            exists|s: String| s@ == value@
                && final(self).doc() == #[trigger] with_field(old(self).doc(), "_global"@, key@, JsonValue::Str(s)),
            final(self).file_path() == old(self).file_path(),
    {
        let s = string_from_chars(str_chars(value).as_slice());
        let ghost sv = s;
        self.set_field("_global", key, JsonValue::Str(s));
        assert(sv@ == value@);
    }

    /// Sets a global boolean value in the `_global` object.
    pub fn set_global_bool(&mut self, key: &str, value: bool)
        ensures
            final(self).doc() == with_field(old(self).doc(), "_global"@, key@, JsonValue::Bool(value)),
            final(self).file_path() == old(self).file_path(),
    {
        self.set_field("_global", key, JsonValue::Bool(value));
    }

    /// Computes the SHA-1 hex digest of a path string (used as book key).
    pub fn book_key(path: &str) -> (k: String)
        ensures
            k@ == lower_hex(sha1_digest(path.spec_bytes())),
            k@.len() == 40,
    {
        let d = sha1_bytes(path.as_bytes());
        let mut v: Vec<char> = Vec::new();
        let mut i: usize = 0;
        while i < d.len()
            invariant
                i <= d@.len(),
                v@ == lower_hex(d@.take(i as int)),
            decreases d@.len() - i,
        {
            assert(d@.take(i + 1).drop_last() =~= d@.take(i as int));
            let b = d[i];
            v.push(hex_digit_exec(b / 16));
            v.push(hex_digit_exec(b % 16));
            assert(v@ =~= lower_hex(d@.take(i + 1)));
            i += 1;
        }
        assert(d@.take(i as int) =~= d@);
        proof { lemma_lower_hex_len(d@); }
        string_from_chars(v.as_slice())
    }

    /// Copies legacy bookmark positions (stored in the shared
    /// `chapter_index`/`page_index` fields) into the dedicated
    /// `bookmark_chapter_index`/`bookmark_page_index` fields so that saving a
    /// new reading position no longer overwrites the bookmark.  Runs once on
    /// load for files written before the split; the copied values are then
    /// persisted on the next save.
    fn migrate_bookmarks(&mut self)
        ensures
            final(self).doc() == migrated(old(self).doc()),
            final(self).file_path() == old(self).file_path(),
    {
        let ghost d0 = self.doc();
        let mut i: usize = 0;
        while i < self.data.len()
            invariant
                i <= self.data@.len(),
                self.data@.len() == d0.len(),
                self.path@ == old(self).path@,
                forall|j: int| 0 <= j < i ==> #[trigger] self.doc()[j] == (d0[j].0, migrated_entry(d0[j].0, d0[j].1)),
                forall|j: int| i <= j < self.data@.len() ==> #[trigger] self.doc()[j] == d0[j],
            decreases self.data@.len() - i,
        {
            let ghost e0 = self.doc()[i as int];
            let ghost prev = self.doc();
            let mut entry: (String, Vec<(String, JsonValue)>) = (String::new(), Vec::new());
            self.data.set_and_swap(i, &mut entry);
            assert(e0 == (entry.0@, fields_view(entry.1@)));
            let is_global = chars_eq(&str_chars(entry.0.as_str()), &str_chars("_global"));
            let f = &entry.1;
            proof { lemma_fields_keys(f@); }
            let bookmarked = match find_key(f, "bookmark") {
                Some(b) => match &f[b].1 {
                    JsonValue::Bool(x) => *x,
                    _ => false,
                },
                None => false,
            };
            if !is_global && bookmarked && find_key(f, "bookmark_chapter_index").is_none() {
                let c: u64 = match find_key(f, "chapter_index") {
                    Some(j) => match &f[j].1 {
                        JsonValue::UInt(n) => *n,
                        _ => 0,
                    },
                    None => 0,
                };
                let p: u64 = match find_key(f, "page_index") {
                    Some(j) => match &f[j].1 {
                        JsonValue::UInt(n) => *n,
                        _ => 0,
                    },
                    None => 0,
                };
                put_field(&mut entry.1, "bookmark_chapter_index", JsonValue::UInt(c));
                put_field(&mut entry.1, "bookmark_page_index", JsonValue::UInt(p));
            }
            assert((entry.0@, fields_view(entry.1@)) == (e0.0, migrated_entry(e0.0, e0.1)));
            self.data.set_and_swap(i, &mut entry);
            assert(self.doc() =~= prev.update(i as int, (e0.0, migrated_entry(e0.0, e0.1))));
            i += 1;
        }
        assert(self.doc() =~= migrated(d0));
    }
}


// ---------------------------------------------------------------------------
// Bookmarks across a sequence of writes
// ---------------------------------------------------------------------------

/// A write the store makes that is not a bookmark: a book's reading
/// position (`set_state_for_book`), or a global setting (`set_global_str`,
/// `set_global_bool`).
pub ghost enum StateWrite {
    Position(Seq<char>, usize, usize),
    Global(Seq<char>, JsonValue),
}

/// The document after the write `w`.
pub open spec fn apply_write(r: RootV, w: StateWrite) -> RootV {
    match w {
        StateWrite::Position(k, c, p) => with_position(r, k, c, p),
        StateWrite::Global(f, v) => with_field(r, "_global"@, f, v),
    }
}

/// The document after the writes `ws`, in order.
pub open spec fn apply_writes(r: RootV, ws: Seq<StateWrite>) -> RootV
    decreases ws.len(),
{
    if ws.len() == 0 {
        r
    } else {
        apply_write(apply_writes(r, ws.drop_last()), ws.last())
    }
}

/// The member `f` of the entry `k`, if both exist.
pub open spec fn entry_field(r: RootV, k: Seq<char>, f: Seq<char>) -> Option<JsonValue> {
    match key_get(r, k) {
        Some(fs) => key_get(fs, f),
        None => None,
    }
}

proof fn lemma_with_field_entry(r: RootV, key: Seq<char>, field: Seq<char>, v: JsonValue, k: Seq<char>, f: Seq<char>)
    requires
        f != field || k != key,
    ensures
        entry_field(with_field(r, key, field, v), k, f) == entry_field(r, k, f),
{
    lemma_with_field(r, key, field, v, k);
    if k == key {
        let f0 = match key_get(r, key) { Some(x) => x, None => Seq::<(Seq<char>, JsonValue)>::empty() };
        lemma_put_get(f0, field, v, f);
        if key_get(r, key) is None {
            assert(key_get(Seq::<(Seq<char>, JsonValue)>::empty(), f) is None);
        }
    }
}

/// The three bookmark members of `k` are the same in `r` and `r2`.
pub open spec fn same_bookmark_fields(r: RootV, r2: RootV, k: Seq<char>) -> bool {
    &&& entry_field(r2, k, "bookmark"@) == entry_field(r, k, "bookmark"@)
    &&& entry_field(r2, k, "bookmark_chapter_index"@) == entry_field(r, k, "bookmark_chapter_index"@)
    &&& entry_field(r2, k, "bookmark_page_index"@) == entry_field(r, k, "bookmark_page_index"@)
}

proof fn lemma_bookmark_from_fields(r: RootV, r2: RootV, k: Seq<char>)
    requires
        bookmark_fields_present(r, k),
        same_bookmark_fields(r, r2, k),
    ensures
        bookmark_of(r2, k) == bookmark_of(r, k),
        bookmark_fields_present(r2, k),
{
}

proof fn lemma_write_keeps_bookmark_fields(r: RootV, w: StateWrite, k: Seq<char>)
    requires
        k != "_global"@,
    ensures
        same_bookmark_fields(r, apply_write(r, w), k),
{
    lemma_field_names();
    reveal_strlit("_global");
    match w {
        StateWrite::Position(key, c, p) => {
            let r1 = with_field(r, key, "chapter_index"@, JsonValue::UInt(c as u64));
            lemma_with_field_entry(r, key, "chapter_index"@, JsonValue::UInt(c as u64), k, "bookmark"@);
            lemma_with_field_entry(r, key, "chapter_index"@, JsonValue::UInt(c as u64), k, "bookmark_chapter_index"@);
            lemma_with_field_entry(r, key, "chapter_index"@, JsonValue::UInt(c as u64), k, "bookmark_page_index"@);
            lemma_with_field_entry(r1, key, "page_index"@, JsonValue::UInt(p as u64), k, "bookmark"@);
            lemma_with_field_entry(r1, key, "page_index"@, JsonValue::UInt(p as u64), k, "bookmark_chapter_index"@);
            lemma_with_field_entry(r1, key, "page_index"@, JsonValue::UInt(p as u64), k, "bookmark_page_index"@);
        },
        StateWrite::Global(f, v) => {
            lemma_with_field_entry(r, "_global"@, f, v, k, "bookmark"@);
            lemma_with_field_entry(r, "_global"@, f, v, k, "bookmark_chapter_index"@);
            lemma_with_field_entry(r, "_global"@, f, v, k, "bookmark_page_index"@);
        },
    }
}

proof fn lemma_writes_keep_bookmark(r: RootV, ws: Seq<StateWrite>, k: Seq<char>)
    requires
        k != "_global"@,
        bookmark_fields_present(r, k),
    ensures
        bookmark_of(apply_writes(r, ws), k) == bookmark_of(r, k),
        bookmark_fields_present(apply_writes(r, ws), k),
    decreases ws.len(),
{
    if ws.len() > 0 {
        lemma_writes_keep_bookmark(r, ws.drop_last(), k);
        let r1 = apply_writes(r, ws.drop_last());
        lemma_write_keeps_bookmark_fields(r1, ws.last(), k);
        lemma_bookmark_from_fields(r1, apply_write(r1, ws.last()), k);
    }
}

/// A bookmark outlives later writes: after the bookmark of `k` is set to
/// chapter `c`, page `p`, any sequence of reading-position writes (for `k`
/// or any other book) and global-setting writes leaves it reading back as
/// `(c, p)`; and a book whose entry holds no bookmark gets none from such
/// writes.
pub proof fn lemma_bookmark_survives_writes(r: RootV, k: Seq<char>, c: usize, p: usize, ws: Seq<StateWrite>, k3: Seq<char>)
    requires
        k != "_global"@,
    ensures
        bookmark_of(apply_writes(with_bookmark(r, k, c, p), ws), k) == Some((c, p)),
        k3 != "_global"@ && bookmark_of(r, k3) is None ==> bookmark_of(apply_writes(r, ws), k3) is None,
{
    let r1 = with_bookmark(r, k, c, p);
    lemma_bookmark_round_trip(r, k, c, p);
    lemma_bookmark_fields_set(r, k, c, p);
    lemma_writes_keep_bookmark(r1, ws, k);
    if k3 != "_global"@ && bookmark_of(r, k3) is None {
        lemma_writes_keep_bookmark(r, ws, k3);
    }
}

proof fn lemma_bookmark_fields_set(r: RootV, k: Seq<char>, c: usize, p: usize)
    ensures
        bookmark_fields_present(with_bookmark(r, k, c, p), k),
{
    lemma_field_names();
    let cv = JsonValue::UInt(c as u64);
    let pv = JsonValue::UInt(p as u64);
    let bv = JsonValue::Bool(true);
    let r1 = with_field(r, k, "bookmark_chapter_index"@, cv);
    let r2 = with_field(r1, k, "bookmark_page_index"@, pv);
    lemma_with_field_entry(r1, k, "bookmark_page_index"@, pv, k, "bookmark_chapter_index"@);
    lemma_with_field_entry(r2, k, "bookmark"@, bv, k, "bookmark_chapter_index"@);
    lemma_with_field_entry(r2, k, "bookmark"@, bv, k, "bookmark_page_index"@);
    lemma_with_field(r, k, "bookmark_chapter_index"@, cv, k);
    lemma_with_field(r1, k, "bookmark_page_index"@, pv, k);
    lemma_with_field(r2, k, "bookmark"@, bv, k);
    let f0 = match key_get(r, k) { Some(f) => f, None => Seq::<(Seq<char>, JsonValue)>::empty() };
    lemma_put_get(f0, "bookmark_chapter_index"@, cv, "bookmark_chapter_index"@);
    let f1 = key_put(f0, "bookmark_chapter_index"@, cv);
    lemma_put_get(f1, "bookmark_page_index"@, pv, "bookmark_page_index"@);
}

} // verus!
