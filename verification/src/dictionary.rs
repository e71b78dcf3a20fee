//! Word lookup in an English dictionary, with fuzzy suggestions.
//!
//! A lookup tries the lower-cased word, then the word with punctuation
//! stripped, and otherwise suggests up to five close words, chosen
//! deterministically among at most `MAX_CANDIDATES` candidates in all.
//! Loading the dictionary file is the caller's part: it hands the parsed
//! JSON object to [`Dictionary::from_entries`].

use vstd::prelude::*;
use vstd::string::StringSliceAdditionalSpecFns;
use vstd::utf8::encode_utf8;
use crate::state::{JsonValue, key_get, key_index, fields_view, json_str};
use crate::text::{lowercase, to_lower, str_chars, string_from_chars, chars_eq, push_str};

verus! {

/// Maximum fuzzy-matching candidates to examine, of each kind.
pub const MAX_CANDIDATES: usize = 5_000;

/// A dictionary entry.
#[derive(Debug, Clone)]
pub struct Definition {
    pub headword: String,
    pub definition: String,
}

// ---------------------------------------------------------------------------
// The order of words
// ---------------------------------------------------------------------------

/// `a` comes before `b`: lexicographic order by code point, which is also
/// the byte order of their UTF-8 encodings.
pub open spec fn seq_lt(a: Seq<char>, b: Seq<char>) -> bool
    decreases a.len(),
{
    if a.len() == 0 {
        b.len() > 0
    } else if b.len() == 0 {
        false
    } else if a[0] != b[0] {
        (a[0] as int) < (b[0] as int)
    } else {
        seq_lt(a.skip(1), b.skip(1))
    }
}

/// No word comes before itself.
pub proof fn lemma_seq_lt_irreflexive(a: Seq<char>)
    ensures
        !seq_lt(a, a),
    decreases a.len(),
{
    if a.len() > 0 {
        lemma_seq_lt_irreflexive(a.skip(1));
    }
}

/// The order is transitive.
pub proof fn lemma_seq_lt_transitive(a: Seq<char>, b: Seq<char>, c: Seq<char>)
    requires
        seq_lt(a, b),
        seq_lt(b, c),
    ensures
        seq_lt(a, c),
    decreases a.len(),
{
    if a.len() > 0 && b.len() > 0 && c.len() > 0 && a[0] == b[0] && b[0] == c[0] {
        lemma_seq_lt_transitive(a.skip(1), b.skip(1), c.skip(1));
    }
}

/// Two different words are ordered one way or the other.
pub proof fn lemma_seq_lt_total(a: Seq<char>, b: Seq<char>)
    requires
        a != b,
    ensures
        seq_lt(a, b) || seq_lt(b, a),
    decreases a.len(),
{
    if a.len() > 0 && b.len() > 0 && a[0] == b[0] {
        if a.skip(1) == b.skip(1) {
            assert(a =~= seq![a[0]] + a.skip(1));
            assert(b =~= seq![b[0]] + b.skip(1));
        }
        lemma_seq_lt_total(a.skip(1), b.skip(1));
    } else if a.len() == 0 && b.len() == 0 {
        assert(a =~= b);
    } else if a.len() > 0 && b.len() > 0 {
        assert(a[0] as int != b[0] as int);
    }
}

/// Whether `a` comes before `b`.
pub fn chars_lt(a: &Vec<char>, b: &Vec<char>) -> (r: bool)
    ensures
        r == seq_lt(a@, b@),
{
    let mut i: usize = 0;
    assert(a@.skip(0) =~= a@);
    assert(b@.skip(0) =~= b@);
    while i < a.len() && i < b.len() && a[i] == b[i]
        invariant
            i <= a@.len(),
            i <= b@.len(),
            seq_lt(a@, b@) == seq_lt(a@.skip(i as int), b@.skip(i as int)),
        decreases a@.len() - i,
    {
        assert(a@.skip(i as int).skip(1) =~= a@.skip(i + 1));
        assert(b@.skip(i as int).skip(1) =~= b@.skip(i + 1));
        i += 1;
    }
    if i == a.len() {
        i < b.len()
    } else if i == b.len() {
        false
    } else {
        a[i] < b[i]
    }
}

// ---------------------------------------------------------------------------
// The dictionary
// ---------------------------------------------------------------------------

/// An entry seen as word, headword and definition.
pub type EntryV = (Seq<char>, Seq<char>, Seq<char>);

/// The words of the entries.
pub open spec fn entry_words(es: Seq<EntryV>) -> Seq<Seq<char>> {
    es.map_values(|e: EntryV| e.0)
}

/// The entries are in strictly increasing order of their words.
pub open spec fn sorted_words(ws: Seq<Seq<char>>) -> bool {
    forall|i: int, j: int| 0 <= i < j < ws.len() ==> seq_lt(#[trigger] ws[i], #[trigger] ws[j])
}

/// The headword and definition of `word`, if it is in the dictionary.
pub open spec fn dict_get(es: Seq<EntryV>, word: Seq<char>) -> Option<(Seq<char>, Seq<char>)> {
    let i = key_index(entry_words(es), word);
    if i >= 0 {
        Some((es[i].1, es[i].2))
    } else {
        None
    }
}

/// The entry read from the value `v` of the word `word` in the dictionary
/// file: an object gives its `headword` (the word itself when absent) and
/// its `def` (empty when absent); anything else is skipped.
pub open spec fn definition_of(word: Seq<char>, v: JsonValue) -> Option<(Seq<char>, Seq<char>)> {
    match v {
        JsonValue::Object(f) => {
            let fv = fields_view(f@);
            Some((
                match json_str(key_get(fv, "headword"@)) { Some(h) => h, None => word },
                match json_str(key_get(fv, "def"@)) { Some(d) => d, None => Seq::<char>::empty() },
            ))
        },
        _ => None,
    }
}

/// The definition the dictionary file `members` gives `word`: that of its
/// last object-valued member with that word.
pub open spec fn loaded_definition(members: Seq<(String, JsonValue)>, word: Seq<char>) -> Option<(Seq<char>, Seq<char>)>
    decreases members.len(),
{
    if members.len() == 0 {
        None
    } else {
        let (k, v) = members.last();
        if k@ == word && definition_of(k@, v) is Some {
            definition_of(k@, v)
        } else {
            loaded_definition(members.drop_last(), word)
        }
    }
}

/// A dictionary: entries kept in increasing order of their words, each word
/// once.
pub struct Dictionary {
    entries: Vec<(String, Definition)>,
}

pub open spec fn dict_view(v: Seq<(String, Definition)>) -> Seq<EntryV> {
    v.map_values(|e: (String, Definition)| (e.0@, e.1.headword@, e.1.definition@))
}

impl Dictionary {
    /// The entries, in increasing order of their words.
    pub closed spec fn view_entries(&self) -> Seq<EntryV> {
        dict_view(self.entries@)
    }

    /// The entries are sorted by word, each word once.
    pub closed spec fn wf(&self) -> bool {
        sorted_words(entry_words(self.view_entries()))
    }

    /// An empty dictionary.
    pub fn new() -> (d: Dictionary)
        ensures
            d.wf(),
            d.view_entries().len() == 0,
    {
        let d = Dictionary { entries: Vec::new() };
        assert(d.view_entries() =~= Seq::<EntryV>::empty());
        d
    }

    /// The number of entries.
    pub fn len(&self) -> (n: usize)
        ensures
            n == self.view_entries().len(),
    {
        self.entries.len()
    }

    /// Adds `word` with its definition, replacing the definition it had.
    pub fn insert(&mut self, word: String, def: Definition)
        requires
            old(self).wf(),
        ensures
            final(self).wf(),
            forall|w: Seq<char>| #[trigger] dict_get(final(self).view_entries(), w) == if w == word@ {
                Some((def.headword@, def.definition@))
            } else {
                dict_get(old(self).view_entries(), w)
            },
    {
        let ghost es0 = self.view_entries();
        let ghost ws0 = entry_words(es0);
        let ghost x: EntryV = (word@, def.headword@, def.definition@);
        let wc = str_chars(word.as_str());
        let n = self.entries.len();
        let mut i: usize = 0;
        while i < n && chars_lt(&str_chars(self.entries[i].0.as_str()), &wc)
            invariant
                i <= n,
                n == self.entries@.len(),
                es0 == self.view_entries(),
                ws0 == entry_words(es0),
                wc@ == word@,
                forall|j: int| 0 <= j < i ==> seq_lt(#[trigger] ws0[j], word@),
            decreases n - i,
        {
            i += 1;
        }
        proof {
            assert forall|j: int| 0 <= j < ws0.len() implies #[trigger] ws0[j] == es0[j].0 by {}
        }
        if i < n && chars_eq(&str_chars(self.entries[i].0.as_str()), &wc) {
            self.entries.set(i, (word, def));
            proof {
                let es1 = self.view_entries();
                assert(es1 =~= es0.update(i as int, x));
                assert(entry_words(es1) =~= ws0);
                assert forall|w: Seq<char>| #[trigger] dict_get(es1, w) == if w == x.0 {
                    Some((x.1, x.2))
                } else {
                    dict_get(es0, w)
                } by {
                    crate::state::lemma_key_index(ws0, w);
                    if w == x.0 {
                        lemma_first_index(ws0, w, i as int);
                    }
                }
            }
        } else {
            self.entries.insert(i, (word, def));
            proof {
                let es1 = self.view_entries();
                let ws1 = entry_words(es1);
                assert(es1 =~= es0.insert(i as int, x));
                assert(ws1 =~= ws0.insert(i as int, x.0));
                if i < n {
                    lemma_seq_lt_total(ws0[i as int], x.0);
                }
                assert forall|j: int| i <= j < ws0.len() implies seq_lt(x.0, #[trigger] ws0[j]) by {
                    if j > i {
                        lemma_seq_lt_transitive(x.0, ws0[i as int], ws0[j]);
                    }
                }
                assert forall|a: int, b: int| 0 <= a < b < ws1.len() implies seq_lt(#[trigger] ws1[a], #[trigger] ws1[b]) by {
                    if b == i {
                        assert(ws1[a] == ws0[a]);
                    } else if a == i {
                        assert(ws1[b] == ws0[b - 1]);
                    } else if a < i && b > i {
                        assert(ws1[a] == ws0[a]);
                        assert(ws1[b] == ws0[b - 1]);
                        assert(seq_lt(x.0, ws0[b - 1]));
                        lemma_seq_lt_transitive(ws0[a], x.0, ws0[b - 1]);
                    } else if a > i {
                        assert(ws1[a] == ws0[a - 1]);
                        assert(ws1[b] == ws0[b - 1]);
                    } else {
                        assert(ws1[a] == ws0[a]);
                        assert(ws1[b] == ws0[b]);
                    }
                }
                assert forall|w: Seq<char>| #[trigger] dict_get(es1, w) == if w == x.0 {
                    Some((x.1, x.2))
                } else {
                    dict_get(es0, w)
                } by {
                    crate::state::lemma_key_index(ws0, w);
                    crate::state::lemma_key_index(ws1, w);
                    lemma_seq_lt_irreflexive(x.0);
                    if w == x.0 {
                        assert forall|j: int| 0 <= j < ws0.len() implies ws0[j] != w by {
                            if j >= i {
                                if i < n {
                                    if j > i {
                                        lemma_seq_lt_transitive(x.0, ws0[i as int], ws0[j]);
                                    }
                                    lemma_seq_lt_irreflexive(x.0);
                                }
                            }
                        }
                        lemma_first_index(ws1, w, i as int);
                    } else {
                        let k = key_index(ws0, w);
                        if k >= 0 {
                            if k < i {
                                lemma_first_index(ws1, w, k);
                            } else {
                                lemma_first_index(ws1, w, k + 1);
                            }
                        } else {
                            assert forall|j: int| 0 <= j < ws1.len() implies ws1[j] != w by {
                                if j < i {
                                    assert(ws1[j] == ws0[j]);
                                } else if j > i {
                                    assert(ws1[j] == ws0[j - 1]);
                                }
                            }
                            lemma_no_index(ws1, w);
                        }
                    }
                }
            }
        }
    }

    /// The definition of `word`, if it is in the dictionary.
    pub fn get(&self, word: &str) -> (r: Option<&Definition>)
        ensures
            match r {
                Some(d) => dict_get(self.view_entries(), word@) == Some((d.headword@, d.definition@)),
                None => dict_get(self.view_entries(), word@) is None,
            },
    {
        let ghost ws = entry_words(self.view_entries());
        let wc = str_chars(word);
        let mut i: usize = 0;
        while i < self.entries.len()
            invariant
                i <= self.entries@.len(),
                ws == entry_words(self.view_entries()),
                wc@ == word@,
                forall|j: int| 0 <= j < i ==> ws[j] != word@,
            decreases self.entries@.len() - i,
        {
            if chars_eq(&str_chars(self.entries[i].0.as_str()), &wc) {
                proof { lemma_first_index(ws, word@, i as int); }
                return Some(&self.entries[i].1);
            }
            i += 1;
        }
        proof { lemma_no_index(ws, word@); }
        None
    }

    /// The dictionary read from the parsed dictionary file, an object
    /// mapping each word to its entry.  Object-valued members give entries
    /// (see `definition_of`); other members are skipped, so one malformed
    /// row does not make the whole dictionary unavailable.
    pub fn from_entries(members: Vec<(String, JsonValue)>) -> (d: Dictionary)
        ensures
            d.wf(),
            forall|w: Seq<char>| #[trigger] dict_get(d.view_entries(), w) == loaded_definition(members@, w),
    {
        let ghost mv = members@;
        let n: usize = members.len();
        let mut d = Dictionary::new();
        let mut rest = members;
        let mut i: usize = 0;
        proof {
            assert forall|w: Seq<char>| #[trigger] dict_get(d.view_entries(), w) == loaded_definition(mv.take(0), w) by {
                crate::state::lemma_key_index(entry_words(d.view_entries()), w);
            }
        }
        while rest.len() > 0
            invariant
                i <= mv.len(),
                mv.len() == n,
                rest@ == mv.skip(i as int),
                d.wf(),
                forall|w: Seq<char>| #[trigger] dict_get(d.view_entries(), w) == loaded_definition(mv.take(i as int), w),
            decreases rest@.len(),
        {
            assert(i < mv.len());
            let (word, v) = rest.remove(0);
            assert(mv.skip(i as int)[0] == mv[i as int]);
            assert(rest@ =~= mv.skip(i + 1));
            assert(mv.take(i + 1).drop_last() =~= mv.take(i as int));
            assert(mv.take(i + 1).last() == mv[i as int]);
            let ghost dv = definition_of(word@, v);
            match read_definition(&word, &v) {
                Some(def) => {
                    d.insert(word, def);
                },
                None => {},
            }
            i += 1;
        }
        assert(mv.take(i as int) =~= mv);
        d
    }
}

proof fn lemma_first_index(ws: Seq<Seq<char>>, w: Seq<char>, i: int)
    requires
        0 <= i < ws.len(),
        ws[i] == w,
        forall|j: int| 0 <= j < i ==> ws[j] != w,
    ensures
        key_index(ws, w) == i,
{
    crate::state::lemma_key_index(ws, w);
}

proof fn lemma_no_index(ws: Seq<Seq<char>>, w: Seq<char>)
    requires
        forall|j: int| 0 <= j < ws.len() ==> ws[j] != w,
    ensures
        key_index(ws, w) == -1,
{
    crate::state::lemma_key_index(ws, w);
}

/// The string value of the member `field` of an object, if any.
fn object_str<'a>(f: &'a Vec<(String, JsonValue)>, field: &str) -> (r: Option<&'a String>)
    ensures
        match r {
            Some(s) => json_str(key_get(fields_view(f@), field@)) == Some(s@),
            None => json_str(key_get(fields_view(f@), field@)) is None,
        },
{
    let fc = str_chars(field);
    let mut i: usize = 0;
    let ghost ks = crate::state::keys_of(fields_view(f@));
    assert forall|j: int| 0 <= j < f@.len() implies #[trigger] ks[j] == f@[j].0@ by {}
    while i < f.len()
        invariant
            i <= f@.len(),
            fc@ == field@,
            ks == crate::state::keys_of(fields_view(f@)),
            ks.len() == f@.len(),
            forall|j: int| 0 <= j < f@.len() ==> #[trigger] ks[j] == f@[j].0@,
            forall|j: int| 0 <= j < i ==> ks[j] != field@,
        decreases f@.len() - i,
    {
        if chars_eq(&str_chars(f[i].0.as_str()), &fc) {
            proof { lemma_first_index(ks, field@, i as int); }
            return match &f[i].1 {
                JsonValue::Str(s) => Some(s),
                _ => None,
            };
        }
        i += 1;
    }
    proof { lemma_no_index(ks, field@); }
    None
}

/// The entry read from the member `word` of the dictionary file.
fn read_definition(word: &String, v: &JsonValue) -> (r: Option<Definition>)
    ensures
        match r {
            Some(d) => definition_of(word@, *v) == Some((d.headword@, d.definition@)),
            None => definition_of(word@, *v) is None,
        },
{
    match v {
        JsonValue::Object(f) => {
            let headword = match object_str(f, "headword") {
                Some(h) => string_from_chars(str_chars(h.as_str()).as_slice()),
                None => string_from_chars(str_chars(word.as_str()).as_slice()),
            };
            let definition = match object_str(f, "def") {
                Some(s) => string_from_chars(str_chars(s.as_str()).as_slice()),
                None => String::new(),
            };
            Some(Definition { headword, definition })
        },
        _ => None,
    }
}


// ---------------------------------------------------------------------------
// Lookup
// ---------------------------------------------------------------------------

/// Letters and digits, as `char::is_alphanumeric` reports them.
pub uninterp spec fn unicode_alnum(c: char) -> bool;

/// `char::is_alphanumeric`: the contract names its result; the Unicode
/// `Alphabetic` and `Numeric` tables are not restated here.
#[verifier::external_body]
fn char_is_alphanumeric(c: char) -> (b: bool)
    ensures
        b == unicode_alnum(c),
{
    c.is_alphanumeric()
}

/// The word without punctuation: only letters, digits and `-` kept.
pub open spec fn strip_punctuation(w: Seq<char>) -> Seq<char>
    decreases w.len(),
{
    if w.len() == 0 {
        w
    } else {
        let p = strip_punctuation(w.drop_last());
        if unicode_alnum(w.last()) || w.last() == '-' {
            p.push(w.last())
        } else {
            p
        }
    }
}

/// The answer for a word found with headword `hw` and definition `def`.
pub open spec fn found_text(hw: Seq<char>, def: Seq<char>) -> Seq<char> {
    hw + "\n\nfound: "@ + hw + "\n"@ + def
}

/// The length of a word in UTF-8 bytes.
pub open spec fn byte_len(s: Seq<char>) -> nat {
    encode_utf8(s).len()
}

/// The candidate's byte length is within two of the word's.
pub open spec fn length_compatible(k: Seq<char>, word: Seq<char>) -> bool {
    let t = byte_len(word);
    let l = byte_len(k);
    (if t >= 2 { t - 2 } else { 0 }) <= l && l <= t + 2
}

/// The candidate starts with the word's first character.
pub open spec fn shares_first(k: Seq<char>, word: Seq<char>) -> bool {
    word.len() > 0 && k.len() > 0 && k[0] == word[0]
}

/// The first `MAX_CANDIDATES` length-compatible words, in dictionary
/// order, that start with the word's first character (`first == true`)
/// or do not (`first == false`).
pub open spec fn candidate_pool(ws: Seq<Seq<char>>, word: Seq<char>, first: bool) -> Seq<Seq<char>>
    decreases ws.len(),
{
    if ws.len() == 0 {
        seq![]
    } else {
        let p = candidate_pool(ws.drop_last(), word, first);
        let k = ws.last();
        if length_compatible(k, word) && shares_first(k, word) == first && p.len() < MAX_CANDIDATES {
            p.push(k)
        } else {
            p
        }
    }
}

/// The number of bytes of `a` that occur in `b`.
pub open spec fn count_common(a: Seq<u8>, b: Seq<u8>) -> nat
    decreases a.len(),
{
    if a.len() == 0 {
        0
    } else {
        count_common(a.drop_last(), b) + if b.contains(a.last()) { 1nat } else { 0nat }
    }
}

/// The length of the longest common prefix of two words.
pub open spec fn common_prefix(a: Seq<char>, b: Seq<char>) -> nat
    decreases a.len(),
{
    if a.len() == 0 || b.len() == 0 || a[0] != b[0] {
        0
    } else {
        1 + common_prefix(a.skip(1), b.skip(1))
    }
}

/// How similar `b` is to `a`: zero when their UTF-8 lengths differ by more
/// than three or fewer than half of `a`'s bytes occur in `b`; otherwise the
/// bytes of `a` occurring in `b` plus twice their common prefix.
pub open spec fn similarity(a: Seq<char>, b: Seq<char>) -> nat {
    let ab = encode_utf8(a);
    let bb = encode_utf8(b);
    let diff = if ab.len() >= bb.len() { ab.len() - bb.len() } else { bb.len() - ab.len() };
    if diff > 3 {
        0
    } else {
        let c = count_common(ab, bb);
        if c < ab.len() / 2 {
            0
        } else {
            c + 2 * common_prefix(a, b)
        }
    }
}

/// The candidates with a positive similarity, with it, in order.
pub open spec fn scored(word: Seq<char>, cands: Seq<Seq<char>>) -> Seq<(nat, Seq<char>)>
    decreases cands.len(),
{
    if cands.len() == 0 {
        seq![]
    } else {
        let p = scored(word, cands.drop_last());
        let sc = similarity(word, cands.last());
        if sc > 0 {
            p.push((sc, cands.last()))
        } else {
            p
        }
    }
}

/// `x` ranks before `y`: a higher score, or the same score and an earlier
/// word.
pub open spec fn ranks_before(x: (nat, Seq<char>), y: (nat, Seq<char>)) -> bool {
    x.0 > y.0 || (x.0 == y.0 && seq_lt(x.1, y.1))
}

/// Index of the best-ranked element (the first of equals).
pub open spec fn best_index(s: Seq<(nat, Seq<char>)>) -> int
    decreases s.len(),
{
    if s.len() <= 1 {
        0
    } else {
        let b = best_index(s.drop_last());
        if ranks_before(s.last(), s[b]) {
            s.len() - 1
        } else {
            b
        }
    }
}

/// The `n` best-ranked elements, best first.
pub open spec fn top(s: Seq<(nat, Seq<char>)>, n: nat) -> Seq<(nat, Seq<char>)>
    decreases n,
{
    if n == 0 || s.len() == 0 {
        seq![]
    } else {
        let b = best_index(s);
        seq![s[b]] + top(s.remove(b), (n - 1) as nat)
    }
}

proof fn lemma_ranks_strict(x: (nat, Seq<char>), y: (nat, Seq<char>), z: (nat, Seq<char>))
    ensures
        !ranks_before(x, x),
        ranks_before(x, y) && ranks_before(y, z) ==> ranks_before(x, z),
{
    lemma_seq_lt_irreflexive(x.1);
    if ranks_before(x, y) && ranks_before(y, z) && x.0 == y.0 && y.0 == z.0 {
        lemma_seq_lt_transitive(x.1, y.1, z.1);
    }
}

/// No element of `s` ranks before the one `best_index` picks.
proof fn lemma_best_index(s: Seq<(nat, Seq<char>)>)
    requires
        s.len() > 0,
    ensures
        0 <= best_index(s) < s.len(),
        forall|k: int| 0 <= k < s.len() ==> !ranks_before(#[trigger] s[k], s[best_index(s)]),
    decreases s.len(),
{
    if s.len() == 1 {
        lemma_ranks_strict(s[0], s[0], s[0]);
    } else {
        let p = s.drop_last();
        lemma_best_index(p);
        let b = best_index(p);
        assert forall|k: int| 0 <= k < s.len() implies !ranks_before(#[trigger] s[k], s[best_index(s)]) by {
            lemma_ranks_strict(s[k], s.last(), s[b]);
            if k < s.len() - 1 {
                assert(s[k] == p[k]);
            }
        }
    }
}

/// An element of `s.remove(b)` is an element of `s`.
proof fn lemma_remove_contains(s: Seq<(nat, Seq<char>)>, b: int, x: (nat, Seq<char>))
    requires
        0 <= b < s.len(),
        s.remove(b).contains(x),
    ensures
        s.contains(x),
{
    let k = choose|k: int| 0 <= k < s.remove(b).len() && s.remove(b)[k] == x;
    if k < b {
        assert(s[k] == x);
    } else {
        assert(s[k + 1] == x);
    }
}

/// The suggestions are the best-ranked candidates, best first:
/// `top(s, n)` holds `n` elements of `s` (all of them when `s` is
/// shorter), none of them ranks before one that comes earlier, and none of
/// the elements of `s` left out ranks before any of them.
pub proof fn lemma_top_best(s: Seq<(nat, Seq<char>)>, n: nat)
    ensures
        top(s, n).len() == if n < s.len() { n as int } else { s.len() as int },
        forall|j: int| 0 <= j < top(s, n).len() ==> s.contains(#[trigger] top(s, n)[j]),
        forall|i: int, j: int| 0 <= i < j < top(s, n).len() ==> !ranks_before(#[trigger] top(s, n)[j], #[trigger] top(s, n)[i]),
        exists|rest: Seq<(nat, Seq<char>)>| #[trigger] (top(s, n) + rest).to_multiset() == s.to_multiset()
            && forall|a: int, j: int| 0 <= a < rest.len() && 0 <= j < top(s, n).len()
                ==> !ranks_before(#[trigger] rest[a], #[trigger] top(s, n)[j]),
    decreases n,
{
    broadcast use vstd::seq_lib::group_to_multiset_ensures, vstd::multiset::group_multiset_axioms;
    let t = top(s, n);
    if n == 0 || s.len() == 0 {
        assert(t + s =~= s);
        assert((top(s, n) + s).to_multiset() == s.to_multiset());
    } else {
        let b = best_index(s);
        lemma_best_index(s);
        let r = s.remove(b);
        let t2 = top(r, (n - 1) as nat);
        lemma_top_best(r, (n - 1) as nat);
        let rest = choose|rest: Seq<(nat, Seq<char>)>| #[trigger] (t2 + rest).to_multiset() == r.to_multiset()
            && forall|a: int, j: int| 0 <= a < rest.len() && 0 <= j < t2.len()
                ==> !ranks_before(#[trigger] rest[a], #[trigger] t2[j]);
        assert(t == seq![s[b]] + t2);
        assert forall|j: int| 0 <= j < t.len() implies s.contains(#[trigger] t[j]) by {
            if j == 0 {
                assert(s[b] == t[0]);
            } else {
                assert(t[j] == t2[j - 1]);
                lemma_remove_contains(s, b, t2[j - 1]);
            }
        }
        assert forall|i: int, j: int| 0 <= i < j < t.len() implies !ranks_before(#[trigger] t[j], #[trigger] t[i]) by {
            assert(t[j] == t2[j - 1]);
            if i == 0 {
                lemma_remove_contains(s, b, t2[j - 1]);
            } else {
                assert(t[i] == t2[i - 1]);
            }
        }
        vstd::seq_lib::to_multiset_remove(s, b);
        vstd::seq_lib::lemma_multiset_commutative(seq![s[b]], t2 + rest);
        vstd::seq_lib::lemma_multiset_commutative(t2, rest);
        assert(t + rest =~= seq![s[b]] + (t2 + rest));
        assert((t + rest).to_multiset() =~= s.to_multiset());
        assert forall|a: int, j: int| 0 <= a < rest.len() && 0 <= j < t.len()
            implies !ranks_before(#[trigger] rest[a], #[trigger] t[j]) by {
            if j == 0 {
                assert((t2 + rest)[t2.len() + a] == rest[a]);
                vstd::seq_lib::to_multiset_contains(t2 + rest, rest[a]);
                vstd::seq_lib::to_multiset_contains(r, rest[a]);
                lemma_remove_contains(s, b, rest[a]);
            } else {
                assert(t[j] == t2[j - 1]);
            }
        }
        assert((top(s, n) + rest).to_multiset() == s.to_multiset());
    }
}

/// The headword of a suggested word.
pub open spec fn headword_of(es: Seq<EntryV>, k: Seq<char>) -> Seq<char> {
    match dict_get(es, k) {
        Some((h, _)) => h,
        None => k,
    }
}

/// Words joined with `", "`.
pub open spec fn join_comma(parts: Seq<Seq<char>>) -> Seq<char>
    decreases parts.len(),
{
    if parts.len() == 0 {
        seq![]
    } else if parts.len() == 1 {
        parts[0]
    } else {
        join_comma(parts.drop_last()) + ", "@ + parts.last()
    }
}

/// The candidates examined for `word` among the words `ws`: the
/// length-compatible words sharing its first character, then the others,
/// each in dictionary order, at most `MAX_CANDIDATES` in all.
pub open spec fn examined(ws: Seq<Seq<char>>, word: Seq<char>) -> Seq<Seq<char>> {
    let all = candidate_pool(ws, word, true) + candidate_pool(ws, word, false);
    if all.len() <= MAX_CANDIDATES { all } else { all.take(MAX_CANDIDATES as int) }
}

proof fn lemma_pool_bound(ws: Seq<Seq<char>>, word: Seq<char>, first: bool)
    ensures
        candidate_pool(ws, word, first).len() <= MAX_CANDIDATES,
    decreases ws.len(),
{
    if ws.len() > 0 {
        lemma_pool_bound(ws.drop_last(), word, first);
    }
}

/// The length-compatible words of `ws` whose first character is the first
/// character of `word`, in order.
pub open spec fn first_letter_words(ws: Seq<Seq<char>>, word: Seq<char>) -> Seq<Seq<char>> {
    ws.filter(|k: Seq<char>| length_compatible(k, word) && word.len() > 0 && k.len() > 0 && k[0] == word[0])
}

proof fn lemma_first_pool(ws: Seq<Seq<char>>, word: Seq<char>)
    ensures
        candidate_pool(ws, word, true) == if first_letter_words(ws, word).len() <= MAX_CANDIDATES {
            first_letter_words(ws, word)
        } else {
            first_letter_words(ws, word).take(MAX_CANDIDATES as int)
        },
    decreases ws.len(),
{
    reveal(Seq::filter);
    if ws.len() > 0 {
        let init = ws.drop_last();
        lemma_first_pool(init, word);
        let f = first_letter_words(init, word);
        let k = ws.last();
        let pred = |k: Seq<char>| length_compatible(k, word) && word.len() > 0 && k.len() > 0 && k[0] == word[0];
        assert(first_letter_words(ws, word) == if pred(k) { f.push(k) } else { f });
        if pred(k) && f.len() >= MAX_CANDIDATES {
            assert(f.push(k).take(MAX_CANDIDATES as int) =~= f.take(MAX_CANDIDATES as int));
            if f.len() == MAX_CANDIDATES {
                assert(f.take(MAX_CANDIDATES as int) =~= f);
            }
        }
    }
}

/// Typos keep the first character: the words examined for suggestions
/// begin with every length-compatible word that shares the looked-up
/// word's first character, in dictionary order (as many as the cap
/// allows), ahead of all other words.
pub proof fn lemma_first_letter_examined_first(ws: Seq<Seq<char>>, word: Seq<char>)
    ensures
        ({
            let f = first_letter_words(ws, word);
            let m = if f.len() <= MAX_CANDIDATES { f.len() as int } else { MAX_CANDIDATES as int };
            examined(ws, word).len() >= m && examined(ws, word).take(m) == f.take(m)
        }),
{
    lemma_first_pool(ws, word);
    lemma_pool_bound(ws, word, false);
    let f = first_letter_words(ws, word);
    let m = if f.len() <= MAX_CANDIDATES { f.len() as int } else { MAX_CANDIDATES as int };
    let p = candidate_pool(ws, word, true);
    let all = p + candidate_pool(ws, word, false);
    assert(p.len() == m);
    assert(all.take(m) =~= p);
    if all.len() > MAX_CANDIDATES {
        assert(all.take(MAX_CANDIDATES as int).take(m) =~= p);
    }
    assert(f.take(m) =~= p);
}

/// The suggestions for `word`, not in the dictionary `es`: the five best
/// of the candidates examined.
pub open spec fn suggest_text(word: Seq<char>, es: Seq<EntryV>) -> Seq<char> {
    let ws = entry_words(es);
    let cands = examined(ws, word);
    let best = top(scored(word, cands), 5);
    if best.len() == 0 {
        "Not found: "@ + word + "\n\nNo suggestions available."@
    } else {
        "Not found: "@ + word + "\n\nDid you mean: "@ + join_comma(best.map_values(|x: (nat, Seq<char>)| headword_of(es, x.1)))
            + "?"@
    }
}

/// The answer to a lookup of `word`: the dictionary is still loading
/// (`None`), not available (`Some(None)`), or loaded with entries `es`.
pub open spec fn lookup_answer(word: Seq<char>, dict: Option<Option<Seq<EntryV>>>) -> Seq<char> {
    let wl = lowercase(word);
    match dict {
        None => "Dictionary is still loading \u{2014} try again in a moment."@,
        Some(None) => "Dictionary not available: "@ + wl,
        Some(Some(es)) => match dict_get(es, wl) {
            Some((h, d)) => found_text(h, d),
            None => {
                let st = strip_punctuation(wl);
                if st != wl && dict_get(es, st) is Some {
                    found_text(dict_get(es, st)->Some_0.0, dict_get(es, st)->Some_0.1)
                } else {
                    suggest_text(wl, es)
                }
            },
        },
    }
}

/// The state of a dictionary that may still be loading, seen as entries.
pub open spec fn dict_state(dict: Option<&Option<Dictionary>>) -> Option<Option<Seq<EntryV>>> {
    match dict {
        None => None,
        Some(None) => Some(None),
        Some(Some(d)) => Some(Some(d.view_entries())),
    }
}

/// Looks up a word in the dictionary.
///
/// First tries exact lowercase match, then retries with punctuation
/// stripped.  If no exact match is found, returns deterministic
/// suggestions limited to `MAX_CANDIDATES` candidates.  `dict` is the
/// dictionary's loading state: `None` while the load has not finished
/// (the answer is then a friendly "still loading" message), `Some(None)`
/// when no dictionary could be loaded.
pub fn lookup_word(word: &str, dict: Option<&Option<Dictionary>>) -> (r: String)
    ensures
        r@ == lookup_answer(word@, dict_state(dict)),
{
    let word_lower = to_lower(word);
    match dict {
        None => string_from_chars(str_chars("Dictionary is still loading \u{2014} try again in a moment.").as_slice()),
        Some(None) => {
            let mut v: Vec<char> = Vec::new();
            push_str(&mut v, "Dictionary not available: ");
            push_str(&mut v, word_lower.as_str());
            string_from_chars(v.as_slice())
        },
        Some(Some(d)) => {
            match d.get(word_lower.as_str()) {
                Some(def) => {
                    return found(def);
                },
                None => {},
            }
            let wl = str_chars(word_lower.as_str());
            let stripped = strip_exec(&wl);
            if !chars_eq(&stripped, &wl) {
                let st = string_from_chars(stripped.as_slice());
                match d.get(st.as_str()) {
                    Some(def) => {
                        return found(def);
                    },
                    None => {},
                }
            }
            suggest_word(word_lower.as_str(), d)
        },
    }
}

fn found(def: &Definition) -> (r: String)
    ensures
        r@ == found_text(def.headword@, def.definition@),
{
    let mut v: Vec<char> = Vec::new();
    push_str(&mut v, def.headword.as_str());
    push_str(&mut v, "\n\nfound: ");
    push_str(&mut v, def.headword.as_str());
    push_str(&mut v, "\n");
    push_str(&mut v, def.definition.as_str());
    string_from_chars(v.as_slice())
}

fn strip_exec(w: &Vec<char>) -> (r: Vec<char>)
    ensures
        r@ == strip_punctuation(w@),
{
    let mut r: Vec<char> = Vec::new();
    let mut i: usize = 0;
    while i < w.len()
        invariant
            i <= w@.len(),
            r@ == strip_punctuation(w@.take(i as int)),
        decreases w@.len() - i,
    {
        assert(w@.take(i + 1).drop_last() =~= w@.take(i as int));
        let c = w[i];
        if char_is_alphanumeric(c) || c == '-' {
            r.push(c);
        }
        i += 1;
    }
    assert(w@.take(i as int) =~= w@);
    r
}


/// Whether the byte `x` occurs in `b`.
fn bytes_contain(b: &[u8], x: u8) -> (r: bool)
    ensures
        r == b@.contains(x),
{
    let mut i: usize = 0;
    while i < b.len()
        invariant
            i <= b@.len(),
            forall|j: int| 0 <= j < i ==> b@[j] != x,
        decreases b@.len() - i,
    {
        if b[i] == x {
            assert(b@[i as int] == x);
            return true;
        }
        i += 1;
    }
    false
}

/// Computes a simple similarity score between two strings.
///
/// Uses character overlap and edit-distance heuristics.
fn similarity_score(a: &str, b: &str) -> (s: u128)
    ensures
        s == similarity(a@, b@),
{
    let ab = a.as_bytes();
    let bb = b.as_bytes();
    let la = ab.len();
    let lb = bb.len();
    let diff = if la >= lb { la - lb } else { lb - la };
    if diff > 3 {
        return 0;
    }
    let mut common: u128 = 0;
    let mut i: usize = 0;
    while i < la
        invariant
            i <= la,
            la == ab@.len(),
            common == count_common(ab@.take(i as int), bb@),
            common <= i,
        decreases la - i,
    {
        assert(ab@.take(i + 1).drop_last() =~= ab@.take(i as int));
        assert(ab@.take(i + 1).last() == ab@[i as int]);
        if bytes_contain(bb, ab[i]) {
            common += 1;
        }
        i += 1;
    }
    assert(ab@.take(la as int) =~= ab@);
    if common < (la / 2) as u128 {
        return 0;
    }
    let ac = str_chars(a);
    let bc = str_chars(b);
    let mut p: usize = 0;
    assert(ac@.skip(0) =~= ac@);
    assert(bc@.skip(0) =~= bc@);
    while p < ac.len() && p < bc.len() && ac[p] == bc[p]
        invariant
            p <= ac@.len(),
            p <= bc@.len(),
            common_prefix(a@, b@) == p + common_prefix(ac@.skip(p as int), bc@.skip(p as int)),
        decreases ac@.len() - p,
    {
        assert(ac@.skip(p as int).skip(1) =~= ac@.skip(p + 1));
        assert(bc@.skip(p as int).skip(1) =~= bc@.skip(p + 1));
        p += 1;
    }
    common + 2 * (p as u128)
}

/// The words of entries given by their indices.
pub open spec fn idx_words(ws: Seq<Seq<char>>, idx: Seq<usize>) -> Seq<Seq<char>> {
    idx.map_values(|j: usize| ws[j as int])
}

/// Scored candidates given by entry index, seen with their words.
pub open spec fn scored_view(ws: Seq<Seq<char>>, sc: Seq<(u128, usize)>) -> Seq<(nat, Seq<char>)> {
    sc.map_values(|x: (u128, usize)| (x.0 as nat, ws[x.1 as int]))
}

/// The headwords of ranked candidates.
pub open spec fn heads(es: Seq<EntryV>, t: Seq<(nat, Seq<char>)>) -> Seq<Seq<char>> {
    t.map_values(|x: (nat, Seq<char>)| headword_of(es, x.1))
}

/// Index of the best-ranked scored candidate.
fn best_exec(dict: &Dictionary, s: &Vec<(u128, usize)>) -> (b: usize)
    requires
        s@.len() > 0,
        forall|j: int| 0 <= j < s@.len() ==> (#[trigger] s@[j]).1 < dict.entries@.len(),
    ensures
        b == best_index(scored_view(entry_words(dict.view_entries()), s@)),
        b < s@.len(),
{
    let ghost ws = entry_words(dict.view_entries());
    let ghost sv = scored_view(ws, s@);
    let mut b: usize = 0;
    let mut j: usize = 1;
    assert(sv.take(1).len() == 1);
    while j < s.len()
        invariant
            1 <= j <= s@.len(),
            b < j,
            ws == entry_words(dict.view_entries()),
            sv == scored_view(ws, s@),
            forall|k: int| 0 <= k < s@.len() ==> (#[trigger] s@[k]).1 < dict.entries@.len(),
            b == best_index(sv.take(j as int)),
        decreases s@.len() - j,
    {
        assert(sv.take(j + 1).drop_last() =~= sv.take(j as int));
        let x = s[j];
        let y = s[b];
        assert(ws[x.1 as int] == dict.entries@[x.1 as int].0@);
        assert(ws[y.1 as int] == dict.entries@[y.1 as int].0@);
        let before = x.0 > y.0 || (x.0 == y.0 && chars_lt(
            &str_chars(dict.entries[x.1].0.as_str()),
            &str_chars(dict.entries[y.1].0.as_str()),
        ));
        if before {
            b = j;
        }
        j += 1;
    }
    assert(sv.take(j as int) =~= sv);
    b
}

/// Generates deterministic suggestions for a misspelled word.
///
/// Examines up to `MAX_CANDIDATES` length-compatible words in all, those
/// sharing the word's first character first, each kind in dictionary
/// order, and names the best matches.
fn suggest_word(word: &str, dict: &Dictionary) -> (r: String)
    ensures
        r@ == suggest_text(word@, dict.view_entries()),
{
    let ghost es = dict.view_entries();
    let ghost ws = entry_words(es);
    let wc = str_chars(word);
    let t: u128 = word.as_bytes().len() as u128;
    let min_len: u128 = if t >= 2 { t - 2 } else { 0 };
    let max_len: u128 = t + 2;
    let mut pre: Vec<usize> = Vec::new();
    let mut oth: Vec<usize> = Vec::new();
    let mut i: usize = 0;
    assert(ws.take(0) =~= Seq::<Seq<char>>::empty());
    while i < dict.entries.len()
        invariant
            i <= dict.entries@.len(),
            es == dict.view_entries(),
            ws == entry_words(es),
            wc@ == word@,
            t == byte_len(word@),
            min_len == if t >= 2 { t - 2 } else { 0 },
            max_len == t + 2,
            idx_words(ws, pre@) == candidate_pool(ws.take(i as int), word@, true),
            idx_words(ws, oth@) == candidate_pool(ws.take(i as int), word@, false),
            forall|j: int| 0 <= j < pre@.len() ==> (#[trigger] pre@[j]) < i,
            forall|j: int| 0 <= j < oth@.len() ==> (#[trigger] oth@[j]) < i,
        decreases dict.entries@.len() - i,
    {
        assert(ws.take(i + 1).drop_last() =~= ws.take(i as int));
        assert(ws.take(i + 1).last() == ws[i as int]);
        assert(ws[i as int] == dict.entries@[i as int].0@);
        let k = dict.entries[i].0.as_str();
        let kl: u128 = k.as_bytes().len() as u128;
        if kl >= min_len && kl <= max_len {
            let kc = str_chars(k);
            let sf = wc.len() > 0 && kc.len() > 0 && kc[0] == wc[0];
            if sf {
                if pre.len() < MAX_CANDIDATES {
                    let ghost before = pre@;
                    pre.push(i);
                    assert(idx_words(ws, pre@) =~= idx_words(ws, before).push(ws[i as int]));
                }
            } else if oth.len() < MAX_CANDIDATES {
                let ghost before = oth@;
                oth.push(i);
                assert(idx_words(ws, oth@) =~= idx_words(ws, before).push(ws[i as int]));
            }
        }
        i += 1;
    }
    assert(ws.take(i as int) =~= ws);
    // All candidates, those sharing the first character first.
    let mut cands: Vec<usize> = pre;
    let ghost pv = cands@;
    let mut j: usize = 0;
    proof {
        lemma_pool_bound(ws, word@, true);
        assert(idx_words(ws, pv).len() == pv.len());
    }
    while j < oth.len() && cands.len() < MAX_CANDIDATES
        invariant
            j <= oth@.len(),
            cands@ == pv + oth@.take(j as int),
            pv.len() <= MAX_CANDIDATES,
            cands@.len() <= MAX_CANDIDATES,
        decreases oth@.len() - j,
    {
        cands.push(oth[j]);
        assert(oth@.take(j + 1) =~= oth@.take(j as int).push(oth@[j as int]));
        j += 1;
    }
    let ghost all = candidate_pool(ws, word@, true) + candidate_pool(ws, word@, false);
    proof {
        let full = pv + oth@;
        assert(idx_words(ws, full) =~= all);
        assert(all.len() == full.len());
        if j == oth@.len() {
            assert(oth@.take(j as int) =~= oth@);
            assert(cands@ =~= full);
            assert(examined(ws, word@) == all);
        } else {
            assert(cands@.len() == MAX_CANDIDATES);
            assert(cands@ =~= full.take(MAX_CANDIDATES as int));
            assert(examined(ws, word@) == all.take(MAX_CANDIDATES as int));
            assert(idx_words(ws, cands@) =~= all.take(MAX_CANDIDATES as int));
        }
    }
    assert(idx_words(ws, cands@) =~= examined(ws, word@));
    let ghost ex = examined(ws, word@);
    // Score them.
    let mut sc: Vec<(u128, usize)> = Vec::new();
    let mut c: usize = 0;
    while c < cands.len()
        invariant
            c <= cands@.len(),
            es == dict.view_entries(),
            ws == entry_words(es),
            idx_words(ws, cands@) == ex,
            forall|q: int| 0 <= q < cands@.len() ==> (#[trigger] cands@[q]) < dict.entries@.len(),
            forall|q: int| 0 <= q < sc@.len() ==> (#[trigger] sc@[q]).1 < dict.entries@.len(),
            scored_view(ws, sc@) == scored(word@, ex.take(c as int)),
        decreases cands@.len() - c,
    {
        assert(ex.take(c + 1).drop_last() =~= ex.take(c as int));
        assert(ex.take(c + 1).last() == ws[cands@[c as int] as int]);
        let idx = cands[c];
        assert(ws[idx as int] == dict.entries@[idx as int].0@);
        let score = similarity_score(word, dict.entries[idx].0.as_str());
        if score > 0 {
            let ghost before = sc@;
            sc.push((score, idx));
            assert(scored_view(ws, sc@) =~= scored_view(ws, before).push((score as nat, ws[idx as int])));
        }
        c += 1;
    }
    assert(ex.take(c as int) =~= ex);
    // Take the five best.
    let ghost s0 = scored_view(ws, sc@);
    let mut remaining = sc;
    let mut names: Vec<String> = Vec::new();
    let mut n: usize = 0;
    while n < 5 && remaining.len() > 0
        invariant
            n <= 5,
            es == dict.view_entries(),
            ws == entry_words(es),
            forall|q: int| 0 <= q < remaining@.len() ==> (#[trigger] remaining@[q]).1 < dict.entries@.len(),
            crate::epub::package::strings_view(names@) + heads(es, top(scored_view(ws, remaining@), (5 - n) as nat))
                == heads(es, top(s0, 5)),
        decreases 5 - n,
    {
        let b = best_exec(dict, &remaining);
        let ghost rv = scored_view(ws, remaining@);
        let (_, idx) = remaining.remove(b);
        assert(scored_view(ws, remaining@) =~= rv.remove(b as int));
        let key = dict.entries[idx].0.as_str();
        assert(ws[idx as int] == dict.entries@[idx as int].0@);
        let hw = match dict.get(key) {
            Some(d) => string_from_chars(str_chars(d.headword.as_str()).as_slice()),
            None => string_from_chars(str_chars(key).as_slice()),
        };
        let ghost before = crate::epub::package::strings_view(names@);
        names.push(hw);
        proof {
            let m = (5 - n) as nat;
            assert(top(rv, m) == seq![rv[b as int]] + top(rv.remove(b as int), (m - 1) as nat));
            assert(heads(es, top(rv, m)) =~= seq![headword_of(es, rv[b as int].1)] + heads(es, top(rv.remove(b as int), (m - 1) as nat)));
            assert(crate::epub::package::strings_view(names@) =~= before.push(hw@));
        }
        n += 1;
    }
    let ghost best = top(s0, 5);
    let ghost hv = heads(es, best);
    assert(crate::epub::package::strings_view(names@) =~= hv);
    let mut v: Vec<char> = Vec::new();
    push_str(&mut v, "Not found: ");
    push_str(&mut v, word);
    if names.len() == 0 {
        push_str(&mut v, "\n\nNo suggestions available.");
        return string_from_chars(v.as_slice());
    }
    push_str(&mut v, "\n\nDid you mean: ");
    let ghost v0 = v@;
    push_str(&mut v, names[0].as_str());
    let mut k: usize = 1;
    assert(hv.take(1) =~= seq![hv[0]]);
    while k < names.len()
        invariant
            1 <= k <= names@.len(),
            hv == crate::epub::package::strings_view(names@),
            v@ == v0 + join_comma(hv.take(k as int)),
        decreases names@.len() - k,
    {
        assert(hv.take(k + 1).drop_last() =~= hv.take(k as int));
        push_str(&mut v, ", ");
        push_str(&mut v, names[k].as_str());
        k += 1;
    }
    assert(hv.take(k as int) =~= hv);
    push_str(&mut v, "?");
    string_from_chars(v.as_slice())
}

} // verus!
