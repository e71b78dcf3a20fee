//! The reader application's state and its key handling.
//!
//! [`App`] holds what the screen shows and reacts to keys.  Work that needs
//! the outside world (reading a directory, reading a book file, the
//! dictionary) is not done here: a key that needs it leaves an
//! [`AppAction`] in `pending`, which the caller performs before handing the
//! outcome back (`set_picker_entries`, `open_picked`, `set_dictionary_result`).

use vstd::prelude::*;
use crate::{EpubBook, StyledSegment};
use crate::epub::archive::zip_opened;
use crate::error::EpubError;
use crate::layout::{pages_view, paginate_spec, Run, book_text, matches_at, first_match_at, page_holds};
use crate::state::{StateStore, position_of, bookmark_of, global_str_of, global_bool_of, lower_hex, sha1_digest};
use crate::text::{str_chars, string_from_chars, push_str, lowercase, to_lower};
use crate::ui::theme::{Theme, theme_from_name, theme_next};
use vstd::string::StringSliceAdditionalSpecFns;

verus! {

#[derive(Debug, Clone, Copy, PartialEq, Eq, Structural)]
pub enum Mode {
    Reader,
    Toc,
    Search,
    Picker,
    Popup,
    Help,
    Dictionary,
}

/// A key, as the terminal reports it.
#[derive(Debug, Clone, Copy, PartialEq, Eq, Structural)]
pub enum KeyCode {
    Left,
    Right,
    Up,
    Down,
    PageUp,
    PageDown,
    Enter,
    Esc,
    Backspace,
    Char(char),
    /// Any other key.
    Other,
}

/// A key press: the key, and whether the modifiers held were exactly
/// Control.
#[derive(Debug, Clone, Copy, PartialEq, Eq, Structural)]
pub struct Key {
    pub code: KeyCode,
    pub ctrl: bool,
}

/// An entry of the file picker.
#[derive(Debug, Clone)]
pub struct PickerEntry {
    pub name: String,
    pub is_dir: bool,
    pub is_epub: bool,
}

/// Outside work the application asks for.
#[derive(Debug)]
pub enum AppAction {
    /// Re-read the picker directory (`set_picker_entries`).
    RefreshPicker,
    /// Move the picker to the parent directory and re-read it.
    PickerParent,
    /// Move the picker into the subdirectory of this name and re-read it.
    PickerEnter(String),
    /// Open the EPUB of this name in the picker directory (`open_picked`).
    PickerOpen(String),
    /// Look this word up in the dictionary (`set_dictionary_result`).
    Lookup(String),
}

/// The message of the quit confirmation.
pub open spec fn quit_prompt() -> Seq<char> {
    "Quit? (y/n)"@
}

pub struct App {
    pub book: Option<EpubBook>,
    pub book_path: Option<String>,
    pub chapter_index: usize,
    pub page_index: usize,
    pub total_pages: usize,
    pub pages: Vec<Vec<Vec<StyledSegment>>>,
    pub mode: Mode,
    pub show_header: bool,
    pub justify: bool,
    pub theme: Theme,
    pub use_css: bool,
    pub terminal_size: (u16, u16),
    pub search_query: String,
    pub search_result_page: Option<usize>,
    pub popup_message: Option<String>,
    /// Whether the open popup is an error (red) vs. informational (blue).
    pub popup_is_error: bool,
    pub toc_index: usize,
    pub picker_dir: String,
    pub picker_entries: Vec<PickerEntry>,
    pub picker_filter: String,
    pub picker_filtering: bool,
    pub picker_selected: usize,
    pub dictionary_word: String,
    pub dictionary_result: Option<String>,
    pub state_store: Option<StateStore>,
    pub should_quit: bool,
    /// Outside work asked for by the last key, if any.
    pub pending: Option<AppAction>,
}

/// The pages of chapter `ch` of `app`'s book at its screen size and
/// settings, when there is a book with that chapter.
pub open spec fn chapter_pages(app: App, ch: usize) -> Option<Seq<Seq<Seq<Run>>>> {
    match app.book {
        Some(b) => if ch < b.book_chapters().len() {
            Some(paginate_spec(
                b.book_chapters()[ch as int]@,
                app.terminal_size.0 as nat,
                app.terminal_size.1 as nat,
                app.show_header,
                app.justify,
            ))
        } else {
            None
        },
        None => None,
    }
}

/// `b` is `a` re-paginated at chapter `ch` with page `page` wanted: with
/// the chapter available the pages are recomputed and the page clamped to
/// the last one; otherwise the pages stay and the page is taken as is.
pub open spec fn repaginated(a: App, b: App, ch: usize, page: usize) -> bool {
    &&& b.chapter_index == ch
    &&& match chapter_pages(a, ch) {
        Some(ps) => {
            &&& pages_view(b.pages@) == ps
            &&& b.total_pages == b.pages@.len()
            &&& b.page_index == if page >= b.total_pages {
                if b.total_pages > 0 { (b.total_pages - 1) as usize } else { 0 }
            } else {
                page
            }
        },
        None => b.pages == a.pages && b.total_pages == a.total_pages && b.page_index == page,
    }
    &&& b == App { chapter_index: b.chapter_index, page_index: b.page_index, total_pages: b.total_pages, pages: b.pages, ..a }
}

/// `b` is `a` showing the quit confirmation.
pub open spec fn quit_asked(a: App, b: App) -> bool {
    &&& b.popup_message matches Some(m) && m@ == quit_prompt()
    &&& b == App { popup_message: b.popup_message, popup_is_error: false, mode: Mode::Popup, ..a }
}

/// `b` is `a` with its overlay closed: back to the reader with a book open,
/// else (the picker being the home screen) asking whether to quit.
pub open spec fn overlay_closed(a: App, b: App) -> bool {
    if a.book is Some {
        b == App { mode: Mode::Reader, ..a }
    } else {
        quit_asked(a, b)
    }
}

/// `b` is `a` after moving to the previous chapter, if any.
pub open spec fn went_prev_chapter(a: App, b: App) -> bool {
    if a.chapter_index > 0 {
        repaginated(a, b, (a.chapter_index - 1) as usize, 0)
    } else {
        b == a
    }
}

/// `b` is `a` after moving to the next chapter, if any.
pub open spec fn went_next_chapter(a: App, b: App) -> bool {
    if a.book is Some && a.chapter_index + 1 < a.chapter_count() {
        repaginated(a, b, (a.chapter_index + 1) as usize, 0)
    } else {
        b == a
    }
}

/// The page after `page` in a book of `n` pages (the same page at the end).
pub open spec fn page_after(page: usize, n: nat) -> usize {
    if page + 1 < n { (page + 1) as usize } else { page }
}

/// The page before `page` (the same page at the start).
pub open spec fn page_before(page: usize) -> usize {
    if page > 0 { (page - 1) as usize } else { 0 }
}

/// The state key of the open book: the SHA-1 of its path, in hexadecimal.
pub open spec fn book_key_of(path: Seq<char>) -> Seq<char> {
    lower_hex(sha1_digest(vstd::utf8::encode_utf8(path)))
}

/// Whether a held key's auto-repeat is acted on in `mode`: navigation and
/// typing repeat; toggles and destructive keys do not.
pub open spec fn repeat_safe(mode: Mode, filtering: bool, code: KeyCode) -> bool {
    match mode {
        Mode::Reader => code == KeyCode::Left || code == KeyCode::Right || code == KeyCode::Up
            || code == KeyCode::Down || code == KeyCode::PageUp || code == KeyCode::PageDown
            || code == KeyCode::Char('f') || code == KeyCode::Char('l'),
        Mode::Search | Mode::Dictionary | Mode::Toc => true,
        Mode::Picker => filtering || code == KeyCode::Up || code == KeyCode::Down
            || code == KeyCode::Char('j') || code == KeyCode::Char('k'),
        Mode::Popup | Mode::Help => false,
    }
}

/// The key asks to quit: `q` outside the modes where it is text (search,
/// dictionary, the picker's filter), outside the popup, where it cancels,
/// and outside the help screen, which it closes.
pub open spec fn quit_key(a: App, k: Key) -> bool {
    k.code == KeyCode::Char('q') && !(a.mode == Mode::Dictionary || a.mode == Mode::Search || a.mode == Mode::Popup
        || a.mode == Mode::Help)
        && !(a.mode == Mode::Picker && a.picker_filtering)
}

/// `b` is `a` moved to page `p` of chapter `c`: the chapter is paginated
/// when it is not the current one, and the page is clamped to the last
/// page.
pub open spec fn repositioned(a: App, b: App, c: usize, p: usize) -> bool {
    &&& b.chapter_index == c
    &&& if c != a.chapter_index {
        match chapter_pages(a, c) {
            Some(ps) => pages_view(b.pages@) == ps && b.total_pages == b.pages@.len(),
            None => b.pages == a.pages && b.total_pages == a.total_pages,
        }
    } else {
        b.pages == a.pages && b.total_pages == a.total_pages
    }
    &&& b.page_index == if p < b.pages@.len() { p } else if b.pages@.len() > 0 { (b.pages@.len() - 1) as usize } else { 0 }
    &&& b == App { chapter_index: b.chapter_index, page_index: b.page_index, total_pages: b.total_pages, pages: b.pages, ..a }
}

/// The state store's saved reading position of the book at `path`, or the
/// start when there is no store.
pub open spec fn saved_position(store: Option<StateStore>, path: Seq<char>) -> (usize, usize) {
    match store {
        Some(st) => position_of(st.doc(), book_key_of(path)),
        None => (0, 0),
    }
}

/// The page `p`, clamped to the last of `n` pages.
pub open spec fn clamp_page(p: usize, n: nat) -> usize {
    if p < n { p } else if n > 0 { (n - 1) as usize } else { 0 }
}

/// A picker entry seen as name, directory, EPUB.
pub type EntryV = (Seq<char>, bool, bool);

pub open spec fn entry_view(e: PickerEntry) -> EntryV {
    (e.name@, e.is_dir, e.is_epub)
}

pub open spec fn entries_view(v: Seq<PickerEntry>) -> Seq<EntryV> {
    v.map_values(|e: PickerEntry| entry_view(e))
}

/// The key names are sorted by: their ASCII lower-case form.
pub open spec fn name_key(s: Seq<char>) -> Seq<char> {
    crate::text::lower(s)
}

/// Where `x` goes in the sorted `t`: after every name whose key does not
/// come after `x`'s.
pub open spec fn insert_pos(t: Seq<Seq<char>>, x: Seq<char>) -> int
    decreases t.len(),
{
    if t.len() == 0 {
        0
    } else if crate::dictionary::seq_lt(name_key(x), name_key(t[0])) {
        0
    } else {
        1 + insert_pos(t.skip(1), x)
    }
}

/// The names sorted by `name_key`, equal keys in their original order.
pub open spec fn sort_names(s: Seq<Seq<char>>) -> Seq<Seq<char>>
    decreases s.len(),
{
    if s.len() == 0 {
        s
    } else {
        let t = sort_names(s.drop_last());
        t.insert(insert_pos(t, s.last()), s.last())
    }
}

pub proof fn lemma_insert_pos_range(t: Seq<Seq<char>>, x: Seq<char>)
    ensures
        0 <= insert_pos(t, x) <= t.len(),
    decreases t.len(),
{
    if t.len() > 0 {
        lemma_insert_pos_range(t.skip(1), x);
    }
}

pub proof fn lemma_sort_names_len(s: Seq<Seq<char>>)
    ensures
        sort_names(s).len() == s.len(),
    decreases s.len(),
{
    if s.len() > 0 {
        lemma_sort_names_len(s.drop_last());
        lemma_insert_pos_range(sort_names(s.drop_last()), s.last());
    }
}

/// The names are in order of `name_key`.
pub open spec fn names_sorted(t: Seq<Seq<char>>) -> bool {
    forall|i: int, j: int| 0 <= i < j < t.len() ==> !crate::dictionary::seq_lt(name_key(#[trigger] t[j]), name_key(#[trigger] t[i]))
}

proof fn lemma_insert_pos(t: Seq<Seq<char>>, x: Seq<char>)
    ensures
        0 <= insert_pos(t, x) <= t.len(),
        forall|j: int| 0 <= j < insert_pos(t, x) ==> !crate::dictionary::seq_lt(name_key(x), name_key(#[trigger] t[j])),
        insert_pos(t, x) < t.len() ==> crate::dictionary::seq_lt(name_key(x), name_key(t[insert_pos(t, x)])),
    decreases t.len(),
{
    if t.len() > 0 && !crate::dictionary::seq_lt(name_key(x), name_key(t[0])) {
        lemma_insert_pos(t.skip(1), x);
        assert forall|j: int| 0 <= j < insert_pos(t, x) implies !crate::dictionary::seq_lt(name_key(x), name_key(#[trigger] t[j])) by {
            if j > 0 {
                assert(t[j] == t.skip(1)[j - 1]);
            }
        }
        if insert_pos(t, x) < t.len() {
            assert(t[insert_pos(t, x)] == t.skip(1)[insert_pos(t.skip(1), x)]);
        }
    }
}

/// `a` comes before `b`, or they are equal.
proof fn lemma_lt_le(a: Seq<char>, b: Seq<char>, c: Seq<char>)
    requires
        crate::dictionary::seq_lt(a, b),
        !crate::dictionary::seq_lt(c, b),
    ensures
        crate::dictionary::seq_lt(a, c),
        !crate::dictionary::seq_lt(c, a),
{
    if b != c {
        crate::dictionary::lemma_seq_lt_total(b, c);
        crate::dictionary::lemma_seq_lt_transitive(a, b, c);
    }
    if crate::dictionary::seq_lt(c, a) {
        crate::dictionary::lemma_seq_lt_transitive(c, a, c);
        crate::dictionary::lemma_seq_lt_irreflexive(c);
    }
}

/// The picker's names come out in order of their ASCII lower-case forms.
pub proof fn lemma_sort_names_sorted(s: Seq<Seq<char>>)
    ensures
        names_sorted(sort_names(s)),
    decreases s.len(),
{
    if s.len() > 0 {
        lemma_sort_names_sorted(s.drop_last());
        let t = sort_names(s.drop_last());
        let x = s.last();
        let p = insert_pos(t, x);
        lemma_insert_pos(t, x);
        let u = t.insert(p, x);
        assert forall|i: int, j: int| 0 <= i < j < u.len()
            implies !crate::dictionary::seq_lt(name_key(#[trigger] u[j]), name_key(#[trigger] u[i])) by {
            if j < p {
                assert(u[i] == t[i] && u[j] == t[j]);
            } else if j == p {
                assert(u[i] == t[i] && u[j] == x);
            } else if i < p {
                assert(u[i] == t[i] && u[j] == t[j - 1]);
                if p < t.len() {
                    if p < j - 1 {
                        assert(!crate::dictionary::seq_lt(name_key(t[j - 1]), name_key(t[p])));
                    }
                    crate::dictionary::lemma_seq_lt_irreflexive(name_key(t[p]));
                    lemma_lt_le(name_key(x), name_key(t[p]), name_key(t[j - 1]));
                    if crate::dictionary::seq_lt(name_key(t[j - 1]), name_key(t[i])) {
                        assert(!crate::dictionary::seq_lt(name_key(x), name_key(t[i])));
                        if name_key(x) != name_key(t[i]) {
                            crate::dictionary::lemma_seq_lt_total(name_key(x), name_key(t[i]));
                            crate::dictionary::lemma_seq_lt_transitive(name_key(t[j - 1]), name_key(t[i]), name_key(x));
                        }
                    }
                }
            } else if i == p {
                assert(u[i] == x && u[j] == t[j - 1]);
                if p < j - 1 {
                    assert(!crate::dictionary::seq_lt(name_key(t[j - 1]), name_key(t[p])));
                }
                crate::dictionary::lemma_seq_lt_irreflexive(name_key(t[p]));
                lemma_lt_le(name_key(x), name_key(t[p]), name_key(t[j - 1]));
            } else {
                assert(u[i] == t[i - 1] && u[j] == t[j - 1]);
            }
        }
    }
}

/// The picker's entries: `..` when there is a parent directory, then the
/// directories, then the EPUB files, each sorted by name ignoring ASCII
/// case.
pub open spec fn picker_listing(has_parent: bool, dirs: Seq<Seq<char>>, epubs: Seq<Seq<char>>) -> Seq<EntryV> {
    (if has_parent { seq![(".."@, true, false)] } else { Seq::<EntryV>::empty() })
        + sort_names(dirs).map_values(|n: Seq<char>| (n, true, false))
        + sort_names(epubs).map_values(|n: Seq<char>| (n, false, true))
}

/// `n` occurs in `h`.
pub open spec fn occurs_in(h: Seq<char>, n: Seq<char>) -> bool {
    exists|i: int| matches_at(h, n, i)
}

/// The entry name is kept by the filter: no filter, or the filter occurs in
/// the name, both lower-cased.
pub open spec fn filter_keeps(name: Seq<char>, filter: Seq<char>) -> bool {
    filter.len() == 0 || occurs_in(lowercase(name), lowercase(filter))
}

/// The indices of the entries the filter keeps, in order.
pub open spec fn filtered_indices(es: Seq<EntryV>, filter: Seq<char>) -> Seq<usize>
    decreases es.len(),
{
    if es.len() == 0 {
        seq![]
    } else {
        let p = filtered_indices(es.drop_last(), filter);
        if filter_keeps(es.last().0, filter) {
            p.push((es.len() - 1) as usize)
        } else {
            p
        }
    }
}

/// The pages of every chapter, in order.
pub open spec fn book_pages(chs: Seq<Vec<StyledSegment>>, w: nat, h: nat, header: bool, justify: bool) -> Seq<Seq<Seq<Run>>>
    decreases chs.len(),
{
    if chs.len() == 0 {
        seq![]
    } else {
        book_pages(chs.drop_last(), w, h, header, justify) + paginate_spec(chs.last()@, w, h, header, justify)
    }
}

/// The chapter and the page in it of page `k` of `book_pages`.
pub open spec fn page_origin(chs: Seq<Vec<StyledSegment>>, w: nat, h: nat, header: bool, justify: bool, k: int) -> (usize, usize)
    decreases chs.len(),
{
    if chs.len() == 0 {
        (0, 0)
    } else {
        let before = book_pages(chs.drop_last(), w, h, header, justify).len();
        if k < before {
            page_origin(chs.drop_last(), w, h, header, justify, k)
        } else {
            ((chs.len() - 1) as usize, (k - before) as usize)
        }
    }
}

/// Page `k` of the book is page `p` of chapter `c`, where `(c, p)` is its
/// origin: `c` is a chapter, `p` a page of that chapter's own pagination,
/// and `k` counts the pages of the chapters before `c`, then `p`.
pub proof fn lemma_page_origin(chs: Seq<Vec<StyledSegment>>, w: nat, h: nat, header: bool, justify: bool, k: int)
    requires
        0 <= k < book_pages(chs, w, h, header, justify).len(),
        chs.len() <= usize::MAX,
        book_pages(chs, w, h, header, justify).len() <= usize::MAX,
    ensures
        ({
            let (c, p) = page_origin(chs, w, h, header, justify, k);
            &&& c < chs.len()
            &&& p < paginate_spec(chs[c as int]@, w, h, header, justify).len()
            &&& k == book_pages(chs.take(c as int), w, h, header, justify).len() + p
            &&& book_pages(chs, w, h, header, justify)[k] == paginate_spec(chs[c as int]@, w, h, header, justify)[p as int]
        }),
    decreases chs.len(),
{
    let init = chs.drop_last();
    let before = book_pages(init, w, h, header, justify);
    let last = paginate_spec(chs.last()@, w, h, header, justify);
    assert(book_pages(chs, w, h, header, justify) == before + last);
    if k < before.len() {
        lemma_page_origin(init, w, h, header, justify, k);
        let (c, p) = page_origin(init, w, h, header, justify, k);
        assert(page_origin(chs, w, h, header, justify, k) == (c, p));
        assert(init[c as int] == chs[c as int]);
        assert(init.take(c as int) =~= chs.take(c as int));
        assert((before + last)[k] == before[k]);
    } else {
        let c = (chs.len() - 1) as usize;
        let p = (k - before.len()) as usize;
        assert(page_origin(chs, w, h, header, justify, k) == (c, p));
        assert(chs.take(chs.len() - 1) =~= init);
        assert(chs[c as int] == chs.last());
        assert((before + last)[k] == last[k - before.len()]);
    }
}

/// Search lands on the page holding the match: when the search of `q`
/// answers chapter `c` and page `p` (as `search_book` does, for the first
/// match at `i` lying on page `k` of the book), `p` is a page of chapter
/// `c`'s own pagination, and the first match starts on that page: page `p`
/// of chapter `c`, after the pages of all chapters before it.
pub proof fn lemma_search_lands_on_match(chs: Seq<Vec<StyledSegment>>, w: nat, h: nat, header: bool, justify: bool,
    q: Seq<char>, k: int, i: int)
    requires
        first_match_at(book_text(book_pages(chs, w, h, header, justify)), q, i),
        page_holds(book_pages(chs, w, h, header, justify), k, i),
        chs.len() <= usize::MAX,
        book_pages(chs, w, h, header, justify).len() <= usize::MAX,
    ensures
        ({
            let (c, p) = page_origin(chs, w, h, header, justify, k);
            let ps = book_pages(chs, w, h, header, justify);
            let kk = book_pages(chs.take(c as int), w, h, header, justify).len() + p;
            &&& c < chs.len()
            &&& p < paginate_spec(chs[c as int]@, w, h, header, justify).len()
            &&& ps[kk] == paginate_spec(chs[c as int]@, w, h, header, justify)[p as int]
            &&& page_holds(ps, kk, i)
        }),
{
    lemma_page_origin(chs, w, h, header, justify, k);
}

/// Whether `n` occurs in `h`.
fn chars_occur(h: &Vec<char>, n: &Vec<char>) -> (b: bool)
    ensures
        b == occurs_in(h@, n@),
{
    let hl = h.len();
    let nl = n.len();
    if nl > hl {
        assert forall|i: int| !matches_at(h@, n@, i) by {}
        return false;
    }
    let mut i: usize = 0;
    while i <= hl - nl
        invariant
            hl == h@.len(),
            nl == n@.len(),
            nl <= hl,
            i <= hl - nl + 1,
            forall|j: int| 0 <= j < i ==> !matches_at(h@, n@, j),
        decreases hl - nl + 1 - i,
    {
        let mut c: usize = 0;
        while c < nl && h[i + c] == n[c]
            invariant
                c <= nl,
                i + nl <= hl,
                hl == h@.len(),
                nl == n@.len(),
                forall|d: int| 0 <= d < c ==> h@[i + d] == n@[d],
            decreases nl - c,
        {
            c += 1;
        }
        if c == nl {
            assert(h@.subrange(i as int, i + nl) =~= n@);
            assert(matches_at(h@, n@, i as int));
            return true;
        }
        assert(!matches_at(h@, n@, i as int)) by {
            if matches_at(h@, n@, i as int) {
                assert(h@.subrange(i as int, i + nl)[c as int] == n@[c as int]);
            }
        }
        i += 1;
    }
    assert forall|j: int| !matches_at(h@, n@, j) by {
        if 0 <= j && j + nl <= hl {
            assert(j < i);
        }
    }
    false
}

/// The names sorted by their ASCII lower-case form, equal keys in their
/// original order.
fn sort_names_exec(names: Vec<String>) -> (r: Vec<String>)
    ensures
        crate::epub::package::strings_view(r@) == sort_names(crate::epub::package::strings_view(names@)),
{
    let ghost nv = crate::epub::package::strings_view(names@);
    let n: usize = names.len();
    let mut rest = names;
    let mut r: Vec<String> = Vec::new();
    let mut k: usize = 0;
    assert(nv.take(0) =~= Seq::<Seq<char>>::empty());
    while rest.len() > 0
        invariant
            k <= nv.len(),
            nv.len() == n,
            crate::epub::package::strings_view(rest@) == nv.skip(k as int),
            crate::epub::package::strings_view(r@) == sort_names(nv.take(k as int)),
        decreases rest@.len(),
    {
        assert(k < nv.len()) by {
            assert(crate::epub::package::strings_view(rest@).len() == rest@.len());
        }
        let ghost r0 = rest@;
        assert(crate::epub::package::strings_view(r0)[0] == r0[0]@);
        assert(nv.skip(k as int)[0] == nv[k as int]);
        let x = rest.remove(0);
        assert(rest@ =~= r0.skip(1));
        assert(crate::epub::package::strings_view(rest@) =~= crate::epub::package::strings_view(r0).skip(1));
        assert(crate::epub::package::strings_view(rest@) =~= nv.skip(k + 1));
        assert(nv.take(k + 1).drop_last() =~= nv.take(k as int));
        assert(nv.take(k + 1).last() == x@);
        let xk = crate::text::lower_exec(&str_chars(x.as_str()));
        let ghost t = crate::epub::package::strings_view(r@);
        let mut i: usize = 0;
        assert(t.skip(0) =~= t);
        while i < r.len() && !crate::dictionary::chars_lt(&xk, &crate::text::lower_exec(&str_chars(r[i].as_str())))
            invariant
                i <= r@.len(),
                t == crate::epub::package::strings_view(r@),
                xk@ == name_key(x@),
                insert_pos(t, x@) == i + insert_pos(t.skip(i as int), x@),
            decreases r@.len() - i,
        {
            assert(t.skip(i as int)[0] == t[i as int]);
            assert(t.skip(i as int).skip(1) =~= t.skip(i + 1));
            i += 1;
        }
        proof {
            if i < r@.len() {
                assert(t.skip(i as int)[0] == t[i as int]);
            }
        }
        r.insert(i, x);
        assert(crate::epub::package::strings_view(r@) =~= t.insert(i as int, x@));
        k += 1;
    }
    assert(nv.take(k as int) =~= nv);
    r
}

/// `b` is `a` with the book at `path` open: positioned at the state store's
/// saved position (the chapter clamped to the last one, the page to the
/// chapter's last page), or at the start, and recorded in the store as the
/// last book opened.  The book is the one the file's bytes `data` hold.
pub open spec fn opened(a: App, b: App, path: Seq<char>, data: Seq<u8>) -> bool {
    &&& b.book matches Some(bk) && bk.book_chapters().len() > 0 && (zip_opened(data) matches Ok(es)
        && exists|pk: crate::epub::package::Package| #[trigger] crate::book_read(es, a.use_css, pk, bk)) && {
        let (c, pg) = saved_position(a.state_store, path);
        let n = bk.book_chapters().len();
        let ch: usize = if c > 0 || pg > 0 { if c < n { c } else { (n - 1) as usize } } else { 0 };
        &&& b.chapter_index == ch
        &&& chapter_pages(b, ch) == Some(pages_view(b.pages@))
        &&& b.total_pages == b.pages@.len()
        &&& b.page_index == if c > 0 || pg > 0 { clamp_page(pg, b.pages@.len()) } else { 0 }
    }
    &&& b.book_path matches Some(p) && p@ == path
    &&& match a.state_store {
        Some(st) => b.state_store matches Some(st2) && st2.file_path() == st.file_path()
            && exists|s: String| s@ == path && st2.doc() == #[trigger] crate::state::with_field(
                st.doc(), "_global"@, "last_book_path"@, crate::state::JsonValue::Str(s)),
        None => b.state_store is None,
    }
    &&& b == App {
        book: b.book,
        book_path: b.book_path,
        chapter_index: b.chapter_index,
        page_index: b.page_index,
        total_pages: b.total_pages,
        pages: b.pages,
        state_store: b.state_store,
        ..a
    }
}

/// `b` is `a` showing the error popup for a book that could not be opened.
pub open spec fn open_failed(a: App, b: App, e: EpubError) -> bool {
    &&& b.popup_message matches Some(m) && m@ == "Cannot open: "@ + e.prefix() + e.message()
    &&& b == App { popup_message: b.popup_message, popup_is_error: true, mode: Mode::Popup, ..a }
}

/// `b` is `a` with the bookmark of its book set at the current position.
pub open spec fn bookmark_set(a: App, b: App) -> bool {
    match (a.state_store, a.book_path) {
        (Some(st), Some(path)) => {
            &&& b.state_store matches Some(st2) && st2.file_path() == st.file_path()
                && st2.doc() == crate::state::with_bookmark(st.doc(), book_key_of(path@), a.chapter_index, a.page_index)
            &&& b == App { state_store: b.state_store, ..a }
        },
        _ => b == a,
    }
}

/// `b` is `a` moved to its book's bookmark, if it has one.
pub open spec fn bookmark_visited(a: App, b: App) -> bool {
    match (a.state_store, a.book_path) {
        (Some(st), Some(path)) => match bookmark_of(st.doc(), book_key_of(path@)) {
            Some((c, p)) => repositioned(a, b, c, p),
            None => b == a,
        },
        _ => b == a,
    }
}

/// `b` is `a` with the reading position of its book and the settings
/// recorded in its state store, when it has a store and a book.
pub open spec fn state_saved(a: App, b: App) -> bool {
    match (a.state_store, a.book_path) {
        (Some(st), Some(path)) => {
            &&& b.state_store matches Some(st2) && st2.file_path() == st.file_path() && {
                let key = book_key_of(path@);
                let r1 = crate::state::with_position(st.doc(), key, a.chapter_index, a.page_index);
                exists|t: String| t@ == crate::ui::theme::theme_name(a.theme)
                    && st2.doc() == crate::state::with_field(
                        crate::state::with_field(
                            #[trigger] crate::state::with_field(r1, "_global"@, "theme"@, crate::state::JsonValue::Str(t)),
                            "_global"@, "show_header"@, crate::state::JsonValue::Bool(a.show_header)),
                        "_global"@, "justify_text"@, crate::state::JsonValue::Bool(a.justify))
            }
            &&& b == (App { state_store: b.state_store, ..a })
        },
        _ => b == a,
    }
}

/// After the state is saved, the saved position of the open book is the
/// reader's position, and the saved settings are the reader's.
pub proof fn lemma_saved_position(a: App, b: App)
    requires
        a.state_store is Some,
        a.book_path is Some,
        state_saved(a, b),
    ensures
        saved_position(b.state_store, a.book_path->Some_0@) == (a.chapter_index, a.page_index),
        global_str_of(b.state_store->Some_0.doc(), "theme"@) == Some(crate::ui::theme::theme_name(a.theme)),
        crate::state::global_of(b.state_store->Some_0.doc(), "show_header"@)
            == Some(crate::state::JsonValue::Bool(a.show_header)),
        crate::state::global_of(b.state_store->Some_0.doc(), "justify_text"@)
            == Some(crate::state::JsonValue::Bool(a.justify)),
{
    let st = a.state_store->Some_0;
    let key = book_key_of(a.book_path->Some_0@);
    let st2 = b.state_store->Some_0;
    let r1 = crate::state::with_position(st.doc(), key, a.chapter_index, a.page_index);
    let t = choose|t: String| t@ == crate::ui::theme::theme_name(a.theme)
        && st2.doc() == crate::state::with_field(
            crate::state::with_field(
                #[trigger] crate::state::with_field(r1, "_global"@, "theme"@, crate::state::JsonValue::Str(t)),
                "_global"@, "show_header"@, crate::state::JsonValue::Bool(a.show_header)),
            "_global"@, "justify_text"@, crate::state::JsonValue::Bool(a.justify));
    let r2 = crate::state::with_field(r1, "_global"@, "theme"@, crate::state::JsonValue::Str(t));
    let r3 = crate::state::with_field(r2, "_global"@, "show_header"@, crate::state::JsonValue::Bool(a.show_header));
    crate::state::lemma_lower_hex_len(sha1_digest(vstd::utf8::encode_utf8(a.book_path->Some_0@)));
    reveal_strlit("_global");
    assert(key != "_global"@) by {
        assert("_global"@.len() == 7);
    }
    crate::state::lemma_position_round_trip(st.doc(), key, a.chapter_index, a.page_index);
    crate::state::lemma_global_round_trip(r1, "theme"@, crate::state::JsonValue::Str(t), "show_header"@, key);
    crate::state::lemma_global_round_trip(r2, "show_header"@, crate::state::JsonValue::Bool(a.show_header), "theme"@, key);
    crate::state::lemma_global_round_trip(r3, "justify_text"@, crate::state::JsonValue::Bool(a.justify), "theme"@, key);
    crate::state::lemma_global_round_trip(r3, "justify_text"@, crate::state::JsonValue::Bool(a.justify), "show_header"@, key);
    reveal_strlit("theme");
    reveal_strlit("show_header");
    reveal_strlit("justify_text");
    assert("theme"@ != "show_header"@ && "theme"@ != "justify_text"@ && "show_header"@ != "justify_text"@) by {
        assert("theme"@.len() != "show_header"@.len());
        assert("theme"@.len() != "justify_text"@.len());
        assert("show_header"@[0] != "justify_text"@[0]);
    }
}

/// `b` is `a` with the theme, header and justification settings read
/// from its state store, when it has one; an unknown theme name keeps the
/// current theme.
pub open spec fn settings_loaded(a: App, b: App) -> bool {
    match a.state_store {
        Some(st) => b == (App {
            theme: match theme_from_name(match global_str_of(st.doc(), "theme"@) {
                Some(t) => t,
                None => "dark"@,
            }) {
                Some(t) => t,
                None => a.theme,
            },
            show_header: global_bool_of(st.doc(), "show_header"@, true),
            justify: global_bool_of(st.doc(), "justify_text"@, false),
            ..a
        }),
        None => b == a,
    }
}

/// Settings saved with the state and loaded back are the settings the
/// reader had.
pub proof fn lemma_settings_round_trip(a: App, b: App, c: App)
    requires
        a.state_store is Some,
        a.book_path is Some,
        state_saved(a, b),
        settings_loaded(b, c),
    ensures
        c.theme == a.theme,
        c.show_header == a.show_header,
        c.justify == a.justify,
{
    lemma_saved_position(a, b);
    crate::ui::theme::lemma_theme_name_round_trip(a.theme);
}

/// A bookmark set and then visited brings the reader back to where it was
/// when the bookmark was set: same chapter, same page, same pages.
pub proof fn lemma_bookmark_returns(a: App, b: App, c: App)
    requires
        a.wf(),
        a.state_store is Some,
        a.book_path is Some,
        bookmark_set(a, b),
        bookmark_visited(b, c),
    ensures
        c.chapter_index == a.chapter_index,
        c.page_index == a.page_index,
        c.pages == a.pages,
{
    let st = a.state_store->Some_0;
    let path = a.book_path->Some_0;
    crate::state::lemma_bookmark_round_trip(st.doc(), book_key_of(path@), a.chapter_index, a.page_index);
}

/// `b` is `a` with the string field changed by typing `c`.
pub open spec fn typed(old_text: Seq<char>, new_text: Seq<char>, c: char) -> bool {
    new_text == old_text.push(c)
}

/// `new_text` is `old_text` after a backspace.
pub open spec fn erased(old_text: Seq<char>, new_text: Seq<char>) -> bool {
    new_text == if old_text.len() > 0 { old_text.drop_last() } else { old_text }
}

/// The effect of a key in the reader.
pub open spec fn reader_step(a: App, k: Key, b: App, handled: bool) -> bool {
    match k.code {
        KeyCode::Char(c) => if c == 'c' && k.ctrl {
            handled && quit_asked(a, b)
        } else if c == 'f' {
            handled && b == App { page_index: 0, ..a }
        } else if c == 'l' {
            handled && b == App {
                page_index: if a.pages@.len() > 0 { (a.pages@.len() - 1) as usize } else { a.page_index },
                ..a
            }
        } else if c == 'i' {
            handled && b == App { mode: Mode::Toc, ..a }
        } else if c == '/' {
            handled && b == App { mode: Mode::Search, ..a }
        } else if c == 'o' {
            handled && b == App { mode: Mode::Picker, pending: Some(AppAction::RefreshPicker), ..a }
        } else if c == 't' {
            handled && b == App { theme: theme_next(a.theme), ..a }
        } else if c == 'h' {
            handled && repaginated(App { show_header: !a.show_header, ..a }, b, a.chapter_index, a.page_index)
        } else if c == 'j' {
            handled && repaginated(App { justify: !a.justify, ..a }, b, a.chapter_index, a.page_index)
        } else if c == 'm' {
            handled && bookmark_set(a, b)
        } else if c == 'b' {
            handled && bookmark_visited(a, b)
        } else if c == '?' {
            handled && b == App { mode: Mode::Help, ..a }
        } else if c == 'd' {
            handled && b == App { mode: Mode::Dictionary, ..a }
        } else {
            !handled && b == a
        },
        KeyCode::Left => handled && if a.page_index == 0 {
            went_prev_chapter(a, b)
        } else {
            b == App { page_index: (a.page_index - 1) as usize, ..a }
        },
        KeyCode::Right => handled && if a.page_index + 1 >= a.total_pages {
            went_next_chapter(a, b)
        } else {
            b == App { page_index: (a.page_index + 1) as usize, ..a }
        },
        KeyCode::Up => handled && went_prev_chapter(a, b),
        KeyCode::Down => handled && went_next_chapter(a, b),
        KeyCode::PageDown => handled && b == App { page_index: page_after(a.page_index, a.pages@.len()), ..a },
        KeyCode::PageUp => handled && b == App { page_index: page_before(a.page_index), ..a },
        _ => !handled && b == a,
    }
}

/// The first match of the query in the book is on page `page` of chapter
/// `chapter`.
pub open spec fn search_hit(a: App, chapter: usize, page: usize) -> bool {
    match a.book {
        Some(bk) => {
            let w = a.terminal_size.0 as nat;
            let h = a.terminal_size.1 as nat;
            let ps = book_pages(bk.book_chapters(), w, h, a.show_header, a.justify);
            a.search_query@.len() > 0 && exists|k: int, i: int|
                #![trigger page_holds(ps, k, i)]
                first_match_at(book_text(ps), a.search_query@, i) && page_holds(ps, k, i)
                && (chapter, page) == page_origin(bk.book_chapters(), w, h, a.show_header, a.justify, k)
        },
        None => false,
    }
}

/// The query occurs nowhere in the book.
pub open spec fn search_miss(a: App) -> bool {
    match a.book {
        Some(bk) => {
            let ps = book_pages(bk.book_chapters(), a.terminal_size.0 as nat, a.terminal_size.1 as nat,
                a.show_header, a.justify);
            forall|i: int| !matches_at(book_text(ps), a.search_query@, i)
        },
        None => true,
    }
}

/// `b` is `a` back in the reader with the search query cleared.
pub open spec fn search_closed(a: App, b: App) -> bool {
    b.search_query@.len() == 0 && b == App { mode: Mode::Reader, search_query: b.search_query, ..a }
}

/// The effect of Enter in the search prompt: with a query and a book, the
/// reader goes to the page of the first match in the whole book, or a popup
/// says there is none.
pub open spec fn search_entered(a: App, b: App) -> bool {
    if a.search_query@.len() > 0 && a.book is Some {
        ||| exists|c: usize, p: usize, m: App| #![trigger search_hit(a, c, p), repaginated(App { search_result_page: Some(p), ..a }, m, c, 0)]
            search_hit(a, c, p)
            && repaginated(App { search_result_page: Some(p), ..a }, m, c, 0)
            && search_closed(App { page_index: if m.pages@.len() == 0 { m.page_index } else { clamp_page(p, m.pages@.len()) }, ..m }, b)
        ||| search_miss(a) && b.search_query@.len() == 0 && (b.popup_message matches Some(msg) && msg@ == "No results found."@)
            && b == App {
                search_result_page: None,
                search_query: b.search_query,
                popup_message: b.popup_message,
                popup_is_error: false,
                mode: Mode::Popup,
                ..a
            }
    } else {
        search_closed(a, b)
    }
}

/// The effect of a key in the search prompt.
pub open spec fn search_step(a: App, k: Key, b: App, handled: bool) -> bool {
    match k.code {
        KeyCode::Enter => handled && search_entered(a, b),
        KeyCode::Esc => handled && search_closed(a, b),
        KeyCode::Char(c) => handled && if c == 'c' && k.ctrl {
            search_closed(a, b)
        } else {
            typed(a.search_query@, b.search_query@, c) && b == App { search_query: b.search_query, ..a }
        },
        KeyCode::Backspace => handled && erased(a.search_query@, b.search_query@)
            && b == App { search_query: b.search_query, ..a },
        _ => !handled && b == a,
    }
}

/// The number of TOC entries of the open book.
pub open spec fn toc_len(a: App) -> nat {
    match a.book {
        Some(bk) => bk.book_toc().len(),
        None => 0,
    }
}

/// The effect of Enter in the table of contents: the reader goes to the
/// selected entry's chapter, if the entry could be resolved.
pub open spec fn toc_entered(a: App, b: App) -> bool {
    match a.book {
        Some(bk) => if a.toc_index < bk.book_toc().len() && bk.book_toc()[a.toc_index as int].spine_index is Some {
            exists|m: App| #[trigger] repaginated(a, m, bk.book_toc()[a.toc_index as int].spine_index->Some_0, 0)
                && b == App { mode: Mode::Reader, ..m }
        } else {
            b == App { mode: Mode::Reader, ..a }
        },
        None => b == App { mode: Mode::Reader, ..a },
    }
}

/// The effect of a key in the table of contents.
pub open spec fn toc_step(a: App, k: Key, b: App, handled: bool) -> bool {
    match k.code {
        KeyCode::Down => handled && b == App {
            toc_index: if toc_len(a) > 0 && a.toc_index + 1 < toc_len(a) { (a.toc_index + 1) as usize } else { a.toc_index },
            ..a
        },
        KeyCode::Up => handled && b == App { toc_index: page_before(a.toc_index), ..a },
        KeyCode::Enter => handled && toc_entered(a, b),
        KeyCode::Esc => handled && b == App { mode: Mode::Reader, ..a },
        KeyCode::Char(c) => if c == 'j' {
            handled && b == App {
                toc_index: if toc_len(a) > 0 && a.toc_index + 1 < toc_len(a) { (a.toc_index + 1) as usize } else { a.toc_index },
                ..a
            }
        } else if c == 'k' {
            handled && b == App { toc_index: page_before(a.toc_index), ..a }
        } else if c == 'c' && k.ctrl {
            handled && b == App { mode: Mode::Reader, ..a }
        } else {
            !handled && b == a
        },
        _ => !handled && b == a,
    }
}

/// `b` is `a` with the picker filter cleared and filter mode left.
pub open spec fn filter_cleared(a: App, b: App) -> bool {
    b.picker_filter@.len() == 0 && b == App { picker_filtering: false, picker_filter: b.picker_filter, ..a }
}

/// The effect of Enter on the picker's selection: `..` and directories
/// are entered (the filter cleared), an EPUB is opened.
pub open spec fn picker_entered(a: App, b: App) -> bool {
    let ix = filtered_indices(entries_view(a.picker_entries@), a.picker_filter@);
    if ix.len() > 0 && a.picker_selected < ix.len() {
        let e = entries_view(a.picker_entries@)[ix[a.picker_selected as int] as int];
        if e.0 == ".."@ {
            exists|m: App| #[trigger] filter_cleared(a, m) && b == App { pending: Some(AppAction::PickerParent), ..m }
        } else if e.1 {
            exists|m: App| #[trigger] filter_cleared(a, m) && (b.pending matches Some(AppAction::PickerEnter(n)) && n@ == e.0)
                && b == App { pending: b.pending, ..m }
        } else if e.2 {
            (b.pending matches Some(AppAction::PickerOpen(n)) && n@ == e.0) && b == App { pending: b.pending, ..a }
        } else {
            b == a
        }
    } else {
        b == a
    }
}

/// The effect of a key in the picker.
pub open spec fn picker_step(a: App, k: Key, b: App, handled: bool) -> bool {
    if a.picker_filtering {
        handled && match k.code {
            KeyCode::Esc => filter_cleared(a, b),
            KeyCode::Char(c) => if c == 'c' && k.ctrl {
                filter_cleared(a, b)
            } else {
                typed(a.picker_filter@, b.picker_filter@, c) && b == App { picker_filter: b.picker_filter, picker_selected: 0, ..a }
            },
            KeyCode::Backspace => erased(a.picker_filter@, b.picker_filter@)
                && b == App { picker_filter: b.picker_filter, picker_selected: 0, ..a },
            KeyCode::Enter => b == App { picker_filtering: false, ..a },
            _ => b == a,
        }
    } else {
        let n = filtered_indices(entries_view(a.picker_entries@), a.picker_filter@).len();
        let down = if n > 0 {
            if a.picker_selected + 1 < n { (a.picker_selected + 1) as usize } else { (n - 1) as usize }
        } else {
            a.picker_selected
        };
        match k.code {
            KeyCode::Down => handled && b == App { picker_selected: down, ..a },
            KeyCode::Up => handled && b == App { picker_selected: page_before(a.picker_selected), ..a },
            KeyCode::Enter => handled && picker_entered(a, b),
            KeyCode::Esc => handled && exists|m: App| #[trigger] filter_cleared(a, m) && overlay_closed(m, b),
            KeyCode::Char(c) => if c == 'j' {
                handled && b == App { picker_selected: down, ..a }
            } else if c == 'k' {
                handled && b == App { picker_selected: page_before(a.picker_selected), ..a }
            } else if c == 'c' && k.ctrl {
                handled && exists|m: App| #[trigger] filter_cleared(a, m) && overlay_closed(m, b)
            } else if c == 's' || c == '/' {
                handled && b == App { picker_selected: 0, picker_filtering: true, ..a }
            } else {
                !handled && b == a
            },
            _ => !handled && b == a,
        }
    }
}

/// The effect of a key on a popup: `y` confirms the quit confirmation;
/// `n`, `q`, Esc, Enter and space dismiss the popup.
pub open spec fn popup_step(a: App, k: Key, b: App, handled: bool) -> bool {
    let dismiss = k.code == KeyCode::Char('n') || k.code == KeyCode::Char('q') || k.code == KeyCode::Esc
        || k.code == KeyCode::Enter || k.code == KeyCode::Char(' ');
    if k.code == KeyCode::Char('y') {
        if a.popup_message matches Some(m) && m@ == quit_prompt() {
            handled && b == App { should_quit: true, ..a }
        } else {
            !handled && b == a
        }
    } else if dismiss {
        handled && overlay_closed(App { popup_message: None, ..a }, b)
    } else {
        !handled && b == a
    }
}

/// The effect of a key on the help screen.
pub open spec fn help_step(a: App, k: Key, b: App, handled: bool) -> bool {
    if k.code == KeyCode::Esc || k.code == KeyCode::Char('q') || (k.code == KeyCode::Char('c') && k.ctrl) {
        handled && b == App { mode: Mode::Reader, ..a }
    } else {
        !handled && b == a
    }
}

/// `b` is `a` back in the reader with the dictionary prompt cleared.
pub open spec fn dictionary_closed(a: App, b: App) -> bool {
    b.dictionary_word@.len() == 0
        && b == App { mode: Mode::Reader, dictionary_word: b.dictionary_word, dictionary_result: None, ..a }
}

/// The effect of a key in the dictionary prompt.
pub open spec fn dictionary_step(a: App, k: Key, b: App, handled: bool) -> bool {
    match k.code {
        KeyCode::Enter => handled && if a.dictionary_word@.len() > 0 {
            (b.pending matches Some(AppAction::Lookup(w)) && w@ == a.dictionary_word@) && b == App { pending: b.pending, ..a }
        } else {
            b == a
        },
        KeyCode::Esc => handled && dictionary_closed(a, b),
        KeyCode::Char(c) => handled && if c == 'c' && k.ctrl {
            dictionary_closed(a, b)
        } else {
            typed(a.dictionary_word@, b.dictionary_word@, c) && b == App { dictionary_word: b.dictionary_word, ..a }
        },
        KeyCode::Backspace => handled && erased(a.dictionary_word@, b.dictionary_word@)
            && b == App { dictionary_word: b.dictionary_word, ..a },
        _ => !handled && b == a,
    }
}

/// The effect of a key: `q` asks to quit wherever it is not text or a
/// popup answer; otherwise the current mode's handling.
pub open spec fn key_step(a: App, k: Key, b: App, handled: bool) -> bool {
    if quit_key(a, k) {
        handled && quit_asked(a, b)
    } else {
        match a.mode {
            Mode::Reader => reader_step(a, k, b, handled),
            Mode::Search => search_step(a, k, b, handled),
            Mode::Toc => toc_step(a, k, b, handled),
            Mode::Picker => picker_step(a, k, b, handled),
            Mode::Popup => popup_step(a, k, b, handled),
            Mode::Help => help_step(a, k, b, handled),
            Mode::Dictionary => dictionary_step(a, k, b, handled),
        }
    }
}

fn with_char(s: &String, c: char) -> (r: String)
    ensures
        r@ == s@.push(c),
{
    let mut v = str_chars(s.as_str());
    v.push(c);
    string_from_chars(v.as_slice())
}

fn without_last(s: &String) -> (r: String)
    ensures
        r@ == if s@.len() > 0 { s@.drop_last() } else { s@ },
{
    let mut v = str_chars(s.as_str());
    if v.len() > 0 {
        v.pop();
    }
    string_from_chars(v.as_slice())
}

/// Every filtered index is an entry's index.
pub proof fn lemma_filtered_indices_range(es: Seq<EntryV>, filter: Seq<char>)
    ensures
        forall|j: int| 0 <= j < filtered_indices(es, filter).len() ==> #[trigger] filtered_indices(es, filter)[j] < es.len(),
    decreases es.len(),
{
    if es.len() > 0 {
        lemma_filtered_indices_range(es.drop_last(), filter);
        let p = filtered_indices(es.drop_last(), filter);
        assert forall|j: int| 0 <= j < p.len() implies #[trigger] p[j] < es.len() by {}
        if filter_keeps(es.last().0, filter) {
            assert(filtered_indices(es, filter) == p.push((es.len() - 1) as usize));
        }
    }
}

impl App {
    /// The application's invariant: the page count is that of the pages,
    /// and the page shown is one of them (or the first, when there are
    /// none).
    pub open spec fn wf(&self) -> bool {
        &&& self.total_pages == self.pages@.len()
        &&& (self.page_index < self.total_pages || self.page_index == 0)
    }

    /// A new application on a terminal of `terminal_size` columns and rows,
    /// with the picker in `picker_dir`.
    pub fn new(use_css: bool, terminal_size: (u16, u16), picker_dir: String) -> (app: App)
        ensures
            app.wf(),
            app.book is None && app.book_path is None,
            app.mode == Mode::Reader,
            app.show_header && !app.justify && app.theme == Theme::Dark,
            app.use_css == use_css && app.terminal_size == terminal_size,
            app.picker_dir == picker_dir,
            app.chapter_index == 0 && app.page_index == 0 && app.total_pages == 0,
            app.search_query@.len() == 0 && app.picker_filter@.len() == 0 && app.dictionary_word@.len() == 0,
            app.popup_message is None && !app.popup_is_error && app.dictionary_result is None,
            app.state_store is None && !app.should_quit && app.pending is None,
            app.picker_entries@.len() == 0 && !app.picker_filtering && app.picker_selected == 0 && app.toc_index == 0,
    {
        App {
            book: None,
            book_path: None,
            chapter_index: 0,
            page_index: 0,
            total_pages: 0,
            pages: Vec::new(),
            mode: Mode::Reader,
            show_header: true,
            justify: false,
            theme: Theme::Dark,
            use_css,
            terminal_size,
            search_query: String::new(),
            search_result_page: None,
            popup_message: None,
            popup_is_error: false,
            toc_index: 0,
            picker_dir,
            picker_entries: Vec::new(),
            picker_filter: String::new(),
            picker_filtering: false,
            picker_selected: 0,
            dictionary_word: String::new(),
            dictionary_result: None,
            state_store: None,
            should_quit: false,
            pending: None,
        }
    }

    /// Re-paginates the current chapter at the current size and settings.
    fn paginate(&mut self)
        requires
            old(self).wf(),
        ensures
            final(self).wf(),
            repaginated(*old(self), *final(self), old(self).chapter_index, old(self).page_index),
    {
        let ghost a = *self;
        match &self.book {
            Some(book) => {
                let chapters = book.chapters();
                if self.chapter_index < chapters.len() {
                    let segments = &chapters[self.chapter_index];
                    let pages = crate::paginate(
                        segments.as_slice(),
                        self.terminal_size.0 as usize,
                        self.terminal_size.1 as usize,
                        self.show_header,
                        self.justify,
                    );
                    self.pages = pages;
                    self.total_pages = self.pages.len();
                    if self.page_index >= self.total_pages {
                        self.page_index = if self.total_pages > 0 { self.total_pages - 1 } else { 0 };
                    }
                }
            },
            None => {},
        }
    }

    fn navigate_chapter(&mut self, chapter_idx: usize)
        requires
            old(self).wf(),
        ensures
            final(self).wf(),
            repaginated(*old(self), *final(self), chapter_idx, 0),
    {
        self.chapter_index = chapter_idx;
        self.page_index = 0;
        self.paginate();
    }

    fn next_page(&mut self)
        requires
            old(self).wf(),
        ensures
            final(self).wf(),
            *final(self) == (App {
                page_index: if old(self).page_index + 1 < old(self).pages@.len() {
                    (old(self).page_index + 1) as usize
                } else {
                    old(self).page_index
                },
                ..*old(self)
            }),
    {
        if self.page_index + 1 < self.pages.len() {
            self.page_index += 1;
        }
    }

    fn prev_page(&mut self)
        requires
            old(self).wf(),
        ensures
            final(self).wf(),
            *final(self) == (App {
                page_index: if old(self).page_index > 0 { (old(self).page_index - 1) as usize } else { 0 },
                ..*old(self)
            }),
    {
        if self.page_index > 0 {
            self.page_index -= 1;
        }
    }

    fn first_page(&mut self)
        requires
            old(self).wf(),
        ensures
            final(self).wf(),
            *final(self) == (App { page_index: 0, ..*old(self) }),
    {
        self.page_index = 0;
    }

    fn last_page(&mut self)
        requires
            old(self).wf(),
        ensures
            final(self).wf(),
            *final(self) == (App {
                page_index: if old(self).pages@.len() > 0 {
                    (old(self).pages@.len() - 1) as usize
                } else {
                    old(self).page_index
                },
                ..*old(self)
            }),
    {
        if self.pages.len() > 0 {
            self.page_index = self.pages.len() - 1;
        }
    }

    /// The number of chapters of the open book (zero without one).
    pub open spec fn chapter_count(&self) -> nat {
        match self.book {
            Some(b) => b.book_chapters().len(),
            None => 0,
        }
    }

    fn next_chapter(&mut self)
        requires
            old(self).wf(),
        ensures
            final(self).wf(),
            if old(self).book is Some && old(self).chapter_index + 1 < old(self).chapter_count() {
                repaginated(*old(self), *final(self), (old(self).chapter_index + 1) as usize, 0)
            } else {
                *final(self) == *old(self)
            },
    {
        let go = match &self.book {
            Some(book) => {
                let n = book.chapter_count();
                let max_ch = if n > 0 { n - 1 } else { 0 };
                self.chapter_index < max_ch
            },
            None => false,
        };
        if go {
            self.navigate_chapter(self.chapter_index + 1);
        }
    }

    fn prev_chapter(&mut self)
        requires
            old(self).wf(),
        ensures
            final(self).wf(),
            if old(self).chapter_index > 0 {
                repaginated(*old(self), *final(self), (old(self).chapter_index - 1) as usize, 0)
            } else {
                *final(self) == *old(self)
            },
    {
        if self.chapter_index > 0 {
            self.navigate_chapter(self.chapter_index - 1);
        }
    }

    /// Shows a modal popup.  Errors render with a red background; all other
    /// popups (confirmations, status) render with a blue one.  Both use white
    /// text, independent of the active theme.
    pub fn show_popup(&mut self, message: String, is_error: bool)
        ensures
            *final(self) == (App {
                popup_message: Some(message),
                popup_is_error: is_error,
                mode: Mode::Popup,
                ..*old(self)
            }),
    {
        self.popup_message = Some(message);
        self.popup_is_error = is_error;
        self.mode = Mode::Popup;
    }

    fn ask_quit(&mut self)
        ensures
            quit_asked(*old(self), *final(self)),
    {
        self.show_popup(string_from_chars(str_chars("Quit? (y/n)").as_slice()), false);
    }

    /// Clears the picker filter and leaves filter mode.
    fn clear_picker_filter(&mut self)
        ensures
            final(self).picker_filter@.len() == 0,
            *final(self) == (App { picker_filtering: false, picker_filter: final(self).picker_filter, ..*old(self) }),
    {
        self.picker_filtering = false;
        self.picker_filter = String::new();
    }

    /// Where to return when closing an overlay (picker, popup, …).
    ///
    /// If a book is open, go back to the reader.  If no book is open the
    /// picker is the app's home screen, so closing it means quitting — we
    /// raise the quit confirmation instead of trapping the user in the
    /// picker with no way out.
    fn close_overlay(&mut self)
        ensures
            overlay_closed(*old(self), *final(self)),
    {
        if self.book.is_some() {
            self.mode = Mode::Reader;
        } else {
            self.ask_quit();
        }
    }

    fn cycle_theme(&mut self)
        ensures
            *final(self) == (App { theme: theme_next(old(self).theme), ..*old(self) }),
    {
        self.theme = self.theme.next_theme();
    }

    fn toggle_header(&mut self)
        requires
            old(self).wf(),
        ensures
            final(self).wf(),
            repaginated(
                App { show_header: !old(self).show_header, ..*old(self) },
                *final(self),
                old(self).chapter_index,
                old(self).page_index,
            ),
    {
        self.show_header = !self.show_header;
        self.paginate();
    }

    fn toggle_justify(&mut self)
        requires
            old(self).wf(),
        ensures
            final(self).wf(),
            repaginated(
                App { justify: !old(self).justify, ..*old(self) },
                *final(self),
                old(self).chapter_index,
                old(self).page_index,
            ),
    {
        self.justify = !self.justify;
        self.paginate();
    }

    /// Whether an auto-repeat (held-key) event should be acted on.
    /// Navigation and typing repeat; toggles and destructive keys do not,
    /// so holding a key never flickers a setting or risks an accidental quit.
    pub fn is_repeat_safe(&self, key: Key) -> (b: bool)
        ensures
            b == repeat_safe(self.mode, self.picker_filtering, key.code),
    {
        match self.mode {
            Mode::Reader => match key.code {
                KeyCode::Left | KeyCode::Right | KeyCode::Up | KeyCode::Down | KeyCode::PageUp
                | KeyCode::PageDown => true,
                KeyCode::Char(c) => c == 'f' || c == 'l',
                _ => false,
            },
            Mode::Search | Mode::Dictionary => true,
            Mode::Toc => true,
            Mode::Picker => {
                if self.picker_filtering {
                    // Typing into the filter repeats like any text input.
                    true
                } else {
                    // Navigation repeats; '/' and 's' must not, or holding
                    // them would re-enter filter mode and type the key.
                    match key.code {
                        KeyCode::Up | KeyCode::Down => true,
                        KeyCode::Char(c) => c == 'j' || c == 'k',
                        _ => false,
                    }
                }
            },
            Mode::Popup | Mode::Help => false,
        }
    }

    fn go_to_page(&mut self, page: usize)
        requires
            old(self).wf(),
        ensures
            final(self).wf(),
            *final(self) == (App {
                page_index: if old(self).pages@.len() == 0 {
                    old(self).page_index
                } else if page < old(self).pages@.len() {
                    page
                } else {
                    (old(self).pages@.len() - 1) as usize
                },
                ..*old(self)
            }),
    {
        if self.pages.len() == 0 {
            return;
        }
        self.page_index = if page < self.pages.len() { page } else { self.pages.len() - 1 };
    }

    /// Takes the outside work asked for by the last key, if any.
    pub fn take_pending(&mut self) -> (a: Option<AppAction>)
        ensures
            a == old(self).pending,
            *final(self) == (App { pending: None, ..*old(self) }),
    {
        let mut a: Option<AppAction> = None;
        std::mem::swap(&mut a, &mut self.pending);
        a
    }

    /// Shows the answer of a dictionary lookup.
    pub fn set_dictionary_result(&mut self, result: String)
        ensures
            *final(self) == (App { dictionary_result: Some(result), ..*old(self) }),
    {
        self.dictionary_result = Some(result);
    }

    /// Adapts the pages to a new terminal size.
    pub fn resize(&mut self, cols: u16, rows: u16)
        requires
            old(self).wf(),
        ensures
            final(self).wf(),
            repaginated(
                App { terminal_size: (cols, rows), ..*old(self) },
                *final(self),
                old(self).chapter_index,
                old(self).page_index,
            ),
    {
        self.terminal_size = (cols, rows);
        self.paginate();
    }

    /// Loads persisted global settings from the state store: the theme (when
    /// its name is known), the header and the justification.
    pub fn load_global_settings(&mut self)
        ensures
            settings_loaded(*old(self), *final(self)),
    {
        match &self.state_store {
            Some(store) => {
                let name = store.get_theme();
                match Theme::from_name(name.as_str()) {
                    Some(t) => {
                        self.theme = t;
                    },
                    None => {},
                }
                self.show_header = store.get_show_header();
                self.justify = store.get_justify_text();
            },
            None => {},
        }
    }

    /// The last opened book path, if any.
    pub fn get_last_book_path(&self) -> (p: Option<String>)
        ensures
            match self.state_store {
                Some(st) => match p {
                    Some(s) => global_str_of(st.doc(), "last_book_path"@) == Some(s@),
                    None => global_str_of(st.doc(), "last_book_path"@) is None,
                },
                None => p is None,
            },
    {
        match &self.state_store {
            Some(store) => store.get_last_book_path(),
            None => None,
        }
    }

    fn move_to(&mut self, c: usize, p: usize)
        requires
            old(self).wf(),
        ensures
            final(self).wf(),
            repositioned(*old(self), *final(self), c, p),
    {
        if c != self.chapter_index {
            self.navigate_chapter(c);
        }
        let n = self.pages.len();
        self.page_index = if p < n { p } else if n > 0 { n - 1 } else { 0 };
    }

    /// Sets the bookmark of the open book at the current position.
    fn set_bookmark(&mut self)
        ensures
            bookmark_set(*old(self), *final(self)),
    {
        let mut store: Option<StateStore> = None;
        std::mem::swap(&mut store, &mut self.state_store);
        match (&mut store, &self.book_path) {
            (Some(st), Some(path)) => {
                let key = StateStore::book_key(path.as_str());
                let _ = st.set_bookmark(key.as_str(), self.chapter_index, self.page_index);
            },
            _ => {},
        }
        self.state_store = store;
    }

    /// Goes to the bookmark of the open book, if it has one.
    pub fn go_to_bookmark(&mut self)
        requires
            old(self).wf(),
        ensures
            final(self).wf(),
            bookmark_visited(*old(self), *final(self)),
    {
        let target = match (&self.state_store, &self.book_path) {
            (Some(store), Some(path)) => {
                let key = StateStore::book_key(path.as_str());
                store.get_bookmark(key.as_str())
            },
            _ => None,
        };
        match target {
            Some(bm) => self.move_to(bm.chapter_index, bm.page_index),
            None => {},
        }
    }

    /// Records the reading position of the open book and the settings in
    /// the state store.  Returns whether there was a store and a book, that
    /// is, whether the store should now be written.
    pub fn save_state(&mut self) -> (saved: bool)
        ensures
            saved == (old(self).state_store is Some && old(self).book_path is Some),
            state_saved(*old(self), *final(self)),
    {
        let mut store: Option<StateStore> = None;
        std::mem::swap(&mut store, &mut self.state_store);
        let saved = match (store, &self.book_path) {
            (Some(mut st), Some(path)) => {
                let ghost d0 = st.doc();
                let key = StateStore::book_key(path.as_str());
                st.set_state_for_book(key.as_str(), self.chapter_index, self.page_index);
                let ghost d1 = st.doc();
                let name = self.theme.name();
                st.set_global_str("theme", name);
                let ghost d2 = st.doc();
                assert(exists|t: String| t@ == crate::ui::theme::theme_name(self.theme)
                    && d2 == #[trigger] crate::state::with_field(d1, "_global"@, "theme"@, crate::state::JsonValue::Str(t)));
                st.set_global_bool("show_header", self.show_header);
                st.set_global_bool("justify_text", self.justify);
                assert(key@ == book_key_of(path@));
                assert(d1 == crate::state::with_position(d0, book_key_of(path@), self.chapter_index, self.page_index));
                self.state_store = Some(st);
                true
            },
            (other, _) => {
                self.state_store = other;
                false
            },
        };
        saved
    }

    /// Fills the picker with the listing of its directory: `has_parent` when
    /// the directory has a parent, the names of its subdirectories and of
    /// its EPUB files.  The selection goes back to the first entry.
    pub fn set_picker_entries(&mut self, has_parent: bool, dirs: Vec<String>, epubs: Vec<String>)
        ensures
            entries_view(final(self).picker_entries@) == picker_listing(has_parent,
                crate::epub::package::strings_view(dirs@), crate::epub::package::strings_view(epubs@)),
            *final(self) == (App { picker_entries: final(self).picker_entries, picker_selected: 0, ..*old(self) }),
    {
        let ghost dv = crate::epub::package::strings_view(dirs@);
        let ghost ev = crate::epub::package::strings_view(epubs@);
        let mut entries: Vec<PickerEntry> = Vec::new();
        if has_parent {
            entries.push(PickerEntry { name: string_from_chars(str_chars("..").as_slice()), is_dir: true, is_epub: false });
        }
        let ghost head = entries_view(entries@);
        assert(head =~= (if has_parent { seq![(".."@, true, false)] } else { Seq::<EntryV>::empty() }));
        let sd = sort_names_exec(dirs);
        let se = sort_names_exec(epubs);
        let ghost sdv = crate::epub::package::strings_view(sd@);
        let ghost sev = crate::epub::package::strings_view(se@);
        let mut rest = sd;
        let mut k: usize = 0;
        let n: usize = rest.len();
        while rest.len() > 0
            invariant
                k <= n,
                sdv.len() == n,
                crate::epub::package::strings_view(rest@) == sdv.skip(k as int),
                entries_view(entries@) == head + sdv.take(k as int).map_values(|m: Seq<char>| (m, true, false)),
            decreases rest@.len(),
        {
            let ghost r0 = rest@;
            assert(crate::epub::package::strings_view(r0).len() == r0.len());
            assert(crate::epub::package::strings_view(r0)[0] == r0[0]@);
            assert(sdv.skip(k as int)[0] == sdv[k as int]);
            assert(k < n);
            let name = rest.remove(0);
            assert(rest@ =~= r0.skip(1));
            assert(crate::epub::package::strings_view(rest@) =~= crate::epub::package::strings_view(r0).skip(1));
            assert(crate::epub::package::strings_view(rest@) =~= sdv.skip(k + 1));
            assert(sdv.take(k + 1) =~= sdv.take(k as int).push(name@));
            let ghost before = entries_view(entries@);
            let ghost nm = name@;
            entries.push(PickerEntry { name, is_dir: true, is_epub: false });
            assert(entries_view(entries@) =~= before.push((nm, true, false)));
            assert(sdv.take(k + 1).map_values(|m: Seq<char>| (m, true, false))
                =~= sdv.take(k as int).map_values(|m: Seq<char>| (m, true, false)).push((nm, true, false)));
            assert(entries_view(entries@) =~= head + sdv.take(k + 1).map_values(|m: Seq<char>| (m, true, false)));
            k += 1;
        }
        assert(sdv.take(k as int) =~= sdv);
        let ghost mid = entries_view(entries@);
        let mut rest = se;
        let mut k: usize = 0;
        let n: usize = rest.len();
        while rest.len() > 0
            invariant
                k <= n,
                sev.len() == n,
                crate::epub::package::strings_view(rest@) == sev.skip(k as int),
                entries_view(entries@) == mid + sev.take(k as int).map_values(|m: Seq<char>| (m, false, true)),
            decreases rest@.len(),
        {
            let ghost r0 = rest@;
            assert(crate::epub::package::strings_view(r0).len() == r0.len());
            assert(crate::epub::package::strings_view(r0)[0] == r0[0]@);
            assert(sev.skip(k as int)[0] == sev[k as int]);
            assert(k < n);
            let name = rest.remove(0);
            assert(rest@ =~= r0.skip(1));
            assert(crate::epub::package::strings_view(rest@) =~= crate::epub::package::strings_view(r0).skip(1));
            assert(crate::epub::package::strings_view(rest@) =~= sev.skip(k + 1));
            assert(sev.take(k + 1) =~= sev.take(k as int).push(name@));
            let ghost before = entries_view(entries@);
            let ghost nm = name@;
            entries.push(PickerEntry { name, is_dir: false, is_epub: true });
            assert(entries_view(entries@) =~= before.push((nm, false, true)));
            assert(sev.take(k + 1).map_values(|m: Seq<char>| (m, false, true))
                =~= sev.take(k as int).map_values(|m: Seq<char>| (m, false, true)).push((nm, false, true)));
            assert(entries_view(entries@) =~= mid + sev.take(k + 1).map_values(|m: Seq<char>| (m, false, true)));
            k += 1;
        }
        assert(sev.take(k as int) =~= sev);
        self.picker_entries = entries;
        self.picker_selected = 0;
    }

    /// The indices of the picker entries the filter keeps (all of them
    /// without a filter).
    pub fn filtered_picker_entries(&self) -> (r: Vec<usize>)
        ensures
            r@ == filtered_indices(entries_view(self.picker_entries@), self.picker_filter@),
    {
        let ghost es = entries_view(self.picker_entries@);
        let empty = str_chars(self.picker_filter.as_str()).len() == 0;
        let fl = str_chars(to_lower(self.picker_filter.as_str()).as_str());
        let mut r: Vec<usize> = Vec::new();
        let mut i: usize = 0;
        while i < self.picker_entries.len()
            invariant
                i <= self.picker_entries@.len(),
                es == entries_view(self.picker_entries@),
                empty == (self.picker_filter@.len() == 0),
                fl@ == lowercase(self.picker_filter@),
                r@ == filtered_indices(es.take(i as int), self.picker_filter@),
            decreases self.picker_entries@.len() - i,
        {
            assert(es.take(i + 1).drop_last() =~= es.take(i as int));
            assert(es.take(i + 1).last() == es[i as int]);
            let keep = if empty {
                true
            } else {
                let nl = str_chars(to_lower(self.picker_entries[i].name.as_str()).as_str());
                chars_occur(&nl, &fl)
            };
            if keep {
                r.push(i);
            }
            i += 1;
        }
        assert(es.take(i as int) =~= es);
        r
    }

    /// Searches the entire book (all spine chapters) for `query`, paginating
    /// each chapter at the current terminal size.  Returns the
    /// `(chapter_index, page_index)` of the first match, or `None` if the
    /// phrase is not found anywhere in the book.
    fn search_book(&self, query: &str) -> (r: Option<(usize, usize)>)
        ensures
            match self.book {
                None => r is None,
                Some(b) => {
                    let w = self.terminal_size.0 as nat;
                    let h = self.terminal_size.1 as nat;
                    let ps = book_pages(b.book_chapters(), w, h, self.show_header, self.justify);
                    &&& r is None ==> query@.len() == 0 || forall|i: int| !matches_at(book_text(ps), query@, i)
                    &&& r matches Some(pos) ==> query@.len() > 0 && exists|k: int, i: int|
                        #![trigger page_holds(ps, k, i)]
                        first_match_at(book_text(ps), query@, i) && page_holds(ps, k, i)
                        && pos == page_origin(b.book_chapters(), w, h, self.show_header, self.justify, k)
                    &&& r matches Some((c, p)) ==> {
                        &&& c < b.book_chapters().len()
                        &&& p < paginate_spec(b.book_chapters()[c as int]@, w, h, self.show_header, self.justify).len()
                        &&& ps[book_pages(b.book_chapters().take(c as int), w, h, self.show_header, self.justify).len() + p]
                            == paginate_spec(b.book_chapters()[c as int]@, w, h, self.show_header, self.justify)[p as int]
                        &&& exists|i: int| #[trigger] first_match_at(book_text(ps), query@, i) && page_holds(ps,
                            book_pages(b.book_chapters().take(c as int), w, h, self.show_header, self.justify).len() + p, i)
                    }
                },
            },
    {
        let book = match &self.book {
            Some(b) => b,
            None => {
                return None;
            },
        };
        let chapters = book.chapters();
        let ghost chs = chapters@;
        let w = self.terminal_size.0 as usize;
        let h = self.terminal_size.1 as usize;
        let ghost wn = w as nat;
        let ghost hn = h as nat;
        let mut flat: Vec<Vec<Vec<StyledSegment>>> = Vec::new();
        let mut origin: Vec<(usize, usize)> = Vec::new();
        let mut c: usize = 0;
        assert(chs.take(0) =~= Seq::<Vec<StyledSegment>>::empty());
        while c < chapters.len()
            invariant
                c <= chs.len(),
                chs == chapters@,
                w < usize::MAX,
                wn == w as nat,
                hn == h as nat,
                pages_view(flat@) == book_pages(chs.take(c as int), wn, hn, self.show_header, self.justify),
                origin@.len() == flat@.len(),
                forall|k: int| 0 <= k < origin@.len() ==> #[trigger] origin@[k] == page_origin(
                    chs.take(c as int), wn, hn, self.show_header, self.justify, k),
            decreases chs.len() - c,
        {
            assert(chs.take(c + 1).drop_last() =~= chs.take(c as int));
            assert(chs.take(c + 1).last() == chs[c as int]);
            let seg = chapters[c].as_slice();
            assert(seg@ == chs[c as int]@);
            let mut pages = crate::paginate(seg, w, h, self.show_header, self.justify);
            assert(pages_view(pages@) == paginate_spec(chs[c as int]@, wn, hn, self.show_header, self.justify));
            let base = flat.len();
            let np = pages.len();
            let mut p: usize = 0;
            while p < np
                invariant
                    p <= np,
                    origin@.len() == base + p,
                    base == flat@.len(),
                    forall|k: int| 0 <= k < base ==> #[trigger] origin@[k] == page_origin(
                        chs.take(c as int), wn, hn, self.show_header, self.justify, k),
                    forall|k: int| base <= k < base + p ==> #[trigger] origin@[k] == (c, (k - base) as usize),
                decreases np - p,
            {
                origin.push((c, p));
                p += 1;
            }
            let ghost before = flat@;
            let ghost pg = pages@;
            flat.append(&mut pages);
            assert(flat@ =~= before + pg);
            assert(pages_view(before + pg) =~= pages_view(before) + pages_view(pg));
            assert(pages_view(flat@) =~= pages_view(before) + paginate_spec(
                chs[c as int]@, wn, hn, self.show_header, self.justify));
            assert forall|k: int| 0 <= k < origin@.len() implies #[trigger] origin@[k] == page_origin(
                chs.take(c + 1), wn, hn, self.show_header, self.justify, k) by {
                if k >= base {
                    assert(origin@[k] == (c, (k - base) as usize));
                }
            }
            c += 1;
        }
        assert(chs.take(c as int) =~= chs);
        match crate::search_pages(flat.as_slice(), query) {
            Some(k) => {
                let ghost ps = pages_view(flat@);
                assert(k < origin@.len()) by {
                    let i = choose|i: int| #[trigger] first_match_at(book_text(ps), query@, i) && page_holds(ps, k as int, i);
                    assert(page_holds(ps, k as int, i));
                }
                proof {
                    let i = choose|i: int| #[trigger] first_match_at(book_text(ps), query@, i) && page_holds(ps, k as int, i);
                    book.lemma_chapter_count_fits();
                    assert(ps.len() == flat@.len());
                    assert(flat@.len() == flat.len());
                    lemma_search_lands_on_match(chs, wn, hn, self.show_header, self.justify, query@, k as int, i);
                }
                Some(origin[k])
            },
            None => None,
        }
    }

    /// Opens the book at `path`, whose file holds `data`, at the position
    /// saved for it, and records it as the last book opened.
    #[verifier::spinoff_prover]
    #[verifier::rlimit(40)]
    pub fn open_book(&mut self, path: String, data: Vec<u8>) -> (r: Result<(), EpubError>)
        requires
            old(self).wf(),
        ensures
            final(self).wf(),
            r is Err ==> *final(self) == *old(self),
            r is Ok ==> opened(*old(self), *final(self), path@, data@),
            zip_opened(data@) is Err ==> r is Err,
            zip_opened(data@) matches Ok(es) ==> es.len() <= crate::epub::archive::MAX_EPUB_MEMBERS ==> match crate::open_plan(es) {
                Some(Ok(_)) => r is Ok,
                Some(Err(o)) => r matches Err(e) && crate::is_open_error(e, o),
                None => true,
            },
            match crate::open_outcome(data@) {
                Some(Ok(())) => r is Ok,
                Some(Err(o)) => r matches Err(e) && crate::is_open_error(e, o),
                None => true,
            },
    {
        let book = match EpubBook::open(data, self.use_css) {
            Ok(b) => b,
            Err(e) => {
                return Err(e);
            },
        };
        let ghost a = *self;
        let ghost pv = path@;
        let key = StateStore::book_key(path.as_str());
        let (saved_chapter, saved_page) = match &self.state_store {
            Some(store) => {
                let st = store.get_state_for_book(key.as_str());
                (st.chapter_index, st.page_index)
            },
            None => (0, 0),
        };
        assert((saved_chapter, saved_page) == saved_position(a.state_store, pv));
        let n = book.chapter_count();
        self.book = Some(book);
        self.book_path = Some(path);
        self.chapter_index = 0;
        self.page_index = 0;
        self.paginate();
        if saved_chapter > 0 || saved_page > 0 {
            let max_chapter = if n > 0 { n - 1 } else { 0 };
            let clamped = if saved_chapter < max_chapter { saved_chapter } else { max_chapter };
            self.move_to(clamped, saved_page);
        }
        let mut store: Option<StateStore> = None;
        std::mem::swap(&mut store, &mut self.state_store);
        match (store, &self.book_path) {
            (Some(mut st), Some(p)) => {
                st.set_global_str("last_book_path", p.as_str());
                self.state_store = Some(st);
            },
            (other, _) => {
                self.state_store = other;
            },
        }
        Ok(())
    }

    /// Opens the book chosen in the picker: `data` is its file's content or
    /// the error met reading it.  On success the reader shows the book;
    /// otherwise an error popup tells why.
    pub fn open_picked(&mut self, path: String, data: Result<Vec<u8>, EpubError>)
        requires
            old(self).wf(),
        ensures
            final(self).wf(),
            match data {
                Err(e) => open_failed(*old(self), *final(self), e),
                Ok(bytes) => match crate::open_outcome(bytes@) {
                    Some(Ok(())) => exists|b: App| #[trigger] opened(*old(self), b, path@, bytes@)
                        && *final(self) == (App { mode: Mode::Reader, ..b }),
                    Some(Err(o)) => exists|e: EpubError| #[trigger] open_failed(*old(self), *final(self), e)
                        && crate::is_open_error(e, o),
                    None => ({
                        ||| exists|b: App| opened(*old(self), b, path@, bytes@) && *final(self) == (App { mode: Mode::Reader, ..b })
                        ||| exists|e: EpubError| open_failed(*old(self), *final(self), e)
                    }),
                },
            },
    {
        let ghost a = *self;
        let err = match data {
            Ok(bytes) => match self.open_book(path, bytes) {
                Ok(()) => {
                    let ghost b = *self;
                    self.mode = Mode::Reader;
                    assert(opened(a, b, path@, bytes@) && *self == (App { mode: Mode::Reader, ..b }));
                    return;
                },
                Err(e) => e,
            },
            Err(e) => e,
        };
        let ghost before = *self;
        assert(before == a);
        let mut v: Vec<char> = Vec::new();
        push_str(&mut v, "Cannot open: ");
        let d = err.describe();
        push_str(&mut v, d.as_str());
        assert(v@ =~= "Cannot open: "@ + err.prefix() + err.message());
        self.show_popup(string_from_chars(v.as_slice()), true);
        assert(open_failed(a, *self, err));
    }

    pub fn handle_key(&mut self, key: Key) -> (handled: bool)
        requires
            old(self).wf(),
        ensures
            final(self).wf(),
            key_step(*old(self), key, *final(self), handled),
    {
        // Quit is available in every mode except input modes where 'q' is
        // text, the popup itself, where 'q' cancels the open confirmation
        // (handled by handle_popup_key), and the help screen, which 'q'
        // closes (handled by handle_help_key).
        let typing_filter = self.mode == Mode::Picker && self.picker_filtering;
        let is_q = match key.code {
            KeyCode::Char(c) => c == 'q',
            _ => false,
        };
        let q_is_local = match self.mode {
            Mode::Dictionary | Mode::Search | Mode::Popup | Mode::Help => true,
            _ => false,
        };
        if is_q && !q_is_local && !typing_filter {
            self.ask_quit();
            return true;
        }
        match self.mode {
            Mode::Reader => self.handle_reader_key(key),
            Mode::Search => self.handle_search_key(key),
            Mode::Toc => self.handle_toc_key(key),
            Mode::Picker => self.handle_picker_key(key),
            Mode::Popup => self.handle_popup_key(key),
            Mode::Help => self.handle_help_key(key),
            Mode::Dictionary => self.handle_dictionary_key(key),
        }
    }

    fn handle_reader_key(&mut self, key: Key) -> (handled: bool)
        requires
            old(self).wf(),
        ensures
            final(self).wf(),
            reader_step(*old(self), key, *final(self), handled),
    {
        match key.code {
            KeyCode::Char(c) => {
                if c == 'c' && key.ctrl {
                    self.ask_quit();
                    true
                } else if c == 'f' {
                    self.first_page();
                    true
                } else if c == 'l' {
                    self.last_page();
                    true
                } else if c == 'i' {
                    self.mode = Mode::Toc;
                    true
                } else if c == '/' {
                    self.mode = Mode::Search;
                    true
                } else if c == 'o' {
                    self.mode = Mode::Picker;
                    self.pending = Some(AppAction::RefreshPicker);
                    true
                } else if c == 't' {
                    self.cycle_theme();
                    true
                } else if c == 'h' {
                    self.toggle_header();
                    true
                } else if c == 'j' {
                    self.toggle_justify();
                    true
                } else if c == 'm' {
                    self.set_bookmark();
                    true
                } else if c == 'b' {
                    self.go_to_bookmark();
                    true
                } else if c == '?' {
                    self.mode = Mode::Help;
                    true
                } else if c == 'd' {
                    self.mode = Mode::Dictionary;
                    true
                } else {
                    false
                }
            },
            KeyCode::Left => {
                if self.page_index == 0 {
                    self.prev_chapter();
                } else {
                    self.prev_page();
                }
                true
            },
            KeyCode::Right => {
                if self.page_index + 1 >= self.total_pages {
                    self.next_chapter();
                } else {
                    self.next_page();
                }
                true
            },
            KeyCode::Up => {
                self.prev_chapter();
                true
            },
            KeyCode::Down => {
                self.next_chapter();
                true
            },
            KeyCode::PageDown => {
                self.next_page();
                true
            },
            KeyCode::PageUp => {
                self.prev_page();
                true
            },
            _ => false,
        }
    }

    fn close_search(&mut self)
        ensures
            search_closed(*old(self), *final(self)),
    {
        self.mode = Mode::Reader;
        self.search_query = String::new();
    }

    fn handle_search_key(&mut self, key: Key) -> (handled: bool)
        requires
            old(self).wf(),
        ensures
            final(self).wf(),
            search_step(*old(self), key, *final(self), handled),
    {
        match key.code {
            KeyCode::Enter => {
                // Search the whole book, not just the current chapter, and
                // jump to the chapter/page of the first match.
                let ghost a = *self;
                let has_query = str_chars(self.search_query.as_str()).len() > 0;
                if has_query && self.book.is_some() {
                    let q = string_from_chars(str_chars(self.search_query.as_str()).as_slice());
                    match self.search_book(q.as_str()) {
                        Some((chapter, page)) => {
                            self.search_result_page = Some(page);
                            let ghost a1 = *self;
                            self.navigate_chapter(chapter);
                            let ghost m = *self;
                            self.go_to_page(page);
                            self.close_search();
                            assert(search_hit(a, chapter, page));
                            assert(repaginated(App { search_result_page: Some(page), ..a }, m, chapter, 0));
                            return true;
                        },
                        None => {
                            self.search_result_page = None;
                            self.search_query = String::new();
                            self.show_popup(string_from_chars(str_chars("No results found.").as_slice()), false);
                            return true;
                        },
                    }
                }
                self.close_search();
                true
            },
            KeyCode::Esc => {
                self.close_search();
                true
            },
            KeyCode::Char(c) => {
                if c == 'c' && key.ctrl {
                    self.close_search();
                } else {
                    self.search_query = with_char(&self.search_query, c);
                }
                true
            },
            KeyCode::Backspace => {
                self.search_query = without_last(&self.search_query);
                true
            },
            _ => false,
        }
    }

    fn handle_toc_key(&mut self, key: Key) -> (handled: bool)
        requires
            old(self).wf(),
        ensures
            final(self).wf(),
            toc_step(*old(self), key, *final(self), handled),
    {
        let (down, up) = match key.code {
            KeyCode::Down => (true, false),
            KeyCode::Up => (false, true),
            KeyCode::Char(c) => (c == 'j', c == 'k'),
            _ => (false, false),
        };
        if down {
            let len = match &self.book {
                Some(book) => book.toc().len(),
                None => 0,
            };
            if len > 0 && self.toc_index < len - 1 {
                self.toc_index += 1;
            }
            return true;
        }
        if up {
            if self.toc_index > 0 {
                self.toc_index -= 1;
            }
            return true;
        }
        match key.code {
            KeyCode::Enter => {
                let target = match &self.book {
                    Some(book) => {
                        let toc = book.toc();
                        if self.toc_index < toc.len() {
                            // Skip entries whose href could not be resolved to a
                            // spine item; jumping to an arbitrary chapter would be
                            // misleading.
                            toc[self.toc_index].spine_index
                        } else {
                            None
                        }
                    },
                    None => None,
                };
                match target {
                    Some(spine_index) => {
                        self.navigate_chapter(spine_index);
                    },
                    None => {},
                }
                self.mode = Mode::Reader;
                true
            },
            KeyCode::Esc => {
                self.mode = Mode::Reader;
                true
            },
            KeyCode::Char(c) => {
                if c == 'c' && key.ctrl {
                    self.mode = Mode::Reader;
                    true
                } else {
                    false
                }
            },
            _ => false,
        }
    }

    fn handle_picker_key(&mut self, key: Key) -> (handled: bool)
        requires
            old(self).wf(),
        ensures
            final(self).wf(),
            picker_step(*old(self), key, *final(self), handled),
    {
        // Filter mode: printable keys build the filter; j/k become literal
        // text instead of navigation.
        if self.picker_filtering {
            match key.code {
                KeyCode::Esc => {
                    self.clear_picker_filter();
                },
                KeyCode::Char(c) => {
                    if c == 'c' && key.ctrl {
                        self.clear_picker_filter();
                    } else {
                        self.picker_filter = with_char(&self.picker_filter, c);
                        self.picker_selected = 0;
                    }
                },
                KeyCode::Backspace => {
                    self.picker_filter = without_last(&self.picker_filter);
                    self.picker_selected = 0;
                },
                KeyCode::Enter => {
                    // Keep the filter applied; the next Enter opens the
                    // selection.
                    self.picker_filtering = false;
                },
                _ => {},
            }
            return true;
        }
        let (down, up) = match key.code {
            KeyCode::Down => (true, false),
            KeyCode::Up => (false, true),
            KeyCode::Char(c) => (c == 'j', c == 'k'),
            _ => (false, false),
        };
        if down {
            let indices = self.filtered_picker_entries();
            if indices.len() > 0 {
                let current = self.picker_selected;
                self.picker_selected = if current < indices.len() - 1 { current + 1 } else { indices.len() - 1 };
            }
            return true;
        }
        if up {
            if self.picker_selected > 0 {
                self.picker_selected -= 1;
            }
            return true;
        }
        match key.code {
            KeyCode::Enter => {
                self.picker_enter();
                true
            },
            KeyCode::Esc => {
                let ghost a = *self;
                self.clear_picker_filter();
                let ghost m = *self;
                self.close_overlay();
                assert(filter_cleared(a, m) && overlay_closed(m, *self));
                true
            },
            KeyCode::Char(c) => {
                if c == 'c' && key.ctrl {
                    let ghost a = *self;
                    self.clear_picker_filter();
                    let ghost m = *self;
                    self.close_overlay();
                    assert(filter_cleared(a, m) && overlay_closed(m, *self));
                    true
                } else if c == 's' || c == '/' {
                    self.picker_selected = 0;
                    self.picker_filtering = true;
                    true
                } else {
                    false
                }
            },
            _ => false,
        }
    }

    fn picker_enter(&mut self)
        requires
            old(self).wf(),
        ensures
            final(self).wf(),
            picker_entered(*old(self), *final(self)),
    {
        let indices = self.filtered_picker_entries();
        if indices.len() > 0 && self.picker_selected < indices.len() {
            let idx = indices[self.picker_selected];
            proof { lemma_filtered_indices_range(entries_view(self.picker_entries@), self.picker_filter@); }
            assert(indices@[self.picker_selected as int] < self.picker_entries@.len());
            let name = string_from_chars(str_chars(self.picker_entries[idx].name.as_str()).as_slice());
            let is_dir = self.picker_entries[idx].is_dir;
            let is_epub = self.picker_entries[idx].is_epub;
            let parent = crate::text::string_is(&name, "..");
            let ghost a = *self;
            let ghost e = entries_view(self.picker_entries@)[idx as int];
            assert(e == (name@, is_dir, is_epub));
            if parent {
                self.clear_picker_filter();
                let ghost m = *self;
                assert(filter_cleared(a, m));
                self.pending = Some(AppAction::PickerParent);
            } else if is_dir {
                self.clear_picker_filter();
                let ghost m = *self;
                assert(filter_cleared(a, m));
                self.pending = Some(AppAction::PickerEnter(name));
            } else if is_epub {
                self.pending = Some(AppAction::PickerOpen(name));
            }
        }
    }

    fn handle_popup_key(&mut self, key: Key) -> (handled: bool)
        requires
            old(self).wf(),
        ensures
            final(self).wf(),
            popup_step(*old(self), key, *final(self), handled),
    {
        // Any non-affirmative key (n, q, Esc, Enter, space) dismisses the
        // popup.  Only 'y' confirms a quit-confirmation popup.
        let (yes, dismiss) = match key.code {
            KeyCode::Char(c) => (c == 'y', c == 'n' || c == 'q' || c == ' '),
            KeyCode::Esc | KeyCode::Enter => (false, true),
            _ => (false, false),
        };
        if yes {
            let quit = match &self.popup_message {
                Some(m) => crate::text::string_is(m, "Quit? (y/n)"),
                None => false,
            };
            if quit {
                self.should_quit = true;
                return true;
            }
            return false;
        }
        if dismiss {
            self.popup_message = None;
            self.close_overlay();
            return true;
        }
        false
    }

    fn handle_help_key(&mut self, key: Key) -> (handled: bool)
        requires
            old(self).wf(),
        ensures
            final(self).wf(),
            help_step(*old(self), key, *final(self), handled),
    {
        let close = match key.code {
            KeyCode::Esc => true,
            KeyCode::Char(c) => c == 'q' || (c == 'c' && key.ctrl),
            _ => false,
        };
        if close {
            self.mode = Mode::Reader;
        }
        close
    }

    fn close_dictionary(&mut self)
        ensures
            dictionary_closed(*old(self), *final(self)),
    {
        self.mode = Mode::Reader;
        self.dictionary_word = String::new();
        self.dictionary_result = None;
    }

    fn handle_dictionary_key(&mut self, key: Key) -> (handled: bool)
        requires
            old(self).wf(),
        ensures
            final(self).wf(),
            dictionary_step(*old(self), key, *final(self), handled),
    {
        match key.code {
            KeyCode::Enter => {
                if str_chars(self.dictionary_word.as_str()).len() > 0 {
                    let w = string_from_chars(str_chars(self.dictionary_word.as_str()).as_slice());
                    self.pending = Some(AppAction::Lookup(w));
                }
                true
            },
            KeyCode::Esc => {
                self.close_dictionary();
                true
            },
            KeyCode::Char(c) => {
                if c == 'c' && key.ctrl {
                    self.close_dictionary();
                } else {
                    self.dictionary_word = with_char(&self.dictionary_word, c);
                }
                true
            },
            KeyCode::Backspace => {
                self.dictionary_word = without_last(&self.dictionary_word);
                true
            },
            _ => false,
        }
    }
}

} // verus!
