//! termepub — a terminal EPUB reader: the verified core.
//!
//! Text layout, HTML extraction, EPUB package parsing, reading-state
//! bookkeeping, dictionary lookup and the reader's key handling.

pub mod dictionary;
pub mod error;
pub mod extract;
pub mod layout;
pub mod state;
pub mod text;
pub mod ui;
pub mod epub;

pub use crate::state::{BookState, StateStore};
pub use crate::dictionary::lookup_word;

use vstd::prelude::*;
use crate::epub::archive::{Archive, normalize_path, normalize_epub_path, zip_opened, MAX_EPUB_MEMBERS, ZipEntry,
    entry_index, member_text, member_events, member_opens, read_determined, read_spec, encryption_run};
use crate::epub::xml::doc_events;
use crate::epub::package::{self as package, strings_view};
use crate::epub::xml::{unicode_ws, char_is_whitespace};
use crate::error::EpubError;
use crate::layout::{Run, line_runs};
use crate::text::{decimal, lowercase, to_lower, has_prefix, has_suffix, starts_with_lit, ends_with_lit,
    str_chars, string_from_chars, push_str};

verus! {

/// A 24-bit colour.
#[derive(Debug, Clone, Copy, PartialEq, Eq, Structural)]
pub struct Rgb {
    pub r: u8,
    pub g: u8,
    pub b: u8,
}

/// Render style for a text segment.
#[derive(Debug, Clone, Copy, PartialEq, Eq, Structural)]
pub struct TextStyle {
    pub bold: bool,
    pub underline: bool,
    pub foreground: Option<Rgb>,
    pub italic: bool,
    pub strike: bool,
}

impl Default for TextStyle {
    fn default() -> (s: Self)
        ensures
            s == TextStyle::plain(),
    {
        TextStyle { bold: false, underline: false, foreground: None, italic: false, strike: false }
    }
}

impl TextStyle {
    /// The style with every attribute off.
    pub open spec fn plain() -> TextStyle {
        TextStyle { bold: false, underline: false, foreground: None, italic: false, strike: false }
    }
}

/// Extract styled segments from HTML content.
///
/// Reads the HTML with a tag frame stack, applies inline and semantic styles
/// when `use_css` is true, and returns the text merged into segments of equal
/// style, paragraph breaks kept as their own segments.
pub fn extract_html(html: &str, use_css: bool) -> (segs: Vec<StyledSegment>)
    ensures
        layout::line_runs(segs@) == extract::text_runs(extract::extract_cells(html@, use_css)),
{
    let cells = extract::extract_cells_exec(html, use_css);
    extract::text_runs_exec(&cells)
}

/// Paginate styled segments into rendered pages.
///
/// Returns pages, lines, and segments.  Wraps greedily at word boundaries
/// without splitting a character from its combining marks, optionally
/// justifies, and drops repeated short headings.
pub fn paginate(
    segments: &[StyledSegment],
    width: usize,
    height: usize,
    show_header: bool,
    justify: bool,
) -> (pages: Vec<Vec<Vec<StyledSegment>>>)
    requires
        width < usize::MAX,
    ensures
        layout::pages_view(pages@) == layout::paginate_spec(
            segments@,
            width as nat,
            height as nat,
            show_header,
            justify,
        ),
        forall|k: int, l: int| 0 <= k < layout::pages_view(pages@).len() && 0 <= l < layout::pages_view(pages@)[k].len()
            ==> layout::line_cols(#[trigger] layout::pages_view(pages@)[k][l]) <= layout::body_cols(width as nat),
{
    layout::paginate_segments(segments, width, height, show_header, justify)
}

/// Search rendered pages for a phrase.
///
/// Returns the index of the first page containing the match, including
/// matches that span line and page boundaries.
pub fn search_pages(pages: &[Vec<Vec<StyledSegment>>], query: &str) -> (r: Option<usize>)
    ensures
        r is None ==> query@.len() == 0 || forall|i: int|
            !layout::matches_at(layout::book_text(layout::pages_view(pages@)), query@, i),
        r matches Some(k) ==> query@.len() > 0 && exists|i: int|
            #[trigger] layout::first_match_at(layout::book_text(layout::pages_view(pages@)), query@, i)
            && layout::page_holds(layout::pages_view(pages@), k as int, i),
{
    layout::search_rendered(pages, query)
}

/// A segment of text with associated style information.
#[derive(Debug, Clone)]
pub struct StyledSegment {
    pub text: String,
    pub style: TextStyle,
    pub is_heading: bool,
}

impl StyledSegment {
    /// Returns the terminal cell width of this segment's text.
    pub fn text_width(&self) -> (w: usize)
        ensures
            w == text::str_cells(self.text@),
    {
        text::str_width(self.text.as_str())
    }
}

/// A table-of-contents entry.
#[derive(Debug, Clone)]
pub struct TocEntry {
    pub title: String,
    pub href: String,
    /// Resolved spine position, if the href could be matched to a spine
    /// item.  `None` means the entry could not be resolved and the UI
    /// should skip it rather than jumping to an arbitrary chapter.
    pub spine_index: Option<usize>,
}


/// The placeholder chapter whose only run is `text`, unstyled.
pub open spec fn placeholder(text: Seq<char>) -> Seq<Run> {
    seq![(text, TextStyle::plain(), false)]
}

/// Every character of every run is white space.
pub open spec fn runs_blank(rs: Seq<Run>) -> bool {
    forall|i: int, j: int| 0 <= i < rs.len() && 0 <= j < rs[i].0.len() ==> unicode_ws(#[trigger] rs[i].0[j])
}

/// The runs of a chapter whose content was read as `html` (`None` when it
/// could not be read): a missing chapter and a chapter without readable
/// text each get a placeholder line.
pub open spec fn chapter_runs(html: Option<Seq<char>>, use_css: bool) -> Seq<Run> {
    match html {
        None => placeholder("[Missing chapter content]"@),
        Some(h) => {
            let rs = extract::text_runs(extract::extract_cells(h, use_css));
            if runs_blank(rs) {
                placeholder("[This chapter contains no readable text.]"@)
            } else {
                rs
            }
        },
    }
}

/// The segments are those of a chapter read from some content.
pub open spec fn is_chapter(segs: Seq<StyledSegment>, use_css: bool) -> bool {
    exists|h: Option<Seq<char>>| line_runs(segs) == #[trigger] chapter_runs(h, use_css)
}

fn placeholder_segments(text: &str) -> (r: Vec<StyledSegment>)
    ensures
        line_runs(r@) == placeholder(text@),
{
    let mut r: Vec<StyledSegment> = Vec::new();
    r.push(StyledSegment {
        text: string_from_chars(str_chars(text).as_slice()),
        style: TextStyle { bold: false, underline: false, foreground: None, italic: false, strike: false },
        is_heading: false,
    });
    assert(line_runs(r@) =~= placeholder(text@));
    r
}

fn segments_blank(segs: &Vec<StyledSegment>) -> (b: bool)
    ensures
        b == runs_blank(line_runs(segs@)),
{
    let ghost rs = line_runs(segs@);
    let mut i: usize = 0;
    while i < segs.len()
        invariant
            i <= segs@.len(),
            rs == line_runs(segs@),
            forall|a: int, j: int| 0 <= a < i && 0 <= j < rs[a].0.len() ==> unicode_ws(#[trigger] rs[a].0[j]),
        decreases segs@.len() - i,
    {
        let cs = str_chars(segs[i].text.as_str());
        assert(cs@ == rs[i as int].0);
        let mut j: usize = 0;
        while j < cs.len()
            invariant
                j <= cs@.len(),
                i < segs@.len(),
                rs == line_runs(segs@),
                cs@ == rs[i as int].0,
                forall|a: int, k: int| 0 <= a < i && 0 <= k < rs[a].0.len() ==> unicode_ws(#[trigger] rs[a].0[k]),
                forall|k: int| 0 <= k < j ==> unicode_ws(#[trigger] rs[i as int].0[k]),
            decreases cs@.len() - j,
        {
            if !char_is_whitespace(cs[j]) {
                return false;
            }
            j += 1;
        }
        i += 1;
    }
    true
}

/// The styled segments of one chapter: the extracted content, or a
/// placeholder when the content is missing (`None`) or has no readable
/// text.
pub fn chapter_segments(html: Option<&str>, use_css: bool) -> (r: Vec<StyledSegment>)
    ensures
        line_runs(r@) == chapter_runs(match html { Some(h) => Some(h@), None => None::<Seq<char>> }, use_css),
{
    match html {
        None => placeholder_segments("[Missing chapter content]"),
        Some(h) => {
            let segs = extract_html(h, use_css);
            if segments_blank(&segs) {
                placeholder_segments("[This chapter contains no readable text.]")
            } else {
                segs
            }
        },
    }
}

/// A chapter always has at least one run.
pub proof fn lemma_chapter_not_empty(html: Option<Seq<char>>, use_css: bool)
    ensures
        chapter_runs(html, use_css).len() > 0,
{
    if let Some(h) = html {
        let rs = extract::text_runs(extract::extract_cells(h, use_css));
        if rs.len() == 0 {
            assert(runs_blank(rs));
        }
    }
}

/// A font resource, by its lower-cased path.
pub open spec fn is_font_path(l: Seq<char>) -> bool {
    ||| has_prefix(l, "font"@)
    ||| has_suffix(l, ".ttf"@) || has_suffix(l, ".otf"@) || has_suffix(l, ".woff"@) || has_suffix(l, ".woff2"@)
}

/// A text resource, by its lower-cased path.
pub open spec fn is_text_path(l: Seq<char>) -> bool {
    ||| has_suffix(l, ".xhtml"@) || has_suffix(l, ".xml"@) || has_suffix(l, ".html"@) || has_suffix(l, ".opf"@)
    ||| has_suffix(l, ".ncx"@) || has_suffix(l, ".css"@) || has_suffix(l, ".svg"@) || has_suffix(l, ".svgz"@)
}

/// The encrypted URI names a text resource that is not a font.
pub open spec fn encrypted_text(uri: Seq<char>) -> bool {
    let l = lowercase(normalize_path(uri));
    !is_font_path(l) && is_text_path(l)
}

/// Refuses a book whose encrypted resources include text: fonts may be
/// encrypted (obfuscated), text may not.  The first such URI is reported,
/// normalized.
pub fn check_encrypted_uris(uris: &[String]) -> (r: Result<(), EpubError>)
    ensures
        match r {
            Ok(()) => forall|i: int| 0 <= i < uris@.len() ==> !encrypted_text(#[trigger] uris@[i]@),
            Err(e) => e is UnsupportedContent && exists|k: int| 0 <= k < uris@.len()
                && #[trigger] encrypted_text(uris@[k]@)
                && (forall|j: int| 0 <= j < k ==> !encrypted_text(#[trigger] uris@[j]@))
                && e.message() == "encrypted text resource: "@ + normalize_path(uris@[k]@),
        },
{
    let mut i: usize = 0;
    while i < uris.len()
        invariant
            i <= uris@.len(),
            forall|j: int| 0 <= j < i ==> !encrypted_text(#[trigger] uris@[j]@),
        decreases uris@.len() - i,
    {
        let normalized = normalize_epub_path(uris[i].as_str());
        let lower = str_chars(to_lower(normalized.as_str()).as_str());
        let is_font = starts_with_lit(&lower, "font") || ends_with_lit(&lower, ".ttf")
            || ends_with_lit(&lower, ".otf") || ends_with_lit(&lower, ".woff") || ends_with_lit(&lower, ".woff2");
        let is_text = ends_with_lit(&lower, ".xhtml") || ends_with_lit(&lower, ".xml")
            || ends_with_lit(&lower, ".html") || ends_with_lit(&lower, ".opf") || ends_with_lit(&lower, ".ncx")
            || ends_with_lit(&lower, ".css") || ends_with_lit(&lower, ".svg") || ends_with_lit(&lower, ".svgz");
        if !is_font && is_text {
            let mut v: Vec<char> = Vec::new();
            push_str(&mut v, "encrypted text resource: ");
            push_str(&mut v, normalized.as_str());
            let e = EpubError::UnsupportedContent(string_from_chars(v.as_slice()));
            assert(encrypted_text(uris@[i as int]@));
            return Err(e);
        }
        i += 1;
    }
    Ok(())
}

/// Index of the first URI of `uris` that names an encrypted text
/// resource, or -1.
pub open spec fn first_encrypted(uris: Seq<Seq<char>>) -> int
    decreases uris.len(),
{
    if uris.len() == 0 {
        -1
    } else {
        let k = first_encrypted(uris.drop_last());
        if k >= 0 {
            k
        } else if encrypted_text(uris.last()) {
            uris.len() - 1
        } else {
            -1
        }
    }
}

proof fn lemma_first_encrypted(uris: Seq<Seq<char>>)
    ensures
        -1 <= first_encrypted(uris) < uris.len(),
        first_encrypted(uris) >= 0 ==> encrypted_text(uris[first_encrypted(uris)])
            && forall|j: int| 0 <= j < first_encrypted(uris) ==> !encrypted_text(#[trigger] uris[j]),
        first_encrypted(uris) < 0 ==> forall|j: int| 0 <= j < uris.len() ==> !encrypted_text(#[trigger] uris[j]),
    decreases uris.len(),
{
    if uris.len() > 0 {
        let init = uris.drop_last();
        lemma_first_encrypted(init);
        let k = first_encrypted(init);
        if k >= 0 {
            assert(uris[k] == init[k]);
            assert forall|j: int| 0 <= j < k implies !encrypted_text(#[trigger] uris[j]) by {
                assert(uris[j] == init[j]);
            }
        } else {
            assert forall|j: int| 0 <= j < uris.len() - 1 implies !encrypted_text(#[trigger] uris[j]) by {
                assert(uris[j] == init[j]);
            }
        }
    }
}

/// The archive's read bookkeeping: the members counted and the running
/// total of their text.
pub type ReadState = (Seq<Seq<char>>, nat);

/// Why opening a book fails: whether its content is unsupported (an
/// encrypted text resource) rather than invalid, and the message.
pub type OpenError = (bool, Seq<char>);

/// The outcome of opening the book whose archive holds the members `es`,
/// as far as the members fix it: `None` when one of the documents read
/// (encryption, container, package, table of contents) holds a stream
/// error, so that its read may fail either way.
///
/// `META-INF/encryption.xml`, when it can be opened, is read and parsed; the
/// first URI naming a text resource that is not a font refuses the book as
/// unsupported; then `container.xml`, the package document and the table of
/// contents are read and parsed in turn, each failure with its message.
#[verifier::opaque]
pub open spec fn open_plan(es: Seq<ZipEntry>) -> Option<Result<ReadState, OpenError>> {
    let e = normalize_path("META-INF/encryption.xml"@);
    if !member_opens(es, e) {
        plan_after_encryption(es, seq![], seq![], 0)
    } else if !read_determined(es, e) {
        None
    } else {
        let rs = read_spec(es, seq![], 0, e);
        match rs.0 {
            Err(m) => Some(Err((false, m))),
            Ok(t) => match encryption_run(doc_events(t), 0, seq![]) {
                Err(m) => Some(Err((false, m))),
                Ok(uris) => plan_after_encryption(es, uris, rs.1, rs.2),
            },
        }
    }
}

/// The outcome once the encrypted URIs `uris` are known, with `counted`
/// and `total` the archive's read bookkeeping.
pub open spec fn plan_after_encryption(es: Seq<ZipEntry>, uris: Seq<Seq<char>>, counted: Seq<Seq<char>>, total: nat)
    -> Option<Result<ReadState, OpenError>>
{
    let f = first_encrypted(uris);
    if f >= 0 {
        Some(Err((true, "encrypted text resource: "@ + normalize_path(uris[f]))))
    } else {
        let c = normalize_path("META-INF/container.xml"@);
        if !read_determined(es, c) {
            None
        } else {
            let rs = read_spec(es, counted, total, c);
            match rs.0 {
                Err(_) => Some(Err((false, "missing or invalid META-INF/container.xml"@))),
                Ok(t) => match package::opf_run(doc_events(t), 0) {
                    Err(m) => Some(Err((false, m))),
                    Ok(opf) => plan_package(es, opf, rs.1, rs.2),
                },
            }
        }
    }
}

/// The outcome once the package document's path `opf` is known.
pub open spec fn plan_package(es: Seq<ZipEntry>, opf: Seq<char>, counted: Seq<Seq<char>>, total: nat)
    -> Option<Result<ReadState, OpenError>>
{
    let p = normalize_path(opf);
    if !read_determined(es, p) {
        None
    } else {
        let rs = read_spec(es, counted, total, p);
        match rs.0 {
            Err(_) => Some(Err((false, "cannot read package document: "@ + opf))),
            Ok(t) => match package::package_from_events(doc_events(t), opf) {
                Err(m) => Some(Err((false, m))),
                Ok(pv) => plan_toc(es, pv, rs.1, rs.2),
            },
        }
    }
}

/// The outcome once the package `pv` is read: a book without a TOC
/// document opens; otherwise the TOC document must read and parse.
pub open spec fn plan_toc(es: Seq<ZipEntry>, pv: package::PackageV, counted: Seq<Seq<char>>, total: nat)
    -> Option<Result<ReadState, OpenError>>
{
    match package::toc_document_v(pv.2) {
        None => Some(Ok((counted, total))),
        Some(h) => {
            let nav = package::is_nav_document_v(pv.2, h);
            if !read_determined(es, normalize_path(h)) {
                None
            } else {
                let rs = read_spec(es, counted, total, normalize_path(h));
                match rs.0 {
                    Err(_) => Some(Err((false, package::toc_read_failure(h, nav)))),
                    Ok(t) => match package::toc_entries_of(doc_events(t), nav) {
                        Err(m) => Some(Err((false, m))),
                        Ok(_) => Some(Ok((rs.1, rs.2))),
                    },
                }
            }
        },
    }
}

/// Encrypting fonts alone never refuses a book: when `encryption.xml` opens
/// and reads as the text `t`, which lists the URIs `uris`, and each of them
/// names a font, opening goes on to the container, the package and the
/// table of contents from the read state after that read, and its outcome
/// is never a refusal for unsupported content.
pub proof fn lemma_font_only_encryption(es: Seq<ZipEntry>, t: Seq<char>, uris: Seq<Seq<char>>)
    requires
        member_opens(es, normalize_path("META-INF/encryption.xml"@)),
        read_determined(es, normalize_path("META-INF/encryption.xml"@)),
        read_spec(es, seq![], 0, normalize_path("META-INF/encryption.xml"@)).0 == Ok::<Seq<char>, Seq<char>>(t),
        encryption_run(doc_events(t), 0, seq![]) == Ok::<Seq<Seq<char>>, Seq<char>>(uris),
        forall|i: int| 0 <= i < uris.len() ==> is_font_path(lowercase(normalize_path(#[trigger] uris[i]))),
    ensures
        ({
            let rs = read_spec(es, seq![], 0, normalize_path("META-INF/encryption.xml"@));
            open_plan(es) == plan_after_encryption(es, uris, rs.1, rs.2)
        }),
        !(open_plan(es) matches Some(Err(o)) && o.0),
{
    reveal(open_plan);
    lemma_first_encrypted(uris);
    if first_encrypted(uris) >= 0 {
        let f = first_encrypted(uris);
        assert(is_font_path(lowercase(normalize_path(uris[f]))));
    }
}

/// The read state `(c2, t2)` is `(c, t)` with the member `n`, of text
/// length `l`, counted as well.
pub open spec fn shifted(c: Seq<Seq<char>>, t: nat, c2: Seq<Seq<char>>, t2: nat, n: Seq<char>, l: nat) -> bool {
    &&& t2 == t + l
    &&& forall|x: Seq<char>| #[trigger] c2.contains(x) <==> (c.contains(x) || x == n)
}

proof fn lemma_push_contains(s: Seq<Seq<char>>, a: Seq<char>, x: Seq<char>)
    ensures
        s.push(a).contains(x) == (s.contains(x) || x == a),
{
    if s.contains(x) {
        let i = choose|i: int| 0 <= i < s.len() && s[i] == x;
        assert(s.push(a)[i] == x);
    }
    if x == a {
        assert(s.push(a)[s.len() as int] == x);
    }
    if s.push(a).contains(x) {
        let i = choose|i: int| 0 <= i < s.push(a).len() && s.push(a)[i] == x;
        if i < s.len() {
            assert(s[i] == x);
        }
    }
}

proof fn lemma_entry_index_push(es: Seq<ZipEntry>, e: ZipEntry, p: Seq<char>)
    ensures
        p != e.0 ==> entry_index(es.push(e), p) == entry_index(es, p),
        p == e.0 && entry_index(es, p) < 0 ==> entry_index(es.push(e), p) == es.len(),
{
    assert(es.push(e).drop_last() =~= es);
}

/// A read of a member of `es` that succeeds gives the same text in
/// `es.push(e)` (whose added member `e` is no member of `es`) from a state
/// that has `e` counted as well, provided the total stays within the limit.
proof fn lemma_read_shift(es: Seq<ZipEntry>, e: ZipEntry, c: Seq<Seq<char>>, t: nat, c2: Seq<Seq<char>>, t2: nat,
    l: nat, p: Seq<char>)
    requires
        entry_index(es, e.0) < 0,
        shifted(c, t, c2, t2, e.0, l),
        member_opens(es, p),
        read_spec(es, c, t, p).0 is Ok,
        read_spec(es, c, t, p).2 + l <= epub::archive::MAX_EPUB_TOTAL_TEXT_SIZE,
    ensures
        read_determined(es.push(e), p) == read_determined(es, p),
        read_spec(es.push(e), c2, t2, p).0 == read_spec(es, c, t, p).0,
        shifted(read_spec(es, c, t, p).1, read_spec(es, c, t, p).2, read_spec(es.push(e), c2, t2, p).1,
            read_spec(es.push(e), c2, t2, p).2, e.0, l),
        read_spec(es, c, t, p).2 >= t,
{
    lemma_entry_index_push(es, e, p);
    epub::archive::lemma_entry_index(es, p);
    let k = entry_index(es, p);
    assert(p != e.0);
    assert(es.push(e)[k] == es[k]);
    assert(c2.contains(p) == c.contains(p));
    if !c.contains(p) {
        assert forall|x: Seq<char>| #[trigger] c2.push(p).contains(x) <==> (c.push(p).contains(x) || x == e.0) by {
            lemma_push_contains(c2, p, x);
            lemma_push_contains(c, p, x);
        }
    }
}

proof fn lemma_read_grows(es: Seq<ZipEntry>, c: Seq<Seq<char>>, t: nat, p: Seq<char>)
    ensures
        read_spec(es, c, t, p).2 >= t,
{
}

proof fn lemma_toc_grows(es: Seq<ZipEntry>, pv: package::PackageV, c: Seq<Seq<char>>, t: nat, st: ReadState)
    requires
        plan_toc(es, pv, c, t) == Some(Ok::<ReadState, OpenError>(st)),
    ensures
        st.1 >= t,
{
    match package::toc_document_v(pv.2) {
        None => {},
        Some(h) => {
            lemma_read_grows(es, c, t, normalize_path(h));
        },
    }
}

proof fn lemma_package_grows(es: Seq<ZipEntry>, opf: Seq<char>, c: Seq<Seq<char>>, t: nat, st: ReadState)
    requires
        plan_package(es, opf, c, t) == Some(Ok::<ReadState, OpenError>(st)),
    ensures
        st.1 >= t,
{
    let p = normalize_path(opf);
    let rs = read_spec(es, c, t, p);
    lemma_read_grows(es, c, t, p);
    let pv = package::package_from_events(doc_events(rs.0->Ok_0), opf)->Ok_0;
    lemma_toc_grows(es, pv, rs.1, rs.2, st);
}

proof fn lemma_toc_shift(es: Seq<ZipEntry>, e: ZipEntry, pv: package::PackageV, c: Seq<Seq<char>>, t: nat,
    c2: Seq<Seq<char>>, t2: nat, l: nat, st: ReadState)
    requires
        entry_index(es, e.0) < 0,
        shifted(c, t, c2, t2, e.0, l),
        plan_toc(es, pv, c, t) == Some(Ok::<ReadState, OpenError>(st)),
        st.1 + l <= epub::archive::MAX_EPUB_TOTAL_TEXT_SIZE,
    ensures
        plan_toc(es.push(e), pv, c2, t2) matches Some(Ok(_)),
        st.1 >= t,
{
    match package::toc_document_v(pv.2) {
        None => {},
        Some(h) => {
            let hp = normalize_path(h);
            lemma_read_shift(es, e, c, t, c2, t2, l, hp);
        },
    }
}

proof fn lemma_package_shift(es: Seq<ZipEntry>, e: ZipEntry, opf: Seq<char>, c: Seq<Seq<char>>, t: nat,
    c2: Seq<Seq<char>>, t2: nat, l: nat, st: ReadState)
    requires
        entry_index(es, e.0) < 0,
        shifted(c, t, c2, t2, e.0, l),
        plan_package(es, opf, c, t) == Some(Ok::<ReadState, OpenError>(st)),
        st.1 + l <= epub::archive::MAX_EPUB_TOTAL_TEXT_SIZE,
    ensures
        plan_package(es.push(e), opf, c2, t2) matches Some(Ok(_)),
        st.1 >= t,
{
    let p = normalize_path(opf);
    let rs = read_spec(es, c, t, p);
    let pv = package::package_from_events(doc_events(rs.0->Ok_0), opf)->Ok_0;
    lemma_toc_grows(es, pv, rs.1, rs.2, st);
    lemma_read_shift(es, e, c, t, c2, t2, l, p);
    lemma_toc_shift(es, e, pv, rs.1, rs.2, read_spec(es.push(e), c2, t2, p).1, read_spec(es.push(e), c2, t2, p).2, l, st);
}

proof fn lemma_container_shift(es: Seq<ZipEntry>, e: ZipEntry, uris: Seq<Seq<char>>, c2: Seq<Seq<char>>, t2: nat,
    l: nat, st: ReadState)
    requires
        entry_index(es, e.0) < 0,
        shifted(seq![], 0, c2, t2, e.0, l),
        first_encrypted(uris) < 0,
        plan_after_encryption(es, seq![], seq![], 0) == Some(Ok::<ReadState, OpenError>(st)),
        st.1 + l <= epub::archive::MAX_EPUB_TOTAL_TEXT_SIZE,
    ensures
        plan_after_encryption(es.push(e), uris, c2, t2) matches Some(Ok(_)),
{
    let cp = normalize_path("META-INF/container.xml"@);
    let rs = read_spec(es, seq![], 0, cp);
    let opf = package::opf_run(doc_events(rs.0->Ok_0), 0)->Ok_0;
    lemma_package_grows(es, opf, rs.1, rs.2, st);
    lemma_read_shift(es, e, seq![], 0, c2, t2, l, cp);
    lemma_package_shift(es, e, opf, rs.1, rs.2, read_spec(es.push(e), c2, t2, cp).1,
        read_spec(es.push(e), c2, t2, cp).2, l, st);
}

/// Encrypting fonts alone never stops a book from opening: when the
/// archive `es` holds no `encryption.xml` and opens, the archive with an
/// `encryption.xml` member `e` added (one that opens, reads cleanly and
/// passes the per-member checks, and whose URIs all name fonts) opens as
/// well, provided its text keeps the aggregate within the limit.
pub proof fn lemma_font_encryption_keeps_open(es: Seq<ZipEntry>, e: ZipEntry, uris: Seq<Seq<char>>, st: ReadState)
    requires
        e.0 == normalize_path("META-INF/encryption.xml"@),
        entry_index(es, e.0) < 0,
        e.4 && e.5,
        epub::archive::member_problem(e.0, epub::archive::entry_info(e)) is None,
        epub::archive::bounded(e.3, (epub::archive::MAX_EPUB_TEXT_MEMBER_SIZE + 1) as nat).len()
            <= epub::archive::MAX_EPUB_TEXT_MEMBER_SIZE,
        encryption_run(doc_events(epub::archive::lossy_utf8(epub::archive::bounded(e.3,
            (epub::archive::MAX_EPUB_TEXT_MEMBER_SIZE + 1) as nat))), 0, seq![])
            == Ok::<Seq<Seq<char>>, Seq<char>>(uris),
        forall|i: int| 0 <= i < uris.len() ==> is_font_path(lowercase(normalize_path(#[trigger] uris[i]))),
        open_plan(es) == Some(Ok::<ReadState, OpenError>(st)),
        st.1 + epub::archive::bounded(e.3, (epub::archive::MAX_EPUB_TEXT_MEMBER_SIZE + 1) as nat).len()
            <= epub::archive::MAX_EPUB_TOTAL_TEXT_SIZE,
    ensures
        open_plan(es.push(e)) matches Some(Ok(_)),
{
    reveal(open_plan);
    let en = e.0;
    let es2 = es.push(e);
    let l = epub::archive::bounded(e.3, (epub::archive::MAX_EPUB_TEXT_MEMBER_SIZE + 1) as nat).len();
    lemma_entry_index_push(es, e, en);
    assert(es2[es.len() as int] == e);
    assert(member_opens(es2, en));
    lemma_first_encrypted(uris);
    if first_encrypted(uris) >= 0 {
        assert(is_font_path(lowercase(normalize_path(uris[first_encrypted(uris)]))));
    }
    let c2 = seq![en];
    assert(seq![].push(en) =~= c2);
    assert forall|x: Seq<char>| #[trigger] c2.contains(x) <==> (Seq::<Seq<char>>::empty().contains(x) || x == en) by {
        if c2.contains(x) {
            let i = choose|i: int| 0 <= i < c2.len() && c2[i] == x;
        }
        if x == en {
            assert(c2[0] == x);
        }
    }
    assert(!Seq::<Seq<char>>::empty().contains(en));
    assert(read_spec(es2, seq![], 0, en) == (Ok::<Seq<char>, Seq<char>>(epub::archive::lossy_utf8(
        epub::archive::bounded(e.3, (epub::archive::MAX_EPUB_TEXT_MEMBER_SIZE + 1) as nat))), c2, l));
    lemma_container_shift(es, e, uris, c2, l, l, st);
}

/// The text of the member that the spine item `id` names through the
/// manifest `m`, as a successful read of it gives it; `None` when the
/// manifest has no item with that id or the archive no such member.
pub open spec fn spine_text(es: Seq<ZipEntry>, m: Seq<package::ManifestItem>, id: Seq<char>) -> Option<Seq<char>> {
    let k = package::find_id(m, id);
    if k >= 0 && entry_index(es, normalize_path(m[k].href@)) >= 0 {
        Some(member_text(es, normalize_path(m[k].href@)))
    } else {
        None
    }
}

/// `segs` is the chapter for the spine item `id`: made from its member's
/// text, or a missing chapter when that text is not there or its read
/// failed.
pub open spec fn chapter_for(es: Seq<ZipEntry>, m: Seq<package::ManifestItem>, id: Seq<char>, use_css: bool,
    segs: Seq<StyledSegment>) -> bool {
    match spine_text(es, m, id) {
        None => line_runs(segs) == chapter_runs(None, use_css),
        Some(t) => line_runs(segs) == chapter_runs(Some(t), use_css)
            || line_runs(segs) == chapter_runs(None, use_css),
    }
}

/// The package document at `opf` reads as `pk`, and `toc` is the table of
/// contents read for it: from the package's TOC document, each entry
/// resolved to its spine position, or generated from the spine when there
/// is no TOC document.
pub open spec fn package_read(es: Seq<ZipEntry>, opf: Seq<char>, pk: package::Package, toc: Seq<TocEntry>) -> bool {
    &&& package::package_from_events(member_events(es, normalize_path(opf)), opf)
        == Ok::<package::PackageV, Seq<char>>(package::package_view(pk))
    &&& match package::toc_document(pk.manifest@) {
        None => package::toc_view(toc) == package::fallback_toc(strings_view(pk.spine@), pk.manifest@),
        Some(h) => match package::toc_entries_of(member_events(es, normalize_path(h)),
            package::is_nav_document(pk.manifest@, h)) {
            Ok(raw) => package::toc_view(toc) == package::resolve_all(raw, strings_view(pk.spine@),
                pk.manifest@, package::toc_base(h)),
            Err(_) => false,
        },
    }
}

/// The outcome of opening the book whose file holds `data`, as far as the
/// bytes fix it: it is not a ZIP archive, has too many members, or is
/// opened as `open_plan` says.
pub open spec fn open_outcome(data: Seq<u8>) -> Option<Result<(), OpenError>> {
    match zip_opened(data) {
        Err(m) => Some(Err((false, "failed to parse ZIP archive: "@ + m))),
        Ok(es) => if es.len() > MAX_EPUB_MEMBERS {
            Some(Err((false, "too many files in archive: "@ + decimal(es.len()) + " (max "@
                + decimal(MAX_EPUB_MEMBERS as nat) + ")"@)))
        } else {
            match open_plan(es) {
                Some(Ok(_)) => Some(Ok(())),
                Some(Err(o)) => Some(Err(o)),
                None => None,
            }
        },
    }
}

/// The error `e` is the one `o` describes: its message, and whether the
/// content is unsupported rather than invalid.
pub open spec fn is_open_error(e: EpubError, o: OpenError) -> bool {
    e.message() == o.1 && if o.0 { e is UnsupportedContent } else { e is InvalidEpub }
}

/// Reads the package document at `opf_path` and its table of contents.
fn open_package(archive: &mut Archive, opf_path: &str) -> (r: Result<(package::Package, Vec<TocEntry>), EpubError>)
    requires
        old(archive).wf(),
    ensures
        final(archive).wf(),
        final(archive).entries() == old(archive).entries(),
        match plan_package(old(archive).entries(), opf_path@, old(archive).counted(), old(archive).total()) {
            Some(Ok(st)) => r is Ok && (final(archive).counted(), final(archive).total()) == st,
            Some(Err(o)) => r matches Err(e) && is_open_error(e, o),
            None => true,
        },
        r is Err ==> r->Err_0 is InvalidEpub,
        r matches Ok((pk, toc)) ==> package_read(old(archive).entries(), opf_path@, pk, toc@),
{
    let ghost es = archive.entries();
    let pkg = match package::parse_package(archive, opf_path) {
        Ok(p) => p,
        Err(e) => {
            return Err(e);
        },
    };
    proof {
        let h = package::toc_document(pkg.manifest@);
        match h {
            Some(hh) => { package::lemma_toc_document_view(pkg.manifest@, hh); },
            None => { package::lemma_toc_document_view(pkg.manifest@, seq![]); },
        }
    }
    let toc = match package::load_toc(archive, &pkg) {
        Ok(t) => t,
        Err(e) => {
            return Err(e);
        },
    };
    Ok((pkg, toc))
}

/// Checks the encrypted URIs `uris`, then reads the container, the
/// package document and the table of contents.
#[verifier::rlimit(30)]
fn open_documents(archive: &mut Archive, uris: &[String]) -> (r: Result<(package::Package, Vec<TocEntry>), EpubError>)
    requires
        old(archive).wf(),
    ensures
        final(archive).wf(),
        final(archive).entries() == old(archive).entries(),
        match plan_after_encryption(old(archive).entries(), strings_view(uris@), old(archive).counted(), old(archive).total()) {
            Some(Ok(st)) => r is Ok && (final(archive).counted(), final(archive).total()) == st,
            Some(Err(o)) => r matches Err(e) && is_open_error(e, o),
            None => true,
        },
        r is Err ==> r->Err_0 is InvalidEpub || r->Err_0 is UnsupportedContent,
        r matches Ok((pk, toc)) ==> match package::opf_run(member_events(old(archive).entries(),
            normalize_path("META-INF/container.xml"@)), 0) {
            Ok(opf) => package_read(old(archive).entries(), opf, pk, toc@),
            Err(_) => false,
        },
{
    let ghost es = archive.entries();
    proof {
        lemma_first_encrypted(strings_view(uris@));
    }
    match check_encrypted_uris(uris) {
        Ok(()) => {},
        Err(e) => {
            proof {
                let f = first_encrypted(strings_view(uris@));
                let k = choose|k: int| 0 <= k < uris@.len() && #[trigger] encrypted_text(uris@[k]@)
                    && (forall|j: int| 0 <= j < k ==> !encrypted_text(#[trigger] uris@[j]@))
                    && e.message() == "encrypted text resource: "@ + normalize_path(uris@[k]@);
                assert(strings_view(uris@)[k] == uris@[k]@);
                if f < k {
                    assert(strings_view(uris@)[f] == uris@[f]@);
                }
                if f > k || f < 0 {
                    assert(!encrypted_text(strings_view(uris@)[k]));
                }
                assert(f == k);
            }
            return Err(e);
        },
    }
    proof {
        let f = first_encrypted(strings_view(uris@));
        if f >= 0 {
            assert(strings_view(uris@)[f] == uris@[f]@);
        }
    }
    let opf_path = match package::find_opf_path(archive) {
        Ok(p) => p,
        Err(e) => {
            return Err(e);
        },
    };
    open_package(archive, opf_path.as_str())
}

/// The book `b` is what the members `es` hold, read with the package `pk`:
/// the package document is the one the container names and reads as `pk`;
/// title and author are the package's; the table of contents is read from
/// the package's TOC document (or generated from the spine when there is
/// none), each entry resolved to its spine position; there is one chapter
/// per spine item, in spine order.
pub open spec fn book_read(es: Seq<ZipEntry>, use_css: bool, pk: package::Package, b: EpubBook) -> bool {
    &&& match package::opf_run(member_events(es, normalize_path("META-INF/container.xml"@)), 0) {
        Ok(opf) => package_read(es, opf, pk, b.book_toc()),
        Err(_) => false,
    }
    &&& b.book_title() == pk.title@
    &&& b.book_author() == pk.author@
    &&& b.book_chapters().len() == pk.spine@.len()
    &&& forall|i: int| 0 <= i < pk.spine@.len() ==> chapter_for(es, pk.manifest@, pk.spine@[i]@, use_css,
        #[trigger] b.book_chapters()[i]@)
}

/// The texts the chapters of the spine items `spine[i..]` are made from,
/// read in turn from the read state `(counted, total)`: the member's text
/// when its read succeeds, `None` for a spine item the manifest lacks or
/// whose read fails; `None` in all when one of the reads may fail either
/// way (its stream holds an error).
pub open spec fn chapter_texts(es: Seq<ZipEntry>, m: Seq<package::ManifestItem>, spine: Seq<Seq<char>>, i: int,
    counted: Seq<Seq<char>>, total: nat) -> Option<Seq<Option<Seq<char>>>>
    decreases spine.len() - i,
{
    if i < 0 || i >= spine.len() {
        Some(seq![])
    } else {
        let k = package::find_id(m, spine[i]);
        if k < 0 {
            prepend_text(None, chapter_texts(es, m, spine, i + 1, counted, total))
        } else {
            let p = normalize_path(m[k].href@);
            if !read_determined(es, p) {
                None
            } else {
                let rs = read_spec(es, counted, total, p);
                let h = match rs.0 {
                    Ok(t) => Some(t),
                    Err(_) => None,
                };
                prepend_text(h, chapter_texts(es, m, spine, i + 1, rs.1, rs.2))
            }
        }
    }
}

/// `h` in front of the texts `o`, if they are known.
pub open spec fn prepend_text(h: Option<Seq<char>>, o: Option<Seq<Option<Seq<char>>>>) -> Option<Seq<Option<Seq<char>>>> {
    match o {
        Some(r) => Some(seq![h] + r),
        None => None,
    }
}

/// The texts `pre` in front of the texts `o`, if they are known.
pub open spec fn prefix_texts(pre: Seq<Option<Seq<char>>>, o: Option<Seq<Option<Seq<char>>>>) -> Option<Seq<Option<Seq<char>>>> {
    match o {
        Some(r) => Some(pre + r),
        None => None,
    }
}

/// Where the reads are fixed, each chapter of `b` is made from the text the
/// reads give: after the documents are read with final read state `st`,
/// the spine's members are read in order.
pub open spec fn chapters_made(es: Seq<ZipEntry>, use_css: bool, pk: package::Package, st: ReadState, b: EpubBook) -> bool {
    match chapter_texts(es, pk.manifest@, strings_view(pk.spine@), 0, st.0, st.1) {
        Some(hs) => hs.len() == b.book_chapters().len() && forall|i: int| 0 <= i < hs.len()
            ==> line_runs(#[trigger] b.book_chapters()[i]@) == chapter_runs(hs[i], use_css),
        None => true,
    }
}

/// A loaded EPUB book with metadata, TOC, and chapter content.
pub struct EpubBook {
    /// The bounded archive for reading members.
    archive: Archive,
    /// Book title from OPF metadata.
    title: String,
    /// Book author from OPF metadata.
    author: String,
    /// Table of contents entries.
    toc: Vec<TocEntry>,
    /// Per-chapter styled segments.
    chapters: Vec<Vec<StyledSegment>>,
}

impl EpubBook {
    /// The book title.
    pub closed spec fn book_title(&self) -> Seq<char> {
        self.title@
    }

    /// The book author.
    pub closed spec fn book_author(&self) -> Seq<char> {
        self.author@
    }

    /// The table of contents.
    pub closed spec fn book_toc(&self) -> Seq<TocEntry> {
        self.toc@
    }

    /// The chapters, in spine order.
    pub closed spec fn book_chapters(&self) -> Seq<Vec<StyledSegment>> {
        self.chapters@
    }

    /// Opens and validates an EPUB held in memory.
    ///
    /// Verifies:
    /// - ZIP member count within limit.
    /// - No encrypted spine text resources (font-only encryption is allowed).
    /// - Package document (OPF) is present and parseable.
    /// - Spine contains at least one item.
    /// - TOC (nav or NCX) is loaded.
    ///
    /// Each spine item becomes one chapter: its extracted content, or a
    /// placeholder when the member is missing or holds no readable text.
    #[verifier::spinoff_prover]
    #[verifier::rlimit(50)]
    pub fn open(data: Vec<u8>, use_css: bool) -> (r: Result<EpubBook, EpubError>)
        ensures
            zip_opened(data@) is Err ==> (r matches Err(e) && e is InvalidEpub
                && e.message() == "failed to parse ZIP archive: "@ + zip_opened(data@)->Err_0),
            zip_opened(data@) is Ok && zip_opened(data@)->Ok_0.len() > MAX_EPUB_MEMBERS ==> (r matches Err(e)
                && e is InvalidEpub && e.message() == "too many files in archive: "@ + decimal(zip_opened(data@)->Ok_0.len())
                + " (max "@ + decimal(MAX_EPUB_MEMBERS as nat) + ")"@),
            zip_opened(data@) matches Ok(es) ==> es.len() <= MAX_EPUB_MEMBERS ==> match open_plan(es) {
                Some(Ok(_)) => r is Ok,
                Some(Err(o)) => r matches Err(e) && is_open_error(e, o),
                None => true,
            },
            match open_outcome(data@) {
                Some(Ok(())) => r is Ok,
                Some(Err(o)) => r matches Err(e) && is_open_error(e, o),
                None => true,
            },
            r matches Ok(b) ==> {
                &&& zip_opened(data@) matches Ok(es) && exists|pk: package::Package| #[trigger] book_read(es, use_css, pk, b)
                    && (open_plan(es) matches Some(Ok(st)) ==> chapters_made(es, use_css, pk, st, b))
                &&& b.book_chapters().len() > 0
                &&& forall|i: int| 0 <= i < b.book_chapters().len() ==> is_chapter(#[trigger] b.book_chapters()[i]@, use_css)
                    && b.book_chapters()[i]@.len() > 0
            },
    {
        let ghost dv = data@;
        let mut archive = match Archive::open(data) {
            Ok(a) => a,
            Err(e) => {
                return Err(e);
            },
        };
        let ghost es = archive.entries();
        proof {
            reveal(open_plan);
        }
        let encrypted_uris = match archive.parse_encryption() {
            Ok(u) => u,
            Err(e) => {
                return Err(e);
            },
        };
        proof {
            if !member_opens(es, normalize_path("META-INF/encryption.xml"@)) {
                assert(strings_view(encrypted_uris@) =~= Seq::<Seq<char>>::empty());
            }
        }
        let (pkg, toc) = match open_documents(&mut archive, encrypted_uris.as_slice()) {
            Ok(x) => x,
            Err(e) => {
                return Err(e);
            },
        };
        let ghost sv = strings_view(pkg.spine@);
        let ghost full: Option<Seq<Option<Seq<char>>>> = match open_plan(es) {
            Some(Ok(st)) => chapter_texts(es, pkg.manifest@, sv, 0, st.0, st.1),
            _ => None,
        };
        let ghost mut tail_ok: bool = open_plan(es) is Some && open_plan(es)->Some_0 is Ok;
        let ghost mut pre: Seq<Option<Seq<char>>> = seq![];
        proof {
            if tail_ok {
                assert(pre + chapter_texts(es, pkg.manifest@, sv, 0, archive.counted(), archive.total())->Some_0
                    =~= chapter_texts(es, pkg.manifest@, sv, 0, archive.counted(), archive.total())->Some_0);
            }
        }
        let mut chapters: Vec<Vec<StyledSegment>> = Vec::new();
        let mut i: usize = 0;
        while i < pkg.spine.len()
            invariant
                i <= pkg.spine@.len(),
                sv == strings_view(pkg.spine@),
                archive.wf(),
                archive.entries() == es,
                pre.len() == i,
                forall|j: int| 0 <= j < i ==> line_runs(#[trigger] chapters@[j]@) == chapter_runs(pre[j], use_css),
                full == if tail_ok {
                    prefix_texts(pre, chapter_texts(es, pkg.manifest@, sv, i as int, archive.counted(), archive.total()))
                } else {
                    None
                },
                chapters@.len() == i,
                forall|j: int| 0 <= j < i ==> is_chapter(#[trigger] chapters@[j]@, use_css) && chapters@[j]@.len() > 0,
                forall|j: int| 0 <= j < i ==> chapter_for(es, pkg.manifest@, pkg.spine@[j]@, use_css, #[trigger] chapters@[j]@),
            decreases pkg.spine@.len() - i,
        {
            let ghost html: Option<Seq<char>>;
            let ghost c_before = archive.counted();
            let ghost t_before = archive.total();
            let segs = match package::find_id_exec(&pkg.manifest, &pkg.spine[i]) {
                Some(k) => {
                    proof { package::lemma_find_id_range(pkg.manifest@, pkg.spine@[i as int]@); }
                    match archive.read_text(pkg.manifest[k].href.as_str()) {
                        Ok(content) => {
                            proof { html = Some(content@); }
                            chapter_segments(Some(content.as_str()), use_css)
                        },
                        Err(_) => {
                            proof { html = None; }
                            chapter_segments(None, use_css)
                        },
                    }
                },
                None => {
                    proof { html = None; }
                    chapter_segments(None, use_css)
                },
            };
            proof {
                lemma_chapter_not_empty(html, use_css);
                assert(line_runs(segs@).len() == segs@.len());
                assert(is_chapter(segs@, use_css));
                assert(chapter_for(es, pkg.manifest@, pkg.spine@[i as int]@, use_css, segs@));
                assert(sv[i as int] == pkg.spine@[i as int]@);
                if tail_ok {
                    let ct = chapter_texts(es, pkg.manifest@, sv, i as int, c_before, t_before);
                    let nt = chapter_texts(es, pkg.manifest@, sv, i + 1, archive.counted(), archive.total());
                    if ct is Some {
                        assert(ct == prepend_text(html, nt));
                        assert(pre + (seq![html] + nt->Some_0) =~= pre.push(html) + nt->Some_0);
                    } else {
                        tail_ok = false;
                    }
                }
                pre = pre.push(html);
            }
            chapters.push(segs);
            proof {
                assert forall|j: int| 0 <= j < i + 1 implies line_runs(#[trigger] chapters@[j]@) == chapter_runs(pre[j], use_css) by {
                    if j < i {
                        assert(pre[j] == pre.drop_last()[j]);
                    }
                }
            }
            i += 1;
        }
        proof {
            if tail_ok {
                assert(chapter_texts(es, pkg.manifest@, sv, i as int, archive.counted(), archive.total()) == Some(Seq::<Option<Seq<char>>>::empty()));
                assert(pre + Seq::<Option<Seq<char>>>::empty() =~= pre);
            }
        }
        if chapters.len() == 0 {
            return Err(crate::error::invalid_msg("EPUB has no readable spine chapters"));
        }
        let book = EpubBook { archive, title: pkg.title, author: pkg.author, toc, chapters };
        assert(book_read(es, use_css, pkg, book));
        proof {
            if open_plan(es) is Some && open_plan(es)->Some_0 is Ok {
                let st = open_plan(es)->Some_0->Ok_0;
                assert(chapters_made(es, use_css, pkg, st, book));
            }
            assert(book_read(es, use_css, pkg, book)
                && (open_plan(es) matches Some(Ok(st)) ==> chapters_made(es, use_css, pkg, st, book)));
        }
        assert(zip_opened(dv) == Ok::<Seq<ZipEntry>, Seq<char>>(es));
        assert(book.book_chapters().len() > 0);
        assert(forall|i: int| 0 <= i < book.book_chapters().len() ==> is_chapter(#[trigger] book.book_chapters()[i]@, use_css)
            && book.book_chapters()[i]@.len() > 0);
        Ok(book)
    }

    /// Returns the book title.
    pub fn title(&self) -> (t: &str)
        ensures
            t@ == self.book_title(),
    {
        self.title.as_str()
    }

    /// Returns the book author.
    pub fn author(&self) -> (a: &str)
        ensures
            a@ == self.book_author(),
    {
        self.author.as_str()
    }

    /// Returns the table of contents.
    pub fn toc(&self) -> (t: &[TocEntry])
        ensures
            t@ == self.book_toc(),
    {
        self.toc.as_slice()
    }

    /// Returns the styled segments for each chapter in the spine.
    pub fn chapters(&self) -> (c: &[Vec<StyledSegment>])
        ensures
            c@ == self.book_chapters(),
    {
        self.chapters.as_slice()
    }

    /// The number of chapters fits a `usize`.
    pub proof fn lemma_chapter_count_fits(&self)
        ensures
            self.book_chapters().len() <= usize::MAX,
    {
        assert(self.chapters@.len() == self.chapters.len());
    }

    /// Returns the number of chapters in the spine.
    pub fn chapter_count(&self) -> (n: usize)
        ensures
            n == self.book_chapters().len(),
    {
        self.chapters.len()
    }
}

} // verus!
