//! EPUB loading, archive safety, TOC and whole-book search, on books built
//! in memory.

use std::io::{Cursor, Write};
use termepub::epub::archive::Archive;
use termepub::error::EpubError;
use termepub::ui::app::{App, Key, KeyCode, Mode};
use termepub::{EpubBook, StateStore};
use zip::write::SimpleFileOptions;

const CONTAINER: &str = r#"<?xml version="1.0"?>
<container version="1.0" xmlns="urn:oasis:names:tc:opendocument:xmlns:container">
  <rootfiles><rootfile full-path="OEBPS/content.opf" media-type="application/oebps-package+xml"/></rootfiles>
</container>"#;

fn zip_bytes(files: &[(&str, Vec<u8>)]) -> Vec<u8> {
    let mut w = zip::ZipWriter::new(Cursor::new(Vec::new()));
    let opts = SimpleFileOptions::default().compression_method(zip::CompressionMethod::Deflated);
    for (name, data) in files {
        w.start_file(*name, opts).unwrap();
        w.write_all(data).unwrap();
    }
    w.finish().unwrap().into_inner()
}

fn epub(files: &[(&str, &str)]) -> Vec<u8> {
    let mut all: Vec<(&str, Vec<u8>)> = vec![
        ("mimetype", b"application/epub+zip".to_vec()),
        ("META-INF/container.xml", CONTAINER.as_bytes().to_vec()),
    ];
    for (n, d) in files {
        all.push((n, d.as_bytes().to_vec()));
    }
    zip_bytes(&all)
}

fn opf(title: &str, author: &str, manifest: &str, spine: &str) -> String {
    format!(
        r#"<?xml version="1.0"?>
<package xmlns="http://www.idpf.org/2007/opf" version="3.0">
  <metadata xmlns:dc="http://purl.org/dc/elements/1.1/">
    <dc:title>{title}</dc:title>
    <dc:creator>{author}</dc:creator>
  </metadata>
  <manifest>{manifest}</manifest>
  <spine>{spine}</spine>
</package>"#
    )
}

fn chapter(body: &str) -> String {
    format!("<html xmlns=\"http://www.w3.org/1999/xhtml\"><head><title>x</title></head><body>{body}</body></html>")
}

fn ncx(points: &[(&str, &str)]) -> String {
    let mut s = String::from("<ncx><navMap>");
    for (i, (title, src)) in points.iter().enumerate() {
        s.push_str(&format!(
            "<navPoint id=\"p{i}\"><navLabel><text>{title}</text></navLabel><content src=\"{src}\"/></navPoint>"
        ));
    }
    s.push_str("</navMap></ncx>");
    s
}

fn epub2_ncx() -> Vec<u8> {
    let o = opf(
        "EPUB 2 NCX Test Book",
        "Test Author",
        r#"<item id="ncx" href="toc.ncx" media-type="application/x-dtbncx+xml"/>
           <item id="ch1" href="chapter1.xhtml" media-type="application/xhtml+xml"/>"#,
        r#"<itemref idref="ch1"/>"#,
    );
    epub(&[
        ("OEBPS/content.opf", &o),
        ("OEBPS/toc.ncx", &ncx(&[("Chapter 1", "chapter1.xhtml")])),
        ("OEBPS/chapter1.xhtml", &chapter("<h1>Chapter 1</h1><p>The first chapter.</p>")),
    ])
}

fn nav_doc(navs: &str) -> String {
    format!("<html xmlns=\"http://www.w3.org/1999/xhtml\" xmlns:epub=\"http://www.idpf.org/2007/ops\"><body>{navs}</body></html>")
}

const TOC_NAV: &str = r#"<nav epub:type="toc"><ol>
  <li><a href="text/chapter1.xhtml">Chapter 1</a></li>
  <li><a href="text/chapter2.xhtml#start">Chapter 2</a></li>
</ol></nav>"#;

fn epub3(navs: &str) -> Vec<u8> {
    let o = opf(
        "EPUB 3 Nav Test Book",
        "Test Author",
        r#"<item id="nav" href="nav.xhtml" media-type="application/xhtml+xml" properties="nav"/>
           <item id="c1" href="text/chapter1.xhtml" media-type="application/xhtml+xml"/>
           <item id="c2" href="text/chapter2.xhtml" media-type="application/xhtml+xml"/>"#,
        r#"<itemref idref="c1"/><itemref idref="c2"/>"#,
    );
    epub(&[
        ("OEBPS/content.opf", &o),
        ("OEBPS/nav.xhtml", &nav_doc(navs)),
        ("OEBPS/text/chapter1.xhtml", &chapter("<h1>Chapter 1</h1><p>This is chapter one of the book.</p>")),
        ("OEBPS/text/chapter2.xhtml", &chapter("<h1>Chapter 2</h1><p>Welcome to chapter two.</p>")),
    ])
}

fn describe(r: Result<EpubBook, EpubError>) -> String {
    match r {
        Ok(_) => panic!("expected an error"),
        Err(e) => e.describe(),
    }
}

#[test]
fn epub2_ncx_loads_toc() {
    let book = EpubBook::open(epub2_ncx(), true).expect("should open EPUB 2");
    assert_eq!(book.title(), "EPUB 2 NCX Test Book");
    assert_eq!(book.author(), "Test Author");
    assert!(!book.toc().is_empty(), "EPUB 2 NCX should produce TOC entries");
    assert_eq!(book.toc()[0].title, "Chapter 1");
    assert_eq!(book.toc()[0].spine_index, Some(0));
    assert_eq!(book.chapter_count(), 1);
    let text: String = book.chapters()[0].iter().map(|s| s.text.as_str()).collect();
    assert_eq!(text, "Chapter 1\n\nThe first chapter.");
}

#[test]
fn self_closing_metadata_tag_does_not_break_author() {
    let o = r#"<package xmlns="http://www.idpf.org/2007/opf" version="2.0">
  <metadata xmlns:dc="http://purl.org/dc/elements/1.1/">
    <dc:title>Self-Closing Metadata Book</dc:title>
    <dc:publisher/>
    <dc:creator>Self Closing Author</dc:creator>
  </metadata>
  <manifest><item id="ch1" href="chapter1.xhtml" media-type="application/xhtml+xml"/></manifest>
  <spine><itemref idref="ch1"/></spine>
</package>"#;
    let data = epub(&[("OEBPS/content.opf", o), ("OEBPS/chapter1.xhtml", &chapter("<p>x</p>"))]);
    let book = EpubBook::open(data, true).expect("should open");
    assert_eq!(book.title(), "Self-Closing Metadata Book");
    assert_eq!(book.author(), "Self Closing Author");
    // Without a TOC document one entry per spine item is generated.
    assert_eq!(book.toc().len(), 1);
    assert_eq!(book.toc()[0].title, "Chapter 1");
    assert_eq!(book.toc()[0].href, "OEBPS/chapter1.xhtml");
}

#[test]
fn epub3_nav_loads_toc() {
    let book = EpubBook::open(epub3(TOC_NAV), true).expect("should open EPUB 3");
    assert_eq!(book.title(), "EPUB 3 Nav Test Book");
    assert_eq!(book.author(), "Test Author");
    assert!(!book.toc().is_empty(), "EPUB 3 nav should produce TOC entries");
    assert_eq!(book.chapter_count(), 2);
}

#[test]
fn nav_toc_ignores_landmarks_nav() {
    let navs = format!(
        r#"<nav epub:type="landmarks"><ol><li><a href="text/chapter2.xhtml">Start reading</a></li></ol></nav>{TOC_NAV}"#
    );
    let book = EpubBook::open(epub3(&navs), true).expect("should open");
    let toc = book.toc();
    assert_eq!(toc.len(), 2, "should capture only the toc nav, not landmarks: {toc:?}");
    assert_eq!(toc[0].title, "Chapter 1");
    assert_eq!(toc[1].title, "Chapter 2");
    assert_eq!(toc[0].spine_index, Some(0));
    assert_eq!(toc[1].spine_index, Some(1));
}

#[test]
fn untyped_nav_falls_back_to_the_first_nav() {
    let navs = r#"<nav><ol><li><a href="text/chapter2.xhtml">Only two</a></li></ol></nav>"#;
    let book = EpubBook::open(epub3(navs), true).expect("should open");
    assert_eq!(book.toc().len(), 1);
    assert_eq!(book.toc()[0].title, "Only two");
    assert_eq!(book.toc()[0].spine_index, Some(1));
}

#[test]
fn unresolved_toc_entry_has_none_spine_index() {
    let o = opf(
        "Unresolved",
        "A",
        r#"<item id="ncx" href="toc.ncx" media-type="application/x-dtbncx+xml"/>
           <item id="ch1" href="chapter1.xhtml" media-type="application/xhtml+xml"/>"#,
        r#"<itemref idref="ch1"/>"#,
    );
    let data = epub(&[
        ("OEBPS/content.opf", &o),
        ("OEBPS/toc.ncx", &ncx(&[("One", "chapter1.xhtml#a"), ("Gone", "missing.xhtml")])),
        ("OEBPS/chapter1.xhtml", &chapter("<p>text</p>")),
    ]);
    let book = EpubBook::open(data, true).expect("should open");
    let toc = book.toc();
    assert_eq!(toc.len(), 2, "expected two TOC entries: {toc:?}");
    assert_eq!(toc[0].spine_index, Some(0), "first entry should resolve");
    assert_eq!(toc[1].spine_index, None, "unresolved entry must be None, not silently chapter 0");
}

#[test]
fn empty_spine_is_rejected() {
    let o = opf("E", "A", r#"<item id="ch1" href="c.xhtml" media-type="application/xhtml+xml"/>"#, "");
    let err = describe(EpubBook::open(epub(&[("OEBPS/content.opf", &o)]), true));
    assert!(err.contains("spine") || err.contains("chapter"), "error should mention spine/chapter: {err}");
    assert_eq!(err, "invalid EPUB: EPUB has no spine items (empty spine)");
}

#[test]
fn missing_spine_member_produces_placeholder() {
    let o = opf(
        "M",
        "A",
        r#"<item id="ch1" href="chapter1.xhtml" media-type="application/xhtml+xml"/>
           <item id="ch2" href="missing.xhtml" media-type="application/xhtml+xml"/>
           <item id="ch3" href="empty.xhtml" media-type="application/xhtml+xml"/>"#,
        r#"<itemref idref="ch1"/><itemref idref="ch2"/><itemref idref="nope"/><itemref idref="ch3"/>"#,
    );
    let data = epub(&[
        ("OEBPS/content.opf", &o),
        ("OEBPS/chapter1.xhtml", &chapter("<p>text</p>")),
        ("OEBPS/empty.xhtml", &chapter("<p> \n </p>")),
    ]);
    let book = EpubBook::open(data, true).expect("should open despite missing member");
    assert!(book.chapter_count() >= 1);
    assert_eq!(book.chapter_count(), 4);
    let texts: Vec<String> = book
        .chapters()
        .iter()
        .map(|c| c.iter().map(|s| s.text.as_str()).collect())
        .collect();
    assert_eq!(texts[0], "text");
    assert_eq!(texts[1], "[Missing chapter content]");
    assert_eq!(texts[2], "[Missing chapter content]");
    assert_eq!(texts[3], "[This chapter contains no readable text.]");
}

#[test]
fn missing_container_is_rejected() {
    let data = zip_bytes(&[("mimetype", b"application/epub+zip".to_vec())]);
    let err = describe(EpubBook::open(data, true));
    assert_eq!(err, "invalid EPUB: missing or invalid META-INF/container.xml");
}

#[test]
fn container_without_rootfile_is_rejected() {
    let data = zip_bytes(&[("META-INF/container.xml", b"<container><rootfiles/></container>".to_vec())]);
    let err = describe(EpubBook::open(data, true));
    assert_eq!(err, "invalid EPUB: no rootfile found in container.xml");
}

#[test]
fn unreadable_package_document_is_rejected() {
    let data = epub(&[]);
    let err = describe(EpubBook::open(data, true));
    assert_eq!(err, "invalid EPUB: cannot read package document: OEBPS/content.opf");
}

#[test]
fn not_a_zip_is_rejected() {
    let err = describe(EpubBook::open(b"not a zip file".to_vec(), true));
    assert!(err.starts_with("invalid EPUB: failed to parse ZIP archive: "), "{err}");
}

fn encrypted(uri: &str) -> Vec<u8> {
    let enc = format!(
        r#"<encryption xmlns="urn:oasis:names:tc:opendocument:xmlns:container" xmlns:enc="http://www.w3.org/2001/04/xmlenc#">
  <enc:EncryptedData><enc:CipherData><enc:CipherReference URI="{uri}"/></enc:CipherData></enc:EncryptedData>
</encryption>"#
    );
    let o = opf(
        "Enc",
        "A",
        r#"<item id="ch1" href="chapter1.xhtml" media-type="application/xhtml+xml"/>"#,
        r#"<itemref idref="ch1"/>"#,
    );
    epub(&[
        ("META-INF/encryption.xml", &enc),
        ("OEBPS/content.opf", &o),
        ("OEBPS/chapter1.xhtml", &chapter("<p>secret</p>")),
    ])
}

#[test]
fn encrypted_spine_resource_is_rejected() {
    let result = EpubBook::open(encrypted("OEBPS/./chapter1.XHTML"), true);
    match result {
        Err(EpubError::UnsupportedContent(m)) => {
            assert_eq!(m, "encrypted text resource: OEBPS/chapter1.XHTML");
        }
        Err(e) => panic!("wrong error: {}", e.describe()),
        Ok(_) => panic!("expected an error"),
    }
    let err = describe(EpubBook::open(encrypted("OEBPS/chapter1.xhtml"), true));
    assert!(err.contains("encrypt") || err.contains("unsupported"), "error should mention encryption: {err}");
}

#[test]
fn font_only_encryption_does_not_reject() {
    let book = EpubBook::open(encrypted("OEBPS/fonts/Serif.ttf"), true);
    assert!(book.is_ok(), "font-only encryption should not reject");
    assert!(EpubBook::open(encrypted("fonts/anything.xhtml"), true).is_ok(), "paths under fonts are fonts");
}

#[test]
fn too_many_members_is_rejected() {
    let mut files: Vec<(String, Vec<u8>)> = Vec::new();
    for i in 0..10_001 {
        files.push((format!("f{i}.txt"), vec![b'x']));
    }
    let refs: Vec<(&str, Vec<u8>)> = files.iter().map(|(n, d)| (n.as_str(), d.clone())).collect();
    let result = EpubBook::open(zip_bytes(&refs), true);
    let err = describe(result);
    assert!(err.contains("too many") || err.contains("member"), "error should mention member count: {err}");
    assert_eq!(err, "invalid EPUB: too many files in archive: 10001 (max 10000)");
}

#[test]
fn oversized_member_is_rejected() {
    let data = zip_bytes(&[("big.xhtml", vec![b'a'; 25 * 1024 * 1024 + 1])]);
    let mut archive = Archive::open(data).unwrap();
    match archive.read_text("big.xhtml") {
        Err(EpubError::InvalidEpub(m)) => {
            assert_eq!(m, "member \"big.xhtml\" is too large: 26214401 bytes (max 26214400)")
        }
        other => panic!("expected a size error, got {other:?}"),
    }
}

#[test]
fn suspicious_compression_ratio_is_rejected() {
    let data = zip_bytes(&[("bomb.xhtml", vec![0u8; 8 * 1024 * 1024])]);
    let mut archive = Archive::open(data).unwrap();
    match archive.read_text("bomb.xhtml") {
        Err(EpubError::InvalidEpub(m)) => {
            assert!(m.starts_with("suspicious compression ratio for \"bomb.xhtml\": "), "{m}");
            assert!(m.ends_with(":1 (max 1000:1)"), "{m}");
        }
        other => panic!("expected a ratio error, got {other:?}"),
    }
}

#[test]
fn archive_reads_normalize_names_and_report_missing_members() {
    let data = zip_bytes(&[("a/b.txt", "caf\u{e9}".as_bytes().to_vec()), ("bad.txt", vec![0x66, 0xff, 0x6f])]);
    let mut archive = Archive::open(data).unwrap();
    assert!(archive.contains("a/./c/../b.txt#frag"));
    assert!(!archive.contains("b.txt"));
    assert_eq!(archive.read_text("a\\b.txt").unwrap(), "caf\u{e9}");
    // A second read of the same member succeeds as well.
    assert_eq!(archive.read_text("a/b.txt").unwrap(), "caf\u{e9}");
    assert_eq!(archive.read_text("bad.txt").unwrap(), "f\u{fffd}o");
    match archive.read_text("nope.txt") {
        Err(EpubError::InvalidEpub(m)) => assert_eq!(m, "member not found: nope.txt"),
        other => panic!("expected a missing-member error, got {other:?}"),
    }
    assert!(archive.parse_encryption().unwrap().is_empty());
}

// ---------------------------------------------------------------------------
// Whole-book search through the application
// ---------------------------------------------------------------------------

fn key(code: KeyCode) -> Key {
    Key { code, ctrl: false }
}

fn open_fixture_app() -> App {
    let mut app = App::new(true, (80, 24), ".".to_string());
    app.open_book("/books/book.epub".to_string(), epub3(TOC_NAV))
        .expect("should open the fixture book");
    app
}

#[test]
fn search_finds_phrase_in_later_chapter() {
    let mut app = open_fixture_app();
    assert_eq!(app.chapter_index, 0, "should start on the first chapter");
    app.mode = Mode::Search;
    for c in "chapter two".chars() {
        app.handle_key(key(KeyCode::Char(c)));
    }
    app.handle_key(key(KeyCode::Enter));
    assert_eq!(app.chapter_index, 1, "search should jump to the second chapter");
    assert_eq!(app.mode, Mode::Reader, "should return to the reader");
}

#[test]
fn search_from_second_chapter_finds_first_chapter_phrase() {
    let mut app = open_fixture_app();
    app.handle_key(key(KeyCode::Down));
    assert_eq!(app.chapter_index, 1);
    app.mode = Mode::Search;
    for c in "chapter one".chars() {
        app.handle_key(key(KeyCode::Char(c)));
    }
    app.handle_key(key(KeyCode::Enter));
    assert_eq!(app.chapter_index, 0, "search should jump back to the first chapter");
}

#[test]
fn search_no_result_stays_in_reader_with_popup() {
    let mut app = open_fixture_app();
    app.mode = Mode::Search;
    for c in "this phrase is not in the book".chars() {
        app.handle_key(key(KeyCode::Char(c)));
    }
    app.handle_key(key(KeyCode::Enter));
    assert_eq!(app.mode, Mode::Popup, "no result should show a popup");
    assert_eq!(app.popup_message.as_deref(), Some("No results found."));
}

#[test]
fn opening_a_book_restores_the_saved_position_and_records_it() {
    let mut app = App::new(true, (80, 24), ".".to_string());
    let mut store = StateStore::open("state.json".into(), None);
    let key_ = StateStore::book_key("/books/book.epub");
    store.set_state_for_book(&key_, 7, 3);
    app.state_store = Some(store);
    app.open_book("/books/book.epub".to_string(), epub3(TOC_NAV)).unwrap();
    // The chapter is clamped to the last one, the page to its last page.
    assert_eq!(app.chapter_index, 1);
    assert_eq!(app.page_index, app.pages.len() - 1);
    assert_eq!(app.total_pages, app.pages.len());
    let store = app.state_store.as_ref().unwrap();
    assert_eq!(store.get_last_book_path().as_deref(), Some("/books/book.epub"));
    // Bookmarks go and come back.
    app.handle_key(key(KeyCode::Up));
    assert_eq!((app.chapter_index, app.page_index), (0, 0));
    app.handle_key(key(KeyCode::Char('m')));
    app.handle_key(key(KeyCode::Down));
    assert_eq!(app.chapter_index, 1);
    app.handle_key(key(KeyCode::Char('b')));
    assert_eq!((app.chapter_index, app.page_index), (0, 0));
    assert!(app.save_state());
    let store = app.state_store.as_ref().unwrap();
    let st = store.get_state_for_book(&key_);
    assert_eq!((st.chapter_index, st.page_index), (0, 0));
    assert_eq!(store.get_theme(), "dark");
}

#[test]
fn picker_open_failure_shows_an_error_popup() {
    let mut app = App::new(true, (80, 24), ".".to_string());
    app.open_picked("/x/broken.epub".to_string(), Ok(b"junk".to_vec()));
    assert_eq!(app.mode, Mode::Popup);
    assert!(app.popup_is_error);
    assert!(app
        .popup_message
        .as_deref()
        .unwrap()
        .starts_with("Cannot open: invalid EPUB: failed to parse ZIP archive: "));
    let mut app = App::new(true, (80, 24), ".".to_string());
    app.mode = Mode::Picker;
    app.open_picked("/books/book.epub".to_string(), Ok(epub3(TOC_NAV)));
    assert_eq!(app.mode, Mode::Reader);
    assert!(app.book.is_some());
}

#[test]
fn toc_enter_jumps_to_the_entry_chapter() {
    let mut app = open_fixture_app();
    app.handle_key(key(KeyCode::Char('i')));
    assert_eq!(app.mode, Mode::Toc);
    app.handle_key(key(KeyCode::Char('j')));
    app.handle_key(key(KeyCode::Char('j')));
    assert_eq!(app.toc_index, 1, "selection stops at the last entry");
    app.handle_key(key(KeyCode::Enter));
    assert_eq!(app.mode, Mode::Reader);
    assert_eq!(app.chapter_index, 1);
}

#[test]
fn resize_repaginates_the_current_chapter() {
    let mut app = open_fixture_app();
    let before = app.pages.len();
    app.resize(10, 5);
    assert!(app.pages.len() >= before);
    assert_eq!(app.total_pages, app.pages.len());
    assert!(app.page_index < app.total_pages);
}

#[test]
fn saved_settings_load_back() {
    let mut app = App::new(true, (80, 24), ".".to_string());
    app.state_store = Some(StateStore::open("state.json".into(), None));
    app.open_book("/books/book.epub".to_string(), epub3(TOC_NAV)).unwrap();
    app.handle_key(key(KeyCode::Char('t')));
    app.handle_key(key(KeyCode::Char('h')));
    app.handle_key(key(KeyCode::Char('j')));
    let (theme, header, justify) = (app.theme, app.show_header, app.justify);
    assert!(app.save_state());
    let mut other = App::new(true, (80, 24), ".".to_string());
    other.state_store = app.state_store.take();
    other.load_global_settings();
    assert_eq!((other.theme, other.show_header, other.justify), (theme, header, justify));
    assert!(!other.show_header && other.justify);
}

#[test]
fn self_closing_nav_before_the_toc_nav_is_counted() {
    let navs = format!(r#"<nav epub:type="page-list"/>{TOC_NAV}"#);
    let book = EpubBook::open(epub3(&navs), true).expect("should open");
    let toc = book.toc();
    assert_eq!(toc.len(), 2, "the typed toc nav is read: {toc:?}");
    assert_eq!(toc[0].title, "Chapter 1");
    assert_eq!(toc[1].title, "Chapter 2");
}
