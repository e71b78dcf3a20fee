use termepub::epub::archive::normalize_epub_path;

#[test]
fn normalize_removes_fragment() {
    assert_eq!(normalize_epub_path("chapter.xhtml#sec1"), "chapter.xhtml");
}

#[test]
fn normalize_resolves_dot() {
    assert_eq!(normalize_epub_path("./chapter.xhtml"), "chapter.xhtml");
}

#[test]
fn normalize_resolves_dotdot() {
    assert_eq!(
        normalize_epub_path("OEBPS/chapters/../images/pic.png"),
        "OEBPS/images/pic.png"
    );
}

#[test]
fn normalize_converts_backslashes() {
    // EPUBs authored on Windows may use backslash separators.
    assert_eq!(
        normalize_epub_path("OEBPS\\chapters\\chapter1.xhtml"),
        "OEBPS/chapters/chapter1.xhtml"
    );
    assert_eq!(
        normalize_epub_path("content.opf\\..\\nav.xhtml"),
        "nav.xhtml"
    );
}

#[test]
fn normalize_handles_trailing_slash() {
    assert_eq!(normalize_epub_path("OEBPS/"), "OEBPS");
}

#[test]
fn normalize_is_idempotent() {
    assert_eq!(normalize_epub_path("chapter.xhtml"), "chapter.xhtml");
}

#[test]
fn parse_encryption_finds_cipher_reference() {
    let xml = r#"<encryption xmlns="urn:oasis:names:tc:opendocument:xmlns:container" xmlns:enc="http://www.w3.org/2001/04/xmlenc#">
  <EncryptedContent>
    <EncryptionInfo>
      <enc:EncryptionMethod Algorithm="http://www.w3.org/2001/04/xmlenc#keyword"/>
      <EncryptedCipherData>
        <enc:CipherReference URI="chapter1.xhtml"/>
      </EncryptedCipherData>
    </EncryptionInfo>
  </EncryptedContent>
</encryption>"#;
    let uris = termepub::epub::archive::parse_encryption_uris(xml).unwrap();
    assert!(
        uris.contains(&"chapter1.xhtml".to_string()),
        "uris: {uris:?}"
    );
}

#[test]
fn encryption_uris_are_trimmed_and_in_order() {
    let xml = r#"<e><CipherReference URI=" a.xhtml "/><x:CipherReference URI="fonts/b.ttf"></x:CipherReference></e>"#;
    let uris = termepub::epub::archive::parse_encryption_uris(xml).unwrap();
    assert_eq!(uris, vec!["a.xhtml".to_string(), "fonts/b.ttf".to_string()]);
}

#[test]
fn malformed_encryption_xml_is_an_invalid_epub_error() {
    let r = termepub::epub::archive::parse_encryption_uris("<e><CipherReference URI='a'></f>");
    match r {
        Err(termepub::error::EpubError::InvalidEpub(m)) => {
            assert!(m.starts_with("malformed encryption.xml: "), "{m}")
        }
        other => panic!("expected an invalid-EPUB error, got {other:?}"),
    }
}

#[test]
fn normalizing_twice_changes_nothing() {
    for p in [
        "a/./b/../c.xhtml#frag",
        "..\\..\\x\\y",
        "/abs//path/",
        "#only",
        "",
        "a/b/c/../../d",
    ] {
        let once = normalize_epub_path(p);
        assert_eq!(normalize_epub_path(&once), once, "input {p:?}");
    }
    assert_eq!(normalize_epub_path("a/./b/../c.xhtml#frag"), "a/c.xhtml");
    assert_eq!(normalize_epub_path("../../x"), "x");
    assert_eq!(normalize_epub_path("/abs//path/"), "abs/path");
}
