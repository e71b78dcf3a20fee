use termepub::{extract_html, Rgb, StyledSegment, TextStyle};

fn text(segs: &[StyledSegment]) -> String {
    segs.iter().map(|s| s.text.as_str()).collect()
}

#[test]
fn paragraphs_are_separated_by_blank_lines() {
    let segs = extract_html("<p>One</p><p>Two</p>", true);
    assert_eq!(text(&segs), "One\n\nTwo");
}

#[test]
fn semantic_tags_style_text() {
    let segs = extract_html("<p>a <b>bold</b> <i>it</i> <u>un</u> <del>gone</del></p>", true);
    assert_eq!(text(&segs), "a bold it un gone");
    let find = |t: &str| segs.iter().find(|s| s.text == t).unwrap().style;
    assert!(find("bold").bold);
    assert!(find("it").italic);
    assert!(find("un").underline);
    assert!(find("gone").strike);
}

#[test]
fn inline_css_colours_and_weights() {
    let segs = extract_html(
        "<p><span style=\"color: #ff0000; font-weight: bold\">red</span> <span style='color:#0f0'>g</span> <span style=\"color: rgb(1, 2, 3)\">c</span> <span style=\"color: blue\">b</span></p>",
        true,
    );
    let find = |t: &str| segs.iter().find(|s| s.text == t).unwrap().style;
    assert_eq!(find("red").foreground, Some(Rgb { r: 255, g: 0, b: 0 }));
    assert!(find("red").bold);
    assert_eq!(find("g").foreground, Some(Rgb { r: 0, g: 255, b: 0 }));
    assert_eq!(find("c").foreground, Some(Rgb { r: 1, g: 2, b: 3 }));
    assert!(find("b").foreground.is_some());
}

#[test]
fn without_css_everything_is_plain() {
    let segs = extract_html("<p><b>bold</b> <span style=\"color:#fff\">white</span></p>", false);
    assert_eq!(text(&segs), "bold white");
    for s in &segs {
        assert_eq!(s.style, TextStyle::default());
    }
}

#[test]
fn headings_are_marked() {
    let segs = extract_html("<h1>Title</h1><p>Body</p>", true);
    let title = segs.iter().find(|s| s.text.contains("Title")).unwrap();
    assert!(title.is_heading);
    let body = segs.iter().find(|s| s.text.contains("Body")).unwrap();
    assert!(!body.is_heading);
}

#[test]
fn entities_are_decoded_and_head_is_skipped() {
    let segs = extract_html(
        "<html><head><title>T</title><style>p{}</style></head><body><p>a &amp; b &lt;c&gt; &#65;&#x42; &quot;q&quot;</p></body></html>",
        true,
    );
    assert_eq!(text(&segs), "a & b <c> AB \"q\"");
}

#[test]
fn whitespace_collapses_and_br_breaks_lines() {
    let segs = extract_html("<p>  a \n\t b<br/>c  </p>", true);
    assert_eq!(text(&segs), "a b\nc");
}

#[test]
fn empty_document_has_no_segments() {
    assert!(extract_html("", true).is_empty());
    assert!(extract_html("<html><head><title>x</title></head></html>", true).is_empty());
}
