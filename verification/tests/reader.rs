use termepub::ui::reader::{centered_rect, chapter_title, toc_scroll, Rect};
use termepub::ui::theme::{style_for_segment, map_rgb_to_terminal, TermColor, Theme};
use termepub::{Rgb, StyledSegment, TextStyle, TocEntry};

fn styled(style: TextStyle) -> StyledSegment {
    StyledSegment {
        text: "hello".into(),
        style,
        is_heading: false,
    }
}

#[test]
fn toc_scroll_keeps_selection_visible() {
    assert_eq!(toc_scroll(0, 20), 0);
    assert_eq!(toc_scroll(10, 20), 0);
    assert_eq!(toc_scroll(20, 20), 1);
    assert_eq!(toc_scroll(50, 20), 31);
    assert_eq!(toc_scroll(100, 5), 96);
    // Degenerate tiny view must not panic.
    assert_eq!(toc_scroll(7, 0), 0);
}

#[test]
fn italic_style_maps_to_italic_modifier() {
    let s = TextStyle {
        italic: true,
        ..Default::default()
    };
    let look = style_for_segment(&styled(s), &Theme::Dark, 0);
    assert!(look.modifiers.italic, "italic must set ITALIC");
}

#[test]
fn non_italic_segment_has_no_italic_or_strike() {
    let look = style_for_segment(&styled(TextStyle::default()), &Theme::Dark, 0);
    assert!(!look.modifiers.italic);
    assert!(!look.modifiers.crossed_out);
}

#[test]
fn strike_style_maps_to_crossed_out_modifier() {
    let s = TextStyle {
        strike: true,
        ..Default::default()
    };
    let look = style_for_segment(&styled(s), &Theme::Dark, 0);
    assert!(look.modifiers.crossed_out, "strike must set CROSSED_OUT");
}

#[test]
fn headings_are_bold_yellow_on_the_theme_background() {
    let seg = StyledSegment {
        text: "Title".into(),
        style: TextStyle::default(),
        is_heading: true,
    };
    let look = style_for_segment(&seg, &Theme::Light, 0);
    assert_eq!(look.fg, TermColor::Yellow);
    assert!(look.modifiers.bold);
    assert_eq!(look.bg, Rgb { r: 253, g: 246, b: 227 });
}

#[test]
fn plain_text_uses_the_theme_foreground() {
    let look = style_for_segment(&styled(TextStyle::default()), &Theme::SolarizedDark, 0);
    assert_eq!(look.fg, TermColor::Rgb(Rgb { r: 131, g: 148, b: 150 }));
    assert_eq!(look.bg, Rgb { r: 7, g: 54, b: 66 });
}

#[test]
fn dark_book_colors_are_inverted_on_dark_themes_only() {
    let near_black = Rgb { r: 10, g: 20, b: 30 };
    assert_eq!(map_rgb_to_terminal(near_black, 18, &Theme::Dark), Rgb { r: 245, g: 235, b: 225 });
    assert_eq!(map_rgb_to_terminal(near_black, 18, &Theme::Light), near_black);
    let near_white = Rgb { r: 250, g: 250, b: 240 };
    assert_eq!(map_rgb_to_terminal(near_white, 249, &Theme::SolarizedLight), Rgb { r: 5, g: 5, b: 15 });
    assert_eq!(map_rgb_to_terminal(near_white, 249, &Theme::SolarizedDark), near_white);
    // Exactly mid-scale passes unchanged on both kinds of theme.
    let mid = Rgb { r: 128, g: 128, b: 128 };
    assert_eq!(map_rgb_to_terminal(mid, 128, &Theme::Dark), mid);
    assert_eq!(map_rgb_to_terminal(mid, 128, &Theme::Light), mid);
    let seg = StyledSegment {
        text: "x".into(),
        style: TextStyle { foreground: Some(near_black), ..Default::default() },
        is_heading: false,
    };
    assert_eq!(style_for_segment(&seg, &Theme::Dark, 18).fg, TermColor::Rgb(Rgb { r: 245, g: 235, b: 225 }));
}

#[test]
fn centered_rect_is_centred_and_capped() {
    let area = Rect { x: 2, y: 1, width: 100, height: 30 };
    assert_eq!(centered_rect(area, 80, 24), Rect { x: 12, y: 4, width: 80, height: 24 });
    assert_eq!(centered_rect(area, 200, 50), area);
    assert_eq!(centered_rect(area, 31, 5), Rect { x: 36, y: 13, width: 31, height: 5 });
}

#[test]
fn chapter_title_prefers_the_toc_entry_of_the_chapter() {
    let toc = vec![
        TocEntry { title: "Preface".into(), href: "a.xhtml".into(), spine_index: Some(0) },
        TocEntry { title: "Broken".into(), href: "x.xhtml".into(), spine_index: None },
        TocEntry { title: "Part One".into(), href: "b.xhtml".into(), spine_index: Some(2) },
        TocEntry { title: "Part One again".into(), href: "b.xhtml#s".into(), spine_index: Some(2) },
    ];
    assert_eq!(chapter_title(&toc, 0), "Preface");
    assert_eq!(chapter_title(&toc, 2), "Part One");
    assert_eq!(chapter_title(&toc, 1), "Chapter 2");
    assert_eq!(chapter_title(&[], 9), "Chapter 10");
}
