//! Colour themes.

use vstd::prelude::*;
use crate::text::{str_chars, chars_is};
use crate::{Rgb, StyledSegment};

verus! {

#[derive(Debug, Clone, Copy, PartialEq, Eq, Structural)]
pub enum Theme {
    Dark,
    Light,
    SolarizedDark,
    SolarizedLight,
}

/// The name a theme is stored under.
pub open spec fn theme_name(t: Theme) -> Seq<char> {
    match t {
        Theme::Dark => "dark"@,
        Theme::Light => "light"@,
        Theme::SolarizedDark => "solarized-dark"@,
        Theme::SolarizedLight => "solarized-light"@,
    }
}

/// The theme stored under a name, if any.
pub open spec fn theme_from_name(s: Seq<char>) -> Option<Theme> {
    if s == "dark"@ {
        Some(Theme::Dark)
    } else if s == "light"@ {
        Some(Theme::Light)
    } else if s == "solarized-dark"@ {
        Some(Theme::SolarizedDark)
    } else if s == "solarized-light"@ {
        Some(Theme::SolarizedLight)
    } else {
        None
    }
}

/// The theme that follows `t` in the cycle
/// Dark → Light → Solarized Dark → Solarized Light → Dark.
pub open spec fn theme_next(t: Theme) -> Theme {
    match t {
        Theme::Dark => Theme::Light,
        Theme::Light => Theme::SolarizedDark,
        Theme::SolarizedDark => Theme::SolarizedLight,
        Theme::SolarizedLight => Theme::Dark,
    }
}

impl Theme {
    pub fn name(&self) -> (n: &'static str)
        ensures
            n@ == theme_name(*self),
    {
        match self {
            Theme::Dark => "dark",
            Theme::Light => "light",
            Theme::SolarizedDark => "solarized-dark",
            Theme::SolarizedLight => "solarized-light",
        }
    }

    pub fn from_name(s: &str) -> (t: Option<Theme>)
        ensures
            t == theme_from_name(s@),
    {
        let v = str_chars(s);
        if chars_is(&v, "dark") {
            Some(Theme::Dark)
        } else if chars_is(&v, "light") {
            Some(Theme::Light)
        } else if chars_is(&v, "solarized-dark") {
            Some(Theme::SolarizedDark)
        } else if chars_is(&v, "solarized-light") {
            Some(Theme::SolarizedLight)
        } else {
            None
        }
    }

    pub fn next_theme(&self) -> (t: Theme)
        ensures
            t == theme_next(*self),
    {
        match self {
            Theme::Dark => Theme::Light,
            Theme::Light => Theme::SolarizedDark,
            Theme::SolarizedDark => Theme::SolarizedLight,
            Theme::SolarizedLight => Theme::Dark,
        }
    }
}

/// A theme read back from the name it is stored under is the same theme.
pub proof fn lemma_theme_name_round_trip(t: Theme)
    ensures
        theme_from_name(theme_name(t)) == Some(t),
{
    reveal_strlit("dark");
    reveal_strlit("light");
    reveal_strlit("solarized-dark");
    reveal_strlit("solarized-light");
    assert("dark"@[0] == 'd');
    assert("light"@[0] == 'l');
    assert("solarized-dark"@[10] == 'd');
    assert("solarized-light"@[10] == 'l');
    assert("solarized-dark"@[0] == 's');
    assert("dark"@ != "light"@);
    assert("dark"@ != "solarized-dark"@);
    assert("dark"@ != "solarized-light"@);
    assert("light"@ != "solarized-dark"@);
    assert("light"@ != "solarized-light"@);
    assert("solarized-dark"@ != "solarized-light"@);
}

/// Cycling through the themes returns to the starting theme after four
/// steps, and visits four different themes on the way.
pub proof fn lemma_theme_cycle(t: Theme)
    ensures
        theme_next(theme_next(theme_next(theme_next(t)))) == t,
        theme_next(t) != t,
        theme_next(theme_next(t)) != t,
        theme_next(theme_next(theme_next(t))) != t,
{
}


/// The page background of a theme.
pub open spec fn theme_background(t: Theme) -> Rgb {
    match t {
        Theme::Dark => Rgb { r: 0, g: 0, b: 0 },
        Theme::Light => Rgb { r: 253, g: 246, b: 227 },
        Theme::SolarizedDark => Rgb { r: 7, g: 54, b: 66 },
        Theme::SolarizedLight => Rgb { r: 238, g: 232, b: 213 },
    }
}

/// The text colour of a theme.
pub open spec fn theme_foreground(t: Theme) -> Rgb {
    match t {
        Theme::Dark => Rgb { r: 204, g: 204, b: 204 },
        Theme::Light => Rgb { r: 0, g: 0, b: 0 },
        Theme::SolarizedDark => Rgb { r: 131, g: 148, b: 150 },
        Theme::SolarizedLight => Rgb { r: 101, g: 123, b: 131 },
    }
}

impl Theme {
    /// The page background.
    pub fn background(&self) -> (c: Rgb)
        ensures
            c == theme_background(*self),
    {
        match self {
            Theme::Dark => Rgb { r: 0, g: 0, b: 0 },
            Theme::Light => Rgb { r: 253, g: 246, b: 227 },
            Theme::SolarizedDark => Rgb { r: 7, g: 54, b: 66 },
            Theme::SolarizedLight => Rgb { r: 238, g: 232, b: 213 },
        }
    }

    /// The text colour.
    pub fn foreground(&self) -> (c: Rgb)
        ensures
            c == theme_foreground(*self),
    {
        match self {
            Theme::Dark => Rgb { r: 204, g: 204, b: 204 },
            Theme::Light => Rgb { r: 0, g: 0, b: 0 },
            Theme::SolarizedDark => Rgb { r: 131, g: 148, b: 150 },
            Theme::SolarizedLight => Rgb { r: 101, g: 123, b: 131 },
        }
    }

    /// Whether the theme has a dark page.
    pub fn is_dark(&self) -> (b: bool)
        ensures
            b == (*self == Theme::Dark || *self == Theme::SolarizedDark),
    {
        match self {
            Theme::Dark => true,
            Theme::SolarizedDark => true,
            _ => false,
        }
    }
}

/// Background of informational dialogs (help, dictionary, confirmations,
/// status), the same in every theme.
pub fn info_bg() -> (c: Rgb)
    ensures
        c == (Rgb { r: 30, g: 64, b: 140 }),
{
    Rgb { r: 30, g: 64, b: 140 }
}

/// Background of error dialogs, the same in every theme.
pub fn error_bg() -> (c: Rgb)
    ensures
        c == (Rgb { r: 150, g: 30, b: 30 }),
{
    Rgb { r: 150, g: 30, b: 30 }
}

/// A terminal colour a segment is drawn in.
#[derive(Debug, Clone, Copy, PartialEq, Eq, Structural)]
pub enum TermColor {
    /// The terminal's yellow, for headings.
    Yellow,
    Rgb(Rgb),
}

/// Text attributes a segment is drawn with.
#[derive(Debug, Clone, Copy, PartialEq, Eq, Structural)]
pub struct Modifiers {
    pub bold: bool,
    pub italic: bool,
    pub underlined: bool,
    pub crossed_out: bool,
}

/// How a segment is drawn: text colour, background and attributes.
#[derive(Debug, Clone, Copy, PartialEq, Eq, Structural)]
pub struct SegmentLook {
    pub fg: TermColor,
    pub bg: Rgb,
    pub modifiers: Modifiers,
}

/// The inverse of a colour.
pub open spec fn inverted(c: Rgb) -> Rgb {
    Rgb { r: (255 - c.r) as u8, g: (255 - c.g) as u8, b: (255 - c.b) as u8 }
}

/// A book colour made visible on the theme: with `luminance` its relative
/// luminance on a 0..=255 scale, a dark colour on a dark page and a light
/// colour on a light page are inverted; mid tones pass unchanged.
pub open spec fn visible_color(c: Rgb, luminance: u16, t: Theme) -> Rgb {
    let dark = t == Theme::Dark || t == Theme::SolarizedDark;
    if dark && luminance < 128 {
        inverted(c)
    } else if !dark && luminance > 128 {
        inverted(c)
    } else {
        c
    }
}

/// Maps a book-specified color to something visible on the active theme.
///
/// Book CSS colors are authored against an unknown (usually light) page
/// background.  On a dark theme a near-black color would be unreadable, and
/// on a light theme a near-white color would vanish.  We therefore flip
/// colors whose relative luminance is on the "wrong" side for the theme:
/// dark colors are lightened on dark themes, light colors are darkened on
/// light themes.  Mid-tone colors pass through unchanged.  `luminance` is
/// the color's ITU-R BT.709 relative luminance, scaled to 0..=255.
pub fn map_rgb_to_terminal(c: Rgb, luminance: u16, theme: &Theme) -> (r: Rgb)
    ensures
        r == visible_color(c, luminance, *theme),
{
    let dark = theme.is_dark();
    if (dark && luminance < 128) || (!dark && luminance > 128) {
        Rgb { r: 255 - c.r, g: 255 - c.g, b: 255 - c.b }
    } else {
        c
    }
}

/// How a segment is drawn on a theme: headings bold and yellow; bold,
/// italic, underline and strike-through as the segment's style says; a
/// book colour made visible (`visible_color`, with `luminance` that of the
/// segment's colour), else the theme's text colour; the theme's background.
pub open spec fn segment_look(seg: StyledSegment, t: Theme, luminance: u16) -> SegmentLook {
    SegmentLook {
        fg: if seg.is_heading {
            TermColor::Yellow
        } else {
            match seg.style.foreground {
                Some(c) => TermColor::Rgb(visible_color(c, luminance, t)),
                None => TermColor::Rgb(theme_foreground(t)),
            }
        },
        bg: theme_background(t),
        modifiers: Modifiers {
            bold: seg.is_heading || seg.style.bold,
            italic: seg.style.italic,
            underlined: seg.style.underline,
            crossed_out: seg.style.strike,
        },
    }
}

/// The look of a styled segment on a theme.  `luminance` is the relative
/// luminance of the segment's book colour (unused when it has none).
pub fn style_for_segment(seg: &StyledSegment, theme: &Theme, luminance: u16) -> (l: SegmentLook)
    ensures
        l == segment_look(*seg, *theme, luminance),
{
    let fg = if seg.is_heading {
        TermColor::Yellow
    } else {
        match seg.style.foreground {
            Some(c) => TermColor::Rgb(map_rgb_to_terminal(c, luminance, theme)),
            None => TermColor::Rgb(theme.foreground()),
        }
    };
    SegmentLook {
        fg,
        bg: theme.background(),
        modifiers: Modifiers {
            bold: seg.is_heading || seg.style.bold,
            italic: seg.style.italic,
            underlined: seg.style.underline,
            crossed_out: seg.style.strike,
        },
    }
}

} // verus!
