//! Extraction of styled text from chapter HTML.
//!
//! The HTML is read one character at a time by a small state machine (text,
//! inside a tag, inside a comment, inside a character reference).  Open
//! elements form a frame stack; each frame carries the style its text is
//! drawn in, whether it is part of a heading, and whether its text is
//! skipped (`<head>`, `<script>`, ...).  Block elements end paragraphs
//! (`"\n\n"`), `<br>` ends a line, and runs of white space collapse to one
//! space.

use vstd::prelude::*;
use crate::layout::Cell;
use crate::text::{char_from_u32, chars_is, lower, lower_exec};
use crate::{Rgb, TextStyle};

verus! {

// ---------------------------------------------------------------------------
// Character classes and element names
// ---------------------------------------------------------------------------

/// HTML white space.
pub open spec fn is_ws(c: char) -> bool {
    c == ' ' || c == '\t' || c == '\n' || c == '\r' || c == '\x0C'
}

fn is_ws_exec(c: char) -> (b: bool)
    ensures
        b == is_ws(c),
{
    c == ' ' || c == '\t' || c == '\n' || c == '\r' || c == '\x0C'
}

/// ASCII letters and digits.
pub open spec fn is_alnum(c: char) -> bool {
    ('a' <= c && c <= 'z') || ('A' <= c && c <= 'Z') || ('0' <= c && c <= '9')
}

/// Elements whose start and end separate paragraphs.
pub open spec fn is_block(n: Seq<char>) -> bool {
    n == "p"@ || n == "div"@ || n == "h1"@ || n == "h2"@ || n == "h3"@ || n == "h4"@ || n == "h5"@
        || n == "h6"@ || n == "li"@ || n == "ul"@ || n == "ol"@ || n == "blockquote"@ || n == "section"@
        || n == "article"@ || n == "header"@ || n == "footer"@ || n == "table"@ || n == "tr"@ || n
        == "pre"@ || n == "dl"@ || n == "dt"@ || n == "dd"@ || n == "figure"@ || n == "figcaption"@
        || n == "aside"@ || n == "nav"@ || n == "hr"@
}

fn is_block_exec(n: &Vec<char>) -> (b: bool)
    ensures
        b == is_block(n@),
{
    chars_is(n, "p") || chars_is(n, "div") || chars_is(n, "h1") || chars_is(n, "h2") || chars_is(
        n,
        "h3",
    ) || chars_is(n, "h4") || chars_is(n, "h5") || chars_is(n, "h6") || chars_is(n, "li")
        || chars_is(n, "ul") || chars_is(n, "ol") || chars_is(n, "blockquote") || chars_is(
        n,
        "section",
    ) || chars_is(n, "article") || chars_is(n, "header") || chars_is(n, "footer") || chars_is(
        n,
        "table",
    ) || chars_is(n, "tr") || chars_is(n, "pre") || chars_is(n, "dl") || chars_is(n, "dt")
        || chars_is(n, "dd") || chars_is(n, "figure") || chars_is(n, "figcaption") || chars_is(
        n,
        "aside",
    ) || chars_is(n, "nav") || chars_is(n, "hr")
}

/// Elements that never have content (no end tag).
pub open spec fn is_void(n: Seq<char>) -> bool {
    n == "br"@ || n == "hr"@ || n == "img"@ || n == "meta"@ || n == "link"@ || n == "input"@ || n
        == "area"@ || n == "base"@ || n == "col"@ || n == "embed"@ || n == "source"@ || n
        == "track"@ || n == "wbr"@
}

fn is_void_exec(n: &Vec<char>) -> (b: bool)
    ensures
        b == is_void(n@),
{
    chars_is(n, "br") || chars_is(n, "hr") || chars_is(n, "img") || chars_is(n, "meta")
        || chars_is(n, "link") || chars_is(n, "input") || chars_is(n, "area") || chars_is(
        n,
        "base",
    ) || chars_is(n, "col") || chars_is(n, "embed") || chars_is(n, "source") || chars_is(
        n,
        "track",
    ) || chars_is(n, "wbr")
}

/// Elements whose text is not part of the chapter text.
pub open spec fn is_skipped(n: Seq<char>) -> bool {
    n == "head"@ || n == "script"@ || n == "style"@ || n == "title"@ || n == "template"@
}

fn is_skipped_exec(n: &Vec<char>) -> (b: bool)
    ensures
        b == is_skipped(n@),
{
    chars_is(n, "head") || chars_is(n, "script") || chars_is(n, "style") || chars_is(n, "title")
        || chars_is(n, "template")
}

/// Heading elements.
pub open spec fn is_heading_tag(n: Seq<char>) -> bool {
    n == "h1"@ || n == "h2"@ || n == "h3"@ || n == "h4"@ || n == "h5"@ || n == "h6"@
}

fn is_heading_tag_exec(n: &Vec<char>) -> (b: bool)
    ensures
        b == is_heading_tag(n@),
{
    chars_is(n, "h1") || chars_is(n, "h2") || chars_is(n, "h3") || chars_is(n, "h4") || chars_is(
        n,
        "h5",
    ) || chars_is(n, "h6")
}

/// The style an element gives by its name alone.
pub open spec fn tag_style(s: TextStyle, n: Seq<char>) -> TextStyle {
    if n == "b"@ || n == "strong"@ {
        TextStyle { bold: true, ..s }
    } else if n == "i"@ || n == "em"@ {
        TextStyle { italic: true, ..s }
    } else if n == "u"@ {
        TextStyle { underline: true, ..s }
    } else if n == "s"@ || n == "strike"@ || n == "del"@ {
        TextStyle { strike: true, ..s }
    } else {
        s
    }
}

fn tag_style_exec(s: TextStyle, n: &Vec<char>) -> (r: TextStyle)
    ensures
        r == tag_style(s, n@),
{
    if chars_is(n, "b") || chars_is(n, "strong") {
        TextStyle { bold: true, ..s }
    } else if chars_is(n, "i") || chars_is(n, "em") {
        TextStyle { italic: true, ..s }
    } else if chars_is(n, "u") {
        TextStyle { underline: true, ..s }
    } else if chars_is(n, "s") || chars_is(n, "strike") || chars_is(n, "del") {
        TextStyle { strike: true, ..s }
    } else {
        s
    }
}

// ---------------------------------------------------------------------------
// The frame stack and emitting text
// ---------------------------------------------------------------------------

/// An open element: name, style, inside a heading, text skipped.
pub type FrameV = (Seq<char>, TextStyle, bool, bool);

/// An open element.
pub struct Frame {
    pub name: Vec<char>,
    pub style: TextStyle,
    pub heading: bool,
    pub skip: bool,
}

pub open spec fn frame_view(f: Frame) -> FrameV {
    (f.name@, f.style, f.heading, f.skip)
}

pub open spec fn frames_view(v: Seq<Frame>) -> Seq<FrameV> {
    v.map_values(|f: Frame| frame_view(f))
}

pub open spec fn top_style(fs: Seq<FrameV>) -> TextStyle {
    if fs.len() > 0 {
        fs.last().1
    } else {
        TextStyle::plain()
    }
}

pub open spec fn top_heading(fs: Seq<FrameV>) -> bool {
    fs.len() > 0 && fs.last().2
}

pub open spec fn top_skip(fs: Seq<FrameV>) -> bool {
    fs.len() > 0 && fs.last().3
}

fn top_exec(fs: &Vec<Frame>) -> (r: (TextStyle, bool, bool))
    ensures
        r == (top_style(frames_view(fs@)), top_heading(frames_view(fs@)), top_skip(frames_view(fs@))),
{
    if fs.len() > 0 {
        let f = &fs[fs.len() - 1];
        (f.style, f.heading, f.skip)
    } else {
        (TextStyle { bold: false, underline: false, foreground: None, italic: false, strike: false }, false, false)
    }
}

/// Appends the text character `c`: skipped text is dropped, and a white-space
/// character becomes one space unless the output is empty or already ends
/// in a space or a line break.
pub open spec fn emit(fs: Seq<FrameV>, out: Seq<Cell>, c: char) -> Seq<Cell> {
    if top_skip(fs) {
        out
    } else if is_ws(c) {
        if out.len() > 0 && out.last().0 != ' ' && out.last().0 != '\n' {
            out.push((' ', top_style(fs), top_heading(fs)))
        } else {
            out
        }
    } else {
        out.push((c, top_style(fs), top_heading(fs)))
    }
}

fn emit_exec(fs: &Vec<Frame>, out: &mut Vec<Cell>, c: char)
    ensures
        final(out)@ == emit(frames_view(fs@), old(out)@, c),
{
    let (style, heading, skip) = top_exec(fs);
    if skip {
        return;
    }
    if is_ws_exec(c) {
        if out.len() > 0 && out[out.len() - 1].0 != ' ' && out[out.len() - 1].0 != '\n' {
            out.push((' ', style, heading));
        }
    } else {
        out.push((c, style, heading));
    }
}

/// Appends each character of `s` with `emit`.
pub open spec fn emit_all(fs: Seq<FrameV>, out: Seq<Cell>, s: Seq<char>) -> Seq<Cell>
    decreases s.len(),
{
    if s.len() == 0 {
        out
    } else {
        emit(fs, emit_all(fs, out, s.drop_last()), s.last())
    }
}

fn emit_all_exec(fs: &Vec<Frame>, out: &mut Vec<Cell>, s: &Vec<char>)
    ensures
        final(out)@ == emit_all(frames_view(fs@), old(out)@, s@),
{
    let ghost start = out@;
    let mut i: usize = 0;
    while i < s.len()
        invariant
            i <= s.len(),
            out@ == emit_all(frames_view(fs@), start, s@.take(i as int)),
        decreases s.len() - i,
    {
        assert(s@.take(i + 1).drop_last() =~= s@.take(i as int));
        emit_exec(fs, out, s[i]);
        i += 1;
    }
    assert(s@.take(i as int) =~= s@);
}

/// A line-break cell.
pub open spec fn newline() -> Cell {
    ('\n', TextStyle::plain(), false)
}

/// Ends the current paragraph: the output then ends in two line breaks
/// (nothing happens on empty output).
pub open spec fn para_break(out: Seq<Cell>) -> Seq<Cell> {
    if out.len() == 0 {
        out
    } else if out.last().0 == '\n' {
        if out.len() >= 2 && out[out.len() - 2].0 == '\n' {
            out
        } else {
            out.push(newline())
        }
    } else {
        out.push(newline()).push(newline())
    }
}

/// Ends the current line (nothing happens on empty output).
pub open spec fn line_break(out: Seq<Cell>) -> Seq<Cell> {
    if out.len() == 0 {
        out
    } else {
        out.push(newline())
    }
}

fn newline_exec() -> (c: Cell)
    ensures
        c == newline(),
{
    ('\n', TextStyle { bold: false, underline: false, foreground: None, italic: false, strike: false }, false)
}

fn para_break_exec(out: &mut Vec<Cell>)
    ensures
        final(out)@ == para_break(old(out)@),
{
    let n = out.len();
    if n == 0 {
        return;
    }
    if out[n - 1].0 == '\n' {
        if n >= 2 && out[n - 2].0 == '\n' {
            return;
        }
        out.push(newline_exec());
    } else {
        out.push(newline_exec());
        out.push(newline_exec());
    }
}

fn line_break_exec(out: &mut Vec<Cell>)
    ensures
        final(out)@ == line_break(old(out)@),
{
    if out.len() > 0 {
        out.push(newline_exec());
    }
}


// ---------------------------------------------------------------------------
// The `style` attribute
// ---------------------------------------------------------------------------

/// Attribute scanner: phase, name, value, quote, the `style` value found.
///
/// Phases: 0 between attributes, 1 in a name, 2 after a name, 3 after `=`,
/// 4 in a quoted value, 5 in an unquoted value.
pub type AttrV = (u8, Seq<char>, Seq<char>, char, Option<Seq<char>>);

/// Records a finished attribute; the first `style` attribute wins.
pub open spec fn attr_finish(found: Option<Seq<char>>, name: Seq<char>, value: Seq<char>) -> Option<Seq<char>> {
    if found is None && lower(name) == "style"@ {
        Some(value)
    } else {
        found
    }
}

pub open spec fn attr_step(st: AttrV, c: char) -> AttrV {
    let (ph, name, value, q, found) = st;
    if ph == 0 {
        if is_ws(c) { st } else { (1, seq![c], seq![], q, found) }
    } else if ph == 1 {
        if is_ws(c) {
            (2, name, value, q, found)
        } else if c == '=' {
            (3, name, seq![], q, found)
        } else {
            (1, name.push(c), value, q, found)
        }
    } else if ph == 2 {
        if is_ws(c) {
            st
        } else if c == '=' {
            (3, name, seq![], q, found)
        } else {
            (1, seq![c], seq![], q, attr_finish(found, name, seq![]))
        }
    } else if ph == 3 {
        if is_ws(c) {
            st
        } else if c == '"' || c == '\'' {
            (4, name, seq![], c, found)
        } else {
            (5, name, seq![c], q, found)
        }
    } else if ph == 4 {
        if c == q {
            (0, name, value, q, attr_finish(found, name, value))
        } else {
            (4, name, value.push(c), q, found)
        }
    } else {
        if is_ws(c) {
            (0, name, value, q, attr_finish(found, name, value))
        } else {
            (5, name, value.push(c), q, found)
        }
    }
}

pub open spec fn attr_scan(s: Seq<char>) -> AttrV
    decreases s.len(),
{
    if s.len() == 0 {
        (0, seq![], seq![], ' ', None)
    } else {
        attr_step(attr_scan(s.drop_last()), s.last())
    }
}

/// The value of the first `style` attribute in the attribute text `s`.
pub open spec fn style_attr(s: Seq<char>) -> Option<Seq<char>> {
    let (ph, name, value, q, found) = attr_scan(s);
    if ph == 1 || ph == 2 || ph == 3 {
        attr_finish(found, name, seq![])
    } else if ph == 4 || ph == 5 {
        attr_finish(found, name, value)
    } else {
        found
    }
}

fn attr_finish_exec(found: &mut Option<Vec<char>>, name: &Vec<char>, value: Vec<char>)
    ensures
        (match *final(found) { Some(v) => Some(v@), None => None::<Seq<char>> }) == attr_finish(
            match *old(found) { Some(v) => Some(v@), None => None::<Seq<char>> },
            name@,
            value@,
        ),
{
    if found.is_none() {
        let ln = lower_exec(name);
        if chars_is(&ln, "style") {
            *found = Some(value);
        }
    }
}

pub open spec fn opt_view(o: Option<Vec<char>>) -> Option<Seq<char>> {
    match o {
        Some(v) => Some(v@),
        None => None,
    }
}

fn style_attr_exec(s: &Vec<char>) -> (r: Option<Vec<char>>)
    ensures
        opt_view(r) == style_attr(s@),
{
    let mut ph: u8 = 0;
    let mut name: Vec<char> = Vec::new();
    let mut value: Vec<char> = Vec::new();
    let mut q: char = ' ';
    let mut found: Option<Vec<char>> = None;
    let mut i: usize = 0;
    while i < s.len()
        invariant
            i <= s.len(),
            attr_scan(s@.take(i as int)) == (ph, name@, value@, q, opt_view(found)),
        decreases s.len() - i,
    {
        assert(s@.take(i + 1).drop_last() =~= s@.take(i as int));
        let c = s[i];
        let ws = is_ws_exec(c);
        if ph == 0 {
            if !ws {
                ph = 1;
                name = Vec::new();
                name.push(c);
                value = Vec::new();
                assert(name@ =~= seq![c]);
                assert(value@ =~= Seq::<char>::empty());
            }
        } else if ph == 1 {
            if ws {
                ph = 2;
            } else if c == '=' {
                ph = 3;
                value = Vec::new();
                assert(value@ =~= Seq::<char>::empty());
            } else {
                name.push(c);
            }
        } else if ph == 2 {
            if ws {
            } else if c == '=' {
                ph = 3;
                value = Vec::new();
                assert(value@ =~= Seq::<char>::empty());
            } else {
                let mut empty: Vec<char> = Vec::new();
                assert(empty@ =~= Seq::<char>::empty());
                attr_finish_exec(&mut found, &name, empty);
                ph = 1;
                name = Vec::new();
                name.push(c);
                value = Vec::new();
                assert(name@ =~= seq![c]);
                assert(value@ =~= Seq::<char>::empty());
            }
        } else if ph == 3 {
            if ws {
            } else if c == '"' || c == '\'' {
                ph = 4;
                q = c;
                value = Vec::new();
                assert(value@ =~= Seq::<char>::empty());
            } else {
                ph = 5;
                value = Vec::new();
                value.push(c);
                assert(value@ =~= seq![c]);
            }
        } else if ph == 4 {
            if c == q {
                let v = value.clone();
                attr_finish_exec(&mut found, &name, v);
                ph = 0;
            } else {
                value.push(c);
            }
        } else {
            if ws {
                let v = value.clone();
                attr_finish_exec(&mut found, &name, v);
                ph = 0;
            } else {
                value.push(c);
            }
        }
        i += 1;
    }
    assert(s@.take(i as int) =~= s@);
    if ph == 1 || ph == 2 || ph == 3 {
        let empty: Vec<char> = Vec::new();
        assert(empty@ =~= Seq::<char>::empty());
        attr_finish_exec(&mut found, &name, empty);
    } else if ph == 4 || ph == 5 {
        attr_finish_exec(&mut found, &name, value);
    }
    found
}


// ---------------------------------------------------------------------------
// Inline CSS
// ---------------------------------------------------------------------------

/// `s` without leading white space.
pub open spec fn trim_start(s: Seq<char>) -> Seq<char>
    decreases s.len(),
{
    if s.len() > 0 && is_ws(s[0]) {
        trim_start(s.skip(1))
    } else {
        s
    }
}

/// `s` without trailing white space.
pub open spec fn trim_end(s: Seq<char>) -> Seq<char>
    decreases s.len(),
{
    if s.len() > 0 && is_ws(s.last()) {
        trim_end(s.drop_last())
    } else {
        s
    }
}

/// `s` without leading and trailing white space.
pub open spec fn trim(s: Seq<char>) -> Seq<char> {
    trim_end(trim_start(s))
}

fn trim_exec(s: &Vec<char>) -> (r: Vec<char>)
    ensures
        r@ == trim(s@),
{
    let mut i: usize = 0;
    assert(s@.skip(0) =~= s@);
    while i < s.len() && is_ws_exec(s[i])
        invariant
            i <= s.len(),
            trim_start(s@) == trim_start(s@.skip(i as int)),
        decreases s.len() - i,
    {
        assert(s@.skip(i as int).skip(1) =~= s@.skip(i + 1));
        i += 1;
    }
    let ghost ts = s@.skip(i as int);
    assert(trim_start(ts) == ts);
    let mut j: usize = s.len();
    while j > i && is_ws_exec(s[j - 1])
        invariant
            i <= j <= s.len(),
            ts == s@.skip(i as int),
            trim_end(ts) == trim_end(s@.subrange(i as int, j as int)),
        decreases j,
    {
        assert(s@.subrange(i as int, j as int).drop_last() =~= s@.subrange(i as int, j - 1));
        j -= 1;
    }
    let mut r: Vec<char> = Vec::new();
    let mut k: usize = i;
    while k < j
        invariant
            i <= k <= j,
            j <= s.len(),
            r@ == s@.subrange(i as int, k as int),
        decreases j - k,
    {
        r.push(s[k]);
        assert(s@.subrange(i as int, k + 1) =~= s@.subrange(i as int, k as int).push(s@[k as int]));
        k += 1;
    }
    assert(trim_end(r@) == r@);
    assert(ts.subrange(0, (j - i) as int) =~= r@);
    assert(s@.skip(i as int) =~= ts);
    r
}

/// `w` occurs somewhere in `v`.
pub open spec fn contains(v: Seq<char>, w: Seq<char>) -> bool {
    exists|i: int| crate::layout::matches_at(v, w, i)
}

fn contains_exec(v: &Vec<char>, lit: &str) -> (b: bool)
    ensures
        b == contains(v@, lit@),
{
    let w = crate::text::str_chars(lit);
    if w.len() > v.len() {
        assert forall|i: int| !crate::layout::matches_at(v@, w@, i) by {}
        return false;
    }
    let mut i: usize = 0;
    while i <= v.len() - w.len()
        invariant
            w.len() <= v.len(),
            w@ == lit@,
            i <= v.len() - w.len() + 1,
            forall|j: int| 0 <= j < i ==> !crate::layout::matches_at(v@, w@, j),
        decreases v.len() - w.len() + 1 - i,
    {
        let mut c: usize = 0;
        while c < w.len()
            invariant
                c <= w.len(),
                i + w.len() <= v.len(),
                forall|d: int| 0 <= d < c ==> v@[i + d] == w@[d],
            ensures
                c <= w.len(),
                forall|d: int| 0 <= d < c ==> v@[i + d] == w@[d],
                c < w.len() ==> v@[i + c] != w@[c as int],
            decreases w.len() - c,
        {
            if v[i + c] != w[c] {
                break;
            }
            c += 1;
        }
        if c == w.len() {
            assert(v@.subrange(i as int, i + w.len()) =~= w@);
            assert(crate::layout::matches_at(v@, w@, i as int));
            return true;
        }
        assert(!crate::layout::matches_at(v@, w@, i as int)) by {
            if crate::layout::matches_at(v@, w@, i as int) {
                assert(v@.subrange(i as int, i + w.len())[c as int] == w@[c as int]);
            }
        }
        i += 1;
    }
    assert forall|j: int| !crate::layout::matches_at(v@, w@, j) by {
        if 0 <= j && j + w.len() <= v.len() {
            assert(j < i);
        }
    }
    false
}

/// Value of an ASCII hexadecimal digit.
pub open spec fn hex_digit(c: char) -> Option<u8> {
    if '0' <= c && c <= '9' {
        Some(((c as u32) - ('0' as u32)) as u8)
    } else if 'a' <= c && c <= 'f' {
        Some(((c as u32) - ('a' as u32) + 10) as u8)
    } else if 'A' <= c && c <= 'F' {
        Some(((c as u32) - ('A' as u32) + 10) as u8)
    } else {
        None
    }
}

fn hex_digit_exec(c: char) -> (r: Option<u8>)
    ensures
        r == hex_digit(c),
{
    if '0' <= c && c <= '9' {
        Some(((c as u32) - ('0' as u32)) as u8)
    } else if 'a' <= c && c <= 'f' {
        Some(((c as u32) - ('a' as u32) + 10) as u8)
    } else if 'A' <= c && c <= 'F' {
        Some(((c as u32) - ('A' as u32) + 10) as u8)
    } else {
        None
    }
}

/// `#rgb` (each digit doubled) or `#rrggbb`, given the digits after `#`.
pub open spec fn hex_color(h: Seq<char>) -> Option<Rgb> {
    if h.len() == 3 && hex_digit(h[0]) is Some && hex_digit(h[1]) is Some && hex_digit(h[2]) is Some {
        Some(Rgb {
            r: (hex_digit(h[0])->0 * 17) as u8,
            g: (hex_digit(h[1])->0 * 17) as u8,
            b: (hex_digit(h[2])->0 * 17) as u8,
        })
    } else if h.len() == 6 && hex_digit(h[0]) is Some && hex_digit(h[1]) is Some && hex_digit(h[2]) is Some
        && hex_digit(h[3]) is Some && hex_digit(h[4]) is Some && hex_digit(h[5]) is Some {
        Some(Rgb {
            r: (hex_digit(h[0])->0 * 16 + hex_digit(h[1])->0) as u8,
            g: (hex_digit(h[2])->0 * 16 + hex_digit(h[3])->0) as u8,
            b: (hex_digit(h[4])->0 * 16 + hex_digit(h[5])->0) as u8,
        })
    } else {
        None
    }
}

fn hex_color_exec(v: &Vec<char>) -> (r: Option<Rgb>)
    requires
        v@.len() >= 1,
    ensures
        r == hex_color(v@.skip(1)),
{
    let ghost h = v@.skip(1);
    if v.len() == 4 {
        match (hex_digit_exec(v[1]), hex_digit_exec(v[2]), hex_digit_exec(v[3])) {
            (Some(a), Some(b), Some(c)) => {
                assert(a < 16 && b < 16 && c < 16);
                Some(Rgb { r: a * 17, g: b * 17, b: c * 17 })
            },
            _ => None,
        }
    } else if v.len() == 7 {
        match (
            hex_digit_exec(v[1]),
            hex_digit_exec(v[2]),
            hex_digit_exec(v[3]),
            hex_digit_exec(v[4]),
            hex_digit_exec(v[5]),
            hex_digit_exec(v[6]),
        ) {
            (Some(a), Some(b), Some(c), Some(d), Some(e), Some(f)) => {
                assert(a < 16 && b < 16 && c < 16 && d < 16 && e < 16 && f < 16);
                Some(Rgb { r: a * 16 + b, g: c * 16 + d, b: e * 16 + f })
            },
            _ => None,
        }
    } else {
        None
    }
}

/// Value of a decimal colour component: one to three ASCII digits, at most 255.
pub open spec fn dec_byte(p: Seq<char>) -> Option<u8>
    decreases p.len(),
{
    if p.len() == 0 || p.len() > 3 || !(forall|i: int| 0 <= i < p.len() ==> '0' <= #[trigger] p[i] && p[i] <= '9') {
        None
    } else {
        let v = dec_value(p);
        if v <= 255 { Some(v as u8) } else { None }
    }
}

/// Decimal value of ASCII digits.
pub open spec fn dec_value(p: Seq<char>) -> nat
    decreases p.len(),
{
    if p.len() == 0 {
        0
    } else {
        dec_value(p.drop_last()) * 10 + ((p.last() as u32) - ('0' as u32)) as nat
    }
}

fn dec_byte_exec(p: &Vec<char>) -> (r: Option<u8>)
    ensures
        r == dec_byte(p@),
{
    if p.len() == 0 || p.len() > 3 {
        return None;
    }
    let mut v: u32 = 0;
    let mut i: usize = 0;
    while i < p.len()
        invariant
            i <= p.len(),
            p.len() <= 3,
            forall|k: int| 0 <= k < i ==> '0' <= #[trigger] p@[k] && p@[k] <= '9',
            v == dec_value(p@.take(i as int)),
            v < 1000,
            i == 0 ==> v == 0,
            i == 1 ==> v < 10,
            i == 2 ==> v < 100,
        decreases p.len() - i,
    {
        let c = p[i];
        if !('0' <= c && c <= '9') {
            return None;
        }
        assert(p@.take(i + 1).drop_last() =~= p@.take(i as int));
        v = v * 10 + ((c as u32) - ('0' as u32));
        i += 1;
    }
    assert(p@.take(i as int) =~= p@);
    if v <= 255 {
        Some(v as u8)
    } else {
        None
    }
}

/// The pieces of `s` between commas.
pub open spec fn split_commas(s: Seq<char>) -> Seq<Seq<char>>
    decreases s.len(),
{
    if s.len() == 0 {
        seq![seq![]]
    } else {
        let ps = split_commas(s.drop_last());
        if s.last() == ',' {
            ps.push(seq![])
        } else {
            ps.update(ps.len() - 1, ps.last().push(s.last()))
        }
    }
}

proof fn lemma_split_commas_nonempty(s: Seq<char>)
    ensures
        split_commas(s).len() >= 1,
    decreases s.len(),
{
    if s.len() > 0 {
        lemma_split_commas_nonempty(s.drop_last());
    }
}

/// `r, g, b` with three decimal components, given the text inside `rgb(...)`.
pub open spec fn rgb_color(inner: Seq<char>) -> Option<Rgb> {
    let ps = split_commas(inner);
    if ps.len() == 3 && dec_byte(trim(ps[0])) is Some && dec_byte(trim(ps[1])) is Some && dec_byte(
        trim(ps[2]),
    ) is Some {
        Some(Rgb { r: dec_byte(trim(ps[0]))->0, g: dec_byte(trim(ps[1]))->0, b: dec_byte(trim(ps[2]))->0 })
    } else {
        None
    }
}

fn rgb_color_exec(v: &Vec<char>) -> (r: Option<Rgb>)
    requires
        v@.len() >= 5,
    ensures
        r == rgb_color(v@.subrange(4, v@.len() - 1)),
{
    let ghost inner = v@.subrange(4, v@.len() - 1);
    let mut parts: Vec<Vec<char>> = Vec::new();
    let mut cur: Vec<char> = Vec::new();
    let mut i: usize = 4;
    let end = v.len() - 1;
    while i < end
        invariant
            4 <= i <= end,
            end == v@.len() - 1,
            inner == v@.subrange(4, end as int),
            parts@.len() + 1 == split_commas(inner.take(i - 4)).len(),
            forall|k: int| 0 <= k < parts@.len() ==> #[trigger] parts@[k]@ == split_commas(inner.take(i - 4))[k],
            cur@ == split_commas(inner.take(i - 4)).last(),
        decreases end - i,
    {
        proof {
            lemma_split_commas_nonempty(inner.take(i - 4));
            assert(inner.take(i - 4 + 1).drop_last() =~= inner.take(i - 4));
            assert(inner[i - 4] == v@[i as int]);
        }
        let c = v[i];
        if c == ',' {
            let done = cur;
            parts.push(done);
            cur = Vec::new();
        } else {
            cur.push(c);
        }
        i += 1;
    }
    assert(inner.take(i - 4) =~= inner);
    parts.push(cur);
    if parts.len() != 3 {
        return None;
    }
    let a = dec_byte_exec(&trim_exec(&parts[0]));
    let b = dec_byte_exec(&trim_exec(&parts[1]));
    let c = dec_byte_exec(&trim_exec(&parts[2]));
    match (a, b, c) {
        (Some(x), Some(y), Some(z)) => Some(Rgb { r: x, g: y, b: z }),
        _ => None,
    }
}

/// Colour names understood in `color:` declarations.
pub open spec fn named_color(v: Seq<char>) -> Option<Rgb> {
    if false {
        None
    } else if v == "black"@ {
        Some(Rgb { r: 0, g: 0, b: 0 })
    } else if v == "white"@ {
        Some(Rgb { r: 255, g: 255, b: 255 })
    } else if v == "red"@ {
        Some(Rgb { r: 255, g: 0, b: 0 })
    } else if v == "green"@ {
        Some(Rgb { r: 0, g: 128, b: 0 })
    } else if v == "blue"@ {
        Some(Rgb { r: 0, g: 0, b: 255 })
    } else if v == "yellow"@ {
        Some(Rgb { r: 255, g: 255, b: 0 })
    } else if v == "cyan"@ {
        Some(Rgb { r: 0, g: 255, b: 255 })
    } else if v == "aqua"@ {
        Some(Rgb { r: 0, g: 255, b: 255 })
    } else if v == "magenta"@ {
        Some(Rgb { r: 255, g: 0, b: 255 })
    } else if v == "fuchsia"@ {
        Some(Rgb { r: 255, g: 0, b: 255 })
    } else if v == "gray"@ {
        Some(Rgb { r: 128, g: 128, b: 128 })
    } else if v == "grey"@ {
        Some(Rgb { r: 128, g: 128, b: 128 })
    } else if v == "orange"@ {
        Some(Rgb { r: 255, g: 165, b: 0 })
    } else if v == "purple"@ {
        Some(Rgb { r: 128, g: 0, b: 128 })
    } else if v == "brown"@ {
        Some(Rgb { r: 165, g: 42, b: 42 })
    } else if v == "navy"@ {
        Some(Rgb { r: 0, g: 0, b: 128 })
    } else if v == "maroon"@ {
        Some(Rgb { r: 128, g: 0, b: 0 })
    } else if v == "olive"@ {
        Some(Rgb { r: 128, g: 128, b: 0 })
    } else if v == "teal"@ {
        Some(Rgb { r: 0, g: 128, b: 128 })
    } else if v == "silver"@ {
        Some(Rgb { r: 192, g: 192, b: 192 })
    } else if v == "lime"@ {
        Some(Rgb { r: 0, g: 255, b: 0 })
    } else if v == "pink"@ {
        Some(Rgb { r: 255, g: 192, b: 203 })
    } else {
        None
    }
}

fn named_color_exec(v: &Vec<char>) -> (r: Option<Rgb>)
    ensures
        r == named_color(v@),
{
    if false {
        None
    } else if chars_is(v, "black") {
        Some(Rgb { r: 0, g: 0, b: 0 })
    } else if chars_is(v, "white") {
        Some(Rgb { r: 255, g: 255, b: 255 })
    } else if chars_is(v, "red") {
        Some(Rgb { r: 255, g: 0, b: 0 })
    } else if chars_is(v, "green") {
        Some(Rgb { r: 0, g: 128, b: 0 })
    } else if chars_is(v, "blue") {
        Some(Rgb { r: 0, g: 0, b: 255 })
    } else if chars_is(v, "yellow") {
        Some(Rgb { r: 255, g: 255, b: 0 })
    } else if chars_is(v, "cyan") {
        Some(Rgb { r: 0, g: 255, b: 255 })
    } else if chars_is(v, "aqua") {
        Some(Rgb { r: 0, g: 255, b: 255 })
    } else if chars_is(v, "magenta") {
        Some(Rgb { r: 255, g: 0, b: 255 })
    } else if chars_is(v, "fuchsia") {
        Some(Rgb { r: 255, g: 0, b: 255 })
    } else if chars_is(v, "gray") {
        Some(Rgb { r: 128, g: 128, b: 128 })
    } else if chars_is(v, "grey") {
        Some(Rgb { r: 128, g: 128, b: 128 })
    } else if chars_is(v, "orange") {
        Some(Rgb { r: 255, g: 165, b: 0 })
    } else if chars_is(v, "purple") {
        Some(Rgb { r: 128, g: 0, b: 128 })
    } else if chars_is(v, "brown") {
        Some(Rgb { r: 165, g: 42, b: 42 })
    } else if chars_is(v, "navy") {
        Some(Rgb { r: 0, g: 0, b: 128 })
    } else if chars_is(v, "maroon") {
        Some(Rgb { r: 128, g: 0, b: 0 })
    } else if chars_is(v, "olive") {
        Some(Rgb { r: 128, g: 128, b: 0 })
    } else if chars_is(v, "teal") {
        Some(Rgb { r: 0, g: 128, b: 128 })
    } else if chars_is(v, "silver") {
        Some(Rgb { r: 192, g: 192, b: 192 })
    } else if chars_is(v, "lime") {
        Some(Rgb { r: 0, g: 255, b: 0 })
    } else if chars_is(v, "pink") {
        Some(Rgb { r: 255, g: 192, b: 203 })
    } else {
        None
    }
}

/// A CSS colour value (already lower-cased and trimmed): `#rgb`,
/// `#rrggbb`, `rgb(r, g, b)` or a colour name; anything else is ignored.
pub open spec fn parse_color(v: Seq<char>) -> Option<Rgb> {
    if v.len() >= 1 && v[0] == '#' {
        hex_color(v.skip(1))
    } else if v.len() >= 5 && v.take(4) == "rgb("@ && v.last() == ')' {
        rgb_color(v.subrange(4, v.len() - 1))
    } else {
        named_color(v)
    }
}

fn parse_color_exec(v: &Vec<char>) -> (r: Option<Rgb>)
    ensures
        r == parse_color(v@),
{
    if v.len() >= 1 && v[0] == '#' {
        return hex_color_exec(v);
    }
    if v.len() >= 5 && v[v.len() - 1] == ')' {
        let mut head: Vec<char> = Vec::new();
        head.push(v[0]);
        head.push(v[1]);
        head.push(v[2]);
        head.push(v[3]);
        assert(head@ =~= v@.take(4));
        if chars_is(&head, "rgb(") {
            return rgb_color_exec(v);
        }
    }
    named_color_exec(v)
}

/// A style changed by one `property: value` declaration.
pub open spec fn apply_decl(s: TextStyle, prop: Seq<char>, val: Seq<char>) -> TextStyle {
    let p = lower(trim(prop));
    let v = lower(trim(val));
    if p == "font-weight"@ {
        if v == "bold"@ || v == "bolder"@ || v == "600"@ || v == "700"@ || v == "800"@ || v == "900"@ {
            TextStyle { bold: true, ..s }
        } else {
            s
        }
    } else if p == "font-style"@ {
        if v == "italic"@ || v == "oblique"@ {
            TextStyle { italic: true, ..s }
        } else {
            s
        }
    } else if p == "text-decoration"@ || p == "text-decoration-line"@ {
        let s1 = if contains(v, "underline"@) { TextStyle { underline: true, ..s } } else { s };
        if contains(v, "line-through"@) { TextStyle { strike: true, ..s1 } } else { s1 }
    } else if p == "color"@ {
        match parse_color(v) {
            Some(c) => TextStyle { foreground: Some(c), ..s },
            None => s,
        }
    } else {
        s
    }
}

fn apply_decl_exec(s: TextStyle, prop: &Vec<char>, val: &Vec<char>) -> (r: TextStyle)
    ensures
        r == apply_decl(s, prop@, val@),
{
    let p = lower_exec(&trim_exec(prop));
    let v = lower_exec(&trim_exec(val));
    if chars_is(&p, "font-weight") {
        if chars_is(&v, "bold") || chars_is(&v, "bolder") || chars_is(&v, "600") || chars_is(&v, "700")
            || chars_is(&v, "800") || chars_is(&v, "900") {
            TextStyle { bold: true, ..s }
        } else {
            s
        }
    } else if chars_is(&p, "font-style") {
        if chars_is(&v, "italic") || chars_is(&v, "oblique") {
            TextStyle { italic: true, ..s }
        } else {
            s
        }
    } else if chars_is(&p, "text-decoration") || chars_is(&p, "text-decoration-line") {
        let s1 = if contains_exec(&v, "underline") { TextStyle { underline: true, ..s } } else { s };
        if contains_exec(&v, "line-through") { TextStyle { strike: true, ..s1 } } else { s1 }
    } else if chars_is(&p, "color") {
        match parse_color_exec(&v) {
            Some(c) => TextStyle { foreground: Some(c), ..s },
            None => s,
        }
    } else {
        s
    }
}

/// Declarations reader: in a value, property, value, style so far.
pub type CssV = (bool, Seq<char>, Seq<char>, TextStyle);

pub open spec fn css_scan(style: TextStyle, s: Seq<char>) -> CssV
    decreases s.len(),
{
    if s.len() == 0 {
        (false, seq![], seq![], style)
    } else {
        let (in_val, prop, val, st) = css_scan(style, s.drop_last());
        let c = s.last();
        if c == ';' {
            (false, seq![], seq![], apply_decl(st, prop, val))
        } else if c == ':' && !in_val {
            (true, prop, seq![], st)
        } else if in_val {
            (in_val, prop, val.push(c), st)
        } else {
            (in_val, prop.push(c), val, st)
        }
    }
}

/// A style changed by the declarations of a `style` attribute.
pub open spec fn apply_css(style: TextStyle, s: Seq<char>) -> TextStyle {
    let (in_val, prop, val, st) = css_scan(style, s);
    apply_decl(st, prop, val)
}

fn apply_css_exec(style: TextStyle, s: &Vec<char>) -> (r: TextStyle)
    ensures
        r == apply_css(style, s@),
{
    let mut in_val = false;
    let mut prop: Vec<char> = Vec::new();
    let mut val: Vec<char> = Vec::new();
    let mut st = style;
    let mut i: usize = 0;
    while i < s.len()
        invariant
            i <= s.len(),
            css_scan(style, s@.take(i as int)) == (in_val, prop@, val@, st),
        decreases s.len() - i,
    {
        assert(s@.take(i + 1).drop_last() =~= s@.take(i as int));
        let c = s[i];
        if c == ';' {
            st = apply_decl_exec(st, &prop, &val);
            in_val = false;
            prop = Vec::new();
            val = Vec::new();
            assert(prop@ =~= Seq::<char>::empty());
            assert(val@ =~= Seq::<char>::empty());
        } else if c == ':' && !in_val {
            in_val = true;
            val = Vec::new();
            assert(val@ =~= Seq::<char>::empty());
        } else if in_val {
            val.push(c);
        } else {
            prop.push(c);
        }
        i += 1;
    }
    assert(s@.take(i as int) =~= s@);
    apply_decl_exec(st, &prop, &val)
}


// ---------------------------------------------------------------------------
// Tags
// ---------------------------------------------------------------------------

/// Length of the element name at the start of `s`.
pub open spec fn name_len(s: Seq<char>) -> nat
    decreases s.len(),
{
    if s.len() == 0 || is_ws(s[0]) || s[0] == '/' {
        0
    } else {
        1 + name_len(s.skip(1))
    }
}

proof fn lemma_name_len_bound(s: Seq<char>)
    ensures
        name_len(s) <= s.len(),
    decreases s.len(),
{
    if !(s.len() == 0 || is_ws(s[0]) || s[0] == '/') {
        lemma_name_len_bound(s.skip(1));
    }
}

fn name_len_exec(s: &Vec<char>, from: usize) -> (n: usize)
    requires
        from <= s@.len(),
    ensures
        n == name_len(s@.skip(from as int)),
        from + n <= s@.len(),
{
    let mut i: usize = from;
    proof { lemma_name_len_bound(s@.skip(from as int)); }
    while i < s.len() && !is_ws_exec(s[i]) && s[i] != '/'
        invariant
            from <= i <= s.len(),
            name_len(s@.skip(from as int)) == (i - from) + name_len(s@.skip(i as int)),
        decreases s.len() - i,
    {
        assert(s@.skip(i as int).skip(1) =~= s@.skip(i + 1));
        i += 1;
    }
    i - from
}

/// Index of the innermost open element named `n`, or -1.
pub open spec fn find_frame(fs: Seq<FrameV>, n: Seq<char>) -> int
    decreases fs.len(),
{
    if fs.len() == 0 {
        -1
    } else if fs.last().0 == n {
        fs.len() - 1
    } else {
        find_frame(fs.drop_last(), n)
    }
}

proof fn lemma_find_frame_range(fs: Seq<FrameV>, n: Seq<char>)
    ensures
        -1 <= find_frame(fs, n) < fs.len(),
    decreases fs.len(),
{
    if fs.len() > 0 {
        lemma_find_frame_range(fs.drop_last(), n);
    }
}

fn find_frame_exec(fs: &Vec<Frame>, n: &Vec<char>) -> (r: Option<usize>)
    ensures
        match r {
            Some(k) => find_frame(frames_view(fs@), n@) == k as int,
            None => find_frame(frames_view(fs@), n@) == -1,
        },
{
    let ghost fv = frames_view(fs@);
    let mut i: usize = fs.len();
    assert(fv.take(i as int) =~= fv);
    while i > 0
        invariant
            i <= fs.len(),
            fv == frames_view(fs@),
            find_frame(fv, n@) == find_frame(fv.take(i as int), n@),
        decreases i,
    {
        assert(fv.take(i as int).drop_last() =~= fv.take(i - 1));
        assert(fv.take(i as int).last() == frame_view(fs@[i - 1]));
        if chars_eq_exec(&fs[i - 1].name, n) {
            return Some(i - 1);
        }
        i -= 1;
    }
    None
}

fn chars_eq_exec(a: &Vec<char>, b: &Vec<char>) -> (r: bool)
    ensures
        r == (a@ == b@),
{
    crate::text::chars_eq(a, b)
}

/// The frame an element opens inside the frames `fs`.
pub open spec fn new_frame(fs: Seq<FrameV>, n: Seq<char>, attrs: Seq<char>, css: bool) -> FrameV {
    let base = top_style(fs);
    let style = if css {
        let s1 = tag_style(base, n);
        if is_block(n) {
            s1
        } else {
            match style_attr(attrs) {
                Some(v) => apply_css(s1, v),
                None => s1,
            }
        }
    } else {
        base
    };
    (n, style, top_heading(fs) || is_heading_tag(n), top_skip(fs) || is_skipped(n))
}

/// Frames and output after the tag whose text between `<` and `>` is `buf`.
///
/// `<!...>` and `<?...>` are ignored.  An end tag closes the innermost open
/// element of that name and everything opened inside it, and is ignored
/// when no such element is open.  Block elements end a paragraph where
/// they start and end; `<br>` ends a line.
pub open spec fn process_tag(fs: Seq<FrameV>, out: Seq<Cell>, buf: Seq<char>, css: bool) -> (Seq<FrameV>, Seq<Cell>) {
    if buf.len() == 0 || buf[0] == '!' || buf[0] == '?' {
        (fs, out)
    } else {
        let closing = buf[0] == '/';
        let rest = if closing { buf.skip(1) } else { buf };
        let n = lower(rest.take(name_len(rest) as int));
        let attrs = rest.skip(name_len(rest) as int);
        if closing {
            let k = find_frame(fs, n);
            let fs2 = if k >= 0 { fs.take(k) } else { fs };
            (fs2, if is_block(n) { para_break(out) } else { out })
        } else {
            let out2 = if n == "br"@ {
                line_break(out)
            } else if is_block(n) {
                para_break(out)
            } else {
                out
            };
            if is_void(n) || buf.last() == '/' {
                (fs, out2)
            } else {
                (fs.push(new_frame(fs, n, attrs, css)), out2)
            }
        }
    }
}

fn process_tag_exec(fs: &mut Vec<Frame>, out: &mut Vec<Cell>, buf: &Vec<char>, css: bool)
    ensures
        (frames_view(final(fs)@), final(out)@) == process_tag(frames_view(old(fs)@), old(out)@, buf@, css),
{
    if buf.len() == 0 || buf[0] == '!' || buf[0] == '?' {
        return;
    }
    let closing = buf[0] == '/';
    let from: usize = if closing { 1 } else { 0 };
    let ghost rest = if closing { buf@.skip(1) } else { buf@ };
    assert(buf@.skip(0) =~= buf@);
    let nl = name_len_exec(buf, from);
    let mut raw: Vec<char> = Vec::new();
    let mut i: usize = from;
    let end = from + nl;
    while i < end
        invariant
            end == from + nl,
            from <= i <= from + nl,
            from + nl <= buf@.len(),
            rest == buf@.skip(from as int),
            raw@ == rest.take(i - from),
        decreases end - i,
    {
        raw.push(buf[i]);
        assert(rest.take(i - from + 1) =~= rest.take(i - from).push(rest[i - from]));
        i += 1;
    }
    let n = lower_exec(&raw);
    let ghost attrs = rest.skip(nl as int);
    let ghost fv = frames_view(fs@);
    if closing {
        match find_frame_exec(fs, &n) {
            Some(k) => {
                proof { lemma_find_frame_range(fv, n@); }
                fs.truncate(k);
                assert(frames_view(fs@) =~= fv.take(k as int));
            },
            None => {},
        }
        if is_block_exec(&n) {
            para_break_exec(out);
        }
    } else {
        if chars_is(&n, "br") {
            line_break_exec(out);
        } else if is_block_exec(&n) {
            para_break_exec(out);
        }
        if is_void_exec(&n) || buf[buf.len() - 1] == '/' {
            return;
        }
        let mut attrs_v: Vec<char> = Vec::new();
        let mut j: usize = from + nl;
        while j < buf.len()
            invariant
                from + nl <= j <= buf.len(),
                rest == buf@.skip(from as int),
                attrs == rest.skip(nl as int),
                attrs_v@ == attrs.take(j - from - nl),
            decreases buf.len() - j,
        {
            attrs_v.push(buf[j]);
            assert(attrs.take(j - from - nl + 1) =~= attrs.take(j - from - nl).push(attrs[j - from - nl]));
            j += 1;
        }
        assert(attrs.take(j - from - nl) =~= attrs);
        let (base, heading, skip) = top_exec(fs);
        let style = if css {
            let s1 = tag_style_exec(base, &n);
            if is_block_exec(&n) {
                s1
            } else {
                match style_attr_exec(&attrs_v) {
                    Some(v) => apply_css_exec(s1, &v),
                    None => s1,
                }
            }
        } else {
            base
        };
        let h = heading || is_heading_tag_exec(&n);
        let sk = skip || is_skipped_exec(&n);
        let ghost nf = new_frame(fv, n@, attrs, css);
        fs.push(Frame { name: n, style: style, heading: h, skip: sk });
        assert(frames_view(fs@) =~= fv.push(nf));
    }
}

// ---------------------------------------------------------------------------
// Character references
// ---------------------------------------------------------------------------

/// Value of ASCII digits in base 10 or 16.
pub open spec fn num_value(d: Seq<char>, hex: bool) -> nat
    decreases d.len(),
{
    if d.len() == 0 {
        0
    } else {
        num_value(d.drop_last(), hex) * (if hex { 16nat } else { 10nat }) + (hex_digit(d.last())->0) as nat
    }
}

/// `d` is a non-empty string of digits of the base.
pub open spec fn all_digits(d: Seq<char>, hex: bool) -> bool {
    d.len() > 0 && forall|i: int| 0 <= i < d.len() ==> if hex {
        #[trigger] hex_digit(d[i]) is Some
    } else {
        '0' <= d[i] && d[i] <= '9'
    }
}

/// A Unicode scalar value.
pub open spec fn is_scalar(v: nat) -> bool {
    v <= 0xD7FF || (0xE000 <= v && v <= 0x10FFFF)
}

/// The text a character reference `&name;` stands for; an unknown reference
/// stays as written.
pub open spec fn decode_entity(name: Seq<char>) -> Seq<char> {
    if name == "amp"@ {
        seq!['&']
    } else if name == "lt"@ {
        seq!['<']
    } else if name == "gt"@ {
        seq!['>']
    } else if name == "quot"@ {
        seq!['"']
    } else if name == "apos"@ {
        seq!['\'']
    } else if name == "nbsp"@ {
        seq!['\u{a0}']
    } else if name.len() >= 2 && name[0] == '#' && (name[1] == 'x' || name[1] == 'X') && all_digits(
        name.skip(2),
        true,
    ) && is_scalar(num_value(name.skip(2), true)) {
        seq![(num_value(name.skip(2), true) as u32) as char]
    } else if name.len() >= 1 && name[0] == '#' && all_digits(name.skip(1), false) && is_scalar(
        num_value(name.skip(1), false),
    ) {
        seq![(num_value(name.skip(1), false) as u32) as char]
    } else {
        seq!['&'] + name + seq![';']
    }
}

/// Value of the digits `name[from..]`, when there are at most 9 of them.
fn num_value_exec(name: &Vec<char>, from: usize, hex: bool) -> (r: Option<u64>)
    requires
        from <= name@.len(),
        name@.len() - from <= 9,
    ensures
        r is Some <==> all_digits(name@.skip(from as int), hex),
        r matches Some(v) ==> v == num_value(name@.skip(from as int), hex),
{
    let ghost d = name@.skip(from as int);
    if from == name.len() {
        return None;
    }
    let mut v: u64 = 0;
    let mut i: usize = from;
    while i < name.len()
        invariant
            from <= i <= name@.len(),
            name@.len() - from <= 9,
            d == name@.skip(from as int),
            forall|k: int| 0 <= k < i - from ==> if hex {
                #[trigger] hex_digit(d[k]) is Some
            } else {
                '0' <= d[k] && d[k] <= '9'
            },
            v == num_value(d.take(i - from), hex),
            v < pow16((i - from) as nat),
        decreases name@.len() - i,
    {
        let c = name[i];
        let dig = hex_digit_exec(c);
        let ok = if hex { dig.is_some() } else { '0' <= c && c <= '9' };
        if !ok {
            assert(!all_digits(d, hex)) by {
                assert(d[i - from] == c);
            }
            return None;
        }
        let dv: u64 = match dig { Some(x) => x as u64, None => 0 };
        assert(d.take(i - from + 1).drop_last() =~= d.take(i - from));
        proof {
            assert(dv < 16);
            lemma_pow16_step((i - from) as nat);
            assert(v * 16 + 16 <= pow16((i - from + 1) as nat)) by (nonlinear_arith)
                requires v < pow16((i - from) as nat), pow16((i - from + 1) as nat) == pow16((i - from) as nat) * 16;
            lemma_pow16_bound((i - from + 1) as nat);
        }
        v = if hex { v * 16 + dv } else { v * 10 + dv };
        i += 1;
    }
    assert(d.take(i - from) =~= d);
    Some(v)
}

pub open spec fn pow16(n: nat) -> nat
    decreases n,
{
    if n == 0 { 1 } else { 16 * pow16((n - 1) as nat) }
}

proof fn lemma_pow16_step(n: nat)
    ensures
        pow16(n + 1) == pow16(n) * 16,
{
}

proof fn lemma_pow16_bound(n: nat)
    requires
        n <= 10,
    ensures
        pow16(n) <= 0x100_0000_0000,
{
    reveal_with_fuel(pow16, 11);
    if n == 10 {
        assert(pow16(10) == 0x100_0000_0000);
    } else if n == 9 {
        assert(pow16(9) == 0x10_0000_0000);
    } else if n == 8 {
        assert(pow16(8) == 0x1_0000_0000);
    } else {
        assert(pow16(n) <= 0x1_0000_0000);
    }
}

fn push_literal_entity(r: &mut Vec<char>, name: &Vec<char>)
    ensures
        final(r)@ == old(r)@ + seq!['&'] + name@ + seq![';'],
{
    let ghost start = r@;
    r.push('&');
    let mut i: usize = 0;
    while i < name.len()
        invariant
            i <= name.len(),
            r@ == start + seq!['&'] + name@.take(i as int),
        decreases name.len() - i,
    {
        r.push(name[i]);
        assert(name@.take(i + 1) =~= name@.take(i as int).push(name@[i as int]));
        i += 1;
    }
    r.push(';');
    assert(name@.take(i as int) =~= name@);
    assert(r@ =~= start + seq!['&'] + name@ + seq![';']);
}

fn decode_entity_exec(name: &Vec<char>) -> (r: Vec<char>)
    requires
        name@.len() < 10,
    ensures
        r@ == decode_entity(name@),
{
    let mut r: Vec<char> = Vec::new();
    if chars_is(name, "amp") {
        r.push('&');
    } else if chars_is(name, "lt") {
        r.push('<');
    } else if chars_is(name, "gt") {
        r.push('>');
    } else if chars_is(name, "quot") {
        r.push('"');
    } else if chars_is(name, "apos") {
        r.push('\'');
    } else if chars_is(name, "nbsp") {
        r.push('\u{a0}');
    } else if name.len() >= 2 && name[0] == '#' && (name[1] == 'x' || name[1] == 'X') {
        assert(!all_digits(name@.skip(1), false)) by {
            assert(name@.skip(1)[0] == name@[1]);
        }
        match num_value_exec(name, 2, true) {
            Some(v) => {
                if v <= 0xD7FF || (0xE000 <= v && v <= 0x10FFFF) {
                    match char_from_u32(v as u32) {
                        Some(ch) => r.push(ch),
                        None => push_literal_entity(&mut r, name),
                    }
                } else {
                    push_literal_entity(&mut r, name);
                }
            },
            None => push_literal_entity(&mut r, name),
        }
    } else if name.len() >= 1 && name[0] == '#' {
        match num_value_exec(name, 1, false) {
            Some(v) => {
                if v <= 0xD7FF || (0xE000 <= v && v <= 0x10FFFF) {
                    match char_from_u32(v as u32) {
                        Some(ch) => r.push(ch),
                        None => push_literal_entity(&mut r, name),
                    }
                } else {
                    push_literal_entity(&mut r, name);
                }
            },
            None => push_literal_entity(&mut r, name),
        }
    } else {
        push_literal_entity(&mut r, name);
    }
    assert(r@ =~= decode_entity(name@));
    r
}


// ---------------------------------------------------------------------------
// The scanner
// ---------------------------------------------------------------------------

/// Scanner state: mode (0 text, 1 tag, 2 comment, 3 character reference),
/// pending characters, the quote open inside a tag (`'\0'` for none), the
/// open elements and the output.
pub type ScanV = (u8, Seq<char>, char, Seq<FrameV>, Seq<Cell>);

/// A character read in text mode.
pub open spec fn text_char(st: ScanV, c: char) -> ScanV {
    let (mode, buf, q, fs, out) = st;
    if c == '<' {
        (1, seq![], '\0', fs, out)
    } else if c == '&' {
        (3, seq![], q, fs, out)
    } else {
        (0, buf, q, fs, emit(fs, out, c))
    }
}

/// The last two characters of `b`.
pub open spec fn last_two(b: Seq<char>) -> Seq<char> {
    if b.len() > 2 {
        b.skip(b.len() - 2)
    } else {
        b
    }
}

/// One step of the scanner.
pub open spec fn scan_step(st: ScanV, c: char, css: bool) -> ScanV {
    let (mode, buf, q, fs, out) = st;
    if mode == 0 {
        text_char(st, c)
    } else if mode == 1 {
        if q != '\0' {
            (1, buf.push(c), if c == q { '\0' } else { q }, fs, out)
        } else if c == '>' {
            let (fs2, out2) = process_tag(fs, out, buf, css);
            (0, seq![], '\0', fs2, out2)
        } else if c == '"' || c == '\'' {
            (1, buf.push(c), c, fs, out)
        } else if buf.push(c) == "!--"@ {
            (2, seq![], '\0', fs, out)
        } else {
            (1, buf.push(c), q, fs, out)
        }
    } else if mode == 2 {
        if c == '>' && buf == "--"@ {
            (0, seq![], '\0', fs, out)
        } else {
            (2, last_two(buf.push(c)), q, fs, out)
        }
    } else {
        if c == ';' {
            (0, seq![], q, fs, emit_all(fs, out, decode_entity(buf)))
        } else if (is_alnum(c) || c == '#') && buf.len() < 9 {
            (3, buf.push(c), q, fs, out)
        } else {
            text_char((0, seq![], q, fs, emit_all(fs, out, seq!['&'] + buf)), c)
        }
    }
}

/// The scanner state after reading `s`.
pub open spec fn scan(s: Seq<char>, css: bool) -> ScanV
    decreases s.len(),
{
    if s.len() == 0 {
        (0, seq![], '\0', seq![], seq![])
    } else {
        scan_step(scan(s.drop_last(), css), s.last(), css)
    }
}

/// Output without trailing spaces and line breaks.
pub open spec fn trim_output(out: Seq<Cell>) -> Seq<Cell>
    decreases out.len(),
{
    if out.len() > 0 && (out.last().0 == ' ' || out.last().0 == '\n') {
        trim_output(out.drop_last())
    } else {
        out
    }
}

/// The styled characters of a chapter: what the scanner emitted, a
/// character reference still open at the end kept as written, without
/// trailing white space.
pub open spec fn extract_cells(html: Seq<char>, css: bool) -> Seq<Cell> {
    let (mode, buf, q, fs, out) = scan(html, css);
    let fin = if mode == 3 { emit_all(fs, out, seq!['&'] + buf) } else { out };
    trim_output(fin)
}

/// Runs of equally styled characters, a run also ending after each line
/// break, so that paragraph breaks stay separate segments.
pub open spec fn text_runs(cells: Seq<Cell>) -> Seq<crate::layout::Run>
    decreases cells.len(),
{
    if cells.len() == 0 {
        seq![]
    } else {
        let rs = text_runs(cells.drop_last());
        let x = cells.last();
        if rs.len() > 0 && rs.last().1 == x.1 && rs.last().2 == x.2 && rs.last().0.last() != '\n' {
            rs.update(rs.len() - 1, (rs.last().0.push(x.0), x.1, x.2))
        } else {
            rs.push((seq![x.0], x.1, x.2))
        }
    }
}

struct Scanner {
    mode: u8,
    buf: Vec<char>,
    q: char,
    frames: Vec<Frame>,
    out: Vec<Cell>,
}

impl Scanner {
    spec fn view(&self) -> ScanV {
        (self.mode, self.buf@, self.q, frames_view(self.frames@), self.out@)
    }

    spec fn wf(&self) -> bool {
        self.mode >= 3 ==> self.buf@.len() < 10
    }

    fn text_char(&mut self, c: char)
        requires
            old(self).wf(),
        ensures
            final(self).view() == text_char(old(self).view(), c),
            final(self).wf(),
    {
        if c == '<' {
            self.mode = 1;
            self.buf = Vec::new();
            self.q = '\0';
            assert(self.buf@ =~= Seq::<char>::empty());
        } else if c == '&' {
            self.mode = 3;
            self.buf = Vec::new();
            assert(self.buf@ =~= Seq::<char>::empty());
        } else {
            self.mode = 0;
            emit_exec(&self.frames, &mut self.out, c);
        }
    }

    fn step(&mut self, c: char, css: bool)
        requires
            old(self).wf(),
        ensures
            final(self).view() == scan_step(old(self).view(), c, css),
            final(self).wf(),
    {
        if self.mode == 0 {
            self.text_char(c);
        } else if self.mode == 1 {
            if self.q != '\0' {
                self.buf.push(c);
                if c == self.q {
                    self.q = '\0';
                }
            } else if c == '>' {
                process_tag_exec(&mut self.frames, &mut self.out, &self.buf, css);
                self.mode = 0;
                self.buf = Vec::new();
                self.q = '\0';
                assert(self.buf@ =~= Seq::<char>::empty());
            } else if c == '"' || c == '\'' {
                self.buf.push(c);
                self.q = c;
            } else {
                self.buf.push(c);
                if chars_is(&self.buf, "!--") {
                    self.mode = 2;
                    self.buf = Vec::new();
                    self.q = '\0';
                    assert(self.buf@ =~= Seq::<char>::empty());
                }
            }
        } else if self.mode == 2 {
            if c == '>' && chars_is(&self.buf, "--") {
                self.mode = 0;
                self.buf = Vec::new();
                self.q = '\0';
                assert(self.buf@ =~= Seq::<char>::empty());
            } else {
                self.buf.push(c);
                if self.buf.len() > 2 {
                    let a = self.buf[self.buf.len() - 2];
                    let b = self.buf[self.buf.len() - 1];
                    let ghost pb = self.buf@;
                    self.buf = Vec::new();
                    self.buf.push(a);
                    self.buf.push(b);
                    assert(self.buf@ =~= pb.skip(pb.len() - 2));
                }
            }
        } else {
            if c == ';' {
                let d = decode_entity_exec(&self.buf);
                emit_all_exec(&self.frames, &mut self.out, &d);
                self.mode = 0;
                self.buf = Vec::new();
                assert(self.buf@ =~= Seq::<char>::empty());
            } else if (is_alnum_exec(c) || c == '#') && self.buf.len() < 9 {
                self.buf.push(c);
                self.mode = 3;
            } else {
                let mut lit: Vec<char> = Vec::new();
                lit.push('&');
                let mut i: usize = 0;
                while i < self.buf.len()
                    invariant
                        i <= self.buf@.len(),
                        lit@ == seq!['&'] + self.buf@.take(i as int),
                    decreases self.buf@.len() - i,
                {
                    lit.push(self.buf[i]);
                    assert(self.buf@.take(i + 1) =~= self.buf@.take(i as int).push(self.buf@[i as int]));
                    i += 1;
                }
                assert(self.buf@.take(i as int) =~= self.buf@);
                emit_all_exec(&self.frames, &mut self.out, &lit);
                self.mode = 0;
                self.buf = Vec::new();
                assert(self.buf@ =~= Seq::<char>::empty());
                self.text_char(c);
            }
        }
    }
}

fn is_alnum_exec(c: char) -> (b: bool)
    ensures
        b == is_alnum(c),
{
    ('a' <= c && c <= 'z') || ('A' <= c && c <= 'Z') || ('0' <= c && c <= '9')
}

/// The styled characters of a chapter's HTML.
pub fn extract_cells_exec(html: &str, css: bool) -> (out: Vec<Cell>)
    ensures
        out@ == extract_cells(html@, css),
{
    let chars = crate::text::str_chars(html);
    let mut sc = Scanner { mode: 0, buf: Vec::new(), q: '\0', frames: Vec::new(), out: Vec::new() };
    assert(sc.view() =~= scan(chars@.take(0), css)) by {
        assert(frames_view(sc.frames@) =~= Seq::<FrameV>::empty());
        assert(sc.buf@ =~= Seq::<char>::empty());
        assert(sc.out@ =~= Seq::<Cell>::empty());
    }
    let mut i: usize = 0;
    while i < chars.len()
        invariant
            i <= chars.len(),
            sc.wf(),
            sc.view() == scan(chars@.take(i as int), css),
        decreases chars.len() - i,
    {
        assert(chars@.take(i + 1).drop_last() =~= chars@.take(i as int));
        sc.step(chars[i], css);
        i += 1;
    }
    assert(chars@.take(i as int) =~= chars@);
    let Scanner { mode, buf, q: _, frames, mut out } = sc;
    if mode == 3 {
        let mut lit: Vec<char> = Vec::new();
        lit.push('&');
        let mut k: usize = 0;
        while k < buf.len()
            invariant
                k <= buf@.len(),
                lit@ == seq!['&'] + buf@.take(k as int),
            decreases buf@.len() - k,
        {
            lit.push(buf[k]);
            assert(buf@.take(k + 1) =~= buf@.take(k as int).push(buf@[k as int]));
            k += 1;
        }
        assert(buf@.take(k as int) =~= buf@);
        emit_all_exec(&frames, &mut out, &lit);
    }
    let ghost fin = out@;
    while out.len() > 0 && (out[out.len() - 1].0 == ' ' || out[out.len() - 1].0 == '\n')
        invariant
            trim_output(fin) == trim_output(out@),
        decreases out@.len(),
    {
        let ghost before = out@;
        out.pop();
        assert(out@ =~= before.drop_last());
    }
    out
}

/// Groups extracted characters into segments (`text_runs`).
pub fn text_runs_exec(cells: &Vec<Cell>) -> (out: Vec<crate::StyledSegment>)
    ensures
        crate::layout::line_runs(out@) == text_runs(cells@),
{
    let mut out: Vec<crate::StyledSegment> = Vec::new();
    let mut cur: Vec<char> = Vec::new();
    let mut cur_style = TextStyle { bold: false, underline: false, foreground: None, italic: false, strike: false };
    let mut cur_head = false;
    let mut i: usize = 0;
    while i < cells.len()
        invariant
            i <= cells.len(),
            i == 0 <==> cur@.len() == 0,
            cur@.len() == 0 ==> crate::layout::line_runs(out@) == text_runs(cells@.take(i as int)),
            cur@.len() > 0 ==> crate::layout::line_runs(out@).push((cur@, cur_style, cur_head)) == text_runs(
                cells@.take(i as int),
            ),
        decreases cells.len() - i,
    {
        proof {
            assert(cells@.take(i + 1).drop_last() =~= cells@.take(i as int));
        }
        let x = cells[i];
        if cur.len() > 0 && x.1 == cur_style && x.2 == cur_head && cur[cur.len() - 1] != '\n' {
            cur.push(x.0);
            proof {
                let rs = text_runs(cells@.take(i as int));
                assert(rs.update(rs.len() - 1, (rs.last().0.push(x.0), x.1, x.2)) =~= crate::layout::line_runs(
                    out@,
                ).push((cur@, cur_style, cur_head)));
            }
        } else {
            if cur.len() > 0 {
                let text = crate::text::string_from_chars(cur.as_slice());
                let ghost old_out = out@;
                out.push(crate::StyledSegment { text: text, style: cur_style, is_heading: cur_head });
                assert(crate::layout::line_runs(out@) =~= crate::layout::line_runs(old_out).push(
                    (cur@, cur_style, cur_head),
                ));
            }
            cur = Vec::new();
            cur.push(x.0);
            cur_style = x.1;
            cur_head = x.2;
        }
        i += 1;
    }
    assert(cells@.take(i as int) =~= cells@);
    if cur.len() > 0 {
        let text = crate::text::string_from_chars(cur.as_slice());
        let ghost old_out = out@;
        out.push(crate::StyledSegment { text: text, style: cur_style, is_heading: cur_head });
        assert(crate::layout::line_runs(out@) =~= crate::layout::line_runs(old_out).push(
            (cur@, cur_style, cur_head),
        ));
    }
    out
}


// ---------------------------------------------------------------------------
// Without CSS styling, text is unstyled
// ---------------------------------------------------------------------------

/// Every cell is unstyled.
pub open spec fn all_plain(cells: Seq<Cell>) -> bool {
    forall|i: int| 0 <= i < cells.len() ==> (#[trigger] cells[i]).1 == TextStyle::plain()
}

/// Every open element is unstyled.
pub open spec fn frames_plain(fs: Seq<FrameV>) -> bool {
    forall|i: int| 0 <= i < fs.len() ==> (#[trigger] fs[i]).1 == TextStyle::plain()
}

proof fn lemma_push_plain(out: Seq<Cell>, x: Cell)
    requires
        all_plain(out),
        x.1 == TextStyle::plain(),
    ensures
        all_plain(out.push(x)),
{
    assert forall|i: int| 0 <= i < out.push(x).len() implies (#[trigger] out.push(x)[i]).1 == TextStyle::plain() by {
        if i < out.len() {
            assert(out.push(x)[i] == out[i]);
        }
    }
}

proof fn lemma_emit_all_plain(fs: Seq<FrameV>, out: Seq<Cell>, s: Seq<char>)
    requires
        frames_plain(fs),
        all_plain(out),
    ensures
        all_plain(emit_all(fs, out, s)),
    decreases s.len(),
{
    if s.len() > 0 {
        lemma_emit_all_plain(fs, out, s.drop_last());
        let o = emit_all(fs, out, s.drop_last());
        if !top_skip(fs) {
            lemma_push_plain(o, (' ', top_style(fs), top_heading(fs)));
            lemma_push_plain(o, (s.last(), top_style(fs), top_heading(fs)));
        }
    }
}

proof fn lemma_breaks_plain(out: Seq<Cell>)
    requires
        all_plain(out),
    ensures
        all_plain(para_break(out)),
        all_plain(line_break(out)),
{
    lemma_push_plain(out, newline());
    lemma_push_plain(out.push(newline()), newline());
}

proof fn lemma_scan_plain(s: Seq<char>)
    ensures
        frames_plain(scan(s, false).3),
        all_plain(scan(s, false).4),
    decreases s.len(),
{
    if s.len() > 0 {
        lemma_scan_plain(s.drop_last());
        let (mode, buf, q, fs, out) = scan(s.drop_last(), false);
        let c = s.last();
        lemma_emit_all_plain(fs, out, decode_entity(buf));
        lemma_emit_all_plain(fs, out, seq!['&'] + buf);
        lemma_emit_all_plain(fs, out, seq![c]);
        assert(emit_all(fs, out, seq![c]) == emit(fs, out, c)) by {
            assert(seq![c].drop_last() =~= Seq::<char>::empty());
            assert(emit_all(fs, out, seq![c].drop_last()) == out);
            assert(seq![c].last() == c);
        }
        let o2 = emit_all(fs, out, seq!['&'] + buf);
        lemma_emit_all_plain(fs, o2, seq![c]);
        assert(emit_all(fs, o2, seq![c]) == emit(fs, o2, c)) by {
            assert(seq![c].drop_last() =~= Seq::<char>::empty());
            assert(emit_all(fs, o2, seq![c].drop_last()) == o2);
            assert(seq![c].last() == c);
        }
        if mode == 1 && q == '\0' && c == '>' {
            lemma_breaks_plain(out);
            if !(buf.len() == 0 || buf[0] == '!' || buf[0] == '?') {
                let closing = buf[0] == '/';
                let rest = if closing { buf.skip(1) } else { buf };
                let n = lower(rest.take(name_len(rest) as int));
                if closing {
                    let k = find_frame(fs, n);
                    lemma_find_frame_range(fs, n);
                    if k >= 0 {
                        assert forall|i: int| 0 <= i < fs.take(k).len() implies (#[trigger] fs.take(k)[i]).1 == TextStyle::plain() by {
                            assert(fs.take(k)[i] == fs[i]);
                        }
                    }
                } else {
                    let attrs = rest.skip(name_len(rest) as int);
                    let nf = new_frame(fs, n, attrs, false);
                    assert(nf.1 == TextStyle::plain());
                    assert forall|i: int| 0 <= i < fs.push(nf).len() implies (#[trigger] fs.push(nf)[i]).1 == TextStyle::plain() by {
                        if i < fs.len() {
                            assert(fs.push(nf)[i] == fs[i]);
                        }
                    }
                }
            }
        }
    }
}

proof fn lemma_trim_plain(out: Seq<Cell>)
    requires
        all_plain(out),
    ensures
        all_plain(trim_output(out)),
    decreases out.len(),
{
    if out.len() > 0 && (out.last().0 == ' ' || out.last().0 == '\n') {
        assert forall|i: int| 0 <= i < out.drop_last().len() implies (#[trigger] out.drop_last()[i]).1 == TextStyle::plain() by {
            assert(out.drop_last()[i] == out[i]);
        }
        lemma_trim_plain(out.drop_last());
    }
}

proof fn lemma_runs_plain(cells: Seq<Cell>)
    requires
        all_plain(cells),
    ensures
        forall|i: int| 0 <= i < text_runs(cells).len() ==> (#[trigger] text_runs(cells)[i]).1 == TextStyle::plain(),
    decreases cells.len(),
{
    if cells.len() > 0 {
        assert forall|i: int| 0 <= i < cells.drop_last().len() implies (#[trigger] cells.drop_last()[i]).1 == TextStyle::plain() by {
            assert(cells.drop_last()[i] == cells[i]);
        }
        lemma_runs_plain(cells.drop_last());
        let rs = text_runs(cells.drop_last());
        let x = cells.last();
        assert(x.1 == TextStyle::plain());
        if rs.len() > 0 && rs.last().1 == x.1 && rs.last().2 == x.2 && rs.last().0.last() != '\n' {
            let rs2 = rs.update(rs.len() - 1, (rs.last().0.push(x.0), x.1, x.2));
            assert forall|i: int| 0 <= i < rs2.len() implies (#[trigger] rs2[i]).1 == TextStyle::plain() by {
                if i < rs.len() - 1 {
                    assert(rs2[i] == rs[i]);
                }
            }
        } else {
            let rs2 = rs.push((seq![x.0], x.1, x.2));
            assert forall|i: int| 0 <= i < rs2.len() implies (#[trigger] rs2[i]).1 == TextStyle::plain() by {
                if i < rs.len() {
                    assert(rs2[i] == rs[i]);
                }
            }
        }
    }
}

/// With CSS styling off, every extracted run is unstyled: neither inline
/// styles nor semantic tags (`<b>`, `<em>`, `<u>`, `<s>`, ...) apply.
pub proof fn lemma_no_css_is_plain(html: Seq<char>)
    ensures
        forall|i: int| 0 <= i < text_runs(extract_cells(html, false)).len()
            ==> (#[trigger] text_runs(extract_cells(html, false))[i]).1 == TextStyle::plain(),
{
    lemma_scan_plain(html);
    let (mode, buf, q, fs, out) = scan(html, false);
    lemma_emit_all_plain(fs, out, seq!['&'] + buf);
    let fin = if mode == 3 { emit_all(fs, out, seq!['&'] + buf) } else { out };
    lemma_trim_plain(fin);
    lemma_runs_plain(extract_cells(html, false));
}


// ---------------------------------------------------------------------------
// Bold elements
// ---------------------------------------------------------------------------

/// The scanner state after reading `x` from the state `st`.
pub open spec fn scan_from(st: ScanV, x: Seq<char>, css: bool) -> ScanV
    decreases x.len(),
{
    if x.len() == 0 {
        st
    } else {
        scan_step(scan_from(st, x.drop_last(), css), x.last(), css)
    }
}

proof fn lemma_scan_from_concat(st: ScanV, x: Seq<char>, y: Seq<char>, css: bool)
    ensures
        scan_from(st, x + y, css) == scan_from(scan_from(st, x, css), y, css),
    decreases y.len(),
{
    if y.len() == 0 {
        assert(x + y =~= x);
    } else {
        lemma_scan_from_concat(st, x, y.drop_last(), css);
        assert((x + y).drop_last() =~= x + y.drop_last());
        assert((x + y).last() == y.last());
    }
}

proof fn lemma_scan_is_from(s: Seq<char>, css: bool)
    ensures
        scan(s, css) == scan_from((0, seq![], '\0', seq![], seq![]), s, css),
    decreases s.len(),
{
    if s.len() > 0 {
        lemma_scan_is_from(s.drop_last(), css);
    }
}

proof fn lemma_scan_one(st: ScanV, c: char, css: bool)
    ensures
        scan_from(st, seq![c], css) == scan_step(st, c, css),
{
    assert(seq![c].drop_last() =~= Seq::<char>::empty());
    assert(scan_from(st, Seq::<char>::empty(), css) == st);
    assert(seq![c].last() == c);
}

/// Text without `<` or `&` is emitted character by character.
proof fn lemma_text_run(fs: Seq<FrameV>, out: Seq<Cell>, q: char, t: Seq<char>, css: bool)
    requires
        forall|i: int| 0 <= i < t.len() ==> t[i] != '<' && t[i] != '&',
    ensures
        scan_from((0, seq![], q, fs, out), t, css) == (0u8, Seq::<char>::empty(), q, fs, emit_all(fs, out, t)),
    decreases t.len(),
{
    if t.len() > 0 {
        lemma_text_run(fs, out, q, t.drop_last(), css);
        assert(t.last() == t[t.len() - 1]);
    }
}

/// The characters of a tag without quotes are gathered into the buffer.
proof fn lemma_tag_buffer(fs: Seq<FrameV>, out: Seq<Cell>, y: Seq<char>, css: bool)
    requires
        y.len() >= 1,
        y[0] != '!',
        forall|i: int| 0 <= i < y.len() ==> y[i] != '>' && y[i] != '"' && y[i] != '\'',
    ensures
        scan_from((1, seq![], '\0', fs, out), y, css) == (1u8, y, '\0', fs, out),
    decreases y.len(),
{
    reveal_strlit("!--");
    let init = y.drop_last();
    let c = y.last();
    assert(c == y[y.len() - 1]);
    if y.len() == 1 {
        assert(init =~= Seq::<char>::empty());
        assert(Seq::<char>::empty().push(c) =~= y);
        assert(y != "!--"@);
    } else {
        lemma_tag_buffer(fs, out, init, css);
        assert(init.push(c) =~= y);
        assert(y[0] != "!--"@[0]);
    }
}

proof fn lemma_emit_all_bold(fs: Seq<FrameV>, out: Seq<Cell>, t: Seq<char>)
    requires
        top_style(fs).bold,
        forall|i: int| 0 <= i < out.len() ==> (#[trigger] out[i]).1.bold,
    ensures
        forall|i: int| 0 <= i < emit_all(fs, out, t).len() ==> (#[trigger] emit_all(fs, out, t)[i]).1.bold,
        emit_all(fs, out, t).len() >= out.len(),
        forall|i: int| 0 <= i < out.len() ==> emit_all(fs, out, t)[i] == out[i],
    decreases t.len(),
{
    if t.len() > 0 {
        lemma_emit_all_bold(fs, out, t.drop_last());
    }
}

proof fn lemma_trim_prefix(out: Seq<Cell>)
    ensures
        trim_output(out).len() <= out.len(),
        forall|i: int| 0 <= i < trim_output(out).len() ==> trim_output(out)[i] == out[i],
        out.len() > 0 && out[0].0 != ' ' && out[0].0 != '\n' ==> trim_output(out).len() > 0,
    decreases out.len(),
{
    if out.len() > 0 && (out.last().0 == ' ' || out.last().0 == '\n') {
        let init = out.drop_last();
        lemma_trim_prefix(init);
        assert forall|i: int| 0 <= i < trim_output(out).len() implies trim_output(out)[i] == out[i] by {
            assert(trim_output(out)[i] == init[i]);
        }
        if out.len() == 1 {
            assert(out.last() == out[0]);
        }
    }
}

proof fn lemma_name_len_plain(s: Seq<char>)
    requires
        forall|i: int| 0 <= i < s.len() ==> 'a' <= #[trigger] s[i] && s[i] <= 'z',
    ensures
        name_len(s) == s.len(),
    decreases s.len(),
{
    if s.len() > 0 {
        assert forall|i: int| 0 <= i < s.skip(1).len() implies 'a' <= #[trigger] s.skip(1)[i] && s.skip(1)[i] <= 'z' by {
            assert(s.skip(1)[i] == s[i + 1]);
        }
        lemma_name_len_plain(s.skip(1));
    }
}

proof fn lemma_not_listed(n: Seq<char>)
    requires
        n == "b"@ || n == "strong"@,
    ensures
        !is_block(n),
        !is_void(n),
        !is_skipped(n),
{
    reveal_strlit("b");
    reveal_strlit("strong");
    if n == "b"@ {
        assert(n != "p"@) by { reveal_strlit("p"); assert(n[0] != "p"@[0]); }
        assert(n != "div"@) by { reveal_strlit("div"); assert(n.len() != "div"@.len()); }
        assert(n != "h1"@) by { reveal_strlit("h1"); assert(n.len() != "h1"@.len()); }
        assert(n != "h2"@) by { reveal_strlit("h2"); assert(n.len() != "h2"@.len()); }
        assert(n != "h3"@) by { reveal_strlit("h3"); assert(n.len() != "h3"@.len()); }
        assert(n != "h4"@) by { reveal_strlit("h4"); assert(n.len() != "h4"@.len()); }
        assert(n != "h5"@) by { reveal_strlit("h5"); assert(n.len() != "h5"@.len()); }
        assert(n != "h6"@) by { reveal_strlit("h6"); assert(n.len() != "h6"@.len()); }
        assert(n != "li"@) by { reveal_strlit("li"); assert(n.len() != "li"@.len()); }
        assert(n != "ul"@) by { reveal_strlit("ul"); assert(n.len() != "ul"@.len()); }
        assert(n != "ol"@) by { reveal_strlit("ol"); assert(n.len() != "ol"@.len()); }
        assert(n != "blockquote"@) by { reveal_strlit("blockquote"); assert(n.len() != "blockquote"@.len()); }
        assert(n != "section"@) by { reveal_strlit("section"); assert(n.len() != "section"@.len()); }
        assert(n != "article"@) by { reveal_strlit("article"); assert(n.len() != "article"@.len()); }
        assert(n != "header"@) by { reveal_strlit("header"); assert(n.len() != "header"@.len()); }
        assert(n != "footer"@) by { reveal_strlit("footer"); assert(n.len() != "footer"@.len()); }
        assert(n != "table"@) by { reveal_strlit("table"); assert(n.len() != "table"@.len()); }
        assert(n != "tr"@) by { reveal_strlit("tr"); assert(n.len() != "tr"@.len()); }
        assert(n != "pre"@) by { reveal_strlit("pre"); assert(n.len() != "pre"@.len()); }
        assert(n != "dl"@) by { reveal_strlit("dl"); assert(n.len() != "dl"@.len()); }
        assert(n != "dt"@) by { reveal_strlit("dt"); assert(n.len() != "dt"@.len()); }
        assert(n != "dd"@) by { reveal_strlit("dd"); assert(n.len() != "dd"@.len()); }
        assert(n != "figure"@) by { reveal_strlit("figure"); assert(n.len() != "figure"@.len()); }
        assert(n != "figcaption"@) by { reveal_strlit("figcaption"); assert(n.len() != "figcaption"@.len()); }
        assert(n != "aside"@) by { reveal_strlit("aside"); assert(n.len() != "aside"@.len()); }
        assert(n != "nav"@) by { reveal_strlit("nav"); assert(n.len() != "nav"@.len()); }
        assert(n != "hr"@) by { reveal_strlit("hr"); assert(n.len() != "hr"@.len()); }
        assert(n != "br"@) by { reveal_strlit("br"); assert(n.len() != "br"@.len()); }
        assert(n != "img"@) by { reveal_strlit("img"); assert(n.len() != "img"@.len()); }
        assert(n != "meta"@) by { reveal_strlit("meta"); assert(n.len() != "meta"@.len()); }
        assert(n != "link"@) by { reveal_strlit("link"); assert(n.len() != "link"@.len()); }
        assert(n != "input"@) by { reveal_strlit("input"); assert(n.len() != "input"@.len()); }
        assert(n != "area"@) by { reveal_strlit("area"); assert(n.len() != "area"@.len()); }
        assert(n != "base"@) by { reveal_strlit("base"); assert(n.len() != "base"@.len()); }
        assert(n != "col"@) by { reveal_strlit("col"); assert(n.len() != "col"@.len()); }
        assert(n != "embed"@) by { reveal_strlit("embed"); assert(n.len() != "embed"@.len()); }
        assert(n != "source"@) by { reveal_strlit("source"); assert(n.len() != "source"@.len()); }
        assert(n != "track"@) by { reveal_strlit("track"); assert(n.len() != "track"@.len()); }
        assert(n != "wbr"@) by { reveal_strlit("wbr"); assert(n.len() != "wbr"@.len()); }
        assert(n != "head"@) by { reveal_strlit("head"); assert(n.len() != "head"@.len()); }
        assert(n != "script"@) by { reveal_strlit("script"); assert(n.len() != "script"@.len()); }
        assert(n != "style"@) by { reveal_strlit("style"); assert(n.len() != "style"@.len()); }
        assert(n != "title"@) by { reveal_strlit("title"); assert(n.len() != "title"@.len()); }
        assert(n != "template"@) by { reveal_strlit("template"); assert(n.len() != "template"@.len()); }
    } else {
        assert(n != "p"@) by { reveal_strlit("p"); assert(n.len() != "p"@.len()); }
        assert(n != "div"@) by { reveal_strlit("div"); assert(n.len() != "div"@.len()); }
        assert(n != "h1"@) by { reveal_strlit("h1"); assert(n.len() != "h1"@.len()); }
        assert(n != "h2"@) by { reveal_strlit("h2"); assert(n.len() != "h2"@.len()); }
        assert(n != "h3"@) by { reveal_strlit("h3"); assert(n.len() != "h3"@.len()); }
        assert(n != "h4"@) by { reveal_strlit("h4"); assert(n.len() != "h4"@.len()); }
        assert(n != "h5"@) by { reveal_strlit("h5"); assert(n.len() != "h5"@.len()); }
        assert(n != "h6"@) by { reveal_strlit("h6"); assert(n.len() != "h6"@.len()); }
        assert(n != "li"@) by { reveal_strlit("li"); assert(n.len() != "li"@.len()); }
        assert(n != "ul"@) by { reveal_strlit("ul"); assert(n.len() != "ul"@.len()); }
        assert(n != "ol"@) by { reveal_strlit("ol"); assert(n.len() != "ol"@.len()); }
        assert(n != "blockquote"@) by { reveal_strlit("blockquote"); assert(n.len() != "blockquote"@.len()); }
        assert(n != "section"@) by { reveal_strlit("section"); assert(n.len() != "section"@.len()); }
        assert(n != "article"@) by { reveal_strlit("article"); assert(n.len() != "article"@.len()); }
        assert(n != "header"@) by { reveal_strlit("header"); assert(n[0] != "header"@[0]); }
        assert(n != "footer"@) by { reveal_strlit("footer"); assert(n[0] != "footer"@[0]); }
        assert(n != "table"@) by { reveal_strlit("table"); assert(n.len() != "table"@.len()); }
        assert(n != "tr"@) by { reveal_strlit("tr"); assert(n.len() != "tr"@.len()); }
        assert(n != "pre"@) by { reveal_strlit("pre"); assert(n.len() != "pre"@.len()); }
        assert(n != "dl"@) by { reveal_strlit("dl"); assert(n.len() != "dl"@.len()); }
        assert(n != "dt"@) by { reveal_strlit("dt"); assert(n.len() != "dt"@.len()); }
        assert(n != "dd"@) by { reveal_strlit("dd"); assert(n.len() != "dd"@.len()); }
        assert(n != "figure"@) by { reveal_strlit("figure"); assert(n[0] != "figure"@[0]); }
        assert(n != "figcaption"@) by { reveal_strlit("figcaption"); assert(n.len() != "figcaption"@.len()); }
        assert(n != "aside"@) by { reveal_strlit("aside"); assert(n.len() != "aside"@.len()); }
        assert(n != "nav"@) by { reveal_strlit("nav"); assert(n.len() != "nav"@.len()); }
        assert(n != "hr"@) by { reveal_strlit("hr"); assert(n.len() != "hr"@.len()); }
        assert(n != "br"@) by { reveal_strlit("br"); assert(n.len() != "br"@.len()); }
        assert(n != "img"@) by { reveal_strlit("img"); assert(n.len() != "img"@.len()); }
        assert(n != "meta"@) by { reveal_strlit("meta"); assert(n.len() != "meta"@.len()); }
        assert(n != "link"@) by { reveal_strlit("link"); assert(n.len() != "link"@.len()); }
        assert(n != "input"@) by { reveal_strlit("input"); assert(n.len() != "input"@.len()); }
        assert(n != "area"@) by { reveal_strlit("area"); assert(n.len() != "area"@.len()); }
        assert(n != "base"@) by { reveal_strlit("base"); assert(n.len() != "base"@.len()); }
        assert(n != "col"@) by { reveal_strlit("col"); assert(n.len() != "col"@.len()); }
        assert(n != "embed"@) by { reveal_strlit("embed"); assert(n.len() != "embed"@.len()); }
        assert(n != "source"@) by { reveal_strlit("source"); assert(n[1] != "source"@[1]); }
        assert(n != "track"@) by { reveal_strlit("track"); assert(n.len() != "track"@.len()); }
        assert(n != "wbr"@) by { reveal_strlit("wbr"); assert(n.len() != "wbr"@.len()); }
        assert(n != "head"@) by { reveal_strlit("head"); assert(n.len() != "head"@.len()); }
        assert(n != "script"@) by { reveal_strlit("script"); assert(n[1] != "script"@[1]); }
        assert(n != "style"@) by { reveal_strlit("style"); assert(n.len() != "style"@.len()); }
        assert(n != "title"@) by { reveal_strlit("title"); assert(n.len() != "title"@.len()); }
        assert(n != "template"@) by { reveal_strlit("template"); assert(n.len() != "template"@.len()); }
    }
}

proof fn lemma_bold_names(n: Seq<char>)
    requires
        n == "b"@ || n == "strong"@,
    ensures
        !is_block(n),
        !is_void(n),
        !is_skipped(n),
        n.len() >= 1,
        n[0] != '!',
        forall|i: int| 0 <= i < n.len() ==> 'a' <= #[trigger] n[i] && n[i] <= 'z',
        lower(n) == n,
        name_len(n) == n.len(),
{
    reveal_strlit("b");
    reveal_strlit("strong");
    if n == "b"@ {
        lemma_not_listed(n);
    } else {
        lemma_not_listed(n);
    }
    assert forall|i: int| 0 <= i < n.len() implies 'a' <= #[trigger] n[i] && n[i] <= 'z' by {}
    lemma_name_len_plain(n);
    assert(lower(n) =~= n);
}

/// The frame a `<b>` or `<strong>` tag opens at the top level.
pub open spec fn bold_frame(n: Seq<char>) -> FrameV {
    new_frame(seq![], n, seq![], true)
}

/// Reading `<n>` from the start opens one bold frame and emits nothing.
#[verifier::rlimit(50)]
proof fn lemma_open_bold(n: Seq<char>)
    requires
        n == "b"@ || n == "strong"@,
    ensures
        scan_from((0, seq![], '\0', seq![], seq![]), seq!['<'] + n + seq!['>'], true)
            == (0u8, Seq::<char>::empty(), '\0', seq![bold_frame(n)], Seq::<Cell>::empty()),
        bold_frame(n).1.bold,
        !bold_frame(n).3,
        bold_frame(n).0 == n,
{
    lemma_bold_names(n);
    let css = true;
    let lt = seq!['<'];
    let gt = seq!['>'];
    assert forall|i: int| 0 <= i < n.len() implies n[i] != '>' && n[i] != '"' && n[i] != '\'' by {
        assert('a' <= n[i] && n[i] <= 'z');
    }
    let init: ScanV = (0, seq![], '\0', seq![], seq![]);
    lemma_scan_one(init, '<', css);
    lemma_tag_buffer(seq![], seq![], n, css);
    lemma_scan_from_concat(init, lt, n, css);
    let st2: ScanV = (1, n, '\0', seq![], seq![]);
    lemma_scan_one(st2, '>', css);
    assert(n.take(n.len() as int) =~= n);
    assert(n.skip(n.len() as int) =~= Seq::<char>::empty());
    assert(attr_scan(Seq::<char>::empty()) == (0u8, Seq::<char>::empty(), Seq::<char>::empty(), ' ', None::<Seq<char>>));
    reveal_strlit("b");
    reveal_strlit("strong");
    reveal_strlit("br");
    let f = bold_frame(n);
    assert(process_tag(seq![], seq![], n, css) == (seq![f], Seq::<Cell>::empty()));
    lemma_scan_from_concat(init, lt + n, gt, css);
}

/// Reading `</n>` with the frame of `n` open closes it and emits nothing.
#[verifier::rlimit(50)]
proof fn lemma_close_bold(n: Seq<char>, fs: Seq<FrameV>, out: Seq<Cell>)
    requires
        n == "b"@ || n == "strong"@,
        fs.len() == 1,
        fs[0].0 == n,
    ensures
        scan_from((0, seq![], '\0', fs, out), seq!['<', '/'] + n + seq!['>'], true)
            == (0u8, Seq::<char>::empty(), '\0', Seq::<FrameV>::empty(), out),
{
    lemma_bold_names(n);
    let css = true;
    let lt = seq!['<'];
    let gt = seq!['>'];
    let sl = seq!['/'] + n;
    assert forall|i: int| 0 <= i < sl.len() implies sl[i] != '>' && sl[i] != '"' && sl[i] != '\'' by {
        if i > 0 {
            assert(sl[i] == n[i - 1]);
            assert('a' <= n[i - 1] && n[i - 1] <= 'z');
        }
    }
    let st0: ScanV = (0, seq![], '\0', fs, out);
    lemma_scan_one(st0, '<', css);
    lemma_tag_buffer(fs, out, sl, css);
    lemma_scan_from_concat(st0, lt, sl, css);
    let st6: ScanV = (1, sl, '\0', fs, out);
    lemma_scan_one(st6, '>', css);
    assert(sl.skip(1) =~= n);
    assert(sl.len() > 0 && sl[0] == '/');
    assert(n.take(n.len() as int) =~= n);
    assert(find_frame(fs, n) == 0) by {
        assert(fs.last().0 == n);
    }
    assert(fs.take(0) =~= Seq::<FrameV>::empty());
    assert(process_tag(fs, out, sl, css) == (Seq::<FrameV>::empty(), out));
    lemma_scan_from_concat(st0, lt + sl, gt, css);
    assert(seq!['<', '/'] + n + seq!['>'] =~= lt + sl + gt);
}

/// With inline styling on, the text of a `<b>` or `<strong>` element is
/// bold: for any text `t` without markup (no `<` and no `&`), every
/// character extracted from `<n>t</n>` is bold, and the text does come
/// out (its first character leads the output when it is not white
/// space).
#[verifier::rlimit(80)]
pub proof fn lemma_bold_elements(n: Seq<char>, t: Seq<char>)
    requires
        n == "b"@ || n == "strong"@,
        forall|i: int| 0 <= i < t.len() ==> t[i] != '<' && t[i] != '&',
    ensures
        ({
            let cells = extract_cells(seq!['<'] + n + seq!['>'] + t + seq!['<', '/'] + n + seq!['>'], true);
            &&& forall|i: int| 0 <= i < cells.len() ==> (#[trigger] cells[i]).1.bold
            &&& t.len() > 0 && !is_ws(t[0]) ==> cells.len() > 0 && cells[0].0 == t[0]
        }),
{
    let css = true;
    let init: ScanV = (0, seq![], '\0', seq![], seq![]);
    let open = seq!['<'] + n + seq!['>'];
    let close = seq!['<', '/'] + n + seq!['>'];
    lemma_open_bold(n);
    let fs = seq![bold_frame(n)];
    lemma_text_run(fs, seq![], '\0', t, css);
    lemma_scan_from_concat(init, open, t, css);
    let out = emit_all(fs, seq![], t);
    lemma_emit_all_bold(fs, seq![], t);
    lemma_close_bold(n, fs, out);
    lemma_scan_from_concat(init, open + t, close, css);
    let html = seq!['<'] + n + seq!['>'] + t + seq!['<', '/'] + n + seq!['>'];
    assert(html =~= open + t + close);
    lemma_scan_is_from(html, css);
    assert(scan_from(init, open + t + close, css) == (0u8, Seq::<char>::empty(), '\0', Seq::<FrameV>::empty(), out));
    assert(scan(html, css) == (0u8, Seq::<char>::empty(), '\0', Seq::<FrameV>::empty(), out));
    let cells = extract_cells(html, css);
    assert(cells == trim_output(out));
    lemma_trim_prefix(out);
    assert forall|i: int| 0 <= i < cells.len() implies (#[trigger] cells[i]).1.bold by {
        assert(cells[i] == out[i]);
    }
    if t.len() > 0 && !is_ws(t[0]) {
        let t1 = seq![t[0]];
        assert(t.take(1) =~= t1);
        assert(t1.drop_last() =~= Seq::<char>::empty());
        assert(t1.last() == t[0]);
        assert(emit_all(fs, Seq::<Cell>::empty(), t1.drop_last()) == Seq::<Cell>::empty());
        assert(emit_all(fs, Seq::<Cell>::empty(), t1) == emit(fs, Seq::<Cell>::empty(), t[0]));
        assert(emit_all(fs, seq![], t1)[0].0 == t[0]);
        lemma_emit_all_prefix(fs, t, 1);
        assert(out[0].0 == t[0]);
        assert(cells[0] == out[0]);
    }
}

proof fn lemma_emit_all_prefix(fs: Seq<FrameV>, t: Seq<char>, k: int)
    requires
        0 <= k <= t.len(),
    ensures
        emit_all(fs, seq![], t).len() >= emit_all(fs, seq![], t.take(k)).len(),
        forall|i: int| 0 <= i < emit_all(fs, seq![], t.take(k)).len()
            ==> emit_all(fs, seq![], t)[i] == emit_all(fs, seq![], t.take(k))[i],
    decreases t.len() - k,
{
    if k < t.len() {
        lemma_emit_all_prefix(fs, t, k + 1);
        assert(t.take(k + 1).drop_last() =~= t.take(k));
    } else {
        assert(t.take(k) =~= t);
    }
}

} // verus!
