//! Reader screen geometry: the TOC scroll offset, centred dialogs and the
//! footer's chapter title.

use vstd::prelude::*;
use crate::TocEntry;
use crate::text::{str_chars, string_from_chars, decimal, decimal_exec, push_str, push_chars};
use crate::epub::package::{TocV, toc_view};

verus! {

/// A rectangle of terminal cells.
#[derive(Debug, Clone, Copy, PartialEq, Eq, Structural)]
pub struct Rect {
    pub x: u16,
    pub y: u16,
    pub width: u16,
    pub height: u16,
}

/// Computes the scroll offset that keeps `index` visible in a view of
/// `view_height` rows, pinning the selection to the bottom once it
/// overflows the view.
pub fn toc_scroll(index: usize, view_height: usize) -> (s: usize)
    ensures
        s == if view_height > 0 && index >= view_height { index - view_height + 1 } else { 0 },
        view_height > 0 ==> s <= index < s + view_height,
{
    if view_height > 0 && index >= view_height {
        index - view_height + 1
    } else {
        0
    }
}

/// A `width` by `height` rectangle centred in `area`, each side capped to
/// the area's.
pub fn centered_rect(area: Rect, width: u16, height: u16) -> (r: Rect)
    requires
        area.x + area.width <= u16::MAX,
        area.y + area.height <= u16::MAX,
    ensures
        r.width == if width < area.width { width } else { area.width },
        r.height == if height < area.height { height } else { area.height },
        r.x == area.x + (area.width - r.width) / 2,
        r.y == area.y + (area.height - r.height) / 2,
        area.x <= r.x && r.x + r.width <= area.x + area.width,
        area.y <= r.y && r.y + r.height <= area.y + area.height,
{
    let w = if width < area.width { width } else { area.width };
    let h = if height < area.height { height } else { area.height };
    let x = area.x + (area.width - w) / 2;
    let y = area.y + (area.height - h) / 2;
    Rect { x, y, width: w, height: h }
}

/// Index of the first TOC entry that points at spine position `chapter`,
/// or -1.
pub open spec fn entry_for_chapter(toc: Seq<TocV>, chapter: usize) -> int
    decreases toc.len(),
{
    if toc.len() == 0 {
        -1
    } else {
        let k = entry_for_chapter(toc.drop_last(), chapter);
        if k >= 0 {
            k
        } else if toc.last().2 == Some(chapter) {
            toc.len() - 1
        } else {
            -1
        }
    }
}

/// The title shown for spine position `chapter`: that of the first TOC
/// entry pointing at it, else "Chapter N" with N = chapter + 1.
pub open spec fn chapter_title_of(toc: Seq<TocV>, chapter: usize) -> Seq<char> {
    let k = entry_for_chapter(toc, chapter);
    if k >= 0 {
        toc[k].0
    } else {
        "Chapter "@ + decimal((chapter + 1) as nat)
    }
}

/// The title of the chapter at spine position `chapter`.
///
/// TOC entries are not 1:1 with spine chapters (an entry may point at any
/// spine item and several may share one), so the entry whose resolved spine
/// position matches the chapter is looked up rather than indexing the TOC.
pub fn chapter_title(toc: &[TocEntry], chapter: usize) -> (t: String)
    requires
        chapter < usize::MAX,
    ensures
        t@ == chapter_title_of(toc_view(toc@), chapter),
{
    let ghost tv = toc_view(toc@);
    let mut i: usize = 0;
    while i < toc.len()
        invariant
            i <= toc@.len(),
            tv == toc_view(toc@),
            entry_for_chapter(tv.take(i as int), chapter) == -1,
        decreases toc@.len() - i,
    {
        assert(tv.take(i + 1).drop_last() =~= tv.take(i as int));
        let hit = match toc[i].spine_index {
            Some(s) => s == chapter,
            None => false,
        };
        if hit {
            proof { lemma_entry_prefix(tv, chapter, i + 1); }
            return string_from_chars(str_chars(toc[i].title.as_str()).as_slice());
        }
        i += 1;
    }
    assert(tv.take(i as int) =~= tv);
    let mut v: Vec<char> = Vec::new();
    push_str(&mut v, "Chapter ");
    push_chars(&mut v, &decimal_exec(chapter + 1));
    string_from_chars(v.as_slice())
}

proof fn lemma_entry_prefix(toc: Seq<TocV>, chapter: usize, n: int)
    requires
        0 <= n <= toc.len(),
        entry_for_chapter(toc.take(n), chapter) >= 0,
    ensures
        entry_for_chapter(toc, chapter) == entry_for_chapter(toc.take(n), chapter),
    decreases toc.len() - n,
{
    if n < toc.len() {
        assert(toc.take(n + 1).drop_last() =~= toc.take(n));
        lemma_entry_prefix(toc, chapter, n + 1);
    } else {
        assert(toc.take(n) =~= toc);
    }
}

} // verus!
