//! Pagination of styled text and phrase search over rendered pages.
//!
//! A chapter's segments are flattened into styled characters, split into
//! paragraphs at `'\n'`, split into words at spaces, wrapped greedily to the
//! terminal width (words wider than a line are cut into line-sized pieces),
//! optionally justified, regrouped into runs of equal style, and cut into
//! pages of the body height.

use vstd::prelude::*;
use crate::text::{char_cells, char_width, str_chars, string_from_chars};
use crate::{StyledSegment, TextStyle};

verus! {

/// Smallest terminal width the reader lays text out for.
pub const MIN_TERMINAL_COLS: usize = 10;

/// Smallest terminal height the reader lays text out for.
pub const MIN_TERMINAL_ROWS: usize = 5;

/// Longest paragraph (in characters) that counts as a repeated heading.
pub const MAX_DEDUP_CHARS: usize = 40;

/// A character together with the style it is drawn in and whether it
/// belongs to a heading.
pub type Cell = (char, TextStyle, bool);

// ---------------------------------------------------------------------------
// Flattening segments into cells
// ---------------------------------------------------------------------------

/// The styled characters of one segment.
pub open spec fn segment_cells(seg: StyledSegment) -> Seq<Cell> {
    seg.text@.map_values(|c: char| (c, seg.style, seg.is_heading))
}

/// The styled characters of a sequence of segments, in order.
pub open spec fn cells_of(segs: Seq<StyledSegment>) -> Seq<Cell>
    decreases segs.len(),
{
    if segs.len() == 0 {
        seq![]
    } else {
        cells_of(segs.drop_last()) + segment_cells(segs.last())
    }
}

fn flatten_segments(segs: &[StyledSegment]) -> (out: Vec<Cell>)
    ensures
        out@ == cells_of(segs@),
{
    let mut out: Vec<Cell> = Vec::new();
    let mut i: usize = 0;
    while i < segs.len()
        invariant
            i <= segs.len(),
            out@ == cells_of(segs@.take(i as int)),
        decreases segs.len() - i,
    {
        let seg = &segs[i];
        let chars = str_chars(seg.text.as_str());
        let ghost before = out@;
        let ghost sc = segment_cells(*seg);
        let mut j: usize = 0;
        while j < chars.len()
            invariant
                j <= chars.len(),
                chars@ == seg.text@,
                sc == segment_cells(*seg),
                sc.len() == chars@.len(),
                forall|k: int| 0 <= k < sc.len() ==> #[trigger] sc[k] == (chars@[k], seg.style, seg.is_heading),
                out@ == before + sc.take(j as int),
            decreases chars.len() - j,
        {
            out.push((chars[j], seg.style, seg.is_heading));
            assert(sc.take(j + 1) =~= sc.take(j as int).push(sc[j as int]));
            j += 1;
        }
        assert(sc.take(j as int) =~= sc);
        assert(segs@.take(i + 1).drop_last() =~= segs@.take(i as int));
        i += 1;
    }
    assert(segs@.take(i as int) =~= segs@);
    out
}

// ---------------------------------------------------------------------------
// Paragraphs and words
// ---------------------------------------------------------------------------

/// Characters that separate words on a line.
pub open spec fn is_space(c: char) -> bool {
    c == ' ' || c == '\t' || c == '\r'
}

/// The cells split at each `'\n'`; `n` newlines give `n + 1` paragraphs.
pub open spec fn paragraphs(cells: Seq<Cell>) -> Seq<Seq<Cell>>
    decreases cells.len(),
{
    if cells.len() == 0 {
        seq![seq![]]
    } else {
        let ps = paragraphs(cells.drop_last());
        let x = cells.last();
        if x.0 == '\n' {
            ps.push(seq![])
        } else {
            ps.update(ps.len() - 1, ps.last().push(x))
        }
    }
}

proof fn lemma_paragraphs_nonempty(cells: Seq<Cell>)
    ensures
        paragraphs(cells).len() >= 1,
    decreases cells.len(),
{
    if cells.len() > 0 {
        lemma_paragraphs_nonempty(cells.drop_last());
    }
}

/// Words and the word being read, after reading `p` left to right.
pub open spec fn words_state(p: Seq<Cell>) -> (Seq<Seq<Cell>>, Seq<Cell>)
    decreases p.len(),
{
    if p.len() == 0 {
        (seq![], seq![])
    } else {
        let (done, cur) = words_state(p.drop_last());
        let x = p.last();
        if is_space(x.0) {
            if cur.len() > 0 {
                (done.push(cur), seq![])
            } else {
                (done, cur)
            }
        } else {
            (done, cur.push(x))
        }
    }
}

/// The maximal runs of non-space cells of a paragraph.
pub open spec fn words(p: Seq<Cell>) -> Seq<Seq<Cell>> {
    let (done, cur) = words_state(p);
    if cur.len() > 0 {
        done.push(cur)
    } else {
        done
    }
}

fn split_paragraphs(cells: &Vec<Cell>) -> (out: Vec<Vec<Cell>>)
    ensures
        out@.len() == paragraphs(cells@).len(),
        forall|k: int| 0 <= k < out@.len() ==> #[trigger] out@[k]@ == paragraphs(cells@)[k],
{
    let mut out: Vec<Vec<Cell>> = Vec::new();
    let mut cur: Vec<Cell> = Vec::new();
    let mut i: usize = 0;
    while i < cells.len()
        invariant
            i <= cells.len(),
            out@.len() + 1 == paragraphs(cells@.take(i as int)).len(),
            forall|k: int| 0 <= k < out@.len() ==> #[trigger] out@[k]@ == paragraphs(cells@.take(i as int))[k],
            cur@ == paragraphs(cells@.take(i as int)).last(),
        decreases cells.len() - i,
    {
        proof {
            lemma_paragraphs_nonempty(cells@.take(i as int));
            assert(cells@.take(i + 1).drop_last() =~= cells@.take(i as int));
        }
        let x = cells[i];
        if x.0 == '\n' {
            let done = cur;
            out.push(done);
            cur = Vec::new();
        } else {
            cur.push(x);
        }
        i += 1;
    }
    assert(cells@.take(i as int) =~= cells@);
    out.push(cur);
    out
}

fn split_words(p: &Vec<Cell>) -> (out: Vec<Vec<Cell>>)
    ensures
        out@.len() == words(p@).len(),
        forall|k: int| 0 <= k < out@.len() ==> #[trigger] out@[k]@ == words(p@)[k],
{
    let mut out: Vec<Vec<Cell>> = Vec::new();
    let mut cur: Vec<Cell> = Vec::new();
    let mut i: usize = 0;
    while i < p.len()
        invariant
            i <= p.len(),
            out@.len() == words_state(p@.take(i as int)).0.len(),
            forall|k: int| 0 <= k < out@.len() ==> #[trigger] out@[k]@ == words_state(p@.take(i as int)).0[k],
            cur@ == words_state(p@.take(i as int)).1,
        decreases p.len() - i,
    {
        proof {
            assert(p@.take(i + 1).drop_last() =~= p@.take(i as int));
        }
        let x = p[i];
        if is_space_char(x.0) {
            if cur.len() > 0 {
                let done = cur;
                out.push(done);
                cur = Vec::new();
            }
        } else {
            cur.push(x);
        }
        i += 1;
    }
    assert(p@.take(i as int) =~= p@);
    if cur.len() > 0 {
        out.push(cur);
    }
    out
}

fn is_space_char(c: char) -> (b: bool)
    ensures
        b == is_space(c),
{
    c == ' ' || c == '\t' || c == '\r'
}


// ---------------------------------------------------------------------------
// Repeated short paragraphs
// ---------------------------------------------------------------------------

/// The characters of a word.
pub open spec fn word_chars(w: Seq<Cell>) -> Seq<char> {
    w.map_values(|x: Cell| x.0)
}

/// The text of a paragraph given as words, ignoring style.
pub open spec fn para_key(p: Seq<Seq<Cell>>) -> Seq<Seq<char>> {
    p.map_values(|w: Seq<Cell>| word_chars(w))
}

/// Number of characters of the words of a paragraph joined by single spaces.
pub open spec fn para_chars(p: Seq<Seq<Cell>>) -> nat
    decreases p.len(),
{
    if p.len() == 0 {
        0
    } else if p.len() == 1 {
        p[0].len()
    } else {
        para_chars(p.drop_last()) + 1 + p.last().len()
    }
}

/// Kept paragraphs, the last kept non-blank paragraph, and whether a blank
/// paragraph was kept after it.
pub open spec fn dedup_state(ps: Seq<Seq<Seq<Cell>>>) -> (
    Seq<Seq<Seq<Cell>>>,
    Option<Seq<Seq<Cell>>>,
    bool,
)
    decreases ps.len(),
{
    if ps.len() == 0 {
        (seq![], None, false)
    } else {
        let (kept, last, gap) = dedup_state(ps.drop_last());
        let p = ps.last();
        if p.len() == 0 {
            (kept.push(p), last, true)
        } else if gap && last is Some && para_key(last->0) == para_key(p) && para_chars(p)
            <= MAX_DEDUP_CHARS {
            (kept, last, false)
        } else {
            (kept.push(p), Some(p), false)
        }
    }
}

/// The paragraphs (as words) with each short non-blank paragraph dropped
/// when it repeats the previous non-blank paragraph across blank lines.
pub open spec fn dedup(ps: Seq<Seq<Seq<Cell>>>) -> Seq<Seq<Seq<Cell>>> {
    dedup_state(ps).0
}

/// The views of a vector of words.
pub open spec fn words_view(v: Seq<Vec<Cell>>) -> Seq<Seq<Cell>> {
    v.map_values(|w: Vec<Cell>| w@)
}

fn same_text(a: &Vec<Vec<Cell>>, b: &Vec<Vec<Cell>>) -> (r: bool)
    ensures
        r == (para_key(words_view(a@)) == para_key(words_view(b@))),
{
    let ghost ka = para_key(words_view(a@));
    let ghost kb = para_key(words_view(b@));
    if a.len() != b.len() {
        assert(ka.len() != kb.len());
        return false;
    }
    let mut i: usize = 0;
    while i < a.len()
        invariant
            a.len() == b.len(),
            i <= a.len(),
            ka == para_key(words_view(a@)),
            kb == para_key(words_view(b@)),
            forall|k: int| 0 <= k < i ==> ka[k] == kb[k],
        decreases a.len() - i,
    {
        let wa = &a[i];
        let wb = &b[i];
        assert(ka[i as int] == word_chars(wa@));
        assert(kb[i as int] == word_chars(wb@));
        if wa.len() != wb.len() {
            assert(ka[i as int].len() != kb[i as int].len());
            return false;
        }
        let mut j: usize = 0;
        while j < wa.len()
            invariant
                wa.len() == wb.len(),
                j <= wa.len(),
                forall|k: int| 0 <= k < j ==> wa@[k].0 == wb@[k].0,
                ka == para_key(words_view(a@)),
                kb == para_key(words_view(b@)),
                ka[i as int] == word_chars(wa@),
                kb[i as int] == word_chars(wb@),
            decreases wa.len() - j,
        {
            if wa[j].0 != wb[j].0 {
                assert(word_chars(wa@)[j as int] != word_chars(wb@)[j as int]);
                return false;
            }
            j += 1;
        }
        assert(word_chars(wa@) =~= word_chars(wb@));
        i += 1;
    }
    assert(ka =~= kb);
    true
}

/// Whether `para_chars(p) <= MAX_DEDUP_CHARS`, without overflow.
fn short_paragraph(p: &Vec<Vec<Cell>>) -> (r: bool)
    ensures
        r == (para_chars(words_view(p@)) <= MAX_DEDUP_CHARS),
{
    let ghost pv = words_view(p@);
    let mut total: usize = 0;
    let mut i: usize = 0;
    while i < p.len()
        invariant
            i <= p.len(),
            pv == words_view(p@),
            total == para_chars(pv.take(i as int)),
            total <= MAX_DEDUP_CHARS,
        decreases p.len() - i,
    {
        assert(pv.take(i + 1).drop_last() =~= pv.take(i as int));
        let sep: usize = if i == 0 { 0 } else { 1 };
        let n = p[i].len();
        if n > MAX_DEDUP_CHARS - total || sep > MAX_DEDUP_CHARS - total - n {
            proof { lemma_para_chars_mono(pv, (i + 1) as int); }
            return false;
        }
        total = total + n + sep;
        i += 1;
    }
    assert(pv.take(i as int) =~= pv);
    true
}

proof fn lemma_para_chars_mono(p: Seq<Seq<Cell>>, k: int)
    requires
        0 <= k <= p.len(),
    ensures
        para_chars(p.take(k)) <= para_chars(p),
    decreases p.len(),
{
    if k < p.len() {
        assert(p.drop_last().take(k) =~= p.take(k));
        lemma_para_chars_mono(p.drop_last(), k);
    } else {
        assert(p.take(k) =~= p);
    }
}


// ---------------------------------------------------------------------------
// Widths, cutting over-long words, greedy wrapping
// ---------------------------------------------------------------------------

/// Terminal cells taken by a styled character (control characters take none).
pub open spec fn cell_width(x: Cell) -> nat {
    match char_cells(x.0) {
        Some(w) => w as nat,
        None => 0,
    }
}

/// Terminal cells taken by a run of styled characters.
pub open spec fn cells_width(s: Seq<Cell>) -> nat
    decreases s.len(),
{
    if s.len() == 0 {
        0
    } else {
        cells_width(s.drop_last()) + cell_width(s.last())
    }
}

fn cell_width_exec(x: &Cell) -> (w: usize)
    ensures
        w == cell_width(*x),
        w <= 3,
{
    match char_width(x.0) {
        Some(w) => w,
        None => 0,
    }
}

/// Pieces done, the piece being filled and its width, after reading `w`.
pub open spec fn chunk_state(w: Seq<Cell>, width: nat) -> (Seq<Seq<Cell>>, Seq<Cell>, nat)
    decreases w.len(),
{
    if w.len() == 0 {
        (seq![], seq![], 0)
    } else {
        let (done, cur, cur_w) = chunk_state(w.drop_last(), width);
        let x = w.last();
        let cw = cell_width(x);
        if cur.len() > 0 && cw > 0 && cur_w + cw > width {
            (done.push(cur), seq![x], cw)
        } else {
            (done, cur.push(x), cur_w + cw)
        }
    }
}

/// A word cut into pieces no wider than `width`: a piece is closed just
/// before a character that would overflow it, and a zero-width character
/// (a combining mark) always stays with the character before it.
pub open spec fn chunks(w: Seq<Cell>, width: nat) -> Seq<Seq<Cell>> {
    let (done, cur, _) = chunk_state(w, width);
    if cur.len() > 0 {
        done.push(cur)
    } else {
        done
    }
}

/// The pieces of all words of a paragraph, in order.
pub open spec fn para_tokens(ws: Seq<Seq<Cell>>, width: nat) -> Seq<Seq<Cell>>
    decreases ws.len(),
{
    if ws.len() == 0 {
        seq![]
    } else {
        para_tokens(ws.drop_last(), width) + chunks(ws.last(), width)
    }
}

proof fn lemma_chunk_state_width(w: Seq<Cell>, width: nat)
    ensures
        chunk_state(w, width).2 == cells_width(chunk_state(w, width).1),
        chunk_state(w, width).1.len() == 0 ==> chunk_state(w, width).2 == 0,
    decreases w.len(),
{
    if w.len() > 0 {
        lemma_chunk_state_width(w.drop_last(), width);
        let (done, cur, cur_w) = chunk_state(w.drop_last(), width);
        let x = w.last();
        assert(seq![x].drop_last() =~= Seq::<Cell>::empty());
        assert(cells_width(Seq::<Cell>::empty()) == 0);
        assert(cells_width(seq![x]) == cell_width(x));
        assert(cur.push(x).drop_last() =~= cur);
    }
}

/// Appends the pieces of `word` (each with its width) to `tokens`.
fn push_chunks(word: &Vec<Cell>, width: usize, tokens: &mut Vec<(Vec<Cell>, usize)>)
    ensures
        cells_fit(word@, 3),
        final(tokens)@.len() == old(tokens)@.len() + chunks(word@, width as nat).len(),
        forall|k: int| 0 <= k < old(tokens)@.len() ==> #[trigger] final(tokens)@[k] == old(tokens)@[k],
        forall|k: int| old(tokens)@.len() <= k < final(tokens)@.len() ==>
            (#[trigger] final(tokens)@[k]).0@ == chunks(word@, width as nat)[k - old(tokens)@.len()]
            && final(tokens)@[k].1 == cells_width(chunks(word@, width as nat)[k - old(tokens)@.len()]),
{
    let ghost start = tokens@.len();
    let ghost wd = width as nat;
    let mut cur: Vec<Cell> = Vec::new();
    let mut cur_w: usize = 0;
    let mut i: usize = 0;
    while i < word.len()
        invariant
            i <= word.len(),
            wd == width as nat,
            start == old(tokens)@.len(),
            tokens@.len() == start + chunk_state(word@.take(i as int), wd).0.len(),
            forall|k: int| 0 <= k < start ==> #[trigger] tokens@[k] == old(tokens)@[k],
            forall|k: int| start <= k < tokens@.len() ==>
                (#[trigger] tokens@[k]).0@ == chunk_state(word@.take(i as int), wd).0[k - start]
                && tokens@[k].1 == cells_width(chunk_state(word@.take(i as int), wd).0[k - start]),
            cur@ == chunk_state(word@.take(i as int), wd).1,
            cur_w == chunk_state(word@.take(i as int), wd).2,
            forall|j: int| 0 <= j < i ==> cell_width(#[trigger] word@[j]) <= 3,
        decreases word.len() - i,
    {
        proof {
            assert(word@.take(i + 1).drop_last() =~= word@.take(i as int));
            lemma_chunk_state_width(word@.take(i as int), wd);
        }
        let x = word[i];
        let cw = cell_width_exec(&x);
        if cur.len() > 0 && cw > 0 && (cur_w > width || cw > width - cur_w) {
            let done = cur;
            tokens.push((done, cur_w));
            cur = Vec::new();
            cur.push(x);
            cur_w = cw;
        } else {
            cur.push(x);
            cur_w = cur_w + cw;
        }
        i += 1;
    }
    proof {
        assert(word@.take(i as int) =~= word@);
        lemma_chunk_state_width(word@, wd);
    }
    if cur.len() > 0 {
        tokens.push((cur, cur_w));
    }
}

/// Lines done, the line being filled and its width, after placing `ts`.
pub open spec fn wrap_state(ts: Seq<Seq<Cell>>, width: nat) -> (Seq<Seq<Seq<Cell>>>, Seq<Seq<Cell>>, nat)
    decreases ts.len(),
{
    if ts.len() == 0 {
        (seq![], seq![], 0)
    } else {
        let (lines, cur, cur_w) = wrap_state(ts.drop_last(), width);
        let t = ts.last();
        let tw = cells_width(t);
        if cur.len() == 0 {
            (lines, seq![t], tw)
        } else if cur_w + 1 + tw <= width {
            (lines, cur.push(t), cur_w + 1 + tw)
        } else {
            (lines.push(cur), seq![t], tw)
        }
    }
}

/// Greedy word wrapping: each line takes as many pieces as fit with one
/// space between them.  A paragraph always gives at least one line.
pub open spec fn wrap(ts: Seq<Seq<Cell>>, width: nat) -> Seq<Seq<Seq<Cell>>> {
    let (lines, cur, _) = wrap_state(ts, width);
    lines.push(cur)
}


/// Width of a line whose pieces are separated by single spaces.
pub open spec fn line_width(ws: Seq<Seq<Cell>>) -> nat
    decreases ws.len(),
{
    if ws.len() == 0 {
        0
    } else if ws.len() == 1 {
        cells_width(ws[0])
    } else {
        line_width(ws.drop_last()) + 1 + cells_width(ws.last())
    }
}

proof fn lemma_wrap_state_width(ts: Seq<Seq<Cell>>, width: nat)
    ensures
        wrap_state(ts, width).2 == line_width(wrap_state(ts, width).1),
        ts.len() > 0 ==> wrap_state(ts, width).1.len() > 0,
    decreases ts.len(),
{
    if ts.len() > 0 {
        lemma_wrap_state_width(ts.drop_last(), width);
        let (lines, cur, cur_w) = wrap_state(ts.drop_last(), width);
        let t = ts.last();
        assert(seq![t].len() == 1);
        assert(line_width(seq![t]) == cells_width(t));
        if cur.len() > 0 {
            assert(cur.push(t).drop_last() =~= cur);
            assert(cur.push(t).len() >= 2);
        }
    }
}

/// The views of the words of each line.
pub open spec fn lines_view(v: Seq<Vec<Vec<Cell>>>) -> Seq<Seq<Seq<Cell>>> {
    v.map_values(|l: Vec<Vec<Cell>>| words_view(l@))
}

/// The views of pieces carrying their widths.
pub open spec fn tokens_view(v: Seq<(Vec<Cell>, usize)>) -> Seq<Seq<Cell>> {
    v.map_values(|t: (Vec<Cell>, usize)| t.0@)
}

/// Greedy wrapping of the pieces `tokens`; also returns each line's width.
fn wrap_tokens(tokens: Vec<(Vec<Cell>, usize)>, width: usize) -> (res: (Vec<Vec<Vec<Cell>>>, Vec<usize>))
    requires
        forall|k: int| 0 <= k < tokens@.len() ==> #[trigger] tokens@[k].1 == cells_width(tokens@[k].0@),
    ensures
        lines_view(res.0@) == wrap(tokens_view(tokens@), width as nat),
        res.1@.len() == res.0@.len(),
        forall|k: int| 0 <= k < res.1@.len() ==> #[trigger] res.1@[k] == line_width(lines_view(res.0@)[k]),
{
    let ghost tv = tokens_view(tokens@);
    let ghost wd = width as nat;
    let ghost orig = tokens@;
    let mut lines: Vec<Vec<Vec<Cell>>> = Vec::new();
    let mut widths: Vec<usize> = Vec::new();
    let mut cur: Vec<Vec<Cell>> = Vec::new();
    let mut cur_w: usize = 0;
    let ghost mut i: int = 0;
    for t in it: tokens
        invariant
            tv == tokens_view(orig),
            wd == width as nat,
            it.seq() == orig,
            i == it.index(),
            i <= orig.len(),
            forall|k: int| 0 <= k < orig.len() ==> #[trigger] orig[k].1 == cells_width(orig[k].0@),
            lines_view(lines@) == wrap_state(tv.take(i), wd).0,
            words_view(cur@) == wrap_state(tv.take(i), wd).1,
            cur_w == wrap_state(tv.take(i), wd).2,
            widths@.len() == lines@.len(),
            forall|k: int| 0 <= k < widths@.len() ==> #[trigger] widths@[k] == line_width(lines_view(lines@)[k]),
    {
        proof {
            assert(tv.take(i + 1).drop_last() =~= tv.take(i));
            lemma_wrap_state_width(tv.take(i), wd);
            assert(tv[i] == t.0@);
        }
        let (cells, tw) = t;
        if cur.len() == 0 {
            cur.push(cells);
            cur_w = tw;
            proof {
                assert(words_view(cur@) =~= seq![tv[i]]);
            }
        } else if cur_w <= width && tw <= width - cur_w && width - cur_w - tw >= 1 {
            let ghost old_cur = cur@;
            cur.push(cells);
            cur_w = cur_w + 1 + tw;
            proof {
                assert(words_view(cur@) =~= words_view(old_cur).push(tv[i]));
            }
        } else {
            let done = cur;
            let ghost old_lines = lines@;
            lines.push(done);
            widths.push(cur_w);
            cur = Vec::new();
            cur.push(cells);
            cur_w = tw;
            proof {
                assert(words_view(cur@) =~= seq![tv[i]]);
                assert(lines_view(lines@) =~= lines_view(old_lines).push(words_view(done@)));
            }
        }
        proof { i = i + 1; }
    }
    proof {
        assert(tv.take(i) =~= tv);
        lemma_wrap_state_width(tv, wd);
    }
    let ghost old_lines = lines@;
    let last = cur;
    lines.push(last);
    widths.push(cur_w);
    assert(lines_view(lines@) =~= lines_view(old_lines).push(words_view(last@)));
    (lines, widths)
}


// ---------------------------------------------------------------------------
// Rendering a line: spacing, justification, style runs
// ---------------------------------------------------------------------------

/// Spaces put after piece `g` of a line: one, or, on a justified line that
/// fits, an even share of the free cells with the remainder going to the
/// leftmost gaps.
pub open spec fn gap_size(ws: Seq<Seq<Cell>>, width: nat, justified: bool, g: int) -> nat {
    let gaps = (ws.len() - 1) as nat;
    if justified && gaps > 0 && line_width(ws) <= width {
        let extra = (width - line_width(ws)) as nat;
        1 + extra / gaps + (if g < (extra % gaps) as int { 1nat } else { 0nat })
    } else {
        1
    }
}

/// A space drawn in the style of the last cell of piece `w`.
pub open spec fn space_after(w: Seq<Cell>) -> Cell {
    if w.len() > 0 {
        (' ', w.last().1, w.last().2)
    } else {
        (' ', TextStyle::plain(), false)
    }
}

/// `n` copies of the cell `x`.
pub open spec fn spaces(n: nat, x: Cell) -> Seq<Cell> {
    Seq::new(n, |i: int| x)
}

/// The cells of the first `n` pieces of a line with the spaces between them.
pub open spec fn render_upto(ws: Seq<Seq<Cell>>, width: nat, justified: bool, n: int) -> Seq<Cell>
    decreases n,
{
    if n <= 0 {
        seq![]
    } else if n == 1 {
        ws[0]
    } else {
        render_upto(ws, width, justified, n - 1) + spaces(gap_size(ws, width, justified, n - 2), space_after(ws[n - 2]))
            + ws[n - 1]
    }
}

/// The cells of a whole line.
pub open spec fn render_line(ws: Seq<Seq<Cell>>, width: nat, justified: bool) -> Seq<Cell> {
    render_upto(ws, width, justified, ws.len() as int)
}

/// A run of characters sharing one style.
pub type Run = (Seq<char>, TextStyle, bool);

/// The maximal runs of equally styled cells.
pub open spec fn runs(cells: Seq<Cell>) -> Seq<Run>
    decreases cells.len(),
{
    if cells.len() == 0 {
        seq![]
    } else {
        let rs = runs(cells.drop_last());
        let x = cells.last();
        if rs.len() > 0 && rs.last().1 == x.1 && rs.last().2 == x.2 {
            rs.update(rs.len() - 1, (rs.last().0.push(x.0), x.1, x.2))
        } else {
            rs.push((seq![x.0], x.1, x.2))
        }
    }
}

/// A segment seen as a run.
pub open spec fn seg_run(s: StyledSegment) -> Run {
    (s.text@, s.style, s.is_heading)
}

/// The runs of a rendered line.
pub open spec fn line_runs(v: Seq<StyledSegment>) -> Seq<Run> {
    v.map_values(|s: StyledSegment| seg_run(s))
}

fn render_line_exec(ws: &Vec<Vec<Cell>>, line_w: usize, width: usize, justified: bool) -> (out: Vec<Cell>)
    requires
        line_w == line_width(words_view(ws@)),
        width < usize::MAX,
    ensures
        out@ == render_line(words_view(ws@), width as nat, justified),
{
    let ghost wv = words_view(ws@);
    let n = ws.len();
    let mut out: Vec<Cell> = Vec::new();
    if n == 0 {
        return out;
    }
    let gaps: usize = n - 1;
    let fits = line_w <= width;
    let extra: usize = if fits { width - line_w } else { 0 };
    let (q, r) = if gaps > 0 { (extra / gaps, extra % gaps) } else { (0usize, 0usize) };
    proof {
        if gaps > 0 && justified && fits {
            lemma_line_width_ge_gaps(wv);
            assert(extra + gaps <= width);
            assert(q <= extra) by (nonlinear_arith)
                requires gaps > 0, q == extra / gaps;
        }
    }
    let mut k: usize = 0;
    while k < n
        invariant
            n == ws@.len(),
            n > 0,
            gaps == n - 1,
            wv == words_view(ws@),
            width < usize::MAX,
            fits == (line_w <= width),
            line_w == line_width(wv),
            extra == (if fits { width - line_w } else { 0 }),
            gaps > 0 ==> q == extra / gaps && r == extra % gaps,
            gaps > 0 && justified && fits ==> q + 2 <= width + 1,
            k <= n,
            out@ == render_upto(wv, width as nat, justified, k as int),
        decreases n - k,
    {
        let w = &ws[k];
        let ghost prev = out@;
        if k > 0 {
            let g = k - 1;
            let prevw = &ws[g];
            let last: Cell = if prevw.len() > 0 {
                (' ', prevw[prevw.len() - 1].1, prevw[prevw.len() - 1].2)
            } else {
                (' ', TextStyle { bold: false, underline: false, foreground: None, italic: false, strike: false }, false)
            };
            let count: usize = if justified && gaps > 0 && fits {
                1 + q + if g < r { 1usize } else { 0usize }
            } else {
                1
            };
            assert(count == gap_size(wv, width as nat, justified, g as int));
            let ghost sp = spaces(count as nat, last);
            let mut s: usize = 0;
            while s < count
                invariant
                    s <= count,
                    sp == spaces(count as nat, last),
                    out@ == prev + sp.take(s as int),
                decreases count - s,
            {
                out.push(last);
                assert(sp.take(s + 1) =~= sp.take(s as int).push(sp[s as int]));
                s += 1;
            }
            assert(sp.take(s as int) =~= sp);
            assert(space_after(wv[g as int]) == last);
        }
        let ghost mid = out@;
        let mut j: usize = 0;
        while j < w.len()
            invariant
                j <= w.len(),
                out@ == mid + w@.take(j as int),
            decreases w.len() - j,
        {
            out.push(w[j]);
            assert(w@.take(j + 1) =~= w@.take(j as int).push(w@[j as int]));
            j += 1;
        }
        assert(w@.take(j as int) =~= w@);
        assert(wv[k as int] == w@);
        proof {
            if k == 0 {
                assert(out@ =~= render_upto(wv, width as nat, justified, 1));
            }
        }
        k += 1;
    }
    out
}

proof fn lemma_line_width_ge_gaps(ws: Seq<Seq<Cell>>)
    requires
        ws.len() > 0,
    ensures
        line_width(ws) >= ws.len() - 1,
    decreases ws.len(),
{
    if ws.len() > 1 {
        lemma_line_width_ge_gaps(ws.drop_last());
    }
}

/// Groups a rendered line into segments of equal style.
fn runs_exec(cells: &Vec<Cell>) -> (out: Vec<StyledSegment>)
    ensures
        line_runs(out@) == runs(cells@),
{
    let mut out: Vec<StyledSegment> = Vec::new();
    let mut cur: Vec<char> = Vec::new();
    let mut cur_style = TextStyle { bold: false, underline: false, foreground: None, italic: false, strike: false };
    let mut cur_head = false;
    let mut i: usize = 0;
    while i < cells.len()
        invariant
            i <= cells.len(),
            i == 0 <==> cur@.len() == 0,
            cur@.len() == 0 ==> line_runs(out@) == runs(cells@.take(i as int)),
            cur@.len() > 0 ==> line_runs(out@).push((cur@, cur_style, cur_head)) == runs(cells@.take(i as int)),
        decreases cells.len() - i,
    {
        proof {
            assert(cells@.take(i + 1).drop_last() =~= cells@.take(i as int));
        }
        let x = cells[i];
        if cur.len() > 0 && x.1 == cur_style && x.2 == cur_head {
            cur.push(x.0);
            proof {
                let rs = runs(cells@.take(i as int));
                assert(rs.update(rs.len() - 1, (rs.last().0.push(x.0), x.1, x.2)) =~= line_runs(out@).push((cur@, cur_style, cur_head)));
            }
        } else {
            if cur.len() > 0 {
                let text = string_from_chars(cur.as_slice());
                let ghost old_out = out@;
                out.push(StyledSegment { text: text, style: cur_style, is_heading: cur_head });
                assert(line_runs(out@) =~= line_runs(old_out).push((cur@, cur_style, cur_head)));
            }
            cur = Vec::new();
            cur.push(x.0);
            cur_style = x.1;
            cur_head = x.2;
        }
        i += 1;
    }
    assert(cells@.take(i as int) =~= cells@);
    if cur.len() > 0 {
        let text = string_from_chars(cur.as_slice());
        let ghost old_out = out@;
        out.push(StyledSegment { text: text, style: cur_style, is_heading: cur_head });
        assert(line_runs(out@) =~= line_runs(old_out).push((cur@, cur_style, cur_head)));
    }
    out
}


// ---------------------------------------------------------------------------
// Paragraph lines, chapter lines, pages
// ---------------------------------------------------------------------------

/// The rendered lines of one paragraph: its pieces wrapped to `width`, every
/// line but the last justified when `justify` is set.
pub open spec fn para_lines(ws: Seq<Seq<Cell>>, width: nat, justify: bool) -> Seq<Seq<Run>> {
    let ls = wrap(para_tokens(ws, width), width);
    lines_upto(ls, width, justify, ls.len() as int)
}

/// The first `n` of the wrapped lines `ls`, rendered; every line but the
/// last of `ls` is justified when `justify` is set.
pub open spec fn lines_upto(ls: Seq<Seq<Seq<Cell>>>, width: nat, justify: bool, n: int) -> Seq<Seq<Run>>
    decreases n,
{
    if n <= 0 {
        seq![]
    } else {
        lines_upto(ls, width, justify, n - 1).push(runs(render_line(ls[n - 1], width, justify && n < ls.len())))
    }
}

/// The rendered lines of a sequence of paragraphs.
pub open spec fn all_lines(ps: Seq<Seq<Seq<Cell>>>, width: nat, justify: bool) -> Seq<Seq<Run>>
    decreases ps.len(),
{
    if ps.len() == 0 {
        seq![]
    } else {
        all_lines(ps.drop_last(), width, justify) + para_lines(ps.last(), width, justify)
    }
}

/// The words of each paragraph of a chapter.
pub open spec fn chapter_paragraphs(segs: Seq<StyledSegment>) -> Seq<Seq<Seq<Cell>>> {
    paragraphs(cells_of(segs)).map_values(|p: Seq<Cell>| words(p))
}

/// The rendered lines of a chapter, repeated short paragraphs dropped.
pub open spec fn chapter_lines(segs: Seq<StyledSegment>, width: nat, justify: bool) -> Seq<Seq<Run>> {
    all_lines(dedup(chapter_paragraphs(segs)), width, justify)
}

/// Lines grouped into pages of at most `h` lines, filled in order.
pub open spec fn page_fill(lines: Seq<Seq<Run>>, h: nat) -> Seq<Seq<Seq<Run>>>
    decreases lines.len(),
{
    if lines.len() == 0 {
        seq![]
    } else {
        let ps = page_fill(lines.drop_last(), h);
        let l = lines.last();
        if ps.len() == 0 || ps.last().len() >= h {
            ps.push(seq![l])
        } else {
            ps.update(ps.len() - 1, ps.last().push(l))
        }
    }
}

/// The pages of a chapter; a chapter without lines still has one page.
pub open spec fn pages_of(lines: Seq<Seq<Run>>, h: nat) -> Seq<Seq<Seq<Run>>> {
    if lines.len() == 0 {
        seq![seq![]]
    } else {
        page_fill(lines, h)
    }
}

/// Text rows left for the body once the header, footer and separators are
/// drawn.
pub open spec fn body_rows(height: nat, show_header: bool) -> nat {
    let h = if height < MIN_TERMINAL_ROWS { MIN_TERMINAL_ROWS as nat } else { height };
    if show_header {
        (h - 4) as nat
    } else {
        (h - 2) as nat
    }
}

/// The width text is wrapped to.
pub open spec fn body_cols(width: nat) -> nat {
    if width < MIN_TERMINAL_COLS {
        MIN_TERMINAL_COLS as nat
    } else {
        width
    }
}

/// What `paginate` returns, seen as runs.
pub open spec fn paginate_spec(
    segs: Seq<StyledSegment>,
    width: nat,
    height: nat,
    show_header: bool,
    justify: bool,
) -> Seq<Seq<Seq<Run>>> {
    pages_of(chapter_lines(segs, body_cols(width), justify), body_rows(height, show_header))
}

/// Pages seen as runs.
pub open spec fn pages_view(v: Seq<Vec<Vec<StyledSegment>>>) -> Seq<Seq<Seq<Run>>> {
    v.map_values(|p: Vec<Vec<StyledSegment>>| p@.map_values(|l: Vec<StyledSegment>| line_runs(l@)))
}

/// Pages built so far: finished pages and the page being filled.
struct PageBuilder {
    done: Vec<Vec<Vec<StyledSegment>>>,
    cur: Vec<Vec<StyledSegment>>,
    h: usize,
}

impl PageBuilder {
    spec fn fill(&self) -> Seq<Seq<Seq<Run>>> {
        if self.cur@.len() == 0 {
            pages_view(self.done@)
        } else {
            pages_view(self.done@).push(self.cur@.map_values(|l: Vec<StyledSegment>| line_runs(l@)))
        }
    }

    spec fn wf(&self) -> bool {
        &&& self.h > 0
        &&& self.cur@.len() <= self.h
        &&& (self.done@.len() > 0 ==> self.cur@.len() > 0)
    }

    fn add(&mut self, line: Vec<StyledSegment>, Ghost(lines): Ghost<Seq<Seq<Run>>>)
        requires
            old(self).wf(),
            old(self).fill() == page_fill(lines, old(self).h as nat),
        ensures
            final(self).wf(),
            final(self).h == old(self).h,
            final(self).fill() == page_fill(lines.push(line_runs(line@)), old(self).h as nat),
    {
        let ghost l = line_runs(line@);
        let ghost ps = page_fill(lines, self.h as nat);
        assert(lines.push(l).drop_last() =~= lines);
        assert(lines.push(l).last() == l);
        if self.cur.len() >= self.h {
            let mut page: Vec<Vec<StyledSegment>> = Vec::new();
            std::mem::swap(&mut page, &mut self.cur);
            let ghost old_done = self.done@;
            self.done.push(page);
            self.cur.push(line);
            assert(pages_view(self.done@) =~= pages_view(old_done).push(
                page@.map_values(|x: Vec<StyledSegment>| line_runs(x@)),
            ));
            assert(self.cur@.map_values(|x: Vec<StyledSegment>| line_runs(x@)) =~= seq![l]);
        } else {
            let ghost old_cur = self.cur@;
            self.cur.push(line);
            proof {
            assert(self.cur@.map_values(|x: Vec<StyledSegment>| line_runs(x@)) =~= old_cur.map_values(
                |x: Vec<StyledSegment>| line_runs(x@),
            ).push(l));
            if old_cur.len() == 0nat {
                assert(self.cur@.map_values(|x: Vec<StyledSegment>| line_runs(x@)) =~= seq![l]);
            }
            }
        }
    }
}


/// Adds the lines of the paragraph `ws` to the pages being built.
fn add_para_lines(
    pb: &mut PageBuilder,
    ws: &Vec<Vec<Cell>>,
    width: usize,
    justify: bool,
    Ghost(lines): Ghost<Seq<Seq<Run>>>,
)
    requires
        old(pb).wf(),
        old(pb).fill() == page_fill(lines, old(pb).h as nat),
        width < usize::MAX,
    ensures
        final(pb).wf(),
        final(pb).h == old(pb).h,
        final(pb).fill() == page_fill(lines + para_lines(words_view(ws@), width as nat, justify), old(pb).h as nat),
        forall|k: int| 0 <= k < ws@.len() ==> cells_fit(#[trigger] words_view(ws@)[k], 3),
{
    let ghost wv = words_view(ws@);
    let ghost wd = width as nat;
    let mut tokens: Vec<(Vec<Cell>, usize)> = Vec::new();
    let mut i: usize = 0;
    while i < ws.len()
        invariant
            i <= ws.len(),
            wv == words_view(ws@),
            wd == width as nat,
            tokens_view(tokens@) == para_tokens(wv.take(i as int), wd),
            forall|k: int| 0 <= k < tokens@.len() ==> #[trigger] tokens@[k].1 == cells_width(tokens@[k].0@),
            forall|k: int| 0 <= k < i ==> cells_fit(#[trigger] wv[k], 3),
        decreases ws.len() - i,
    {
        let ghost before = tokens@;
        push_chunks(&ws[i], width, &mut tokens);
        proof {
            assert(wv.take(i + 1).drop_last() =~= wv.take(i as int));
            assert(wv[i as int] == ws@[i as int]@);
            let c = chunks(ws@[i as int]@, wd);
            assert forall|k: int| 0 <= k < tokens@.len() implies #[trigger] tokens@[k].1 == cells_width(tokens@[k].0@) by {
                if k >= before.len() {
                    assert(tokens@[k].0@ == c[k - before.len()]);
                }
            }
            assert forall|k: int| 0 <= k < tokens@.len() implies #[trigger] tokens_view(tokens@)[k] == (tokens_view(before) + c)[k] by {
                if k >= before.len() {
                    assert(tokens@[k].0@ == c[k - before.len()]);
                }
            }
            assert(tokens_view(tokens@) =~= tokens_view(before) + c);
        }
        i += 1;
    }
    assert(wv.take(i as int) =~= wv);
    let (wl, widths) = wrap_tokens(tokens, width);
    let ghost ls = wrap(para_tokens(wv, wd), wd);
    let ghost pl = para_lines(wv, wd, justify);
    let n = wl.len();
    let mut k: usize = 0;
    while k < n
        invariant
            k <= n,
            n == wl@.len(),
            lines_view(wl@) == ls,
            ls.len() == n,
            pl == para_lines(wv, wd, justify),
            pl == lines_upto(ls, wd, justify, n as int),
            widths@.len() == n,
            forall|j: int| 0 <= j < n ==> #[trigger] widths@[j] == line_width(lines_view(wl@)[j]),
            width < usize::MAX,
            wd == width as nat,
            pb.wf(),
            pb.h == old(pb).h,
            pb.fill() == page_fill(lines + lines_upto(ls, wd, justify, k as int), old(pb).h as nat),
            wv == words_view(ws@),
            forall|j: int| 0 <= j < ws@.len() ==> cells_fit(#[trigger] wv[j], 3),
        decreases n - k,
    {
        let justified = justify && k + 1 < n;
        assert(ls[k as int] == words_view(wl@[k as int]@));
        let cells = render_line_exec(&wl[k], widths[k], width, justified);
        let segs = runs_exec(&cells);
        let ghost before = lines + lines_upto(ls, wd, justify, k as int);
        pb.add(segs, Ghost(before));
        assert(before.push(line_runs(segs@)) =~= lines + lines_upto(ls, wd, justify, k + 1));
        k += 1;
    }
}

/// Paginates styled segments into rendered pages (pages, lines, segments).
#[verifier::spinoff_prover]
pub fn paginate_segments(
    segments: &[StyledSegment],
    width: usize,
    height: usize,
    show_header: bool,
    justify: bool,
) -> (pages: Vec<Vec<Vec<StyledSegment>>>)
    requires
        width < usize::MAX,
    ensures
        pages_view(pages@) == paginate_spec(segments@, width as nat, height as nat, show_header, justify),
        forall|k: int, l: int| 0 <= k < pages_view(pages@).len() && 0 <= l < pages_view(pages@)[k].len()
            ==> line_cols(#[trigger] pages_view(pages@)[k][l]) <= body_cols(width as nat),
{
    // The renderer puts plain spaces between words; their width, as
    // `unicode_width` gives it, is what bounds a rendered line.
    let space_cells = char_width(' ');
    let w: usize = if width < MIN_TERMINAL_COLS { MIN_TERMINAL_COLS } else { width };
    let hh: usize = if height < MIN_TERMINAL_ROWS { MIN_TERMINAL_ROWS } else { height };
    let h: usize = if show_header { hh - 4 } else { hh - 2 };
    let ghost wd = body_cols(width as nat);
    let ghost cp = chapter_paragraphs(segments@);
    let cells = flatten_segments(segments);
    let paras = split_paragraphs(&cells);
    let mut pb = PageBuilder { done: Vec::new(), cur: Vec::new(), h: h };
    let mut last_words: Vec<Vec<Cell>> = Vec::new();
    let mut has_last = false;
    let mut gap = false;
    let ghost mut kept: Seq<Seq<Seq<Cell>>> = seq![];
    let ghost mut lines: Seq<Seq<Run>> = seq![];
    assert(pages_view(pb.done@) =~= seq![]);
    let mut i: usize = 0;
    while i < paras.len()
        invariant
            i <= paras.len(),
            w == wd,
            w < usize::MAX,
            cp == chapter_paragraphs(segments@),
            paras@.len() == cp.len(),
            forall|k: int| 0 <= k < paras@.len() ==> #[trigger] words(paras@[k]@) == cp[k],
            pb.wf(),
            pb.h == h,
            h == body_rows(height as nat, show_header),
            dedup_state(cp.take(i as int)) == (kept, if has_last { Some(words_view(last_words@)) } else { None::<Seq<Seq<Cell>>> }, gap),
            lines == all_lines(kept, wd, justify),
            pb.fill() == page_fill(lines, h as nat),
            forall|k: int, j: int| 0 <= k < kept.len() && 0 <= j < kept[k].len() ==> cells_fit(#[trigger] kept[k][j], 3),
        decreases paras.len() - i,
    {
        proof {
            assert(cp.take(i + 1).drop_last() =~= cp.take(i as int));
        }
        let ws = split_words(&paras[i]);
        let ghost wv = words_view(ws@);
        assert(wv =~= cp[i as int]);
        assert(cp.take(i + 1).last() == cp[i as int]);
        if ws.len() == 0 {
            let ghost old_kept = kept;
            add_para_lines(&mut pb, &ws, w, justify, Ghost(lines));
            proof {
                kept = kept.push(wv);
                assert(kept.drop_last() =~= old_kept);
                lines = lines + para_lines(wv, wd, justify);
            }
            gap = true;
        } else {
            let dup = gap && has_last && same_text(&last_words, &ws) && short_paragraph(&ws);
            if dup {
                gap = false;
            } else {
                let ghost old_kept = kept;
                add_para_lines(&mut pb, &ws, w, justify, Ghost(lines));
                proof {
                    kept = kept.push(wv);
                    assert(kept.drop_last() =~= old_kept);
                    lines = lines + para_lines(wv, wd, justify);
                }
                last_words = ws;
                has_last = true;
                gap = false;
            }
        }
        i += 1;
    }
    assert(cp.take(i as int) =~= cp);
    proof {
        assert(kept == dedup(cp));
        assert forall|k: int, j: int| 0 <= k < kept.len() && 0 <= j < kept[k].len()
            implies cells_fit(#[trigger] kept[k][j], wd) by {
            assert(cells_fit(kept[k][j], 3));
            assert(wd >= 3);
        }
        assert(space_cells == Some(1usize));
    }
    let PageBuilder { mut done, cur, h: _ } = pb;
    if cur.len() > 0 || done.len() == 0 {
        let ghost old_done = done@;
        done.push(cur);
        proof {
            if cur@.len() == 0 {
                assert(lines.len() == 0) by {
                    if lines.len() > 0 {
                        lemma_page_fill_nonempty(lines, h as nat);
                    }
                }
                assert(cur@.map_values(|l: Vec<StyledSegment>| line_runs(l@)) =~= Seq::<Seq<Run>>::empty());
                assert(pages_view(done@) =~= seq![Seq::<Seq<Run>>::empty()]);
            } else {
                assert(pages_view(done@) =~= pages_view(old_done).push(cur@.map_values(|l: Vec<StyledSegment>| line_runs(l@))));
                lemma_page_fill_nonempty(lines, h as nat);
            }
        }
    } else {
        proof {
            lemma_page_fill_nonempty(lines, h as nat);
        }
    }
    proof {
        lemma_pages_fit(segments@, width as nat, height as nat, show_header, justify);
        let ps = paginate_spec(segments@, width as nat, height as nat, show_header, justify);
        assert(pages_view(done@) == ps);
        assert forall|k: int, l: int| 0 <= k < pages_view(done@).len() && 0 <= l < pages_view(done@)[k].len()
            implies line_cols(#[trigger] pages_view(done@)[k][l]) <= body_cols(width as nat) by {
            assert(pages_view(done@)[k][l] == ps[k][l]);
        }
    }
    done
}

proof fn lemma_page_fill_nonempty(lines: Seq<Seq<Run>>, h: nat)
    requires
        lines.len() > 0,
    ensures
        page_fill(lines, h).len() > 0,
    decreases lines.len(),
{
}


// ---------------------------------------------------------------------------
// Phrase search over rendered pages
// ---------------------------------------------------------------------------

/// The text of a rendered line.
pub open spec fn line_text(l: Seq<Run>) -> Seq<char>
    decreases l.len(),
{
    if l.len() == 0 {
        seq![]
    } else {
        line_text(l.drop_last()) + l.last().0
    }
}

/// The text of a page: each line followed by one space.
pub open spec fn page_text(p: Seq<Seq<Run>>) -> Seq<char>
    decreases p.len(),
{
    if p.len() == 0 {
        seq![]
    } else {
        page_text(p.drop_last()) + line_text(p.last()) + seq![' ']
    }
}

/// The text of a book: its pages' texts joined by one space.
pub open spec fn book_text(ps: Seq<Seq<Seq<Run>>>) -> Seq<char>
    decreases ps.len(),
{
    if ps.len() == 0 {
        seq![]
    } else if ps.len() == 1 {
        page_text(ps[0])
    } else {
        book_text(ps.drop_last()) + seq![' '] + page_text(ps.last())
    }
}

/// Where the text of page `k` starts in the book text.
pub open spec fn page_start(ps: Seq<Seq<Seq<Run>>>, k: int) -> int {
    if k <= 0 {
        0
    } else {
        book_text(ps.take(k)).len() + 1int
    }
}

/// `q` occurs in `t` at position `i`.
pub open spec fn matches_at(t: Seq<char>, q: Seq<char>, i: int) -> bool {
    0 <= i && i + q.len() <= t.len() && t.subrange(i, i + q.len()) == q
}

/// `q` occurs in `t` at `i` and nowhere before.
pub open spec fn first_match_at(t: Seq<char>, q: Seq<char>, i: int) -> bool {
    matches_at(t, q, i) && forall|j: int| 0 <= j < i ==> !matches_at(t, q, j)
}

/// Page `k` is the page on which position `i` of the book text lies (a
/// separator space belongs to the page before it).
pub open spec fn page_holds(ps: Seq<Seq<Seq<Run>>>, k: int, i: int) -> bool {
    0 <= k < ps.len() && page_start(ps, k) <= i && (k + 1 < ps.len() ==> i < page_start(ps, k + 1))
}

fn append_line_text(text: &mut Vec<char>, line: &Vec<StyledSegment>)
    ensures
        final(text)@ == old(text)@ + line_text(line_runs(line@)),
{
    let ghost lr = line_runs(line@);
    let ghost start = text@;
    let mut j: usize = 0;
    while j < line.len()
        invariant
            j <= line.len(),
            lr == line_runs(line@),
            text@ == start + line_text(lr.take(j as int)),
        decreases line.len() - j,
    {
        assert(lr.take(j + 1).drop_last() =~= lr.take(j as int));
        let chars = str_chars(line[j].text.as_str());
        let ghost mid = text@;
        let mut c: usize = 0;
        while c < chars.len()
            invariant
                c <= chars.len(),
                text@ == mid + chars@.take(c as int),
            decreases chars.len() - c,
        {
            text.push(chars[c]);
            assert(chars@.take(c + 1) =~= chars@.take(c as int).push(chars@[c as int]));
            c += 1;
        }
        assert(chars@.take(c as int) =~= chars@);
        assert(lr[j as int].0 == chars@);
        assert(text@ =~= start + line_text(lr.take(j + 1)));
        j += 1;
    }
    assert(lr.take(j as int) =~= lr);
}

proof fn lemma_page_start_grows(ps: Seq<Seq<Seq<Run>>>, k: int)
    requires
        0 <= k,
        k + 1 <= ps.len(),
    ensures
        page_start(ps, k) < page_start(ps, k + 1),
{
    if k > 0 {
        assert(ps.take(k + 1).drop_last() =~= ps.take(k));
    }
}

/// Searches rendered pages for a phrase; returns the page on which its
/// first occurrence in the book text starts.
pub fn search_rendered(pages: &[Vec<Vec<StyledSegment>>], query: &str) -> (r: Option<usize>)
    ensures
        r is None ==> query@.len() == 0 || forall|i: int| !matches_at(book_text(pages_view(pages@)), query@, i),
        r matches Some(k) ==> query@.len() > 0 && exists|i: int|
            #[trigger] first_match_at(book_text(pages_view(pages@)), query@, i)
            && page_holds(pages_view(pages@), k as int, i),
{
    let ghost pv = pages_view(pages@);
    let q = str_chars(query);
    if q.len() == 0 {
        return None;
    }
    let mut text: Vec<char> = Vec::new();
    let mut starts: Vec<usize> = Vec::new();
    let mut k: usize = 0;
    while k < pages.len()
        invariant
            k <= pages.len(),
            pv == pages_view(pages@),
            text@ == book_text(pv.take(k as int)),
            starts@.len() == k,
            forall|j: int| 0 <= j < k ==> #[trigger] starts@[j] == page_start(pv, j),
        decreases pages.len() - k,
    {
        let ghost prev = text@;
        assert(pv.take(k + 1).drop_last() =~= pv.take(k as int));
        if k > 0 {
            text.push(' ');
        }
        starts.push(text.len());
        assert(pv.take(k as int) =~= pv.take(k as int));
        let page = &pages[k];
        let ghost pg = page@.map_values(|l: Vec<StyledSegment>| line_runs(l@));
        assert(pg == pv[k as int]);
        let ghost mid = text@;
        let mut l: usize = 0;
        while l < page.len()
            invariant
                l <= page.len(),
                pg == page@.map_values(|x: Vec<StyledSegment>| line_runs(x@)),
                text@ == mid + page_text(pg.take(l as int)),
            decreases page.len() - l,
        {
            assert(pg.take(l + 1).drop_last() =~= pg.take(l as int));
            append_line_text(&mut text, &page[l]);
            text.push(' ');
            assert(text@ =~= mid + page_text(pg.take(l + 1)));
            l += 1;
        }
        assert(pg.take(l as int) =~= pg);
        proof {
            if k == 0 {
                assert(pv.take(1) =~= seq![pv[0]]);
            }
        }
        k += 1;
    }
    assert(pv.take(k as int) =~= pv);
    let ghost t = book_text(pv);
    let n = text.len();
    let m = q.len();
    if m > n {
        assert forall|i: int| !matches_at(t, q@, i) by {}
        return None;
    }
    let mut i: usize = 0;
    while i <= n - m
        invariant
            t == text@,
            n == text@.len(),
            m == q@.len(),
            m > 0,
            m <= n,
            i <= n - m + 1,
            forall|j: int| 0 <= j < i ==> !matches_at(t, q@, j),
            pv == pages_view(pages@),
            q@ == query@,
            t == book_text(pv),
            starts@.len() == pv.len(),
            forall|j: int| 0 <= j < starts@.len() ==> #[trigger] starts@[j] == page_start(pv, j),
        decreases n - m + 1 - i,
    {
        let mut c: usize = 0;
        while c < m
            invariant
                c <= m,
                i + m <= n,
                m == q@.len(),
                n == text@.len(),
                forall|d: int| 0 <= d < c ==> text@[i + d] == q@[d],
            ensures
                c <= m,
                forall|d: int| 0 <= d < c ==> text@[i + d] == q@[d],
                c < m ==> text@[i + c] != q@[c as int],
            decreases m - c,
        {
            if text[i + c] != q[c] {
                break;
            }
            c += 1;
        }
        if c == m {
            assert(t.subrange(i as int, i + m) =~= q@);
            let mut p: usize = 0;
            proof {
                assert(pv.len() > 0) by {
                    if pv.len() == 0 {
                        assert(t.len() == 0);
                    }
                }
            }
            let last = starts.len() - 1;
            while p < last && starts[p + 1] <= i
                invariant
                    starts@.len() == pv.len(),
                    pv.len() > 0,
                    last == starts@.len() - 1,
                    p < starts@.len(),
                    forall|j: int| 0 <= j < starts@.len() ==> #[trigger] starts@[j] == page_start(pv, j),
                    page_start(pv, p as int) <= i,
                decreases starts@.len() - p,
            {
                p += 1;
            }
            proof {
                if p + 1 < pv.len() {
                    lemma_page_start_grows(pv, p as int);
                }
            }
            assert(first_match_at(t, q@, i as int));
            assert(page_holds(pv, p as int, i as int));
            return Some(p);
        }
        assert(!matches_at(t, q@, i as int)) by {
            if matches_at(t, q@, i as int) {
                assert(t.subrange(i as int, i + m)[c as int] == q@[c as int]);
            }
        }
        i += 1;
    }
    assert forall|j: int| !matches_at(t, q@, j) by {
        if 0 <= j && j + m <= n {
            assert(j < i);
        }
    }
    None
}


// ---------------------------------------------------------------------------
// Laws of pagination
// ---------------------------------------------------------------------------

/// The lines of pages, in order.
pub open spec fn flatten_pages(ps: Seq<Seq<Seq<Run>>>) -> Seq<Seq<Run>>
    decreases ps.len(),
{
    if ps.len() == 0 {
        seq![]
    } else {
        flatten_pages(ps.drop_last()) + ps.last()
    }
}

proof fn lemma_page_fill_shape(lines: Seq<Seq<Run>>, h: nat)
    requires
        h >= 1,
    ensures
        flatten_pages(page_fill(lines, h)) == lines,
        forall|k: int| 0 <= k < page_fill(lines, h).len() ==> 1 <= #[trigger] page_fill(lines, h)[k].len() <= h,
    decreases lines.len(),
{
    if lines.len() > 0 {
        let init = lines.drop_last();
        lemma_page_fill_shape(init, h);
        let ps = page_fill(init, h);
        let l = lines.last();
        if ps.len() == 0 || ps.last().len() >= h {
            let ps2 = ps.push(seq![l]);
            assert(ps2.drop_last() =~= ps);
            assert(flatten_pages(ps2) =~= lines);
        } else {
            let ps2 = ps.update(ps.len() - 1, ps.last().push(l));
            assert(ps2.drop_last() =~= ps.drop_last());
            assert(flatten_pages(ps) == flatten_pages(ps.drop_last()) + ps.last());
            assert(ps2.last() == ps.last().push(l));
            assert(lines =~= init.push(l));
            assert(flatten_pages(ps2) == flatten_pages(ps.drop_last()) + ps.last().push(l));
            assert(flatten_pages(ps.drop_last()) + ps.last().push(l) =~= (flatten_pages(ps.drop_last()) + ps.last()).push(l));
        }
    }
}

/// Every chapter has at least one page; pages hold at most the body's rows
/// of lines each, a chapter with text has no empty page, and the pages
/// hold the chapter's rendered lines in order, none lost or repeated.
pub proof fn lemma_pagination_shape(
    segs: Seq<StyledSegment>,
    width: nat,
    height: nat,
    show_header: bool,
    justify: bool,
)
    ensures
        paginate_spec(segs, width, height, show_header, justify).len() >= 1,
        forall|k: int| 0 <= k < paginate_spec(segs, width, height, show_header, justify).len()
            ==> #[trigger] paginate_spec(segs, width, height, show_header, justify)[k].len() <= body_rows(height, show_header),
        chapter_lines(segs, body_cols(width), justify).len() > 0 ==> forall|k: int|
            0 <= k < paginate_spec(segs, width, height, show_header, justify).len()
            ==> #[trigger] paginate_spec(segs, width, height, show_header, justify)[k].len() >= 1,
        flatten_pages(paginate_spec(segs, width, height, show_header, justify))
            == chapter_lines(segs, body_cols(width), justify),
{
    let lines = chapter_lines(segs, body_cols(width), justify);
    let h = body_rows(height, show_header);
    assert(h >= 1);
    if lines.len() == 0 {
        let ps = pages_of(lines, h);
        assert(ps == seq![Seq::<Seq<Run>>::empty()]);
        assert(ps.drop_last() =~= Seq::<Seq<Seq<Run>>>::empty());
        assert(flatten_pages(ps.drop_last()) == Seq::<Seq<Run>>::empty());
        assert(flatten_pages(ps) == flatten_pages(ps.drop_last()) + ps.last());
        assert(flatten_pages(ps) =~= lines);
    } else {
        lemma_page_fill_shape(lines, h);
        lemma_page_fill_nonempty(lines, h);
    }
}


/// Terminal cells taken by the characters `s` (control characters take
/// none).
pub open spec fn text_cols(s: Seq<char>) -> nat
    decreases s.len(),
{
    if s.len() == 0 {
        0
    } else {
        text_cols(s.drop_last()) + match char_cells(s.last()) {
            Some(w) => w as nat,
            None => 0nat,
        }
    }
}

/// Terminal cells taken by a rendered line.
pub open spec fn line_cols(l: Seq<Run>) -> nat
    decreases l.len(),
{
    if l.len() == 0 {
        0
    } else {
        line_cols(l.drop_last()) + text_cols(l.last().0)
    }
}

proof fn lemma_runs_cols(cells: Seq<Cell>)
    ensures
        line_cols(runs(cells)) == cells_width(cells),
    decreases cells.len(),
{
    if cells.len() > 0 {
        let init = cells.drop_last();
        lemma_runs_cols(init);
        let rs = runs(init);
        let x = cells.last();
        if rs.len() > 0 && rs.last().1 == x.1 && rs.last().2 == x.2 {
            let rs2 = rs.update(rs.len() - 1, (rs.last().0.push(x.0), x.1, x.2));
            assert(rs2.drop_last() =~= rs.drop_last());
            assert(rs.last().0.push(x.0).drop_last() =~= rs.last().0);
            assert(rs2.last().0 == rs.last().0.push(x.0));
            assert(text_cols(rs.last().0.push(x.0)) == text_cols(rs.last().0) + cell_width(x));
            assert(line_cols(rs2) == line_cols(rs2.drop_last()) + text_cols(rs2.last().0));
            assert(line_cols(rs) == line_cols(rs.drop_last()) + text_cols(rs.last().0));
            assert(runs(cells) == rs2);
        } else {
            let rs2 = rs.push((seq![x.0], x.1, x.2));
            assert(rs2.drop_last() =~= rs);
            assert(seq![x.0].drop_last() =~= Seq::<char>::empty());
            assert(text_cols(seq![x.0]) == text_cols(Seq::<char>::empty()) + cell_width(x));
            assert(line_cols(rs2) == line_cols(rs2.drop_last()) + text_cols(rs2.last().0));
            assert(runs(cells) == rs2);
        }
    }
}

proof fn lemma_cells_width_concat(a: Seq<Cell>, b: Seq<Cell>)
    ensures
        cells_width(a + b) == cells_width(a) + cells_width(b),
    decreases b.len(),
{
    if b.len() > 0 {
        lemma_cells_width_concat(a, b.drop_last());
        assert((a + b).drop_last() =~= a + b.drop_last());
    } else {
        assert(a + b =~= a);
    }
}

proof fn lemma_spaces_width(n: nat, x: Cell)
    ensures
        cells_width(spaces(n, x)) == n * cell_width(x),
    decreases n,
{
    if n > 0 {
        lemma_spaces_width((n - 1) as nat, x);
        assert(spaces(n, x).drop_last() =~= spaces((n - 1) as nat, x));
        assert(spaces(n, x).last() == x);
        assert(cells_width(spaces(n, x)) == cells_width(spaces((n - 1) as nat, x)) + cell_width(x));
        let m = (n - 1) as nat;
        let cw = cell_width(x);
        assert(m * cw + cw == n * cw) by (nonlinear_arith)
            requires
                n == m + 1,
        ;
    } else {
        assert(spaces(n, x).len() == 0);
    }
}

/// Width of the first `n` pieces of a line, without spaces.
pub open spec fn pieces_width(ws: Seq<Seq<Cell>>, n: int) -> nat
    decreases n,
{
    if n <= 0 {
        0
    } else {
        pieces_width(ws, n - 1) + cells_width(ws[n - 1])
    }
}

/// Spaces put after the first `m` pieces of a line.
pub open spec fn gap_sum(ws: Seq<Seq<Cell>>, width: nat, justified: bool, m: int) -> nat
    decreases m,
{
    if m <= 0 {
        0
    } else {
        gap_sum(ws, width, justified, m - 1) + gap_size(ws, width, justified, m - 1)
    }
}

proof fn lemma_render_upto_width(ws: Seq<Seq<Cell>>, width: nat, justified: bool, n: int)
    requires
        1 <= n <= ws.len(),
        char_cells(' ') == Some(1usize),
    ensures
        cells_width(render_upto(ws, width, justified, n)) == pieces_width(ws, n) + gap_sum(ws, width, justified, n - 1),
    decreases n,
{
    if n == 1 {
        assert(pieces_width(ws, 0) == 0);
    } else {
        lemma_render_upto_width(ws, width, justified, n - 1);
        let g = gap_size(ws, width, justified, n - 2);
        let sp = spaces(g, space_after(ws[n - 2]));
        let r = render_upto(ws, width, justified, n - 1);
        lemma_cells_width_concat(r, sp);
        lemma_cells_width_concat(r + sp, ws[n - 1]);
        lemma_spaces_width(g, space_after(ws[n - 2]));
        assert(cell_width(space_after(ws[n - 2])) == 1);
        assert(render_upto(ws, width, justified, n) == r + sp + ws[n - 1]);
        assert(gap_sum(ws, width, justified, n - 1) == gap_sum(ws, width, justified, n - 2) + g);
        assert(pieces_width(ws, n) == pieces_width(ws, n - 1) + cells_width(ws[n - 1]));
        assert(g * 1 == g);
    }
}

proof fn lemma_pieces_width_prefix(ws: Seq<Seq<Cell>>, n: int)
    requires
        0 <= n < ws.len(),
    ensures
        pieces_width(ws, n) == pieces_width(ws.drop_last(), n),
    decreases n,
{
    if n > 0 {
        lemma_pieces_width_prefix(ws, n - 1);
    }
}

proof fn lemma_line_width_pieces(ws: Seq<Seq<Cell>>)
    requires
        ws.len() >= 1,
    ensures
        line_width(ws) == pieces_width(ws, ws.len() as int) + ws.len() - 1,
    decreases ws.len(),
{
    if ws.len() == 1 {
        assert(pieces_width(ws, 0) == 0);
    } else {
        lemma_line_width_pieces(ws.drop_last());
        lemma_pieces_width_prefix(ws, ws.len() - 1);
    }
}

proof fn lemma_gap_sum(ws: Seq<Seq<Cell>>, width: nat, justified: bool, m: int)
    requires
        0 <= m <= ws.len() - 1,
    ensures
        ({
            let gaps = (ws.len() - 1) as nat;
            if justified && gaps > 0 && line_width(ws) <= width {
                let extra = (width - line_width(ws)) as nat;
                gap_sum(ws, width, justified, m) == m * (1 + extra / gaps) + if m < (extra % gaps) as int { m } else { (extra % gaps) as int }
            } else {
                gap_sum(ws, width, justified, m) == m
            }
        }),
    decreases m,
{
    if m > 0 {
        lemma_gap_sum(ws, width, justified, m - 1);
        let gaps = (ws.len() - 1) as nat;
        assert(gap_sum(ws, width, justified, m) == gap_sum(ws, width, justified, m - 1) + gap_size(ws, width, justified, m - 1));
        if justified && gaps > 0 && line_width(ws) <= width {
            let extra = (width - line_width(ws)) as nat;
            let q = extra / gaps;
            let r = (extra % gaps) as int;
            assert(gap_size(ws, width, justified, m - 1) == 1 + q + if m - 1 < r { 1nat } else { 0nat });
            assert((m - 1) * (1 + q) + (1 + q) == m * (1 + q)) by (nonlinear_arith);
        } else {
            assert(gap_size(ws, width, justified, m - 1) == 1);
        }
    }
}

/// A rendered line is no wider than `width` when its pieces, one space
/// apart, fit.
proof fn lemma_render_fits(ws: Seq<Seq<Cell>>, width: nat, justified: bool)
    requires
        line_width(ws) <= width,
        char_cells(' ') == Some(1usize),
    ensures
        cells_width(render_line(ws, width, justified)) <= width,
{
    if ws.len() >= 1 {
        let n = ws.len() as int;
        lemma_render_upto_width(ws, width, justified, n);
        lemma_line_width_pieces(ws);
        lemma_gap_sum(ws, width, justified, n - 1);
        let gaps = (ws.len() - 1) as nat;
        if justified && gaps > 0 && line_width(ws) <= width {
            let extra = (width - line_width(ws)) as nat;
            vstd::arithmetic::div_mod::lemma_fundamental_div_mod(extra as int, gaps as int);
            assert(extra % gaps < gaps);
            assert(gaps * (1 + extra / gaps) == gaps + gaps * (extra / gaps)) by (nonlinear_arith);
        }
    }
}

proof fn lemma_chunks_fit(w: Seq<Cell>, width: nat)
    requires
        forall|i: int| 0 <= i < w.len() ==> cell_width(#[trigger] w[i]) <= width,
    ensures
        forall|k: int| 0 <= k < chunks(w, width).len() ==> cells_width(#[trigger] chunks(w, width)[k]) <= width,
        chunk_state(w, width).2 <= width,
        forall|k: int| 0 <= k < chunk_state(w, width).0.len() ==> cells_width(#[trigger] chunk_state(w, width).0[k]) <= width,
    decreases w.len(),
{
    lemma_chunk_state_width(w, width);
    if w.len() > 0 {
        let init = w.drop_last();
        assert forall|i: int| 0 <= i < init.len() implies cell_width(#[trigger] init[i]) <= width by {
            assert(init[i] == w[i]);
        }
        lemma_chunks_fit(init, width);
        lemma_chunk_state_width(init, width);
        assert(cell_width(w[w.len() - 1]) <= width);
    }
}

proof fn lemma_tokens_fit(ws: Seq<Seq<Cell>>, width: nat)
    requires
        forall|k: int| 0 <= k < ws.len() ==> cells_fit(#[trigger] ws[k], width),
    ensures
        forall|k: int| 0 <= k < para_tokens(ws, width).len() ==> cells_width(#[trigger] para_tokens(ws, width)[k]) <= width,
    decreases ws.len(),
{
    if ws.len() > 0 {
        assert forall|k: int| 0 <= k < ws.drop_last().len() implies cells_fit(#[trigger] ws.drop_last()[k], width) by {
            assert(ws.drop_last()[k] == ws[k]);
        }
        lemma_tokens_fit(ws.drop_last(), width);
        let w = ws.last();
        assert(cells_fit(w, width));
        lemma_chunks_fit(w, width);
        let a = para_tokens(ws.drop_last(), width);
        let b = chunks(w, width);
        assert forall|k: int| 0 <= k < (a + b).len() implies cells_width(#[trigger] (a + b)[k]) <= width by {
            if k >= a.len() {
                assert((a + b)[k] == b[k - a.len()]);
            }
        }
    }
}

proof fn lemma_wrap_state_fits(ts: Seq<Seq<Cell>>, width: nat)
    requires
        forall|k: int| 0 <= k < ts.len() ==> cells_width(#[trigger] ts[k]) <= width,
    ensures
        wrap_state(ts, width).2 <= width,
        forall|k: int| 0 <= k < wrap_state(ts, width).0.len() ==> line_width(#[trigger] wrap_state(ts, width).0[k]) <= width,
    decreases ts.len(),
{
    lemma_wrap_state_width(ts, width);
    if ts.len() > 0 {
        let init = ts.drop_last();
        assert forall|k: int| 0 <= k < init.len() implies cells_width(#[trigger] init[k]) <= width by {
            assert(init[k] == ts[k]);
        }
        lemma_wrap_state_fits(init, width);
        lemma_wrap_state_width(init, width);
        assert(cells_width(ts[ts.len() - 1]) <= width);
    }
}

proof fn lemma_wrap_fits(ts: Seq<Seq<Cell>>, width: nat)
    requires
        forall|k: int| 0 <= k < ts.len() ==> cells_width(#[trigger] ts[k]) <= width,
    ensures
        forall|k: int| 0 <= k < wrap(ts, width).len() ==> line_width(#[trigger] wrap(ts, width)[k]) <= width,
{
    lemma_wrap_state_fits(ts, width);
    lemma_wrap_state_width(ts, width);
    let (lines, cur, _) = wrap_state(ts, width);
    assert forall|k: int| 0 <= k < wrap(ts, width).len() implies line_width(#[trigger] wrap(ts, width)[k]) <= width by {
        if k < lines.len() {
            assert(wrap(ts, width)[k] == lines[k]);
        }
    }
}

proof fn lemma_lines_upto_fit(ls: Seq<Seq<Seq<Cell>>>, width: nat, justify: bool, n: int)
    requires
        0 <= n <= ls.len(),
        forall|k: int| 0 <= k < ls.len() ==> line_width(#[trigger] ls[k]) <= width,
        char_cells(' ') == Some(1usize),
    ensures
        lines_upto(ls, width, justify, n).len() == n,
        forall|i: int| 0 <= i < n ==> line_cols(#[trigger] lines_upto(ls, width, justify, n)[i]) <= width,
    decreases n,
{
    if n > 0 {
        lemma_lines_upto_fit(ls, width, justify, n - 1);
        let ws = ls[n - 1];
        let j = justify && n < ls.len();
        lemma_render_fits(ws, width, j);
        lemma_runs_cols(render_line(ws, width, j));
    }
}

proof fn lemma_all_lines_fit(ps: Seq<Seq<Seq<Cell>>>, width: nat, justify: bool)
    requires
        forall|k: int, j: int| 0 <= k < ps.len() && 0 <= j < ps[k].len() ==> cells_fit(#[trigger] ps[k][j], width),
        char_cells(' ') == Some(1usize),
    ensures
        forall|i: int| 0 <= i < all_lines(ps, width, justify).len()
            ==> line_cols(#[trigger] all_lines(ps, width, justify)[i]) <= width,
    decreases ps.len(),
{
    if ps.len() > 0 {
        assert forall|k: int, j: int| 0 <= k < ps.drop_last().len() && 0 <= j < ps.drop_last()[k].len()
            implies cells_fit(#[trigger] ps.drop_last()[k][j], width) by {
            assert(ps.drop_last()[k] == ps[k]);
        }
        lemma_all_lines_fit(ps.drop_last(), width, justify);
        let p = ps.last();
        assert forall|j: int| 0 <= j < p.len() implies cells_fit(#[trigger] p[j], width) by {
            assert(ps[ps.len() - 1] == p);
        }
        let ts = para_tokens(p, width);
        lemma_tokens_fit(p, width);
        lemma_wrap_fits(ts, width);
        let ls = wrap(ts, width);
        lemma_lines_upto_fit(ls, width, justify, ls.len() as int);
        let a = all_lines(ps.drop_last(), width, justify);
        let b = para_lines(p, width, justify);
        assert forall|i: int| 0 <= i < (a + b).len() implies line_cols(#[trigger] (a + b)[i]) <= width by {
            if i >= a.len() {
                assert((a + b)[i] == b[i - a.len()]);
            }
        }
    }
}

proof fn lemma_page_fill_fits(lines: Seq<Seq<Run>>, h: nat, width: nat)
    requires
        forall|i: int| 0 <= i < lines.len() ==> line_cols(#[trigger] lines[i]) <= width,
    ensures
        forall|k: int, l: int| 0 <= k < page_fill(lines, h).len() && 0 <= l < page_fill(lines, h)[k].len()
            ==> line_cols(#[trigger] page_fill(lines, h)[k][l]) <= width,
    decreases lines.len(),
{
    if lines.len() > 0 {
        let init = lines.drop_last();
        assert forall|i: int| 0 <= i < init.len() implies line_cols(#[trigger] init[i]) <= width by {
            assert(init[i] == lines[i]);
        }
        lemma_page_fill_fits(init, h, width);
        let ps = page_fill(init, h);
        let x = lines.last();
        assert(line_cols(x) <= width);
        if ps.len() == 0 || ps.last().len() >= h {
            let ps2 = ps.push(seq![x]);
            assert forall|k: int, l: int| 0 <= k < ps2.len() && 0 <= l < ps2[k].len()
                implies line_cols(#[trigger] ps2[k][l]) <= width by {
                if k < ps.len() {
                    assert(ps2[k] == ps[k]);
                }
            }
        } else {
            let ps2 = ps.update(ps.len() - 1, ps.last().push(x));
            assert forall|k: int, l: int| 0 <= k < ps2.len() && 0 <= l < ps2[k].len()
                implies line_cols(#[trigger] ps2[k][l]) <= width by {
                if k < ps.len() - 1 {
                    assert(ps2[k] == ps[k]);
                } else if l < ps.last().len() {
                    assert(ps2[k][l] == ps[k][l]);
                }
            }
        }
    }
}

/// Every cell of `cells` takes at most `width` cells of the terminal.
pub open spec fn cells_fit(cells: Seq<Cell>, width: nat) -> bool {
    forall|i: int| 0 <= i < cells.len() ==> cell_width(#[trigger] cells[i]) <= width
}

proof fn lemma_paragraphs_fit(cells: Seq<Cell>, width: nat)
    requires
        cells_fit(cells, width),
    ensures
        forall|k: int| 0 <= k < paragraphs(cells).len() ==> cells_fit(#[trigger] paragraphs(cells)[k], width),
    decreases cells.len(),
{
    if cells.len() > 0 {
        let init = cells.drop_last();
        assert forall|i: int| 0 <= i < init.len() implies cell_width(#[trigger] init[i]) <= width by {
            assert(init[i] == cells[i]);
        }
        lemma_paragraphs_fit(init, width);
        lemma_paragraphs_nonempty(init);
        let ps = paragraphs(init);
        let x = cells.last();
        assert(cell_width(x) <= width);
        if x.0 == '\n' {
            let ps2 = ps.push(seq![]);
            assert forall|k: int| 0 <= k < ps2.len() implies cells_fit(#[trigger] ps2[k], width) by {
                if k < ps.len() {
                    assert(ps2[k] == ps[k]);
                }
            }
        } else {
            let ps2 = ps.update(ps.len() - 1, ps.last().push(x));
            assert forall|k: int| 0 <= k < ps2.len() implies cells_fit(#[trigger] ps2[k], width) by {
                if k < ps.len() - 1 {
                    assert(ps2[k] == ps[k]);
                } else {
                    let l = ps.last().push(x);
                    assert(cells_fit(ps[ps.len() - 1], width));
                    assert forall|i: int| 0 <= i < l.len() implies cell_width(#[trigger] l[i]) <= width by {
                        if i < l.len() - 1 {
                            assert(l[i] == ps.last()[i]);
                        }
                    }
                }
            }
        }
    }
}

proof fn lemma_words_state_fit(p: Seq<Cell>, width: nat)
    requires
        cells_fit(p, width),
    ensures
        forall|k: int| 0 <= k < words_state(p).0.len() ==> cells_fit(#[trigger] words_state(p).0[k], width),
        cells_fit(words_state(p).1, width),
    decreases p.len(),
{
    if p.len() > 0 {
        let init = p.drop_last();
        assert forall|i: int| 0 <= i < init.len() implies cell_width(#[trigger] init[i]) <= width by {
            assert(init[i] == p[i]);
        }
        lemma_words_state_fit(init, width);
        let (done, cur) = words_state(init);
        let x = p.last();
        assert(cell_width(x) <= width);
        if is_space(x.0) {
            if cur.len() > 0 {
                let d2 = done.push(cur);
                assert forall|k: int| 0 <= k < d2.len() implies cells_fit(#[trigger] d2[k], width) by {
                    if k < done.len() {
                        assert(d2[k] == done[k]);
                    }
                }
            }
        } else {
            let c2 = cur.push(x);
            assert forall|i: int| 0 <= i < c2.len() implies cell_width(#[trigger] c2[i]) <= width by {
                if i < cur.len() {
                    assert(c2[i] == cur[i]);
                }
            }
        }
    }
}

proof fn lemma_dedup_state_sub(ps: Seq<Seq<Seq<Cell>>>)
    ensures
        forall|k: int| 0 <= k < dedup_state(ps).0.len() ==> ps.contains(#[trigger] dedup_state(ps).0[k]),
    decreases ps.len(),
{
    if ps.len() > 0 {
        let init = ps.drop_last();
        lemma_dedup_state_sub(init);
        let (kept, last, gap) = dedup_state(init);
        let p = ps.last();
        assert(ps[ps.len() - 1] == p);
        assert forall|k: int| 0 <= k < dedup_state(ps).0.len() implies ps.contains(#[trigger] dedup_state(ps).0[k]) by {
            if k < kept.len() {
                assert(dedup_state(ps).0[k] == kept[k]);
                let j = choose|j: int| 0 <= j < init.len() && init[j] == kept[k];
                assert(ps[j] == init[j]);
            } else {
                assert(dedup_state(ps).0[k] == p);
            }
        }
    }
}

/// The characters of every word of every paragraph kept fit when those of
/// the chapter do.
proof fn lemma_chapter_cells_fit(segs: Seq<StyledSegment>, width: nat)
    requires
        cells_fit(cells_of(segs), width),
    ensures
        forall|k: int, j: int| 0 <= k < dedup(chapter_paragraphs(segs)).len() && 0 <= j < dedup(chapter_paragraphs(segs))[k].len()
            ==> cells_fit(#[trigger] dedup(chapter_paragraphs(segs))[k][j], width),
{
    let cells = cells_of(segs);
    let ps = paragraphs(cells);
    let cp = chapter_paragraphs(segs);
    lemma_paragraphs_fit(cells, width);
    lemma_dedup_state_sub(cp);
    let d = dedup(cp);
    assert forall|k: int, j: int| 0 <= k < d.len() && 0 <= j < d[k].len() implies cells_fit(#[trigger] d[k][j], width) by {
        let m = choose|m: int| 0 <= m < cp.len() && cp[m] == d[k];
        assert(cp[m] == words(ps[m]));
        lemma_words_state_fit(ps[m], width);
        let (done, cur) = words_state(ps[m]);
        if j < done.len() {
            assert(words(ps[m])[j] == done[j]);
        } else {
            assert(words(ps[m])[j] == cur);
        }
    }
}

/// No rendered line is wider than the text: on every page, the cells that
/// the characters of each line take add up to at most the width the
/// chapter is wrapped to (the terminal width, or the smallest width laid
/// out for), whenever no character of the chapter is wider than that and
/// a space takes one cell (as `unicode_width` gives them).
pub proof fn lemma_lines_fit(
    segs: Seq<StyledSegment>,
    width: nat,
    height: nat,
    show_header: bool,
    justify: bool,
)
    requires
        forall|i: int| 0 <= i < cells_of(segs).len() ==> cell_width(#[trigger] cells_of(segs)[i]) <= body_cols(width),
        char_cells(' ') == Some(1usize),
    ensures
        forall|k: int, l: int| 0 <= k < paginate_spec(segs, width, height, show_header, justify).len()
            && 0 <= l < paginate_spec(segs, width, height, show_header, justify)[k].len()
            ==> line_cols(#[trigger] paginate_spec(segs, width, height, show_header, justify)[k][l]) <= body_cols(width),
{
    let w = body_cols(width);
    let lines = chapter_lines(segs, w, justify);
    let h = body_rows(height, show_header);
    lemma_chapter_cells_fit(segs, w);
    lemma_pages_fit(segs, width, height, show_header, justify);
}

/// The pages fit the width when the words of the paragraphs kept do.
proof fn lemma_pages_fit(segs: Seq<StyledSegment>, width: nat, height: nat, show_header: bool, justify: bool)
    requires
        forall|k: int, j: int| 0 <= k < dedup(chapter_paragraphs(segs)).len() && 0 <= j < dedup(chapter_paragraphs(segs))[k].len()
            ==> cells_fit(#[trigger] dedup(chapter_paragraphs(segs))[k][j], body_cols(width)),
        char_cells(' ') == Some(1usize),
    ensures
        forall|k: int, l: int| 0 <= k < paginate_spec(segs, width, height, show_header, justify).len()
            && 0 <= l < paginate_spec(segs, width, height, show_header, justify)[k].len()
            ==> line_cols(#[trigger] paginate_spec(segs, width, height, show_header, justify)[k][l]) <= body_cols(width),
{
    let w = body_cols(width);
    let lines = chapter_lines(segs, w, justify);
    let h = body_rows(height, show_header);
    lemma_all_lines_fit(dedup(chapter_paragraphs(segs)), w, justify);
    if lines.len() > 0 {
        lemma_page_fill_fits(lines, h, w);
    } else {
        let ps = pages_of(lines, h);
        assert(ps == seq![Seq::<Seq<Run>>::empty()]);
    }
}

/// Pieces joined back together.
pub open spec fn joined(cs: Seq<Seq<Cell>>) -> Seq<Cell>
    decreases cs.len(),
{
    if cs.len() == 0 {
        seq![]
    } else {
        joined(cs.drop_last()) + cs.last()
    }
}

proof fn lemma_chunk_state_parts(w: Seq<Cell>, width: nat)
    ensures
        joined(chunk_state(w, width).0) + chunk_state(w, width).1 == w,
        w.len() > 0 ==> chunk_state(w, width).1.len() > 0,
        chunk_state(w, width).0.len() > 0 ==> cell_width(chunk_state(w, width).1[0]) > 0,
        forall|k: int| 0 <= k < chunk_state(w, width).0.len() ==> (#[trigger] chunk_state(w, width).0[k]).len() > 0,
        forall|k: int| 1 <= k < chunk_state(w, width).0.len() ==> cell_width((#[trigger] chunk_state(w, width).0[k])[0]) > 0,
    decreases w.len(),
{
    if w.len() == 0 {
        assert(joined(Seq::<Seq<Cell>>::empty()) + Seq::<Cell>::empty() =~= w);
    } else {
        let init = w.drop_last();
        lemma_chunk_state_parts(init, width);
        let (done, cur, cur_w) = chunk_state(init, width);
        let x = w.last();
        let cw = cell_width(x);
        if cur.len() > 0 && cw > 0 && cur_w + cw > width {
            let d2 = done.push(cur);
            assert(d2.drop_last() =~= done);
            assert(joined(d2) == joined(done) + cur);
            assert(joined(d2) + seq![x] =~= w);
            assert forall|k: int| 1 <= k < d2.len() implies cell_width((#[trigger] d2[k])[0]) > 0 by {
                if k < done.len() {
                    assert(d2[k] == done[k]);
                }
            }
        } else {
            assert(w =~= init.push(x));
            assert(joined(done) + cur.push(x) =~= (joined(done) + cur).push(x));
            if cur.len() > 0 {
                assert(cur.push(x)[0] == cur[0]);
            }
        }
    }
}

/// A word cut into pieces loses nothing and splits no character from the
/// marks that follow it: joined, the pieces give back the word; each
/// piece holds at least one character; and every piece after the first
/// starts with a character that takes cells, so a zero-width character
/// (a combining mark) never begins a piece.
pub proof fn lemma_chunks_keep_marks(w: Seq<Cell>, width: nat)
    ensures
        joined(chunks(w, width)) == w,
        forall|k: int| 0 <= k < chunks(w, width).len() ==> (#[trigger] chunks(w, width)[k]).len() > 0,
        forall|k: int| 1 <= k < chunks(w, width).len() ==> cell_width((#[trigger] chunks(w, width)[k])[0]) > 0,
{
    lemma_chunk_state_parts(w, width);
    let (done, cur, _) = chunk_state(w, width);
    if cur.len() > 0 {
        let cs = done.push(cur);
        assert(cs.drop_last() =~= done);
        assert forall|k: int| 1 <= k < cs.len() implies cell_width((#[trigger] cs[k])[0]) > 0 by {
            if k < done.len() {
                assert(cs[k] == done[k]);
            }
        }
    } else {
        assert(joined(done) + cur =~= joined(done));
    }
}

proof fn lemma_page_fill_count(lines: Seq<Seq<Run>>, h: nat)
    requires
        h >= 1,
    ensures
        lines.len() == 0 ==> page_fill(lines, h).len() == 0,
        lines.len() > 0 ==> page_fill(lines, h).len() > 0
            && 1 <= page_fill(lines, h).last().len() <= h
            && lines.len() == (page_fill(lines, h).len() - 1) * h + page_fill(lines, h).last().len(),
    decreases lines.len(),
{
    if lines.len() > 0 {
        let init = lines.drop_last();
        lemma_page_fill_count(init, h);
        let ps = page_fill(init, h);
        let l = lines.last();
        if ps.len() == 0 || ps.last().len() >= h {
            let ps2 = ps.push(seq![l]);
            assert(page_fill(lines, h) == ps2);
            assert(ps2.last().len() == 1);
            assert(ps2.len() == ps.len() + 1);
            if ps.len() > 0 {
                let n = ps.len() as int;
                let hh = h as int;
                assert(ps.last().len() == h);
                assert((n - 1) * hh + hh == n * hh) by (nonlinear_arith);
                assert(lines.len() == init.len() + 1);
                assert(lines.len() == (ps2.len() - 1) * h + ps2.last().len());
            } else {
                assert(init.len() == 0);
                let m = ps2.len() as int;
                assert(m == 1);
                assert((m - 1) * (h as int) == 0) by (nonlinear_arith)
                    requires
                        m == 1,
                ;
            }
        } else {
            let ps2 = ps.update(ps.len() - 1, ps.last().push(l));
            assert(page_fill(lines, h) == ps2);
            assert(ps2.last() == ps.last().push(l));
            assert(ps2.len() == ps.len());
            assert(lines.len() == init.len() + 1);
        }
    }
}

/// A taller terminal never gives more pages: the page count of a chapter
/// does not grow with the height.
pub proof fn lemma_pages_shrink_with_height(
    segs: Seq<StyledSegment>,
    width: nat,
    h1: nat,
    h2: nat,
    show_header: bool,
    justify: bool,
)
    requires
        h1 <= h2,
    ensures
        paginate_spec(segs, width, h2, show_header, justify).len()
            <= paginate_spec(segs, width, h1, show_header, justify).len(),
{
    let lines = chapter_lines(segs, body_cols(width), justify);
    let r1 = body_rows(h1, show_header);
    let r2 = body_rows(h2, show_header);
    assert(1 <= r1 <= r2);
    if lines.len() > 0 {
        lemma_page_fill_count(lines, r1);
        lemma_page_fill_count(lines, r2);
        let n = lines.len() as int;
        let a = page_fill(lines, r1).len() as int;
        let b = page_fill(lines, r2).len() as int;
        let x1 = page_fill(lines, r1).last().len() as int;
        let x2 = page_fill(lines, r2).last().len() as int;
        let p = r1 as int;
        let q = r2 as int;
        assert(b <= a) by (nonlinear_arith)
            requires
                1 <= p <= q, a >= 1, b >= 1, 1 <= x1 <= p, 1 <= x2 <= q,
                n == (a - 1) * p + x1, n == (b - 1) * q + x2,
        {
            if b > a {
                assert((b - 1) * q >= a * q);
                assert(a * q >= a * p);
            }
        }
    }
}

/// Justification never touches the last line of a paragraph: with
/// justification on, a paragraph has the same lines as with it off, and
/// its last line is exactly the line drawn with single spaces between its
/// words; only the lines before it may be widened.
pub proof fn lemma_last_line_not_justified(ws: Seq<Seq<Cell>>, width: nat)
    ensures
        para_lines(ws, width, true).len() == para_lines(ws, width, false).len(),
        para_lines(ws, width, true).len() > 0,
        para_lines(ws, width, true).last() == para_lines(ws, width, false).last(),
        para_lines(ws, width, false).last() == runs(render_line(
            wrap(para_tokens(ws, width), width).last(), width, false)),
        forall|i: int| 0 <= i < para_lines(ws, width, false).len()
            ==> #[trigger] para_lines(ws, width, false)[i] == runs(render_line(wrap(para_tokens(ws, width), width)[i], width, false)),
{
    let ls = wrap(para_tokens(ws, width), width);
    let n = ls.len() as int;
    assert(n > 0);
    lemma_lines_upto_len(ls, width, true, n);
    lemma_lines_upto_len(ls, width, false, n);
    lemma_lines_upto_plain(ls, width, n);
}

proof fn lemma_lines_upto_len(ls: Seq<Seq<Seq<Cell>>>, width: nat, justify: bool, n: int)
    requires
        0 <= n <= ls.len(),
    ensures
        lines_upto(ls, width, justify, n).len() == n,
    decreases n,
{
    if n > 0 {
        lemma_lines_upto_len(ls, width, justify, n - 1);
    }
}

proof fn lemma_lines_upto_plain(ls: Seq<Seq<Seq<Cell>>>, width: nat, n: int)
    requires
        0 <= n <= ls.len(),
    ensures
        forall|i: int| 0 <= i < n ==> #[trigger] lines_upto(ls, width, false, n)[i] == runs(render_line(ls[i], width, false)),
    decreases n,
{
    if n > 0 {
        lemma_lines_upto_plain(ls, width, n - 1);
        lemma_lines_upto_len(ls, width, false, n - 1);
    }
}

} // verus!
