//! Conversions between `str`/`String` and character vectors.

use vstd::prelude::*;

verus! {

/// The characters of `s`, in order.
pub fn str_chars(s: &str) -> (v: Vec<char>)
    ensures
        v@ == s@,
{
    let mut v: Vec<char> = Vec::new();
    for c in it: s.chars()
        invariant
            v@ == it.seq().take(it.index() as int),
    {
        v.push(c);
    }
    v
}

/// A `String` holding exactly the characters `v`.
#[verifier::external_body]
pub(crate) fn string_from_chars(v: &[char]) -> (s: String)
    ensures
        s@ == v@,
{
    v.iter().collect()
}

/// Display width, in terminal cells, that `unicode_width` gives a character
/// (`None` for control characters).
pub uninterp spec fn char_cells(c: char) -> Option<usize>;

/// Display width, in terminal cells, that `unicode_width` gives a string.
pub uninterp spec fn str_cells(s: Seq<char>) -> usize;

/// `unicode_width::UnicodeWidthChar::width`: printable ASCII takes one
/// cell, control characters (below U+0020 and U+007F to U+009F) none, and
/// every other character some width of at most three cells from the
/// Unicode width tables, which are not restated here.
#[verifier::external_body]
pub(crate) fn char_width(c: char) -> (w: Option<usize>)
    ensures
        w == char_cells(c),
        '\u{20}' <= c < '\u{7F}' ==> w == Some(1usize),
        c < '\u{20}' || ('\u{7F}' <= c < '\u{A0}') ==> w is None,
        '\u{A0}' <= c ==> w is Some,
        w matches Some(n) ==> n <= 3,
{
    unicode_width::UnicodeWidthChar::width(c)
}

/// `unicode_width::UnicodeWidthStr::width`: the contract only names its
/// result.
#[verifier::external_body]
pub(crate) fn str_width(s: &str) -> (w: usize)
    ensures
        w == str_cells(s@),
{
    unicode_width::UnicodeWidthStr::width(s)
}

/// `char::from_u32`: the character with scalar value `u`, if `u` is a
/// Unicode scalar value (not a surrogate, at most `0x10FFFF`).
#[verifier::external_body]
pub(crate) fn char_from_u32(u: u32) -> (c: Option<char>)
    ensures
        c is Some <== (u <= 0xD7FF || (0xE000 <= u && u <= 0x10FFFF)),
        c is Some ==> (u <= 0xD7FF || (0xE000 <= u && u <= 0x10FFFF)),
        c matches Some(ch) ==> ch as u32 == u && ch == u as char,
{
    char::from_u32(u)
}

/// ASCII lower-casing of one character.
pub open spec fn ascii_lower(c: char) -> char {
    if 'A' <= c && c <= 'Z' {
        ((c as u32) + 32) as char
    } else {
        c
    }
}

pub fn ascii_lower_exec(c: char) -> (r: char)
    ensures
        r == ascii_lower(c),
{
    if 'A' <= c && c <= 'Z' {
        let u = (c as u32) + 32;
        assert(u <= 0xD7FF);
        match char_from_u32(u) {
            Some(l) => l,
            None => c,
        }
    } else {
        c
    }
}

/// ASCII lower-casing of a string.
pub open spec fn lower(s: Seq<char>) -> Seq<char> {
    s.map_values(|c: char| ascii_lower(c))
}

pub fn lower_exec(s: &Vec<char>) -> (r: Vec<char>)
    ensures
        r@ == lower(s@),
{
    let mut r: Vec<char> = Vec::new();
    let mut i: usize = 0;
    while i < s.len()
        invariant
            i <= s.len(),
            r@ == lower(s@).take(i as int),
        decreases s.len() - i,
    {
        r.push(ascii_lower_exec(s[i]));
        assert(lower(s@).take(i + 1) =~= lower(s@).take(i as int).push(ascii_lower(s@[i as int])));
        i += 1;
    }
    assert(lower(s@).take(i as int) =~= lower(s@));
    r
}

/// Whether two character vectors are equal.
pub fn chars_eq(a: &Vec<char>, b: &Vec<char>) -> (r: bool)
    ensures
        r == (a@ == b@),
{
    if a.len() != b.len() {
        return false;
    }
    let mut i: usize = 0;
    while i < a.len()
        invariant
            a.len() == b.len(),
            i <= a.len(),
            forall|k: int| 0 <= k < i ==> a@[k] == b@[k],
        decreases a.len() - i,
    {
        if a[i] != b[i] {
            return false;
        }
        i += 1;
    }
    assert(a@ =~= b@);
    true
}

/// Whether the characters `a` spell the string `lit`.
pub fn chars_is(a: &Vec<char>, lit: &str) -> (r: bool)
    ensures
        r == (a@ == lit@),
{
    let b = str_chars(lit);
    chars_eq(a, &b)
}

/// Whether the string `s` spells the string `lit`.
pub fn string_is(s: &String, lit: &str) -> (r: bool)
    ensures
        r == (s@ == lit@),
{
    let a = str_chars(s.as_str());
    chars_is(&a, lit)
}

/// Decimal digits of `n`, most significant first.
pub open spec fn decimal(n: nat) -> Seq<char>
    decreases n,
{
    if n < 10 {
        seq![digit_char(n)]
    } else {
        decimal(n / 10) + seq![digit_char(n % 10)]
    }
}

/// The ASCII digit for `d < 10`.
pub open spec fn digit_char(d: nat) -> char {
    if d == 0 { '0' } else if d == 1 { '1' } else if d == 2 { '2' } else if d == 3 { '3' } else if d == 4 { '4' }
    else if d == 5 { '5' } else if d == 6 { '6' } else if d == 7 { '7' } else if d == 8 { '8' } else { '9' }
}

fn digit_char_exec(d: usize) -> (c: char)
    requires
        d < 10,
    ensures
        c == digit_char(d as nat),
{
    if d == 0 { '0' } else if d == 1 { '1' } else if d == 2 { '2' } else if d == 3 { '3' } else if d == 4 { '4' }
    else if d == 5 { '5' } else if d == 6 { '6' } else if d == 7 { '7' } else if d == 8 { '8' } else { '9' }
}

/// Decimal representation of `n`.
pub fn decimal_exec(n: usize) -> (v: Vec<char>)
    ensures
        v@ == decimal(n as nat),
    decreases n,
{
    if n < 10 {
        let mut v: Vec<char> = Vec::new();
        v.push(digit_char_exec(n));
        assert(v@ =~= seq![digit_char(n as nat)]);
        v
    } else {
        let mut v = decimal_exec(n / 10);
        v.push(digit_char_exec(n % 10));
        v
    }
}


/// Decimal representation of a `u64`.
pub fn decimal_u64(n: u64) -> (v: Vec<char>)
    ensures
        v@ == decimal(n as nat),
    decreases n,
{
    if n < 10 {
        let mut v: Vec<char> = Vec::new();
        v.push(digit_char_exec(n as usize));
        assert(v@ =~= seq![digit_char(n as nat)]);
        v
    } else {
        let mut v = decimal_u64(n / 10);
        v.push(digit_char_exec((n % 10) as usize));
        v
    }
}

/// Appends the characters of `s` to `v`.
pub fn push_str(v: &mut Vec<char>, s: &str)
    ensures
        final(v)@ == old(v)@ + s@,
{
    let w = str_chars(s);
    push_chars(v, &w);
}

/// Appends the characters `w` to `v`.
pub fn push_chars(v: &mut Vec<char>, w: &Vec<char>)
    ensures
        final(v)@ == old(v)@ + w@,
{
    let ghost v0 = v@;
    let mut i: usize = 0;
    while i < w.len()
        invariant
            i <= w.len(),
            v@ == v0 + w@.take(i as int),
        decreases w.len() - i,
    {
        v.push(w[i]);
        assert(w@.take(i + 1) =~= w@.take(i as int).push(w@[i as int]));
        i += 1;
    }
    assert(w@.take(i as int) =~= w@);
}


/// What `str::to_lowercase` makes of `s`.
pub uninterp spec fn lowercase(s: Seq<char>) -> Seq<char>;

/// `str::to_lowercase`: full Unicode lower-casing.  The contract only names
/// the result; the Unicode case tables are not restated here.
#[verifier::external_body]
pub(crate) fn to_lower(s: &str) -> (r: String)
    ensures
        r@ == lowercase(s@),
{
    s.to_lowercase()
}

/// `s` begins with `pre`.
pub open spec fn has_prefix(s: Seq<char>, pre: Seq<char>) -> bool {
    s.len() >= pre.len() && s.take(pre.len() as int) == pre
}

/// `s` ends with `suf`.
pub open spec fn has_suffix(s: Seq<char>, suf: Seq<char>) -> bool {
    s.len() >= suf.len() && s.skip(s.len() - suf.len()) == suf
}

/// Whether `s` begins with the characters of `lit`.
pub fn starts_with_lit(s: &Vec<char>, lit: &str) -> (b: bool)
    ensures
        b == has_prefix(s@, lit@),
{
    let p = str_chars(lit);
    if s.len() < p.len() {
        return false;
    }
    let mut i: usize = 0;
    while i < p.len()
        invariant
            i <= p.len(),
            p.len() <= s.len(),
            p@ == lit@,
            forall|j: int| 0 <= j < i ==> s@[j] == p@[j],
        decreases p.len() - i,
    {
        if s[i] != p[i] {
            assert(s@.take(p@.len() as int)[i as int] != p@[i as int]);
            return false;
        }
        i += 1;
    }
    assert(s@.take(p@.len() as int) =~= p@);
    true
}

/// Whether `s` ends with the characters of `lit`.
pub fn ends_with_lit(s: &Vec<char>, lit: &str) -> (b: bool)
    ensures
        b == has_suffix(s@, lit@),
{
    let p = str_chars(lit);
    if s.len() < p.len() {
        return false;
    }
    let off = s.len() - p.len();
    let mut i: usize = 0;
    while i < p.len()
        invariant
            i <= p.len(),
            off + p.len() == s.len(),
            p@ == lit@,
            forall|j: int| 0 <= j < i ==> s@[off + j] == p@[j],
        decreases p.len() - i,
    {
        if s[off + i] != p[i] {
            assert(s@.skip(off as int)[i as int] != p@[i as int]);
            return false;
        }
        i += 1;
    }
    assert(s@.skip(off as int) =~= p@);
    true
}

} // verus!
