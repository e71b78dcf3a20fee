//! XML events read with `quick_xml`, and small helpers on their parts.
//!
//! `quick_xml` tokenizes a document; each event is converted into an
//! [`XmlEvent`] of plain values, so that the package-document readers in
//! this crate are verified state machines over a sequence of events.

use vstd::prelude::*;
use vstd::utf8::{valid_utf8, decode_utf8, encode_utf8};
use vstd::string::StringSliceAdditionalSpecFns;
use crate::text::str_chars;
use quick_xml::events::{BytesStart, Event};

verus! {

/// One attribute: raw key and raw value bytes, or the tokenizer's message
/// for a malformed attribute.
pub type XmlAttr = Result<(Vec<u8>, Vec<u8>), String>;

/// An attribute seen as plain values.
pub type AttrTok = Result<(Seq<u8>, Seq<u8>), Seq<char>>;

/// An XML event with plain-value parts.
pub enum XmlEvent {
    /// A start tag: raw qualified name and attributes in document order.
    Start(Vec<u8>, Vec<XmlAttr>),
    /// A self-closing tag.
    Empty(Vec<u8>, Vec<XmlAttr>),
    /// An end tag: raw qualified name.
    End(Vec<u8>),
    /// Character data with entities replaced, or the unescaping error.
    Text(Result<String, String>),
    /// End of the document.
    Eof,
    /// A tokenizer error, with its message.
    Error(String),
    /// Anything else (comments, declarations, CDATA, ...).
    Other,
}

/// An XML event seen as plain values.
pub ghost enum XmlTok {
    Start(Seq<u8>, Seq<AttrTok>),
    Empty(Seq<u8>, Seq<AttrTok>),
    End(Seq<u8>),
    Text(Result<Seq<char>, Seq<char>>),
    Eof,
    Error(Seq<char>),
    Other,
}

/// The attribute `a` as plain values.
pub open spec fn attr_tok(a: XmlAttr) -> AttrTok {
    match a {
        Ok((k, v)) => Ok((k@, v@)),
        Err(e) => Err(e@),
    }
}

/// The attributes `s` as plain values.
pub open spec fn attr_toks(s: Seq<XmlAttr>) -> Seq<AttrTok> {
    s.map_values(|a: XmlAttr| attr_tok(a))
}

/// The text of a text event as plain values.
pub open spec fn text_tok(t: Result<String, String>) -> Result<Seq<char>, Seq<char>> {
    match t {
        Ok(s) => Ok(s@),
        Err(e) => Err(e@),
    }
}

impl View for XmlEvent {
    type V = XmlTok;

    open spec fn view(&self) -> XmlTok {
        match self {
            XmlEvent::Start(n, a) => XmlTok::Start(n@, attr_toks(a@)),
            XmlEvent::Empty(n, a) => XmlTok::Empty(n@, attr_toks(a@)),
            XmlEvent::End(n) => XmlTok::End(n@),
            XmlEvent::Text(t) => XmlTok::Text(text_tok(*t)),
            XmlEvent::Eof => XmlTok::Eof,
            XmlEvent::Error(e) => XmlTok::Error(e@),
            XmlEvent::Other => XmlTok::Other,
        }
    }
}

/// The events `s` as plain values.
pub open spec fn toks(s: Seq<XmlEvent>) -> Seq<XmlTok> {
    s.map_values(|e: XmlEvent| e@)
}

#[verifier::external_type_specification]
#[verifier::external_body]
#[verifier::reject_recursive_types(R)]
pub struct ExXmlReader<R>(quick_xml::Reader<R>);

/// The event that `quick_xml::Reader::read_event` gives at its `n`-th call
/// (counting from zero) on a reader made by `Reader::from_str(text)`,
/// converted as `xml_next` converts it.  The tokenizer is a function of the
/// document and of how far it has read.
pub uninterp spec fn xml_token(text: Seq<char>, n: nat) -> XmlTok;

/// The document that a reader reads, and how many events it has given.
pub uninterp spec fn xml_reader_state(r: quick_xml::Reader<&[u8]>) -> (Seq<char>, nat);

/// `quick_xml::Reader::from_str`: a reader over the document `text`, that
/// has given no event yet.
#[verifier::external_body]
fn xml_reader<'a>(text: &'a str) -> (r: quick_xml::Reader<&'a [u8]>)
    ensures
        xml_reader_state(r) == (text@, 0nat),
{
    quick_xml::Reader::from_str(text)
}

/// `quick_xml::Reader::read_event`, the event converted to an [`XmlEvent`]:
/// names and attribute keys and values as raw bytes, text unescaped, errors
/// as their messages.  The event is the next one of the reader's document,
/// as `xml_token` names it.
#[verifier::external_body]
fn xml_next<'a>(reader: &mut quick_xml::Reader<&'a [u8]>) -> (ev: XmlEvent)
    ensures
        xml_reader_state(*final(reader)) == (xml_reader_state(*old(reader)).0, xml_reader_state(*old(reader)).1 + 1),
        ev@ == xml_token(xml_reader_state(*old(reader)).0, xml_reader_state(*old(reader)).1),
{
    match reader.read_event() {
        Ok(Event::Start(e)) => XmlEvent::Start(e.name().as_ref().to_vec(), xml_attrs(&e)),
        Ok(Event::Empty(e)) => XmlEvent::Empty(e.name().as_ref().to_vec(), xml_attrs(&e)),
        Ok(Event::End(e)) => XmlEvent::End(e.name().as_ref().to_vec()),
        Ok(Event::Text(e)) => XmlEvent::Text(e.unescape().map(|t| t.into_owned()).map_err(|err| err.to_string())),
        Ok(Event::Eof) => XmlEvent::Eof,
        Ok(_) => XmlEvent::Other,
        Err(err) => XmlEvent::Error(err.to_string()),
    }
}

#[verifier::external_type_specification]
#[verifier::external_body]
pub struct ExBytesStart<'a>(BytesStart<'a>);

/// `quick_xml::events::BytesStart::attributes`, each attribute converted to
/// raw key and value bytes, or to the message of its error.  It serves the
/// conversion in `xml_next` and promises nothing of its own.
#[verifier::external_body]
fn xml_attrs<'a>(e: &BytesStart<'a>) -> Vec<XmlAttr> {
    e.attributes()
        .map(|a| a.map(|a| (a.key.as_ref().to_vec(), a.value.to_vec())).map_err(|err| err.to_string()))
        .collect()
}

/// The event ends the event sequence.
pub open spec fn tok_final(e: XmlTok) -> bool {
    e is Eof || e is Error
}

/// The message of the event that ends a document with too many events.
pub open spec fn too_many_events() -> Seq<char> {
    "too many XML events"@
}

/// The events of `text` from the `i`-th on, up to and including the first
/// `Eof` or `Error`; when `budget` more events pass without one, the
/// sequence ends there with an `Error`.
pub open spec fn tokens_from(text: Seq<char>, i: nat, budget: nat) -> Seq<XmlTok>
    decreases budget,
{
    let t = xml_token(text, i);
    if tok_final(t) {
        seq![t]
    } else if budget == 0 {
        seq![t, XmlTok::Error(too_many_events())]
    } else {
        seq![t] + tokens_from(text, i + 1, (budget - 1) as nat)
    }
}

/// The events of the document `text`: those that `quick_xml` gives, up to
/// and including the first `Eof` or `Error`.  Every event but `Eof`
/// consumes at least one byte, so a document of `n` bytes gives at most
/// `n + 1` events; should the tokenizer ever give more, the sequence ends
/// with an `Error`.
pub open spec fn doc_events(text: Seq<char>) -> Seq<XmlTok> {
    tokens_from(text, 0, encode_utf8(text).len())
}

/// The events of the document `text`, as `doc_events` states them.
pub fn xml_events(text: &str) -> (evs: Vec<XmlEvent>)
    ensures
        toks(evs@) == doc_events(text@),
{
    let mut reader = xml_reader(text);
    let mut budget: usize = text.as_bytes().len();
    let mut evs: Vec<XmlEvent> = Vec::new();
    loop
        invariant
            xml_reader_state(reader) == (text@, evs@.len() as nat),
            toks(evs@) + tokens_from(text@, evs@.len() as nat, budget as nat) == doc_events(text@),
        decreases budget,
    {
        let ghost before = evs@;
        let ev = xml_next(&mut reader);
        let fin = match &ev {
            XmlEvent::Eof => true,
            XmlEvent::Error(_) => true,
            _ => false,
        };
        evs.push(ev);
        assert(toks(evs@) =~= toks(before).push(ev@));
        if fin {
            assert(toks(evs@) =~= toks(before) + tokens_from(text@, before.len() as nat, budget as nat));
            return evs;
        }
        if budget == 0 {
            let e = XmlEvent::Error(crate::text::string_from_chars(str_chars("too many XML events").as_slice()));
            let ghost mid = evs@;
            evs.push(e);
            assert(toks(evs@) =~= toks(mid).push(e@));
            assert(toks(evs@) =~= toks(before) + tokens_from(text@, before.len() as nat, budget as nat));
            return evs;
        }
        assert(tokens_from(text@, before.len() as nat, budget as nat)
            =~= seq![ev@] + tokens_from(text@, evs@.len() as nat, (budget - 1) as nat));
        assert(toks(evs@) + tokens_from(text@, evs@.len() as nat, (budget - 1) as nat)
            =~= toks(before) + tokens_from(text@, before.len() as nat, budget as nat));
        budget -= 1;
    }
}

/// The name after the first `:` of a qualified name, or the whole name.
pub open spec fn local_name(q: Seq<u8>) -> Seq<u8> {
    if exists|i: int| 0 <= i < q.len() && q[i] == 0x3Au8 {
        let k = choose|i: int| 0 <= i < q.len() && q[i] == 0x3Au8 && forall|j: int| 0 <= j < i ==> q[j] != 0x3Au8;
        q.skip(k + 1)
    } else {
        q
    }
}

pub fn local_name_exec(q: &Vec<u8>) -> (r: Vec<u8>)
    ensures
        r@ == local_name(q@),
{
    let mut i: usize = 0;
    while i < q.len() && q[i] != 0x3Au8
        invariant
            i <= q.len(),
            forall|j: int| 0 <= j < i ==> q@[j] != 0x3Au8,
        decreases q.len() - i,
    {
        i += 1;
    }
    let mut r: Vec<u8> = Vec::new();
    let start: usize = if i < q.len() { i + 1 } else { 0 };
    let mut k: usize = start;
    while k < q.len()
        invariant
            start <= k <= q.len(),
            r@ == q@.subrange(start as int, k as int),
        decreases q.len() - k,
    {
        r.push(q[k]);
        assert(q@.subrange(start as int, k + 1) =~= q@.subrange(start as int, k as int).push(q@[k as int]));
        k += 1;
    }
    proof {
        if i < q.len() {
            let w = choose|a: int| 0 <= a < q@.len() && q@[a] == 0x3Au8 && forall|j: int| 0 <= j < a ==> q@[j] != 0x3Au8;
            assert(q@[i as int] == 0x3Au8);
            if w < i {
                assert(q@[w] != 0x3Au8);
            }
            if w > i {
                assert(q@[i as int] != 0x3Au8);
            }
            assert(w == i);
            assert(r@ =~= q@.skip(i + 1));
        } else {
            assert(r@ =~= q@);
        }
    }
    r
}

/// Whether two byte vectors are equal.
pub fn bytes_eq(a: &Vec<u8>, b: &Vec<u8>) -> (r: bool)
    ensures
        r == (a@ == b@),
{
    if a.len() != b.len() {
        return false;
    }
    let mut i: usize = 0;
    while i < a.len()
        invariant
            i <= a.len(),
            a.len() == b.len(),
            forall|k: int| 0 <= k < i ==> a@[k] == b@[k],
        decreases a.len() - i,
    {
        if a[i] != b[i] {
            return false;
        }
        i += 1;
    }
    assert(a@ =~= b@);
    true
}

/// Whether the bytes `v` spell the ASCII string `lit`.
pub fn bytes_is(v: &Vec<u8>, lit: &str) -> (r: bool)
    ensures
        r == (v@ == lit.spec_bytes()),
{
    let b = lit.as_bytes();
    if v.len() != b.len() {
        return false;
    }
    let mut i: usize = 0;
    while i < v.len()
        invariant
            i <= v.len(),
            v@.len() == b@.len(),
            b@ == lit.spec_bytes(),
            forall|k: int| 0 <= k < i ==> v@[k] == b@[k],
        decreases v.len() - i,
    {
        if v[i] != b[i] {
            return false;
        }
        i += 1;
    }
    assert(v@ =~= b@);
    true
}

/// `std::str::from_utf8`: the string the bytes encode, if they are valid UTF-8.
#[verifier::external_body]
pub(crate) fn utf8_decode(b: &[u8]) -> (r: Option<String>)
    ensures
        r is Some <==> valid_utf8(b@),
        r matches Some(s) ==> s@ == decode_utf8(b@),
{
    std::str::from_utf8(b).ok().map(|s| s.to_string())
}

/// Unicode `White_Space`, as `char::is_whitespace` reports it.
pub open spec fn unicode_ws(c: char) -> bool {
    ||| '\u{9}' <= c <= '\u{d}'
    ||| c == ' ' || c == '\u{85}' || c == '\u{a0}' || c == '\u{1680}'
    ||| '\u{2000}' <= c <= '\u{200a}'
    ||| c == '\u{2028}' || c == '\u{2029}' || c == '\u{202f}' || c == '\u{205f}' || c == '\u{3000}'
}

/// Whether `c` is white space in the sense of `char::is_whitespace`.
pub fn char_is_whitespace(c: char) -> (b: bool)
    ensures
        b == unicode_ws(c),
{
    ('\u{9}' <= c && c <= '\u{d}') || c == ' ' || c == '\u{85}' || c == '\u{a0}' || c == '\u{1680}'
        || ('\u{2000}' <= c && c <= '\u{200a}') || c == '\u{2028}' || c == '\u{2029}' || c == '\u{202f}'
        || c == '\u{205f}' || c == '\u{3000}'
}

/// `s` without leading Unicode white space.
pub open spec fn utrim_start(s: Seq<char>) -> Seq<char>
    decreases s.len(),
{
    if s.len() > 0 && unicode_ws(s[0]) {
        utrim_start(s.skip(1))
    } else {
        s
    }
}

/// `s` without trailing Unicode white space.
pub open spec fn utrim_end(s: Seq<char>) -> Seq<char>
    decreases s.len(),
{
    if s.len() > 0 && unicode_ws(s.last()) {
        utrim_end(s.drop_last())
    } else {
        s
    }
}

/// `s` without leading and trailing Unicode white space (`str::trim`).
pub open spec fn utrim(s: Seq<char>) -> Seq<char> {
    utrim_end(utrim_start(s))
}

/// `str::trim` on a string, as a verified function.
pub fn trim_string(s: &String) -> (r: String)
    ensures
        r@ == utrim(s@),
{
    let v = str_chars(s.as_str());
    let mut i: usize = 0;
    assert(v@.skip(0) =~= v@);
    while i < v.len() && char_is_whitespace(v[i])
        invariant
            i <= v.len(),
            utrim_start(v@) == utrim_start(v@.skip(i as int)),
        decreases v.len() - i,
    {
        assert(v@.skip(i as int).skip(1) =~= v@.skip(i + 1));
        i += 1;
    }
    let ghost ts = v@.skip(i as int);
    let mut j: usize = v.len();
    while j > i && char_is_whitespace(v[j - 1])
        invariant
            i <= j <= v.len(),
            ts == v@.skip(i as int),
            utrim_end(ts) == utrim_end(v@.subrange(i as int, j as int)),
        decreases j,
    {
        assert(v@.subrange(i as int, j as int).drop_last() =~= v@.subrange(i as int, j - 1));
        j -= 1;
    }
    assert(ts =~= v@.subrange(i as int, v@.len() as int));
    let mut r: Vec<char> = Vec::new();
    let mut k: usize = i;
    while k < j
        invariant
            i <= k <= j,
            j <= v.len(),
            r@ == v@.subrange(i as int, k as int),
        decreases j - k,
    {
        r.push(v[k]);
        assert(v@.subrange(i as int, k + 1) =~= v@.subrange(i as int, k as int).push(v@[k as int]));
        k += 1;
    }
    crate::text::string_from_chars(r.as_slice())
}

/// Decodes an attribute value and trims it: `None` when it is not UTF-8.
pub fn attr_text(b: &Vec<u8>) -> (r: Option<String>)
    ensures
        r is Some <==> valid_utf8(b@),
        r matches Some(s) ==> s@ == utrim(decode_utf8(b@)),
{
    match utf8_decode(b.as_slice()) {
        Some(s) => Some(trim_string(&s)),
        None => None,
    }
}

/// The words of `s` separated by Unicode white space (`split_whitespace`).
pub open spec fn uwords_state(s: Seq<char>) -> (Seq<Seq<char>>, Seq<char>)
    decreases s.len(),
{
    if s.len() == 0 {
        (seq![], seq![])
    } else {
        let (done, cur) = uwords_state(s.drop_last());
        if unicode_ws(s.last()) {
            if cur.len() > 0 { (done.push(cur), seq![]) } else { (done, cur) }
        } else {
            (done, cur.push(s.last()))
        }
    }
}

pub open spec fn uwords(s: Seq<char>) -> Seq<Seq<char>> {
    let (done, cur) = uwords_state(s);
    if cur.len() > 0 { done.push(cur) } else { done }
}

/// `str::split_whitespace`, collected into strings.
pub fn split_whitespace(s: &String) -> (r: Vec<String>)
    ensures
        crate::epub::package::strings_view(r@) == uwords(s@),
{
    let v = str_chars(s.as_str());
    let mut out: Vec<String> = Vec::new();
    let mut cur: Vec<char> = Vec::new();
    let mut i: usize = 0;
    while i < v.len()
        invariant
            i <= v.len(),
            crate::epub::package::strings_view(out@) == uwords_state(v@.take(i as int)).0,
            cur@ == uwords_state(v@.take(i as int)).1,
        decreases v.len() - i,
    {
        assert(v@.take(i + 1).drop_last() =~= v@.take(i as int));
        let c = v[i];
        if char_is_whitespace(c) {
            if cur.len() > 0 {
                let ghost old_out = out@;
                out.push(crate::text::string_from_chars(cur.as_slice()));
                assert(crate::epub::package::strings_view(out@) =~= crate::epub::package::strings_view(old_out).push(cur@));
                cur = Vec::new();
            }
        } else {
            cur.push(c);
        }
        i += 1;
    }
    assert(v@.take(i as int) =~= v@);
    if cur.len() > 0 {
        let ghost old_out = out@;
        out.push(crate::text::string_from_chars(cur.as_slice()));
        assert(crate::epub::package::strings_view(out@) =~= crate::epub::package::strings_view(old_out).push(cur@));
    }
    out
}

} // verus!
