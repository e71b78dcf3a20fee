//! Paths inside an EPUB archive.

use vstd::prelude::*;
use vstd::string::StringSliceAdditionalSpecFns;
use vstd::utf8::{valid_utf8, decode_utf8};
use crate::text::{chars_eq, chars_is, str_chars, string_from_chars, decimal, decimal_exec, decimal_u64, push_str, push_chars};
use crate::error::{EpubError, invalid, invalid_msg};
use crate::epub::xml::{XmlEvent, XmlAttr, XmlTok, AttrTok, attr_toks, toks, doc_events, local_name, local_name_exec, bytes_is, attr_text, utrim, xml_events};
use crate::epub::package::strings_view;

verus! {

/// `s` up to (not including) its first `'#'`.
pub open spec fn before_hash(s: Seq<char>) -> Seq<char>
    decreases s.len(),
{
    if s.len() == 0 {
        s
    } else if s[0] == '#' {
        seq![]
    } else {
        seq![s[0]] + before_hash(s.skip(1))
    }
}

/// Path separators: `/`, and `\` as written by Windows tools.
pub open spec fn is_sep(c: char) -> bool {
    c == '/' || c == '\\'
}

/// The segments kept after applying one path segment: empty segments and
/// `.` are dropped, `..` removes the last kept segment (if any).
pub open spec fn resolve_step(stack: Seq<Seq<char>>, seg: Seq<char>) -> Seq<Seq<char>> {
    if seg.len() == 0 || seg == "."@ {
        stack
    } else if seg == ".."@ {
        if stack.len() > 0 {
            stack.drop_last()
        } else {
            stack
        }
    } else {
        stack.push(seg)
    }
}

/// Kept segments and the segment being read, after reading `s`.
pub open spec fn norm_state(s: Seq<char>) -> (Seq<Seq<char>>, Seq<char>)
    decreases s.len(),
{
    if s.len() == 0 {
        (seq![], seq![])
    } else {
        let (stack, cur) = norm_state(s.drop_last());
        if is_sep(s.last()) {
            (resolve_step(stack, cur), seq![])
        } else {
            (stack, cur.push(s.last()))
        }
    }
}

/// The segments of a path after resolving `.` and `..`.
pub open spec fn resolved_segments(s: Seq<char>) -> Seq<Seq<char>> {
    let (stack, cur) = norm_state(s);
    resolve_step(stack, cur)
}

/// Segments joined with `/`.
pub open spec fn join_segments(parts: Seq<Seq<char>>) -> Seq<char>
    decreases parts.len(),
{
    if parts.len() == 0 {
        seq![]
    } else if parts.len() == 1 {
        parts[0]
    } else {
        join_segments(parts.drop_last()) + seq!['/'] + parts.last()
    }
}

/// The normal form of an EPUB-internal path: the fragment removed, `\`
/// read as `/`, `.` and `..` resolved (`..` never climbs above the root),
/// empty segments dropped, segments joined by `/`.
pub open spec fn normalize_path(s: Seq<char>) -> Seq<char> {
    join_segments(resolved_segments(before_hash(s)))
}

fn resolve_step_exec(stack: &mut Vec<Vec<char>>, seg: Vec<char>)
    ensures
        stack_view(final(stack)@) == resolve_step(stack_view(old(stack)@), seg@),
{
    let ghost sv = stack_view(stack@);
    if seg.len() == 0 || chars_is(&seg, ".") {
    } else if chars_is(&seg, "..") {
        if stack.len() > 0 {
            stack.pop();
            assert(stack_view(stack@) =~= sv.drop_last());
        }
    } else {
        stack.push(seg);
        assert(stack_view(stack@) =~= sv.push(seg@));
    }
}

/// The views of a vector of segments.
pub open spec fn stack_view(v: Seq<Vec<char>>) -> Seq<Seq<char>> {
    v.map_values(|x: Vec<char>| x@)
}

/// The normal form of a path, as characters.
pub fn normalize_chars(s: &Vec<char>) -> (r: Vec<char>)
    ensures
        r@ == normalize_path(s@),
{
    let mut stack: Vec<Vec<char>> = Vec::new();
    let mut cur: Vec<char> = Vec::new();
    let mut i: usize = 0;
    assert(s@.take(0) =~= Seq::<char>::empty());
    assert(s@.skip(0) =~= s@);
    while i < s.len() && s[i] != '#'
        invariant
            i <= s.len(),
            before_hash(s@) == s@.take(i as int) + before_hash(s@.skip(i as int)),
            (stack_view(stack@), cur@) == norm_state(s@.take(i as int)),
        decreases s.len() - i,
    {
        assert(s@.skip(i as int).skip(1) =~= s@.skip(i + 1));
        assert(s@.take(i + 1) =~= s@.take(i as int) + seq![s@[i as int]]);
        assert(s@.take(i + 1).drop_last() =~= s@.take(i as int));
        let c = s[i];
        if c == '/' || c == '\\' {
            let seg = cur;
            resolve_step_exec(&mut stack, seg);
            cur = Vec::new();
            assert(cur@ =~= Seq::<char>::empty());
        } else {
            cur.push(c);
        }
        i += 1;
    }
    assert(before_hash(s@) =~= s@.take(i as int)) by {
        assert(before_hash(s@.skip(i as int)) =~= Seq::<char>::empty());
    }
    resolve_step_exec(&mut stack, cur);
    let ghost parts = stack_view(stack@);
    let mut out: Vec<char> = Vec::new();
    let mut k: usize = 0;
    while k < stack.len()
        invariant
            k <= stack.len(),
            parts == stack_view(stack@),
            out@ == join_segments(parts.take(k as int)),
        decreases stack.len() - k,
    {
        let ghost before = out@;
        assert(parts.take(k + 1).drop_last() =~= parts.take(k as int));
        if k > 0 {
            out.push('/');
        }
        let seg = &stack[k];
        let mut j: usize = 0;
        let ghost mid = out@;
        while j < seg.len()
            invariant
                j <= seg.len(),
                out@ == mid + seg@.take(j as int),
            decreases seg.len() - j,
        {
            out.push(seg[j]);
            assert(seg@.take(j + 1) =~= seg@.take(j as int).push(seg@[j as int]));
            j += 1;
        }
        assert(seg@.take(j as int) =~= seg@);
        assert(parts[k as int] == seg@);
        proof {
            if k == 0 {
                assert(out@ =~= join_segments(parts.take(1)));
            } else {
                assert(out@ =~= join_segments(parts.take(k + 1)));
            }
        }
        k += 1;
    }
    assert(parts.take(k as int) =~= parts);
    out
}

/// Normalizes an EPUB internal path: strips fragments, resolves `.` and `..`
/// segments safely, and ensures forward slashes.
pub fn normalize_epub_path(path: &str) -> (r: String)
    ensures
        r@ == normalize_path(path@),
{
    let chars = str_chars(path);
    let n = normalize_chars(&chars);
    string_from_chars(n.as_slice())
}


// ---------------------------------------------------------------------------
// Normalization is idempotent
// ---------------------------------------------------------------------------

/// A segment a normalized path can hold: not empty, not `.` or `..`, and
/// free of separators and `#`.
pub open spec fn valid_seg(seg: Seq<char>) -> bool {
    &&& seg.len() > 0
    &&& seg != "."@
    &&& seg != ".."@
    &&& forall|i: int| 0 <= i < seg.len() ==> !is_sep(#[trigger] seg[i]) && seg[i] != '#'
}

/// `s` holds no `#`.
pub open spec fn no_hash(s: Seq<char>) -> bool {
    forall|i: int| 0 <= i < s.len() ==> s[i] != '#'
}

proof fn lemma_before_hash_no_hash(s: Seq<char>)
    ensures
        no_hash(before_hash(s)),
        no_hash(s) ==> before_hash(s) == s,
    decreases s.len(),
{
    if s.len() > 0 && s[0] != '#' {
        lemma_before_hash_no_hash(s.skip(1));
        let r = before_hash(s.skip(1));
        assert forall|i: int| 0 <= i < 1 + r.len() implies (seq![s[0]] + r)[i] != '#' by {
            if i > 0 {
                assert((seq![s[0]] + r)[i] == r[i - 1]);
            }
        }
        if no_hash(s) {
            assert(no_hash(s.skip(1))) by {
                assert forall|i: int| 0 <= i < s.skip(1).len() implies s.skip(1)[i] != '#' by {
                    assert(s.skip(1)[i] == s[i + 1]);
                }
            }
            assert(seq![s[0]] + s.skip(1) =~= s);
        }
    }
}

proof fn lemma_norm_state_valid(s: Seq<char>)
    requires
        no_hash(s),
    ensures
        forall|k: int| 0 <= k < norm_state(s).0.len() ==> valid_seg(#[trigger] norm_state(s).0[k]),
        forall|i: int| 0 <= i < norm_state(s).1.len() ==> !is_sep(#[trigger] norm_state(s).1[i]) && norm_state(s).1[i] != '#',
    decreases s.len(),
{
    if s.len() > 0 {
        let init = s.drop_last();
        assert(no_hash(init)) by {
            assert forall|i: int| 0 <= i < init.len() implies init[i] != '#' by {
                assert(init[i] == s[i]);
            }
        }
        lemma_norm_state_valid(init);
        let (stack, cur) = norm_state(init);
        if is_sep(s.last()) {
            let st2 = resolve_step(stack, cur);
            if cur.len() == 0 || cur == "."@ {
            } else if cur == ".."@ {
                if stack.len() > 0 {
                    assert forall|k: int| 0 <= k < st2.len() implies valid_seg(#[trigger] st2[k]) by {
                        assert(st2[k] == stack[k]);
                    }
                }
            } else {
                assert forall|k: int| 0 <= k < st2.len() implies valid_seg(#[trigger] st2[k]) by {
                    if k < stack.len() {
                        assert(st2[k] == stack[k]);
                    }
                }
            }
        } else {
            let c2 = cur.push(s.last());
            assert forall|i: int| 0 <= i < c2.len() implies !is_sep(#[trigger] c2[i]) && c2[i] != '#' by {
                if i < cur.len() {
                    assert(c2[i] == cur[i]);
                }
            }
        }
    }
}

/// Appending characters that hold no separator extends the segment being
/// read.
proof fn lemma_norm_state_append(x: Seq<char>, y: Seq<char>)
    requires
        forall|i: int| 0 <= i < y.len() ==> !is_sep(#[trigger] y[i]),
    ensures
        norm_state(x + y) == (norm_state(x).0, norm_state(x).1 + y),
    decreases y.len(),
{
    if y.len() == 0 {
        assert(x + y =~= x);
        assert(norm_state(x).1 + y =~= norm_state(x).1);
    } else {
        let y1 = y.drop_last();
        lemma_norm_state_append(x, y1);
        assert((x + y).drop_last() =~= x + y1);
        assert((x + y).last() == y.last());
        assert(norm_state(x).1 + y =~= (norm_state(x).1 + y1).push(y.last()));
    }
}

proof fn lemma_join_valid(parts: Seq<Seq<char>>)
    requires
        parts.len() > 0,
        forall|k: int| 0 <= k < parts.len() ==> valid_seg(#[trigger] parts[k]),
    ensures
        norm_state(join_segments(parts)) == (parts.drop_last(), parts.last()),
        no_hash(join_segments(parts)),
    decreases parts.len(),
{
    if parts.len() == 1 {
        lemma_norm_state_append(seq![], parts[0]);
        assert(Seq::<char>::empty() + parts[0] =~= parts[0]);
        assert(norm_state(Seq::<char>::empty()) == (Seq::<Seq<char>>::empty(), Seq::<char>::empty()));
        assert(Seq::<char>::empty() + parts[0] =~= parts[0]);
        assert(parts.drop_last() =~= Seq::<Seq<char>>::empty());
        assert(valid_seg(parts[0]));
    } else {
        let init = parts.drop_last();
        let last = parts.last();
        assert forall|k: int| 0 <= k < init.len() implies valid_seg(#[trigger] init[k]) by {
            assert(init[k] == parts[k]);
        }
        lemma_join_valid(init);
        let ji = join_segments(init);
        let x = ji.push('/');
        assert(x.drop_last() =~= ji);
        assert(norm_state(x) == (resolve_step(init.drop_last(), init.last()), Seq::<char>::empty()));
        assert(valid_seg(init.last()));
        assert(resolve_step(init.drop_last(), init.last()) =~= init);
        assert(valid_seg(last));
        lemma_norm_state_append(x, last);
        assert(ji + seq!['/'] + last =~= x + last);
        assert(Seq::<char>::empty() + last =~= last);
        let j = join_segments(parts);
        assert forall|i: int| 0 <= i < j.len() implies j[i] != '#' by {
            if i < ji.len() {
                assert(j[i] == ji[i]);
            } else if i > ji.len() {
                assert(j[i] == last[i - ji.len() - 1]);
            }
        }
    }
}

proof fn lemma_join_chars(parts: Seq<Seq<char>>)
    requires
        forall|k: int| 0 <= k < parts.len() ==> valid_seg(#[trigger] parts[k]),
    ensures
        parts.len() > 0 ==> join_segments(parts).len() > 0,
        forall|i: int| 0 <= i < join_segments(parts).len()
            ==> #[trigger] join_segments(parts)[i] != '#' && join_segments(parts)[i] != '\\',
        join_segments(parts).len() > 0 ==> join_segments(parts)[0] != '/' && join_segments(parts).last() != '/',
    decreases parts.len(),
{
    if parts.len() == 1 {
        assert(valid_seg(parts[0]));
        let p0 = parts[0];
        assert(!is_sep(p0[0]) && !is_sep(p0[p0.len() - 1]));
    } else if parts.len() > 1 {
        let init = parts.drop_last();
        let last = parts.last();
        assert forall|k: int| 0 <= k < init.len() implies valid_seg(#[trigger] init[k]) by {
            assert(init[k] == parts[k]);
        }
        lemma_join_chars(init);
        assert(valid_seg(last));
        let ji = join_segments(init);
        let j = join_segments(parts);
        assert(j == ji + seq!['/'] + last);
        assert forall|i: int| 0 <= i < j.len() implies #[trigger] j[i] != '#' && j[i] != '\\' by {
            if i < ji.len() {
                assert(j[i] == ji[i]);
            } else if i > ji.len() {
                assert(j[i] == last[i - ji.len() - 1]);
            }
        }
        assert(j[0] == ji[0]);
        assert(j.last() == last[last.len() - 1]);
        assert(!is_sep(last[last.len() - 1]));
    }
}

/// A normalized path is in normal form: it is its segments (after the
/// fragment is dropped and `.` and `..` are resolved) joined by `/`; no
/// segment is empty, `.` or `..` (so the path never climbs above the
/// archive's root) or holds a separator or `#`; and the path holds no `#`
/// and no `\`, and neither starts nor ends with `/`.
pub proof fn lemma_normal_form(s: Seq<char>)
    ensures
        normalize_path(s) == join_segments(resolved_segments(before_hash(s))),
        forall|k: int| 0 <= k < resolved_segments(before_hash(s)).len()
            ==> valid_seg(#[trigger] resolved_segments(before_hash(s))[k]),
        forall|i: int| 0 <= i < normalize_path(s).len()
            ==> #[trigger] normalize_path(s)[i] != '#' && normalize_path(s)[i] != '\\',
        normalize_path(s).len() > 0 ==> normalize_path(s)[0] != '/' && normalize_path(s).last() != '/',
{
    let b = before_hash(s);
    lemma_before_hash_no_hash(s);
    lemma_norm_state_valid(b);
    let (stack, cur) = norm_state(b);
    let parts = resolve_step(stack, cur);
    assert forall|k: int| 0 <= k < parts.len() implies valid_seg(#[trigger] parts[k]) by {
        if cur.len() == 0 || cur == "."@ {
        } else if cur == ".."@ {
            if stack.len() > 0 {
                assert(parts[k] == stack[k]);
            }
        } else if k < stack.len() {
            assert(parts[k] == stack[k]);
        }
    }
    lemma_join_chars(parts);
}

/// Normalizing a normalized path changes nothing.
pub proof fn lemma_normalize_idempotent(s: Seq<char>)
    ensures
        normalize_path(normalize_path(s)) == normalize_path(s),
{
    let b = before_hash(s);
    lemma_before_hash_no_hash(s);
    lemma_norm_state_valid(b);
    let (stack, cur) = norm_state(b);
    let parts = resolved_segments(b);
    assert forall|k: int| 0 <= k < parts.len() implies valid_seg(#[trigger] parts[k]) by {
        if k < stack.len() {
            assert(parts[k] == stack[k]);
        }
    }
    let t = join_segments(parts);
    if parts.len() == 0 {
        assert(t == Seq::<char>::empty());
        lemma_before_hash_no_hash(t);
        assert(norm_state(t) == (Seq::<Seq<char>>::empty(), Seq::<char>::empty()));
        assert(resolved_segments(t) =~= parts);
    } else {
        lemma_join_valid(parts);
        lemma_before_hash_no_hash(t);
        assert(resolve_step(parts.drop_last(), parts.last()) =~= parts);
    }
}

// ---------------------------------------------------------------------------
// META-INF/encryption.xml
// ---------------------------------------------------------------------------

/// The `URI` values of the attributes `attrs[i..]` of a `CipherReference`,
/// appended to `acc`, or the message of the error met first.
pub open spec fn cipher_attrs(attrs: Seq<AttrTok>, i: int, acc: Seq<Seq<char>>) -> Result<Seq<Seq<char>>, Seq<char>>
    decreases attrs.len() - i,
{
    if i < 0 || i >= attrs.len() {
        Ok(acc)
    } else {
        match attrs[i] {
            Err(e) => Err("malformed encryption.xml: "@ + e),
            Ok((k, v)) => if local_name(k) == "URI".spec_bytes() {
                if valid_utf8(v) {
                    cipher_attrs(attrs, i + 1, acc.push(utrim(decode_utf8(v))))
                } else {
                    Err("non-UTF-8 URI in encryption.xml"@)
                }
            } else {
                cipher_attrs(attrs, i + 1, acc)
            },
        }
    }
}

/// The encrypted URIs named by `CipherReference` elements of the events
/// `evs[i..]`, appended to `acc`, or the message of the error met first.
pub open spec fn encryption_run(evs: Seq<XmlTok>, i: int, acc: Seq<Seq<char>>) -> Result<Seq<Seq<char>>, Seq<char>>
    decreases evs.len() - i,
{
    if i < 0 || i >= evs.len() {
        Ok(acc)
    } else {
        match evs[i] {
            XmlTok::Start(n, a) => if local_name(n) == "CipherReference".spec_bytes() {
                match cipher_attrs(a, 0, acc) {
                    Ok(acc2) => encryption_run(evs, i + 1, acc2),
                    Err(m) => Err(m),
                }
            } else {
                encryption_run(evs, i + 1, acc)
            },
            XmlTok::Empty(n, a) => if local_name(n) == "CipherReference".spec_bytes() {
                match cipher_attrs(a, 0, acc) {
                    Ok(acc2) => encryption_run(evs, i + 1, acc2),
                    Err(m) => Err(m),
                }
            } else {
                encryption_run(evs, i + 1, acc)
            },
            XmlTok::Eof => Ok(acc),
            XmlTok::Error(e) => Err("malformed encryption.xml: "@ + e),
            _ => encryption_run(evs, i + 1, acc),
        }
    }
}

fn cipher_attrs_exec(attrs: &Vec<XmlAttr>, acc: &mut Vec<String>) -> (r: Result<(), EpubError>)
    ensures
        match cipher_attrs(attr_toks(attrs@), 0, strings_view(old(acc)@)) {
            Ok(a) => r is Ok && strings_view(final(acc)@) == a,
            Err(m) => r matches Err(e) && e is InvalidEpub && e.message() == m,
        },
{
    let ghost a0 = strings_view(acc@);
    let mut j: usize = 0;
    while j < attrs.len()
        invariant
            j <= attrs@.len(),
            a0 == strings_view(old(acc)@),
            cipher_attrs(attr_toks(attrs@), 0, a0) == cipher_attrs(attr_toks(attrs@), j as int, strings_view(acc@)),
        decreases attrs@.len() - j,
    {
        match &attrs[j] {
            Err(e) => {
                assert(attrs@[j as int] == Err::<(Vec<u8>, Vec<u8>), String>(*e));
                assert(cipher_attrs(attr_toks(attrs@), j as int, strings_view(acc@)) == Err::<Seq<Seq<char>>, Seq<char>>("malformed encryption.xml: "@ + e@));
                return Err(invalid("malformed encryption.xml: ", e.as_str()));
            },
            Ok((k, v)) => {
                let lk = local_name_exec(k);
                if bytes_is(&lk, "URI") {
                    match attr_text(v) {
                        Some(t) => {
                            let ghost before = strings_view(acc@);
                            acc.push(t);
                            assert(strings_view(acc@) =~= before.push(t@));
                        },
                        None => {
                            return Err(invalid_msg("non-UTF-8 URI in encryption.xml"));
                        },
                    }
                }
            },
        }
        j += 1;
    }
    Ok(())
}

/// Parses `encryption.xml` given as events, and extracts the URI references.
pub fn encryption_uris_from_events(evs: &Vec<XmlEvent>) -> (r: Result<Vec<String>, EpubError>)
    ensures
        match encryption_run(toks(evs@), 0, seq![]) {
            Ok(a) => r matches Ok(v) && strings_view(v@) == a,
            Err(m) => r matches Err(e) && e is InvalidEpub && e.message() == m,
        },
{
    let mut acc: Vec<String> = Vec::new();
    assert(strings_view(acc@) =~= Seq::<Seq<char>>::empty());
    let mut i: usize = 0;
    while i < evs.len()
        invariant
            i <= evs@.len(),
            encryption_run(toks(evs@), 0, seq![]) == encryption_run(toks(evs@), i as int, strings_view(acc@)),
        decreases evs@.len() - i,
    {
        match &evs[i] {
            XmlEvent::Start(n, a) => {
                if bytes_is(&local_name_exec(n), "CipherReference") {
                    match cipher_attrs_exec(a, &mut acc) {
                        Ok(()) => {},
                        Err(e) => return Err(e),
                    }
                }
            },
            XmlEvent::Empty(n, a) => {
                if bytes_is(&local_name_exec(n), "CipherReference") {
                    match cipher_attrs_exec(a, &mut acc) {
                        Ok(()) => {},
                        Err(e) => return Err(e),
                    }
                }
            },
            XmlEvent::Eof => {
                return Ok(acc);
            },
            XmlEvent::Error(e) => {
                return Err(invalid("malformed encryption.xml: ", e.as_str()));
            },
            _ => {},
        }
        i += 1;
    }
    Ok(acc)
}

/// Parses `encryption.xml` and extracts the URI references.
pub fn parse_encryption_uris(xml: &str) -> (r: Result<Vec<String>, EpubError>)
    ensures
        match encryption_run(doc_events(xml@), 0, seq![]) {
            Ok(a) => r matches Ok(v) && strings_view(v@) == a,
            Err(m) => r matches Err(e) && e is InvalidEpub && e.message() == m,
        },
{
    let evs = xml_events(xml);
    encryption_uris_from_events(&evs)
}

// ---------------------------------------------------------------------------
// The bounded ZIP archive
// ---------------------------------------------------------------------------

/// Maximum number of ZIP members allowed in an EPUB.
pub const MAX_EPUB_MEMBERS: usize = 10_000;

/// Maximum decompressed size for a single text member (25 MiB).
pub const MAX_EPUB_TEXT_MEMBER_SIZE: u64 = 25 * 1024 * 1024;

/// Maximum aggregate decompressed text size (100 MiB).
pub const MAX_EPUB_TOTAL_TEXT_SIZE: u64 = 100 * 1024 * 1024;

/// Maximum compression ratio for members larger than 1 MiB.
pub const MAX_EPUB_COMPRESSION_RATIO: u64 = 1_000;

/// Threshold for checking compression ratio (1 MiB).
pub const COMPRESSION_CHECK_THRESHOLD: u64 = 1024 * 1024;

#[verifier::external_type_specification]
#[verifier::external_body]
#[verifier::reject_recursive_types(R)]
pub struct ExZipArchive<R>(zip::ZipArchive<R>);

#[verifier::external_type_specification]
#[verifier::external_body]
#[verifier::reject_recursive_types(T)]
pub struct ExCursor<T>(std::io::Cursor<T>);

/// A member of a ZIP archive: its name, its decompressed size and its
/// compressed size as the central directory records them, the bytes it
/// decompresses to (up to the first error, if reading it meets one),
/// whether `ZipArchive::by_name` can open it (it is not encrypted, its
/// local header is found and its compression method is supported), and
/// whether reading it to its end meets no error (its stream decompresses
/// and its checksum matches).  All are properties of the archive's bytes.
pub type ZipEntry = (Seq<char>, u64, u64, Seq<u8>, bool, bool);

/// The members of an opened archive, in the order of its index: one per
/// distinct name (the crate keys its index by name, so a later record of
/// a name takes the place of an earlier one).
pub uninterp spec fn zip_entries(a: zip::ZipArchive<std::io::Cursor<Vec<u8>>>) -> Seq<ZipEntry>;

/// What `zip::ZipArchive::new` makes of the bytes `data`: the members of
/// the archive, or the message of the error.
pub uninterp spec fn zip_opened(data: Seq<u8>) -> Result<Seq<ZipEntry>, Seq<char>>;

/// `zip::ZipArchive::new` over an in-memory cursor on `data`, its error
/// turned into its message.  The archive's members, or the message, are
/// those that `zip_opened` names for `data`.
#[verifier::external_body]
fn zip_open(data: Vec<u8>) -> (r: Result<zip::ZipArchive<std::io::Cursor<Vec<u8>>>, String>)
    ensures
        zip_opened(data@) == match r {
            Ok(a) => Ok::<Seq<ZipEntry>, Seq<char>>(zip_entries(a)),
            Err(e) => Err::<Seq<ZipEntry>, Seq<char>>(e@),
        },
{
    match zip::ZipArchive::new(std::io::Cursor::new(data)) {
        Ok(a) => Ok(a),
        Err(e) => Err(e.to_string()),
    }
}

/// `zip::ZipArchive::len`: the number of members.
#[verifier::external_body]
fn zip_len(a: &zip::ZipArchive<std::io::Cursor<Vec<u8>>>) -> (n: usize)
    ensures
        n == zip_entries(*a).len(),
{
    a.len()
}

/// Index of the first member named `name`, or -1.
pub open spec fn entry_index(es: Seq<ZipEntry>, name: Seq<char>) -> int
    decreases es.len(),
{
    if es.len() == 0 {
        -1
    } else {
        let k = entry_index(es.drop_last(), name);
        if k >= 0 {
            k
        } else if es.last().0 == name {
            es.len() - 1
        } else {
            -1
        }
    }
}

/// A name that the `zip` crate reads as a directory: it ends in `/` or `\`.
pub open spec fn dir_name(name: Seq<char>) -> bool {
    name.len() > 0 && (name.last() == '/' || name.last() == '\\')
}

/// What the central directory says of a member.
#[derive(Debug, Clone, Copy, PartialEq, Eq, Structural)]
pub struct MemberInfo {
    pub is_dir: bool,
    pub size: u64,
    pub compressed_size: u64,
}

/// The member named `p` is in `es` and `by_name` can open it.
pub open spec fn member_opens(es: Seq<ZipEntry>, p: Seq<char>) -> bool {
    entry_index(es, p) >= 0 && es[entry_index(es, p)].4
}

/// The information on the member `e`.
pub open spec fn entry_info(e: ZipEntry) -> MemberInfo {
    MemberInfo { is_dir: dir_name(e.0), size: e.1, compressed_size: e.2 }
}

/// `zip::ZipArchive::by_name` followed by `is_dir`, `size` and
/// `compressed_size` on the member found.  It gives `None` for a missing
/// member and for a member that cannot be opened (the last component of
/// its entry).  The members do not change.
#[verifier::external_body]
fn zip_member_info(a: &mut zip::ZipArchive<std::io::Cursor<Vec<u8>>>, name: &str) -> (r: Option<MemberInfo>)
    ensures
        zip_entries(*final(a)) == zip_entries(*old(a)),
        r is Some <==> member_opens(zip_entries(*old(a)), name@),
        r matches Some(i) ==> i == entry_info(zip_entries(*old(a))[entry_index(zip_entries(*old(a)), name@)]),
{
    match a.by_name(name) {
        Ok(f) => Some(MemberInfo { is_dir: f.is_dir(), size: f.size(), compressed_size: f.compressed_size() }),
        Err(_) => None,
    }
}

/// At most `cap` bytes of `data`, from its start.
pub open spec fn bounded(data: Seq<u8>, cap: nat) -> Seq<u8> {
    if data.len() <= cap { data } else { data.take(cap as int) }
}

/// `zip::ZipArchive::by_name`, then `std::io::Read::take(cap)` and
/// `read_to_end` on the member: at most `cap` bytes of what the member
/// decompresses to.  A member that opens and reads cleanly is read; on a
/// member whose stream holds an error, whether the first `cap` bytes come
/// back before it is left unsaid.  Errors are turned into their messages.
/// The members do not change.
#[verifier::external_body]
fn zip_read(a: &mut zip::ZipArchive<std::io::Cursor<Vec<u8>>>, name: &str, cap: u64) -> (r: Result<Vec<u8>, String>)
    ensures
        zip_entries(*final(a)) == zip_entries(*old(a)),
        member_opens(zip_entries(*old(a)), name@) && zip_entries(*old(a))[entry_index(zip_entries(*old(a)), name@)].5
            ==> r is Ok,
        r matches Ok(v) ==> member_opens(zip_entries(*old(a)), name@)
            && v@ == bounded(zip_entries(*old(a))[entry_index(zip_entries(*old(a)), name@)].3, cap as nat),
{
    let f = match a.by_name(name) {
        Ok(f) => f,
        Err(e) => return Err(e.to_string()),
    };
    let mut v: Vec<u8> = Vec::new();
    match std::io::Read::read_to_end(&mut std::io::Read::take(f, cap), &mut v) {
        Ok(_) => Ok(v),
        Err(e) => Err(e.to_string()),
    }
}

/// What `String::from_utf8_lossy` makes of the bytes `b`.
pub uninterp spec fn lossy_utf8(b: Seq<u8>) -> Seq<char>;

/// `String::from_utf8_lossy`: invalid sequences become U+FFFD; valid UTF-8
/// is decoded unchanged.
#[verifier::external_body]
fn utf8_lossy(b: &[u8]) -> (s: String)
    ensures
        s@ == lossy_utf8(b@),
        valid_utf8(b@) ==> s@ == decode_utf8(b@),
{
    String::from_utf8_lossy(b).into_owned()
}

/// The problem found with a member before reading it, if any: a directory,
/// a member over the size limit, or (for members over 1 MiB with a nonzero
/// compressed size) a compression ratio over the limit.
pub open spec fn member_problem(p: Seq<char>, info: MemberInfo) -> Option<Seq<char>> {
    if info.is_dir {
        Some("expected file, got directory: "@ + p)
    } else if info.size > MAX_EPUB_TEXT_MEMBER_SIZE {
        Some("member \""@ + p + "\" is too large: "@ + decimal(info.size as nat) + " bytes (max "@
            + decimal(MAX_EPUB_TEXT_MEMBER_SIZE as nat) + ")"@)
    } else if info.size > COMPRESSION_CHECK_THRESHOLD && info.compressed_size > 0
        && info.size / info.compressed_size > MAX_EPUB_COMPRESSION_RATIO {
        Some("suspicious compression ratio for \""@ + p + "\": "@ + decimal((info.size / info.compressed_size) as nat)
            + ":1 (max "@ + decimal(MAX_EPUB_COMPRESSION_RATIO as nat) + ":1)"@)
    } else {
        None
    }
}

/// The checks made on a member before it is read: `info` is what the
/// archive reported for the member `path`, `None` when it was not found.
pub fn check_member(path: &str, info: Option<MemberInfo>) -> (r: Result<(), EpubError>)
    ensures
        match info {
            None => r matches Err(e) && e is InvalidEpub && e.message() == "member not found: "@ + path@,
            Some(i) => match member_problem(path@, i) {
                None => r is Ok,
                Some(m) => r matches Err(e) && e is InvalidEpub && e.message() == m,
            },
        },
{
    let info = match info {
        None => {
            return Err(invalid("member not found: ", path));
        },
        Some(i) => i,
    };
    if info.is_dir {
        return Err(invalid("expected file, got directory: ", path));
    }
    if info.size > MAX_EPUB_TEXT_MEMBER_SIZE {
        let mut v: Vec<char> = Vec::new();
        push_str(&mut v, "member \"");
        push_str(&mut v, path);
        push_str(&mut v, "\" is too large: ");
        push_chars(&mut v, &decimal_u64(info.size));
        push_str(&mut v, " bytes (max ");
        push_chars(&mut v, &decimal_u64(MAX_EPUB_TEXT_MEMBER_SIZE));
        push_str(&mut v, ")");
        return Err(EpubError::InvalidEpub(string_from_chars(v.as_slice())));
    }
    if info.size > COMPRESSION_CHECK_THRESHOLD && info.compressed_size > 0 {
        let ratio = info.size / info.compressed_size;
        if ratio > MAX_EPUB_COMPRESSION_RATIO {
            let mut v: Vec<char> = Vec::new();
            push_str(&mut v, "suspicious compression ratio for \"");
            push_str(&mut v, path);
            push_str(&mut v, "\": ");
            push_chars(&mut v, &decimal_u64(ratio));
            push_str(&mut v, ":1 (max ");
            push_chars(&mut v, &decimal_u64(MAX_EPUB_COMPRESSION_RATIO));
            push_str(&mut v, ":1)");
            return Err(EpubError::InvalidEpub(string_from_chars(v.as_slice())));
        }
    }
    Ok(())
}

/// Reading-state bookkeeping: the members already counted and the running
/// total, after `content_len` bytes of the member `p` were read.  Each
/// member is counted once.
pub open spec fn account(counted: Seq<Seq<char>>, total: nat, p: Seq<char>, content_len: nat) -> (Seq<Seq<char>>, nat) {
    if counted.contains(p) {
        (counted, total)
    } else {
        (counted.push(p), total + content_len)
    }
}

/// The outcome of a read of the member `p` whose content came back as
/// `read`: the text or the error message, then the counted members and
/// the running total afterwards.
pub open spec fn accept_spec(counted: Seq<Seq<char>>, total: nat, p: Seq<char>, read: Result<Seq<u8>, Seq<char>>)
    -> (Result<Seq<char>, Seq<char>>, Seq<Seq<char>>, nat)
{
    match read {
        Err(e) => (Err("failed to read \""@ + p + "\": "@ + e), counted, total),
        Ok(c) => if c.len() > MAX_EPUB_TEXT_MEMBER_SIZE {
            (Err("member \""@ + p + "\" exceeds the per-member size limit after read"@), counted, total)
        } else {
            let (c2, t2) = account(counted, total, p, c.len());
            if t2 > MAX_EPUB_TOTAL_TEXT_SIZE && !counted.contains(p) {
                (Err("too much decompressed text: "@ + decimal(t2) + " bytes (max "@
                    + decimal(MAX_EPUB_TOTAL_TEXT_SIZE as nat) + ")"@), c2, t2)
            } else {
                (Ok(lossy_utf8(c)), c2, t2)
            }
        },
    }
}

/// Each member counts toward the aggregate total once: after a read of the
/// member `p` whose content was within the per-member limit, a later read
/// of `p`, whatever it returns, leaves the counted members and the total as
/// they were.
pub proof fn lemma_member_counted_once(
    counted: Seq<Seq<char>>,
    total: nat,
    p: Seq<char>,
    first: Seq<u8>,
    second: Result<Seq<u8>, Seq<char>>,
)
    requires
        first.len() <= MAX_EPUB_TEXT_MEMBER_SIZE,
    ensures
        ({
            let (_, c1, t1) = accept_spec(counted, total, p, Ok(first));
            let (_, c2, t2) = accept_spec(c1, t1, p, second);
            c1.contains(p) && c2 == c1 && t2 == t1
        }),
{
    let (_, c1, t1) = accept_spec(counted, total, p, Ok(first));
    if !counted.contains(p) {
        assert(c1 == counted.push(p));
        assert(c1[c1.len() - 1] == p);
    }
}

/// The text or the message of a read result.
pub open spec fn text_or_message(r: Result<String, EpubError>) -> Result<Seq<char>, Seq<char>> {
    match r {
        Ok(s) => Ok(s@),
        Err(e) => Err(e.message()),
    }
}

/// The result of a read of the member `p` (normalized) from the members
/// `es`, with `counted` and `total` before the read and `counted2` and
/// `total2` after it: the outcome `read_spec` gives, or, for a member whose
/// stream holds an error, a read error that changes nothing.
pub open spec fn read_outcome(
    es: Seq<ZipEntry>,
    counted: Seq<Seq<char>>,
    total: nat,
    p: Seq<char>,
    res: Result<Seq<char>, Seq<char>>,
    counted2: Seq<Seq<char>>,
    total2: nat,
) -> bool {
    ||| (res, counted2, total2) == read_spec(es, counted, total, p)
    ||| !read_determined(es, p) && counted2 == counted && total2 == total && (res matches Err(m)
        && m.len() >= read_failure(p).len() && m.take(read_failure(p).len() as int) == read_failure(p))
}

/// The outcome of a read of the member `p` of `es` that meets no stream
/// error: the text or the error message, then the counted members and the
/// running total afterwards.
pub open spec fn read_spec(es: Seq<ZipEntry>, counted: Seq<Seq<char>>, total: nat, p: Seq<char>)
    -> (Result<Seq<char>, Seq<char>>, Seq<Seq<char>>, nat)
{
    let k = entry_index(es, p);
    if !member_opens(es, p) {
        (Err("member not found: "@ + p), counted, total)
    } else {
        match member_problem(p, entry_info(es[k])) {
            Some(m) => (Err(m), counted, total),
            None => accept_spec(counted, total, p, Ok(bounded(es[k].3, (MAX_EPUB_TEXT_MEMBER_SIZE + 1) as nat))),
        }
    }
}

/// A read of the member `p` of `es` has the outcome `read_spec` gives:
/// the member is missing, cannot be opened, is refused by the checks, or
/// reads cleanly.
pub open spec fn read_determined(es: Seq<ZipEntry>, p: Seq<char>) -> bool {
    let k = entry_index(es, p);
    !member_opens(es, p) || member_problem(p, entry_info(es[k])) is Some || es[k].5
}

/// The text that a successful read of the member `p` of `es` gives: its
/// content, bounded to one byte over the per-member limit, decoded as
/// `String::from_utf8_lossy` decodes.
pub open spec fn member_text(es: Seq<ZipEntry>, p: Seq<char>) -> Seq<char> {
    lossy_utf8(bounded(es[entry_index(es, p)].3, (MAX_EPUB_TEXT_MEMBER_SIZE + 1) as nat))
}

/// The XML events of the text of the member `p` of `es`.
pub open spec fn member_events(es: Seq<ZipEntry>, p: Seq<char>) -> Seq<XmlTok> {
    doc_events(member_text(es, p))
}

/// The length of the text a read of the member `p` of `es` takes in, at
/// most one byte over the per-member limit.
pub open spec fn member_len(es: Seq<ZipEntry>, p: Seq<char>) -> nat {
    bounded(es[entry_index(es, p)].3, (MAX_EPUB_TEXT_MEMBER_SIZE + 1) as nat).len()
}

/// The text counted toward the aggregate limit for the members `c`.
pub open spec fn counted_total(es: Seq<ZipEntry>, c: Seq<Seq<char>>) -> nat
    decreases c.len(),
{
    if c.len() == 0 {
        0
    } else {
        counted_total(es, c.drop_last()) + member_len(es, c.last())
    }
}

/// The member `p` passes the checks made on each member alone: it opens,
/// reads cleanly, is a file within the size and ratio limits, and its
/// text read stays within the per-member limit.
pub open spec fn member_passes(es: Seq<ZipEntry>, p: Seq<char>) -> bool {
    let k = entry_index(es, p);
    &&& member_opens(es, p)
    &&& es[k].5
    &&& member_problem(p, entry_info(es[k])) is None
    &&& member_len(es, p) <= MAX_EPUB_TEXT_MEMBER_SIZE
}

/// The aggregate text limit over a sequence of reads: when the running
/// total is the text of the members counted so far, a read of a member
/// that passes the per-member checks counts it once (a member already
/// counted adds nothing), keeps the total equal to the text of the members
/// counted, and fails for too much text exactly when the member is new and
/// the new total is over `MAX_EPUB_TOTAL_TEXT_SIZE`; otherwise it gives the
/// member's text.
pub proof fn lemma_read_budget(es: Seq<ZipEntry>, counted: Seq<Seq<char>>, total: nat, p: Seq<char>)
    requires
        member_passes(es, p),
        total == counted_total(es, counted),
    ensures
        ({
            let (res, c2, t2) = read_spec(es, counted, total, p);
            &&& c2 == if counted.contains(p) { counted } else { counted.push(p) }
            &&& t2 == counted_total(es, c2)
            &&& res == if !counted.contains(p) && t2 > MAX_EPUB_TOTAL_TEXT_SIZE {
                Err::<Seq<char>, Seq<char>>("too much decompressed text: "@ + decimal(t2) + " bytes (max "@
                    + decimal(MAX_EPUB_TOTAL_TEXT_SIZE as nat) + ")"@)
            } else {
                Ok::<Seq<char>, Seq<char>>(member_text(es, p))
            }
        }),
{
    if !counted.contains(p) {
        assert(counted.push(p).drop_last() =~= counted);
    }
}

/// The start of the message of a failed read of the member `p`.
pub open spec fn read_failure(p: Seq<char>) -> Seq<char> {
    "failed to read \""@ + p + "\": "@
}

/// The index `entry_index` finds is that of a member with the name.
pub proof fn lemma_entry_index(es: Seq<ZipEntry>, name: Seq<char>)
    ensures
        entry_index(es, name) < es.len(),
        entry_index(es, name) >= 0 ==> es[entry_index(es, name)].0 == name,
        entry_index(es, name) < 0 ==> !entry_names(es).contains(name),
    decreases es.len(),
{
    if es.len() > 0 {
        lemma_entry_index(es.drop_last(), name);
        assert(entry_names(es.drop_last()) =~= entry_names(es).drop_last());
        if entry_index(es, name) < 0 {
            assert forall|i: int| 0 <= i < es.len() implies entry_names(es)[i] != name by {
                if i < es.len() - 1 {
                    assert(entry_names(es.drop_last())[i] == entry_names(es)[i]);
                }
            }
        }
    }
}

/// A duplicate-free sequence of names of members is no longer than the
/// list of members.
proof fn lemma_counted_bound(c: Seq<Seq<char>>, names: Seq<Seq<char>>)
    requires
        c.no_duplicates(),
        forall|i: int| 0 <= i < c.len() ==> names.contains(#[trigger] c[i]),
    ensures
        c.len() <= names.len(),
{
    c.unique_seq_to_set();
    names.lemma_cardinality_of_set();
    vstd::seq_lib::seq_to_set_is_finite(names);
    assert(c.to_set().subset_of(names.to_set()));
    vstd::set_lib::lemma_len_subset(c.to_set(), names.to_set());
}

/// The names of the members `es`.
pub open spec fn entry_names(es: Seq<ZipEntry>) -> Seq<Seq<char>> {
    es.map_values(|e: ZipEntry| e.0)
}

/// A bounded reader for EPUB ZIP archives.
///
/// Enforces member count, per-member size, aggregate size, and compression
/// ratio limits.  Tracks which members have been read to avoid double-
/// counting aggregate size.
pub struct Archive {
    inner: zip::ZipArchive<std::io::Cursor<Vec<u8>>>,
    /// Members whose decompressed size has already been counted toward the
    /// aggregate total.  Repeated reads of the same member do not add again.
    counted: Vec<String>,
    /// Running total of unique decompressed bytes read.
    text_bytes_read: u64,
}

impl Archive {
    /// The members of the archive.
    pub closed spec fn entries(&self) -> Seq<ZipEntry> {
        zip_entries(self.inner)
    }

    /// The members counted so far, in the order they were first read.
    pub closed spec fn counted(&self) -> Seq<Seq<char>> {
        strings_view(self.counted@)
    }

    /// The decompressed bytes counted so far.
    pub closed spec fn total(&self) -> nat {
        self.text_bytes_read as nat
    }

    /// The archive's invariant: within the member limit, each counted member
    /// is a member and is counted once, and the total is at most the limit
    /// per member times the members counted.
    pub closed spec fn wf(&self) -> bool {
        &&& self.entries().len() <= MAX_EPUB_MEMBERS
        &&& self.counted().no_duplicates()
        &&& forall|i: int| 0 <= i < self.counted().len() ==> entry_names(self.entries()).contains(#[trigger] self.counted()[i])
        &&& self.total() <= self.counted().len() * MAX_EPUB_TEXT_MEMBER_SIZE
        &&& self.total() == counted_total(self.entries(), self.counted())
    }

    /// The running total is the text of the members counted, each once:
    /// across any sequence of reads, the total that the limit
    /// `MAX_EPUB_TOTAL_TEXT_SIZE` is checked against is the sum, over the
    /// distinct members read so far, of their text read.
    pub proof fn lemma_total_is_counted_text(&self)
        requires
            self.wf(),
        ensures
            self.total() == counted_total(self.entries(), self.counted()),
            self.counted().no_duplicates(),
    {
    }

    /// Opens an EPUB held in memory with safety checks: the bytes must be a
    /// ZIP archive of at most `MAX_EPUB_MEMBERS` members.
    pub fn open(data: Vec<u8>) -> (r: Result<Archive, EpubError>)
        ensures
            match zip_opened(data@) {
                Err(m) => r matches Err(e) && e is InvalidEpub && e.message() == "failed to parse ZIP archive: "@ + m,
                Ok(es) => if es.len() > MAX_EPUB_MEMBERS {
                    r matches Err(e) && e is InvalidEpub && e.message() == "too many files in archive: "@
                        + decimal(es.len()) + " (max "@ + decimal(MAX_EPUB_MEMBERS as nat) + ")"@
                } else {
                    r matches Ok(a) && a.wf() && a.entries() == es && a.counted() == Seq::<Seq<char>>::empty()
                        && a.total() == 0
                },
            },
    {
        let inner = match zip_open(data) {
            Ok(a) => a,
            Err(e) => {
                return Err(invalid("failed to parse ZIP archive: ", e.as_str()));
            },
        };
        let member_count = zip_len(&inner);
        if member_count > MAX_EPUB_MEMBERS {
            let mut v: Vec<char> = Vec::new();
            push_str(&mut v, "too many files in archive: ");
            push_chars(&mut v, &decimal_exec(member_count));
            push_str(&mut v, " (max ");
            push_chars(&mut v, &decimal_exec(MAX_EPUB_MEMBERS));
            push_str(&mut v, ")");
            return Err(EpubError::InvalidEpub(string_from_chars(v.as_slice())));
        }
        let a = Archive { inner, counted: Vec::new(), text_bytes_read: 0 };
        assert(a.counted() =~= Seq::<Seq<char>>::empty());
        Ok(a)
    }

    /// Whether the member `p` has already been counted.
    fn is_counted(&self, p: &String) -> (b: bool)
        ensures
            b == self.counted().contains(p@),
    {
        let pc = str_chars(p.as_str());
        let mut i: usize = 0;
        while i < self.counted.len()
            invariant
                i <= self.counted@.len(),
                pc@ == p@,
                forall|j: int| 0 <= j < i ==> self.counted()[j] != p@,
            decreases self.counted@.len() - i,
        {
            let c = str_chars(self.counted[i].as_str());
            if chars_eq(&c, &pc) {
                assert(self.counted()[i as int] == p@);
                return true;
            }
            i += 1;
        }
        false
    }

    /// Finishes a read of the member `path` whose content came back as
    /// `read`: rejects a read error and a content over the per-member limit,
    /// counts the member toward the aggregate total the first time it is
    /// read (failing once the total exceeds its limit), and decodes the
    /// content as UTF-8, replacing invalid sequences.
    fn accept_content(&mut self, path: String, read: Result<Vec<u8>, String>) -> (r: Result<String, EpubError>)
        requires
            old(self).wf(),
            read is Ok ==> entry_names(old(self).entries()).contains(path@),
            read matches Ok(v) ==> v@.len() == member_len(old(self).entries(), path@),
        ensures
            final(self).wf(),
            final(self).entries() == old(self).entries(),
            r is Err ==> r->Err_0 is InvalidEpub,
            (text_or_message(r), final(self).counted(), final(self).total()) == accept_spec(
                old(self).counted(),
                old(self).total(),
                path@,
                match read { Ok(v) => Ok::<Seq<u8>, Seq<char>>(v@), Err(e) => Err::<Seq<u8>, Seq<char>>(e@) },
            ),
    {
        let content = match read {
            Err(e) => {
                let mut v: Vec<char> = Vec::new();
                push_str(&mut v, "failed to read \"");
                push_str(&mut v, path.as_str());
                push_str(&mut v, "\": ");
                push_str(&mut v, e.as_str());
                return Err(EpubError::InvalidEpub(string_from_chars(v.as_slice())));
            },
            Ok(c) => c,
        };
        let n: u64 = content.len() as u64;
        if n > MAX_EPUB_TEXT_MEMBER_SIZE {
            let mut v: Vec<char> = Vec::new();
            push_str(&mut v, "member \"");
            push_str(&mut v, path.as_str());
            push_str(&mut v, "\" exceeds the per-member size limit after read");
            return Err(EpubError::InvalidEpub(string_from_chars(v.as_slice())));
        }
        if !self.is_counted(&path) {
            let ghost c0 = self.counted();
            let ghost names = entry_names(self.entries());
            proof {
                lemma_counted_bound(c0.push(path@), names);
                assert(names.len() == self.entries().len());
            }
            self.counted.push(path.clone());
            assert(self.counted() =~= c0.push(path@));
            assert(c0.push(path@).drop_last() =~= c0);
            assert(counted_total(self.entries(), self.counted()) == counted_total(self.entries(), c0) + n);
            assert((c0.len() + 1) * MAX_EPUB_TEXT_MEMBER_SIZE == c0.len() * MAX_EPUB_TEXT_MEMBER_SIZE + MAX_EPUB_TEXT_MEMBER_SIZE)
                by (nonlinear_arith);
            assert(c0.len() * MAX_EPUB_TEXT_MEMBER_SIZE <= MAX_EPUB_MEMBERS * MAX_EPUB_TEXT_MEMBER_SIZE)
                by (nonlinear_arith) requires c0.len() < MAX_EPUB_MEMBERS;
            self.text_bytes_read = self.text_bytes_read + n;
            if self.text_bytes_read > MAX_EPUB_TOTAL_TEXT_SIZE {
                let mut v: Vec<char> = Vec::new();
                push_str(&mut v, "too much decompressed text: ");
                push_chars(&mut v, &decimal_u64(self.text_bytes_read));
                push_str(&mut v, " bytes (max ");
                push_chars(&mut v, &decimal_u64(MAX_EPUB_TOTAL_TEXT_SIZE));
                push_str(&mut v, ")");
                return Err(EpubError::InvalidEpub(string_from_chars(v.as_slice())));
            }
        }
        Ok(utf8_lossy(content.as_slice()))
    }

    /// Reads a text member from the archive, enforcing safety limits.
    ///
    /// The name is normalized first.  A member that is not found, is a
    /// directory, is over the size limit or is compressed suspiciously well
    /// is refused before anything is read; at most one byte over the size
    /// limit is ever read.
    pub fn read_text(&mut self, name: &str) -> (r: Result<String, EpubError>)
        requires
            old(self).wf(),
        ensures
            final(self).wf(),
            final(self).entries() == old(self).entries(),
            r is Err ==> r->Err_0 is InvalidEpub,
            read_outcome(
                old(self).entries(),
                old(self).counted(),
                old(self).total(),
                normalize_path(name@),
                text_or_message(r),
                final(self).counted(),
                final(self).total(),
            ),
            r matches Ok(s) ==> entry_index(old(self).entries(), normalize_path(name@)) >= 0
                && s@ == member_text(old(self).entries(), normalize_path(name@)),
            read_determined(old(self).entries(), normalize_path(name@)) ==> (text_or_message(r), final(self).counted(),
                final(self).total()) == read_spec(old(self).entries(), old(self).counted(), old(self).total(), normalize_path(name@)),
    {
        let path = normalize_epub_path(name);
        let info = zip_member_info(&mut self.inner, path.as_str());
        match check_member(path.as_str(), info) {
            Ok(()) => {},
            Err(e) => {
                return Err(e);
            },
        }
        let read = zip_read(&mut self.inner, path.as_str(), MAX_EPUB_TEXT_MEMBER_SIZE + 1);
        proof {
            if read is Ok {
                let es = self.entries();
                let k = entry_index(es, path@);
                lemma_entry_index(es, path@);
                assert(entry_names(es)[k] == path@);
            }
            if read is Err {
                let e = read->Err_0;
                assert((read_failure(path@) + e@).take(read_failure(path@).len() as int) =~= read_failure(path@));
            }
        }
        self.accept_content(path, read)
    }

    /// Returns whether a member exists in the archive (and can be opened).
    pub fn contains(&mut self, name: &str) -> (b: bool)
        requires
            old(self).wf(),
        ensures
            final(self).wf(),
            final(self).entries() == old(self).entries(),
            final(self).counted() == old(self).counted(),
            final(self).total() == old(self).total(),
            b == member_opens(old(self).entries(), normalize_path(name@)),
    {
        let path = normalize_epub_path(name);
        zip_member_info(&mut self.inner, path.as_str()).is_some()
    }

    /// Parses `META-INF/encryption.xml` if present, and returns the set of
    /// encrypted URIs.
    pub fn parse_encryption(&mut self) -> (r: Result<Vec<String>, EpubError>)
        requires
            old(self).wf(),
        ensures
            final(self).wf(),
            final(self).entries() == old(self).entries(),
            r is Err ==> r->Err_0 is InvalidEpub,
            !member_opens(old(self).entries(), normalize_path("META-INF/encryption.xml"@)) ==> (r matches Ok(v)
                && v@.len() == 0 && final(self).counted() == old(self).counted() && final(self).total() == old(self).total()),
            member_opens(old(self).entries(), normalize_path("META-INF/encryption.xml"@))
                && read_determined(old(self).entries(), normalize_path("META-INF/encryption.xml"@)) ==> {
                let rs = read_spec(old(self).entries(), old(self).counted(), old(self).total(),
                    normalize_path("META-INF/encryption.xml"@));
                &&& final(self).counted() == rs.1 && final(self).total() == rs.2
                &&& match rs.0 {
                    Ok(t) => match encryption_run(doc_events(t), 0, seq![]) {
                        Ok(a) => r matches Ok(v) && strings_view(v@) == a,
                        Err(m) => r matches Err(e) && e.message() == m,
                    },
                    Err(m) => r matches Err(e) && e.message() == m,
                }
            },
            member_opens(old(self).entries(), normalize_path("META-INF/encryption.xml"@)) ==> {
                &&& r matches Ok(v) ==> encryption_run(member_events(old(self).entries(),
                    normalize_path("META-INF/encryption.xml"@)), 0, seq![]) == Ok::<Seq<Seq<char>>, Seq<char>>(strings_view(v@))
                &&& encryption_run(member_events(old(self).entries(), normalize_path("META-INF/encryption.xml"@)), 0, seq![])
                    is Err ==> r is Err
            },
    {
        if !self.contains("META-INF/encryption.xml") {
            return Ok(Vec::new());
        }
        let xml = match self.read_text("META-INF/encryption.xml") {
            Ok(x) => x,
            Err(e) => {
                return Err(e);
            },
        };
        parse_encryption_uris(xml.as_str())
    }
}

} // verus!
