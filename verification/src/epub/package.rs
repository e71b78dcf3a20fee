//! EPUB package document data: manifest, spine and table of contents.

use vstd::prelude::*;
use crate::epub::archive::{before_hash, normalize_chars, normalize_path, Archive, entry_index, member_events, read_spec,
    read_determined};
use crate::epub::xml::{xml_events, doc_events, toks, attr_toks, text_tok, XmlTok, AttrTok};
use crate::text::{decimal, decimal_exec, str_chars, string_from_chars, string_is, chars_eq};
use crate::TocEntry;
use vstd::string::StringSliceAdditionalSpecFns;
use vstd::utf8::{valid_utf8, decode_utf8};
use crate::error::{EpubError, invalid, invalid_msg};
use crate::epub::xml::{XmlEvent, XmlAttr, local_name, local_name_exec, bytes_is, attr_text, utrim, uwords,
    utf8_decode, trim_string, split_whitespace};

verus! {

/// A manifest item from the OPF.
#[derive(Debug, Clone)]
pub struct ManifestItem {
    pub id: String,
    pub href: String,
    pub media_type: String,
    pub properties: Vec<String>,
}

/// Parsed package document data.
#[derive(Debug)]
pub struct Package {
    pub title: String,
    pub author: String,
    pub manifest: Vec<ManifestItem>,
    pub spine: Vec<String>,
}

/// The views of a vector of strings.
pub open spec fn strings_view(v: Seq<String>) -> Seq<Seq<char>> {
    v.map_values(|s: String| s@)
}

/// A table-of-contents entry seen as title, href and spine position.
pub type TocV = (Seq<char>, Seq<char>, Option<usize>);

pub open spec fn toc_entry_view(e: TocEntry) -> TocV {
    (e.title@, e.href@, e.spine_index)
}

pub open spec fn toc_view(v: Seq<TocEntry>) -> Seq<TocV> {
    v.map_values(|e: TocEntry| toc_entry_view(e))
}

/// Index of the first manifest item with id `id`, or -1.
pub open spec fn find_id(m: Seq<ManifestItem>, id: Seq<char>) -> int
    decreases m.len(),
{
    if m.len() == 0 {
        -1
    } else {
        let k = find_id(m.drop_last(), id);
        if k >= 0 {
            k
        } else if m.last().id@ == id {
            m.len() - 1
        } else {
            -1
        }
    }
}

proof fn lemma_find_id_prefix(m: Seq<ManifestItem>, id: Seq<char>, k: int)
    requires
        0 <= k <= m.len(),
        find_id(m.take(k), id) >= 0,
    ensures
        find_id(m, id) == find_id(m.take(k), id),
    decreases m.len() - k,
{
    if k < m.len() {
        assert(m.take(k + 1).drop_last() =~= m.take(k));
        lemma_find_id_prefix(m, id, k + 1);
    } else {
        assert(m.take(k) =~= m);
    }
}

pub proof fn lemma_find_id_range(m: Seq<ManifestItem>, id: Seq<char>)
    ensures
        -1 <= find_id(m, id) < m.len(),
        find_id(m, id) >= 0 ==> m[find_id(m, id)].id@ == id,
    decreases m.len(),
{
    if m.len() > 0 {
        lemma_find_id_range(m.drop_last(), id);
    }
}

/// Index of the first manifest item whose id is `id`.
pub fn find_id_exec(m: &[ManifestItem], id: &String) -> (r: Option<usize>)
    ensures
        match r {
            Some(k) => find_id(m@, id@) == k as int,
            None => find_id(m@, id@) == -1,
        },
{
    let idc = str_chars(id.as_str());
    let mut i: usize = 0;
    assert(m@.take(0) =~= Seq::<ManifestItem>::empty());
    while i < m.len()
        invariant
            i <= m.len(),
            idc@ == id@,
            find_id(m@.take(i as int), id@) == -1,
        decreases m.len() - i,
    {
        assert(m@.take(i + 1).drop_last() =~= m@.take(i as int));
        let c = str_chars(m[i].id.as_str());
        if chars_eq(&c, &idc) {
            proof {
                lemma_find_id_prefix(m@, id@, i + 1);
            }
            return Some(i);
        }
        i += 1;
    }
    assert(m@.take(i as int) =~= m@);
    None
}

/// The manifest item declares the `nav` property.
pub open spec fn has_nav(item: ManifestItem) -> bool {
    exists|j: int| 0 <= j < item.properties@.len() && #[trigger] item.properties@[j]@ == "nav"@
}

/// The manifest item is an NCX document.
pub open spec fn is_ncx(item: ManifestItem) -> bool {
    item.media_type@ == "application/x-dtbncx+xml"@
}

/// Index of the first item satisfying `has_nav` (`nav == true`) or
/// `is_ncx` (`nav == false`), or -1.
pub open spec fn first_toc_item(m: Seq<ManifestItem>, nav: bool) -> int
    decreases m.len(),
{
    if m.len() == 0 {
        -1
    } else {
        let k = first_toc_item(m.drop_last(), nav);
        if k >= 0 {
            k
        } else if (if nav { has_nav(m.last()) } else { is_ncx(m.last()) }) {
            m.len() - 1
        } else {
            -1
        }
    }
}

proof fn lemma_first_toc_item_prefix(m: Seq<ManifestItem>, nav: bool, k: int)
    requires
        0 <= k <= m.len(),
        first_toc_item(m.take(k), nav) >= 0,
    ensures
        first_toc_item(m, nav) == first_toc_item(m.take(k), nav),
    decreases m.len() - k,
{
    if k < m.len() {
        assert(m.take(k + 1).drop_last() =~= m.take(k));
        lemma_first_toc_item_prefix(m, nav, k + 1);
    } else {
        assert(m.take(k) =~= m);
    }
}

/// The href of the table-of-contents document: the first item with the
/// `nav` property (EPUB 3), else the first NCX item (EPUB 2).
pub open spec fn toc_document(m: Seq<ManifestItem>) -> Option<Seq<char>> {
    let n = first_toc_item(m, true);
    let x = first_toc_item(m, false);
    if n >= 0 {
        Some(m[n].href@)
    } else if x >= 0 {
        Some(m[x].href@)
    } else {
        None
    }
}

fn has_nav_exec(item: &ManifestItem) -> (b: bool)
    ensures
        b == has_nav(*item),
{
    let mut j: usize = 0;
    while j < item.properties.len()
        invariant
            j <= item.properties@.len(),
            forall|k: int| 0 <= k < j ==> item.properties@[k]@ != "nav"@,
        decreases item.properties@.len() - j,
    {
        if string_is(&item.properties[j], "nav") {
            return true;
        }
        j += 1;
    }
    false
}

fn first_toc_item_exec(m: &[ManifestItem], nav: bool) -> (r: Option<usize>)
    ensures
        match r {
            Some(k) => first_toc_item(m@, nav) == k as int && k < m@.len(),
            None => first_toc_item(m@, nav) == -1,
        },
{
    let mut i: usize = 0;
    assert(m@.take(0) =~= Seq::<ManifestItem>::empty());
    while i < m.len()
        invariant
            i <= m.len(),
            first_toc_item(m@.take(i as int), nav) == -1,
        decreases m.len() - i,
    {
        assert(m@.take(i + 1).drop_last() =~= m@.take(i as int));
        let hit = if nav { has_nav_exec(&m[i]) } else { string_is(&m[i].media_type, "application/x-dtbncx+xml") };
        if hit {
            proof {
                lemma_first_toc_item_prefix(m@, nav, i + 1);
            }
            return Some(i);
        }
        i += 1;
    }
    assert(m@.take(i as int) =~= m@);
    None
}

/// Finds the TOC document href from the manifest.
pub fn find_toc_document(manifest: &[ManifestItem]) -> (r: Option<String>)
    ensures
        (match r { Some(s) => Some(s@), None => None::<Seq<char>> }) == toc_document(manifest@),
{
    match first_toc_item_exec(manifest, true) {
        Some(k) => Some(manifest[k].href.clone()),
        None => match first_toc_item_exec(manifest, false) {
            Some(k) => Some(manifest[k].href.clone()),
            None => None,
        },
    }
}

/// Generic entries, "Chapter N" for spine position N - 1, for the spine
/// items found in the manifest.
pub open spec fn fallback_toc(spine: Seq<Seq<char>>, m: Seq<ManifestItem>) -> Seq<TocV>
    decreases spine.len(),
{
    if spine.len() == 0 {
        seq![]
    } else {
        let prev = fallback_toc(spine.drop_last(), m);
        let idx = spine.len() - 1;
        let k = find_id(m, spine.last());
        if k >= 0 {
            prev.push(("Chapter "@ + decimal(spine.len() as nat), m[k].href@, Some(idx as usize)))
        } else {
            prev
        }
    }
}

/// Generates generic TOC entries when no NCX or nav document is available.
pub fn generate_fallback_toc(spine: &[String], manifest: &[ManifestItem]) -> (toc: Vec<TocEntry>)
    ensures
        toc_view(toc@) == fallback_toc(strings_view(spine@), manifest@),
{
    let ghost sv = strings_view(spine@);
    let mut toc: Vec<TocEntry> = Vec::new();
    let mut i: usize = 0;
    while i < spine.len()
        invariant
            i <= spine.len(),
            sv == strings_view(spine@),
            toc_view(toc@) == fallback_toc(sv.take(i as int), manifest@),
        decreases spine.len() - i,
    {
        assert(sv.take(i + 1).drop_last() =~= sv.take(i as int));
        assert(sv.take(i + 1).last() == spine@[i as int]@);
        match find_id_exec(manifest, &spine[i]) {
            Some(k) => {
                proof { lemma_find_id_range(manifest@, spine@[i as int]@); }
                let mut title = str_chars("Chapter ");
                let digits = decimal_exec(i + 1);
                let mut j: usize = 0;
                let ghost t0 = title@;
                while j < digits.len()
                    invariant
                        j <= digits.len(),
                        title@ == t0 + digits@.take(j as int),
                    decreases digits.len() - j,
                {
                    title.push(digits[j]);
                    assert(digits@.take(j + 1) =~= digits@.take(j as int).push(digits@[j as int]));
                    j += 1;
                }
                assert(digits@.take(j as int) =~= digits@);
                let ghost old_toc = toc@;
                toc.push(TocEntry {
                    title: string_from_chars(title.as_slice()),
                    href: manifest[k].href.clone(),
                    spine_index: Some(i),
                });
                assert(toc_view(toc@) =~= toc_view(old_toc).push(toc_entry_view(toc@.last())));
            },
            None => {},
        }
        i += 1;
    }
    assert(sv.take(i as int) =~= sv);
    toc
}

/// The normalized href of the manifest item of spine position `idx`.
pub open spec fn spine_key(spine: Seq<Seq<char>>, m: Seq<ManifestItem>, idx: int) -> Option<Seq<char>> {
    let k = find_id(m, spine[idx]);
    if k >= 0 {
        Some(normalize_path(m[k].href@))
    } else {
        None
    }
}

/// The last spine position before `n` whose item's normalized href is `r`.
pub open spec fn lookup_spine(spine: Seq<Seq<char>>, m: Seq<ManifestItem>, r: Seq<char>, n: int) -> Option<usize>
    decreases n,
{
    if n <= 0 {
        None
    } else if spine_key(spine, m, n - 1) == Some(r) {
        Some((n - 1) as usize)
    } else {
        lookup_spine(spine, m, r, n - 1)
    }
}

/// A TOC href (fragment dropped) resolved against the TOC document's
/// directory and normalized.
pub open spec fn resolve_href(href: Seq<char>, dir: Option<Seq<char>>) -> Seq<char> {
    match dir {
        Some(d) => normalize_path(d + seq!['/'] + before_hash(href)),
        None => normalize_path(before_hash(href)),
    }
}

/// A TOC entry with its spine position resolved.
pub open spec fn resolve_entry(e: TocV, spine: Seq<Seq<char>>, m: Seq<ManifestItem>, dir: Option<Seq<char>>) -> TocV {
    (e.0, e.1, lookup_spine(spine, m, resolve_href(e.1, dir), spine.len() as int))
}

fn before_hash_exec(s: &Vec<char>) -> (r: Vec<char>)
    ensures
        r@ == before_hash(s@),
{
    let mut r: Vec<char> = Vec::new();
    let mut i: usize = 0;
    assert(s@.take(0) =~= Seq::<char>::empty());
    assert(s@.skip(0) =~= s@);
    while i < s.len() && s[i] != '#'
        invariant
            i <= s.len(),
            r@ == s@.take(i as int),
            before_hash(s@) == s@.take(i as int) + before_hash(s@.skip(i as int)),
        decreases s.len() - i,
    {
        assert(s@.skip(i as int).skip(1) =~= s@.skip(i + 1));
        assert(s@.take(i + 1) =~= s@.take(i as int) + seq![s@[i as int]]);
        r.push(s[i]);
        i += 1;
    }
    assert(before_hash(s@.skip(i as int)) =~= Seq::<char>::empty());
    assert(before_hash(s@) =~= r@);
    r
}

/// Resolves TOC entry spine_index values by matching hrefs against the manifest
/// and spine order.
pub fn resolve_toc_spine_indices(
    toc: &mut Vec<TocEntry>,
    manifest: &[ManifestItem],
    spine: &[String],
    toc_base_dir: Option<&str>,
)
    ensures
        final(toc)@.len() == old(toc)@.len(),
        forall|i: int| 0 <= i < old(toc)@.len() ==> #[trigger] toc_view(final(toc)@)[i] == resolve_entry(
            toc_view(old(toc)@)[i],
            strings_view(spine@),
            manifest@,
            match toc_base_dir { Some(d) => Some(d@), None => None::<Seq<char>> },
        ),
{
    let ghost sv = strings_view(spine@);
    let ghost dirv = match toc_base_dir { Some(d) => Some(d@), None => None::<Seq<char>> };
    let mut keys: Vec<Option<Vec<char>>> = Vec::new();
    let mut i: usize = 0;
    while i < spine.len()
        invariant
            i <= spine.len(),
            sv == strings_view(spine@),
            keys@.len() == i,
            forall|j: int| 0 <= j < i ==> #[trigger] crate::extract::opt_view(keys@[j]) == spine_key(sv, manifest@, j),
        decreases spine.len() - i,
    {
        match find_id_exec(manifest, &spine[i]) {
            Some(k) => {
                proof { lemma_find_id_range(manifest@, spine@[i as int]@); }
                let h = str_chars(manifest[k].href.as_str());
                keys.push(Some(normalize_chars(&h)));
            },
            None => keys.push(None),
        }
        i += 1;
    }
    let dir_chars: Option<Vec<char>> = match toc_base_dir {
        Some(d) => Some(str_chars(d)),
        None => None,
    };
    let ghost old_toc = toc@;
    let mut entries: Vec<TocEntry> = Vec::new();
    std::mem::swap(&mut entries, toc);
    let ghost ov = toc_view(old_toc);
    let ghost n0 = old_toc.len();
    assert(toc@.len() == 0);
    for e in it: entries
        invariant
            it.seq() == old_toc,
            ov == toc_view(old_toc),
            toc@.len() == it.index(),
            keys@.len() == sv.len(),
            sv == strings_view(spine@),
            forall|j: int| 0 <= j < keys@.len() ==> #[trigger] crate::extract::opt_view(keys@[j]) == spine_key(sv, manifest@, j),
            crate::extract::opt_view(dir_chars) == dirv,
            forall|j: int| 0 <= j < toc@.len() ==> #[trigger] toc_view(toc@)[j] == resolve_entry(ov[j], sv, manifest@, dirv),
    {
        let ghost idx = it.index();
        assert(e == old_toc[idx]);
        assert(ov[idx] == toc_entry_view(e));
        let hc = str_chars(e.href.as_str());
        let raw = before_hash_exec(&hc);
        let full: Vec<char> = match &dir_chars {
            Some(d) => {
                let mut f: Vec<char> = Vec::new();
                let mut a: usize = 0;
                while a < d.len()
                    invariant
                        a <= d.len(),
                        f@ == d@.take(a as int),
                    decreases d.len() - a,
                {
                    f.push(d[a]);
                    assert(d@.take(a + 1) =~= d@.take(a as int).push(d@[a as int]));
                    a += 1;
                }
                f.push('/');
                let ghost f0 = f@;
                let mut b: usize = 0;
                while b < raw.len()
                    invariant
                        b <= raw.len(),
                        f@ == f0 + raw@.take(b as int),
                    decreases raw.len() - b,
                {
                    f.push(raw[b]);
                    assert(raw@.take(b + 1) =~= raw@.take(b as int).push(raw@[b as int]));
                    b += 1;
                }
                assert(d@.take(a as int) =~= d@);
                assert(raw@.take(b as int) =~= raw@);
                assert(f@ =~= d@ + seq!['/'] + raw@);
                f
            },
            None => raw,
        };
        let resolved = normalize_chars(&full);
        assert(resolved@ == resolve_href(e.href@, dirv));
        let mut found: Option<usize> = None;
        let mut p: usize = keys.len();
        while p > 0
            invariant
                p <= keys@.len(),
                keys@.len() == sv.len(),
                forall|j: int| 0 <= j < keys@.len() ==> #[trigger] crate::extract::opt_view(keys@[j]) == spine_key(sv, manifest@, j),
                found is None ==> lookup_spine(sv, manifest@, resolved@, sv.len() as int) == lookup_spine(sv, manifest@, resolved@, p as int),
                found matches Some(x) ==> lookup_spine(sv, manifest@, resolved@, sv.len() as int) == Some(x),
            ensures
                found == lookup_spine(sv, manifest@, resolved@, sv.len() as int),
            decreases p,
        {
            if found.is_some() {
                break;
            }
            assert(crate::extract::opt_view(keys@[p - 1]) == spine_key(sv, manifest@, p - 1));
            let hit = match &keys[p - 1] {
                Some(kv) => chars_eq(kv, &resolved),
                None => false,
            };
            assert(hit == (spine_key(sv, manifest@, p - 1) == Some(resolved@)));
            if hit {
                found = Some(p - 1);
            }
            p -= 1;
        }
        let ghost before = toc@;
        toc.push(TocEntry { title: e.title, href: e.href, spine_index: found });
        assert(toc_view(toc@) =~= toc_view(before).push(toc_entry_view(toc@.last())));
        assert(found == lookup_spine(sv, manifest@, resolved@, sv.len() as int));
        assert(toc_view(toc@)[idx] == resolve_entry(ov[idx], sv, manifest@, dirv));
    }
}


// ---------------------------------------------------------------------------
// META-INF/container.xml
// ---------------------------------------------------------------------------

/// The package path named by the attributes `attrs[i..]` of a `rootfile`
/// element: `None` when no `full-path` attribute follows.
pub open spec fn rootfile_attrs(attrs: Seq<AttrTok>, i: int) -> Option<Result<Seq<char>, Seq<char>>>
    decreases attrs.len() - i,
{
    if i < 0 || i >= attrs.len() {
        None
    } else {
        match attrs[i] {
            Err(e) => Some(Err("malformed container.xml: "@ + e)),
            Ok((k, v)) => if local_name(k) == "full-path".spec_bytes() {
                if valid_utf8(v) {
                    Some(Ok(normalize_path(utrim(decode_utf8(v)))))
                } else {
                    Some(Err("non-UTF-8 path in container.xml"@))
                }
            } else {
                rootfile_attrs(attrs, i + 1)
            },
        }
    }
}

/// The package document path found in the container events `evs[i..]`:
/// the normalized `full-path` of the first `rootfile` element that has one.
pub open spec fn opf_run(evs: Seq<XmlTok>, i: int) -> Result<Seq<char>, Seq<char>>
    decreases evs.len() - i,
{
    if i < 0 || i >= evs.len() {
        Err("no rootfile found in container.xml"@)
    } else {
        match evs[i] {
            XmlTok::Start(n, a) => if local_name(n) == "rootfile".spec_bytes() {
                match rootfile_attrs(a, 0) {
                    Some(r) => r,
                    None => opf_run(evs, i + 1),
                }
            } else {
                opf_run(evs, i + 1)
            },
            XmlTok::Empty(n, a) => if local_name(n) == "rootfile".spec_bytes() {
                match rootfile_attrs(a, 0) {
                    Some(r) => r,
                    None => opf_run(evs, i + 1),
                }
            } else {
                opf_run(evs, i + 1)
            },
            XmlTok::Eof => Err("no rootfile found in container.xml"@),
            XmlTok::Error(e) => Err("failed to parse container.xml: "@ + e),
            _ => opf_run(evs, i + 1),
        }
    }
}

fn rootfile_attrs_exec(attrs: &Vec<XmlAttr>) -> (r: Option<Result<String, EpubError>>)
    ensures
        match rootfile_attrs(attr_toks(attrs@), 0) {
            None => r is None,
            Some(Ok(p)) => r matches Some(Ok(s)) && s@ == p,
            Some(Err(m)) => r matches Some(Err(e)) && e is InvalidEpub && e.message() == m,
        },
{
    let mut j: usize = 0;
    while j < attrs.len()
        invariant
            j <= attrs@.len(),
            rootfile_attrs(attr_toks(attrs@), 0) == rootfile_attrs(attr_toks(attrs@), j as int),
        decreases attrs@.len() - j,
    {
        match &attrs[j] {
            Err(e) => {
                return Some(Err(invalid("malformed container.xml: ", e.as_str())));
            },
            Ok((k, v)) => {
                if bytes_is(&local_name_exec(k), "full-path") {
                    match attr_text(v) {
                        Some(t) => {
                            return Some(Ok(crate::epub::archive::normalize_epub_path(t.as_str())));
                        },
                        None => {
                            return Some(Err(invalid_msg("non-UTF-8 path in container.xml")));
                        },
                    }
                }
            },
        }
        j += 1;
    }
    None
}

/// Locates the package document path in `META-INF/container.xml`, given as
/// events.
pub fn opf_path_from_events(evs: &Vec<XmlEvent>) -> (r: Result<String, EpubError>)
    ensures
        match opf_run(toks(evs@), 0) {
            Ok(p) => r matches Ok(s) && s@ == p,
            Err(m) => r matches Err(e) && e is InvalidEpub && e.message() == m,
        },
{
    let mut i: usize = 0;
    while i < evs.len()
        invariant
            i <= evs@.len(),
            opf_run(toks(evs@), 0) == opf_run(toks(evs@), i as int),
        decreases evs@.len() - i,
    {
        match &evs[i] {
            XmlEvent::Start(n, a) => {
                if bytes_is(&local_name_exec(n), "rootfile") {
                    match rootfile_attrs_exec(a) {
                        Some(r) => return r,
                        None => {},
                    }
                }
            },
            XmlEvent::Empty(n, a) => {
                if bytes_is(&local_name_exec(n), "rootfile") {
                    match rootfile_attrs_exec(a) {
                        Some(r) => return r,
                        None => {},
                    }
                }
            },
            XmlEvent::Eof => {
                return Err(invalid_msg("no rootfile found in container.xml"));
            },
            XmlEvent::Error(e) => {
                return Err(invalid("failed to parse container.xml: ", e.as_str()));
            },
            _ => {},
        }
        i += 1;
    }
    Err(invalid_msg("no rootfile found in container.xml"))
}

// ---------------------------------------------------------------------------
// The package document (OPF)
// ---------------------------------------------------------------------------

/// A manifest item seen as id, href, media type and properties.
pub type ItemV = (Seq<char>, Seq<char>, Seq<char>, Seq<Seq<char>>);

pub open spec fn item_view(m: ManifestItem) -> ItemV {
    (m.id@, m.href@, m.media_type@, strings_view(m.properties@))
}

pub open spec fn manifest_view(v: Seq<ManifestItem>) -> Seq<ItemV> {
    v.map_values(|m: ManifestItem| item_view(m))
}

/// The item read from the attributes `attrs[i..]` on top of `cur`; `None`
/// when an attribute is malformed or not UTF-8.
pub open spec fn item_attrs(attrs: Seq<AttrTok>, i: int, cur: ItemV) -> Option<ItemV>
    decreases attrs.len() - i,
{
    if i < 0 || i >= attrs.len() {
        Some(cur)
    } else {
        match attrs[i] {
            Err(_) => None,
            Ok((k, v)) => if !valid_utf8(v) {
                None
            } else {
                let val = decode_utf8(v);
                let lk = local_name(k);
                let next = if lk == "id".spec_bytes() {
                    (utrim(val), cur.1, cur.2, cur.3)
                } else if lk == "href".spec_bytes() {
                    (cur.0, utrim(val), cur.2, cur.3)
                } else if lk == "media-type".spec_bytes() {
                    (cur.0, cur.1, utrim(val), cur.3)
                } else if lk == "properties".spec_bytes() {
                    (cur.0, cur.1, cur.2, uwords(val))
                } else {
                    cur
                };
                item_attrs(attrs, i + 1, next)
            },
        }
    }
}

/// The manifest item an `<item>` element declares: `None` when an
/// attribute is malformed or not UTF-8, or the id or href is empty.
pub open spec fn manifest_item(attrs: Seq<AttrTok>) -> Option<ItemV> {
    match item_attrs(attrs, 0, (seq![], seq![], seq![], seq![])) {
        Some(m) => if m.0.len() == 0 || m.1.len() == 0 { None } else { Some(m) },
        None => None,
    }
}

/// Parses a manifest `<item>` element's attributes.
pub fn parse_manifest_item(attrs: &Vec<XmlAttr>) -> (r: Option<ManifestItem>)
    ensures
        match manifest_item(attr_toks(attrs@)) {
            Some(m) => r matches Some(it) && item_view(it) == m,
            None => r is None,
        },
{
    let mut id = String::new();
    let mut href = String::new();
    let mut media_type = String::new();
    let mut properties: Vec<String> = Vec::new();
    assert(strings_view(properties@) =~= Seq::<Seq<char>>::empty());
    let mut j: usize = 0;
    while j < attrs.len()
        invariant
            j <= attrs@.len(),
            item_attrs(attr_toks(attrs@), 0, (seq![], seq![], seq![], seq![])) == item_attrs(
                attr_toks(attrs@),
                j as int,
                (id@, href@, media_type@, strings_view(properties@)),
            ),
        decreases attrs@.len() - j,
    {
        match &attrs[j] {
            Err(_) => {
                return None;
            },
            Ok((k, v)) => {
                let val = match utf8_decode(v.as_slice()) {
                    Some(s) => s,
                    None => {
                        return None;
                    },
                };
                let lk = local_name_exec(k);
                if bytes_is(&lk, "id") {
                    id = trim_string(&val);
                } else if bytes_is(&lk, "href") {
                    href = trim_string(&val);
                } else if bytes_is(&lk, "media-type") {
                    media_type = trim_string(&val);
                } else if bytes_is(&lk, "properties") {
                    properties = split_whitespace(&val);
                }
            },
        }
        j += 1;
    }
    if id.as_str().is_empty() || href.as_str().is_empty() {
        return None;
    }
    Some(ManifestItem { id: id, href: href, media_type: media_type, properties: properties })
}


/// OPF reader state: section (0 none, 1 metadata, 2 manifest, 3 spine),
/// the metadata element being read, title, author, manifest, spine.
pub type PkgV = (u8, Option<Seq<u8>>, Seq<char>, Seq<char>, Seq<ItemV>, Seq<Seq<char>>);

/// The spine after the attributes `attrs[i..]` of an `<itemref>`, or the
/// message of the error met first.
pub open spec fn itemref_attrs(attrs: Seq<AttrTok>, i: int, spine: Seq<Seq<char>>) -> Result<Seq<Seq<char>>, Seq<char>>
    decreases attrs.len() - i,
{
    if i < 0 || i >= attrs.len() {
        Ok(spine)
    } else {
        match attrs[i] {
            Err(e) => Err("malformed OPF: "@ + e),
            Ok((k, v)) => if local_name(k) == "idref".spec_bytes() {
                if valid_utf8(v) {
                    itemref_attrs(attrs, i + 1, spine.push(utrim(decode_utf8(v))))
                } else {
                    Err("non-UTF-8 idref in OPF"@)
                }
            } else {
                itemref_attrs(attrs, i + 1, spine)
            },
        }
    }
}

/// The state after an `<item>` or `<itemref>` in the manifest or spine
/// section (Start and Empty events alike); other elements change nothing.
pub open spec fn pkg_listing(st: PkgV, ln: Seq<u8>, a: Seq<AttrTok>) -> Result<PkgV, Seq<char>> {
    let (sec, tag, title, author, man, spine) = st;
    if sec == 2 && ln == "item".spec_bytes() {
        match manifest_item(a) {
            Some(m) => Ok((sec, tag, title, author, man.push(m), spine)),
            None => Ok(st),
        }
    } else if sec == 3 && ln == "itemref".spec_bytes() {
        match itemref_attrs(a, 0, spine) {
            Ok(sp) => Ok((sec, tag, title, author, man, sp)),
            Err(m) => Err(m),
        }
    } else {
        Ok(st)
    }
}

/// The OPF reader run over the events `evs[i..]` from state `st`.
pub open spec fn pkg_run(evs: Seq<XmlTok>, i: int, st: PkgV) -> Result<PkgV, Seq<char>>
    decreases evs.len() - i,
{
    if i < 0 || i >= evs.len() {
        Ok(st)
    } else {
        let (sec, tag, title, author, man, spine) = st;
        match evs[i] {
            XmlTok::Start(n, a) => {
                let ln = local_name(n);
                if ln == "metadata".spec_bytes() {
                    pkg_run(evs, i + 1, (1, tag, title, author, man, spine))
                } else if ln == "manifest".spec_bytes() {
                    pkg_run(evs, i + 1, (2, tag, title, author, man, spine))
                } else if ln == "spine".spec_bytes() {
                    pkg_run(evs, i + 1, (3, tag, title, author, man, spine))
                } else if sec == 1 {
                    pkg_run(evs, i + 1, (sec, Some(ln), title, author, man, spine))
                } else {
                    match pkg_listing(st, ln, a) {
                        Ok(st2) => pkg_run(evs, i + 1, st2),
                        Err(m) => Err(m),
                    }
                }
            },
            XmlTok::Empty(n, a) => {
                let ln = local_name(n);
                if sec == 1 {
                    pkg_run(evs, i + 1, (sec, Some(ln), title, author, man, spine))
                } else {
                    match pkg_listing(st, ln, a) {
                        Ok(st2) => pkg_run(evs, i + 1, st2),
                        Err(m) => Err(m),
                    }
                }
            },
            XmlTok::End(n) => {
                let ln = local_name(n);
                if (sec == 1 && ln == "metadata".spec_bytes()) || (sec == 2 && ln == "manifest".spec_bytes()) || (
                sec == 3 && ln == "spine".spec_bytes()) {
                    pkg_run(evs, i + 1, (0, tag, title, author, man, spine))
                } else if sec == 1 && tag == Some(ln) {
                    pkg_run(evs, i + 1, (sec, None, title, author, man, spine))
                } else {
                    pkg_run(evs, i + 1, st)
                }
            },
            XmlTok::Text(t) => if sec == 1 {
                match t {
                    Err(e) => Err("failed to unescape OPF text: "@ + e),
                    Ok(txt) => {
                        let tr = utrim(txt);
                        if tr.len() > 0 && tag == Some("title".spec_bytes()) && title.len() == 0 {
                            pkg_run(evs, i + 1, (sec, tag, tr, author, man, spine))
                        } else if tr.len() > 0 && tag == Some("creator".spec_bytes()) && author.len() == 0 {
                            pkg_run(evs, i + 1, (sec, tag, title, tr, man, spine))
                        } else {
                            pkg_run(evs, i + 1, st)
                        }
                    },
                }
            } else {
                pkg_run(evs, i + 1, st)
            },
            XmlTok::Eof => Ok(st),
            XmlTok::Error(e) => Err("failed to parse OPF: "@ + e),
            XmlTok::Other => pkg_run(evs, i + 1, st),
        }
    }
}

/// Index of the last `/` of `p`, or -1.
pub open spec fn last_slash(p: Seq<char>) -> int
    decreases p.len(),
{
    if p.len() == 0 {
        -1
    } else if p.last() == '/' {
        p.len() - 1
    } else {
        last_slash(p.drop_last())
    }
}

/// A manifest href resolved against the package document's directory:
/// a relative href gets the directory prefix, an absolute one is kept.
pub open spec fn resolve_item(m: ItemV, opf_path: Seq<char>) -> ItemV {
    let k = last_slash(opf_path);
    if k >= 0 && !(m.1.len() > 0 && m.1[0] == '/') {
        (m.0, opf_path.take(k) + seq!['/'] + m.1, m.2, m.3)
    } else {
        m
    }
}

/// A package seen as title, author, manifest, spine.
pub type PackageV = (Seq<char>, Seq<char>, Seq<ItemV>, Seq<Seq<char>>);

pub open spec fn package_view(p: Package) -> PackageV {
    (p.title@, p.author@, manifest_view(p.manifest@), strings_view(p.spine@))
}

/// The package read from the events of the package document at `opf_path`:
/// the first title and creator of the metadata, the manifest items with
/// hrefs resolved against the document's directory, the spine; an empty
/// spine is an error.
pub open spec fn package_from_events(evs: Seq<XmlTok>, opf_path: Seq<char>) -> Result<PackageV, Seq<char>> {
    match pkg_run(evs, 0, (0, None, seq![], seq![], seq![], seq![])) {
        Err(m) => Err(m),
        Ok(st) => if st.5.len() == 0 {
            Err("EPUB has no spine items (empty spine)"@)
        } else {
            Ok((st.2, st.3, st.4.map_values(|m: ItemV| resolve_item(m, opf_path)), st.5))
        },
    }
}

fn itemref_exec(attrs: &Vec<XmlAttr>, spine: &mut Vec<String>) -> (r: Result<(), EpubError>)
    ensures
        match itemref_attrs(attr_toks(attrs@), 0, strings_view(old(spine)@)) {
            Ok(sp) => r is Ok && strings_view(final(spine)@) == sp,
            Err(m) => r matches Err(e) && e is InvalidEpub && e.message() == m,
        },
{
    let ghost s0 = strings_view(spine@);
    let mut j: usize = 0;
    while j < attrs.len()
        invariant
            j <= attrs@.len(),
            s0 == strings_view(old(spine)@),
            itemref_attrs(attr_toks(attrs@), 0, s0) == itemref_attrs(attr_toks(attrs@), j as int, strings_view(spine@)),
        decreases attrs@.len() - j,
    {
        match &attrs[j] {
            Err(e) => {
                return Err(invalid("malformed OPF: ", e.as_str()));
            },
            Ok((k, v)) => {
                if bytes_is(&local_name_exec(k), "idref") {
                    match attr_text(v) {
                        Some(t) => {
                            let ghost before = strings_view(spine@);
                            spine.push(t);
                            assert(strings_view(spine@) =~= before.push(t@));
                        },
                        None => {
                            return Err(invalid_msg("non-UTF-8 idref in OPF"));
                        },
                    }
                }
            },
        }
        j += 1;
    }
    Ok(())
}

/// Exec form of the OPF reader state.
struct PkgState {
    sec: u8,
    tag: Option<Vec<u8>>,
    title: String,
    author: String,
    manifest: Vec<ManifestItem>,
    spine: Vec<String>,
}

impl PkgState {
    spec fn view(&self) -> PkgV {
        (
            self.sec,
            match self.tag { Some(t) => Some(t@), None => None },
            self.title@,
            self.author@,
            manifest_view(self.manifest@),
            strings_view(self.spine@),
        )
    }

    fn listing(&mut self, ln: &Vec<u8>, a: &Vec<XmlAttr>) -> (r: Result<(), EpubError>)
        ensures
            match pkg_listing(old(self).view(), ln@, attr_toks(a@)) {
                Ok(st) => r is Ok && final(self).view() == st,
                Err(m) => r matches Err(e) && e is InvalidEpub && e.message() == m,
            },
    {
        if self.sec == 2 && bytes_is(ln, "item") {
            match parse_manifest_item(a) {
                Some(m) => {
                    let ghost before = manifest_view(self.manifest@);
                    self.manifest.push(m);
                    assert(manifest_view(self.manifest@) =~= before.push(item_view(m)));
                },
                None => {},
            }
            Ok(())
        } else if self.sec == 3 && bytes_is(ln, "itemref") {
            itemref_exec(a, &mut self.spine)
        } else {
            Ok(())
        }
    }
}

/// Parses the package document given as events.
pub fn package_from_events_exec(evs: &Vec<XmlEvent>, opf_path: &str) -> (r: Result<Package, EpubError>)
    ensures
        match package_from_events(toks(evs@), opf_path@) {
            Ok(p) => r matches Ok(pk) && package_view(pk) == p,
            Err(m) => r matches Err(e) && e is InvalidEpub && e.message() == m,
        },
{
    let mut st = PkgState {
        sec: 0,
        tag: None,
        title: String::new(),
        author: String::new(),
        manifest: Vec::new(),
        spine: Vec::new(),
    };
    let ghost init: PkgV = (0, None, seq![], seq![], seq![], seq![]);
    assert(st.view() =~= init) by {
        assert(manifest_view(st.manifest@) =~= Seq::<ItemV>::empty());
        assert(strings_view(st.spine@) =~= Seq::<Seq<char>>::empty());
    }
    let mut i: usize = 0;
    let mut done = false;
    while i < evs.len() && !done
        invariant
            i <= evs@.len(),
            init == (0u8, None::<Seq<u8>>, Seq::<char>::empty(), Seq::<char>::empty(), Seq::<ItemV>::empty(), Seq::<Seq<char>>::empty()),
            done ==> pkg_run(toks(evs@), 0, init) == Ok::<PkgV, Seq<char>>(st.view()),
            !done ==> pkg_run(toks(evs@), 0, init) == pkg_run(toks(evs@), i as int, st.view()),
        decreases evs@.len() - i,
    {
        let ghost sv = st.view();
        match &evs[i] {
            XmlEvent::Start(n, a) => {
                let ln = local_name_exec(n);
                if bytes_is(&ln, "metadata") {
                    st.sec = 1;
                } else if bytes_is(&ln, "manifest") {
                    st.sec = 2;
                } else if bytes_is(&ln, "spine") {
                    st.sec = 3;
                } else if st.sec == 1 {
                    st.tag = Some(ln);
                } else {
                    match st.listing(&ln, a) {
                        Ok(()) => {},
                        Err(e) => {
                            assert(toks(evs@)[i as int] == XmlTok::Start(n@, attr_toks(a@)));
                            assert(pkg_listing(sv, ln@, attr_toks(a@)) is Err);
                            assert(pkg_run(toks(evs@), i as int, sv) is Err);
                            return Err(e);
                        },
                    }
                }
            },
            XmlEvent::Empty(n, a) => {
                let ln = local_name_exec(n);
                if st.sec == 1 {
                    st.tag = Some(ln);
                } else {
                    match st.listing(&ln, a) {
                        Ok(()) => {},
                        Err(e) => return Err(e),
                    }
                }
            },
            XmlEvent::End(n) => {
                let ln = local_name_exec(n);
                if (st.sec == 1 && bytes_is(&ln, "metadata")) || (st.sec == 2 && bytes_is(&ln, "manifest")) || (
                st.sec == 3 && bytes_is(&ln, "spine")) {
                    st.sec = 0;
                } else if st.sec == 1 {
                    let same = match &st.tag {
                        Some(t) => crate::epub::xml::bytes_eq(t, &ln),
                        None => false,
                    };
                    if same {
                        st.tag = None;
                    }
                }
            },
            XmlEvent::Text(t) => {
                if st.sec == 1 {
                    match t {
                        Err(e) => {
                            return Err(invalid("failed to unescape OPF text: ", e.as_str()));
                        },
                        Ok(txt) => {
                            let tr = trim_string(txt);
                            if !tr.as_str().is_empty() {
                                let (is_title, is_creator) = match &st.tag {
                                    Some(tg) => (bytes_is(tg, "title"), bytes_is(tg, "creator")),
                                    None => (false, false),
                                };
                                if is_title && st.title.as_str().is_empty() {
                                    st.title = tr;
                                } else if is_creator && st.author.as_str().is_empty() {
                                    st.author = tr;
                                }
                            }
                        },
                    }
                }
            },
            XmlEvent::Eof => {
                done = true;
            },
            XmlEvent::Error(e) => {
                return Err(invalid("failed to parse OPF: ", e.as_str()));
            },
            XmlEvent::Other => {},
        }
        i += 1;
    }
    let PkgState { sec: _, tag: _, title, author, manifest, spine } = st;
    if spine.len() == 0 {
        return Err(invalid_msg("EPUB has no spine items (empty spine)"));
    }
    let op = str_chars(opf_path);
    let mut k: usize = op.len();
    assert(op@.take(k as int) =~= op@);
    while k > 0 && op[k - 1] != '/'
        invariant
            k <= op@.len(),
            last_slash(op@) == last_slash(op@.take(k as int)),
        decreases k,
    {
        assert(op@.take(k as int).drop_last() =~= op@.take(k - 1));
        k -= 1;
    }
    proof {
        assert(op@.take(op@.len() as int) =~= op@);
    }
    let ghost ls = last_slash(op@);
    assert(k > 0 ==> ls == k - 1);
    assert(k == 0 ==> ls == -1);
    let mut resolved: Vec<ManifestItem> = Vec::new();
    let ghost mv = manifest_view(manifest@);
    for m in it: manifest
        invariant
            it.seq() == manifest@,
            mv == manifest_view(manifest@),
            resolved@.len() == it.index(),
            op@ == opf_path@,
            ls == last_slash(op@),
            k > 0 ==> ls == k - 1,
            k == 0 ==> ls == -1,
            k <= op@.len(),
            forall|j: int| 0 <= j < resolved@.len() ==> #[trigger] item_view(resolved@[j]) == resolve_item(mv[j], opf_path@),
    {
        let ghost idx = it.index();
        assert(mv[idx] == item_view(m));
        let hc = str_chars(m.href.as_str());
        let absolute = hc.len() > 0 && hc[0] == '/';
        if k > 0 && !absolute {
            let mut f: Vec<char> = Vec::new();
            let mut a: usize = 0;
            while a < k - 1
                invariant
                    a <= k - 1,
                    k <= op@.len(),
                    f@ == op@.take(a as int),
                decreases k - 1 - a,
            {
                f.push(op[a]);
                assert(op@.take(a + 1) =~= op@.take(a as int).push(op@[a as int]));
                a += 1;
            }
            f.push('/');
            let ghost f0 = f@;
            let mut b: usize = 0;
            while b < hc.len()
                invariant
                    b <= hc.len(),
                    f@ == f0 + hc@.take(b as int),
                decreases hc.len() - b,
            {
                f.push(hc[b]);
                assert(hc@.take(b + 1) =~= hc@.take(b as int).push(hc@[b as int]));
                b += 1;
            }
            assert(hc@.take(b as int) =~= hc@);
            assert(f@ =~= op@.take(ls) + seq!['/'] + hc@);
            let ghost before = resolved@;
            resolved.push(ManifestItem {
                id: m.id,
                href: string_from_chars(f.as_slice()),
                media_type: m.media_type,
                properties: m.properties,
            });
            assert(item_view(resolved@[idx]) == resolve_item(mv[idx], opf_path@));
        } else {
            resolved.push(m);
        }
    }
    let ghost stv = (title@, author@, mv, strings_view(spine@));
    let pk = Package { title: title, author: author, manifest: resolved, spine: spine };
    assert(manifest_view(pk.manifest@) =~= mv.map_values(|m: ItemV| resolve_item(m, opf_path@)));
    Ok(pk)
}


// ---------------------------------------------------------------------------
// Table of contents documents
// ---------------------------------------------------------------------------

/// The trimmed value of the last well-formed, UTF-8 attribute among
/// `attrs[i..]` whose local key is `key`, or `cur` when there is none.
pub open spec fn attr_last(attrs: Seq<AttrTok>, i: int, key: Seq<u8>, cur: Seq<char>) -> Seq<char>
    decreases attrs.len() - i,
{
    if i < 0 || i >= attrs.len() {
        cur
    } else {
        match attrs[i] {
            Err(_) => attr_last(attrs, i + 1, key, cur),
            Ok((k, v)) => if local_name(k) == key && valid_utf8(v) {
                attr_last(attrs, i + 1, key, utrim(decode_utf8(v)))
            } else {
                attr_last(attrs, i + 1, key, cur)
            },
        }
    }
}

fn attr_last_exec(attrs: &Vec<XmlAttr>, key: &str, cur: String) -> (r: String)
    ensures
        r@ == attr_last(attr_toks(attrs@), 0, key.spec_bytes(), cur@),
{
    let mut cur = cur;
    let ghost c0 = cur@;
    let mut j: usize = 0;
    while j < attrs.len()
        invariant
            j <= attrs@.len(),
            attr_last(attr_toks(attrs@), 0, key.spec_bytes(), c0) == attr_last(attr_toks(attrs@), j as int, key.spec_bytes(), cur@),
        decreases attrs@.len() - j,
    {
        match &attrs[j] {
            Err(_) => {},
            Ok((k, v)) => {
                if bytes_is(&local_name_exec(k), key) {
                    match attr_text(v) {
                        Some(t) => {
                            cur = t;
                        },
                        None => {},
                    }
                }
            },
        }
        j += 1;
    }
    cur
}

/// Some attribute among `attrs[i..]` is a well-formed UTF-8 `type` whose
/// trimmed value is `toc`.
pub open spec fn typed_toc(attrs: Seq<AttrTok>, i: int) -> bool
    decreases attrs.len() - i,
{
    if i < 0 || i >= attrs.len() {
        false
    } else {
        match attrs[i] {
            Err(_) => typed_toc(attrs, i + 1),
            Ok((k, v)) => (local_name(k) == "type".spec_bytes() && valid_utf8(v) && utrim(decode_utf8(v))
                == "toc"@) || typed_toc(attrs, i + 1),
        }
    }
}

fn typed_toc_exec(attrs: &Vec<XmlAttr>) -> (b: bool)
    ensures
        b == typed_toc(attr_toks(attrs@), 0),
{
    let mut j: usize = 0;
    while j < attrs.len()
        invariant
            j <= attrs@.len(),
            typed_toc(attr_toks(attrs@), 0) == typed_toc(attr_toks(attrs@), j as int),
        decreases attrs@.len() - j,
    {
        match &attrs[j] {
            Err(_) => {},
            Ok((k, v)) => {
                if bytes_is(&local_name_exec(k), "type") {
                    match attr_text(v) {
                        Some(t) => {
                            if string_is(&t, "toc") {
                                return true;
                            }
                        },
                        None => {},
                    }
                }
            },
        }
        j += 1;
    }
    false
}

/// Among the `<nav>` elements of `evs[i..]` (start or self-closing tags,
/// numbered from `count`), the number of the first typed as the TOC.
pub open spec fn toc_nav_run(evs: Seq<XmlTok>, i: int, count: nat) -> Option<nat>
    decreases evs.len() - i,
{
    if i < 0 || i >= evs.len() {
        None
    } else {
        match evs[i] {
            XmlTok::Start(n, a) => if local_name(n) == "nav".spec_bytes() {
                if typed_toc(a, 0) { Some(count) } else { toc_nav_run(evs, i + 1, count + 1) }
            } else {
                toc_nav_run(evs, i + 1, count)
            },
            XmlTok::Empty(n, a) => if local_name(n) == "nav".spec_bytes() {
                if typed_toc(a, 0) { Some(count) } else { toc_nav_run(evs, i + 1, count + 1) }
            } else {
                toc_nav_run(evs, i + 1, count)
            },
            XmlTok::Eof => None,
            XmlTok::Error(_) => None,
            _ => toc_nav_run(evs, i + 1, count),
        }
    }
}

/// Returns the 0-based occurrence index of the first `<nav>` element marked
/// `epub:type="toc"` (or `type="toc"`), or `None` if no nav carries that type.
pub fn find_toc_nav_index(evs: &Vec<XmlEvent>) -> (r: Option<usize>)
    ensures
        match toc_nav_run(toks(evs@), 0, 0) {
            Some(k) => r matches Some(x) && x as nat == k,
            None => r is None,
        },
{
    let mut count: usize = 0;
    let mut i: usize = 0;
    while i < evs.len()
        invariant
            i <= evs@.len(),
            count <= i,
            toc_nav_run(toks(evs@), 0, 0) == toc_nav_run(toks(evs@), i as int, count as nat),
        decreases evs@.len() - i,
    {
        match &evs[i] {
            XmlEvent::Start(n, a) => {
                if bytes_is(&local_name_exec(n), "nav") {
                    if typed_toc_exec(a) {
                        return Some(count);
                    }
                    count += 1;
                }
            },
            XmlEvent::Empty(n, a) => {
                if bytes_is(&local_name_exec(n), "nav") {
                    if typed_toc_exec(a) {
                        return Some(count);
                    }
                    count += 1;
                }
            },
            XmlEvent::Eof => {
                return None;
            },
            XmlEvent::Error(_) => {
                return None;
            },
            _ => {},
        }
        i += 1;
    }
    None
}

/// The text of a text event for the TOC readers: unescaped and trimmed, or
/// empty when unescaping failed.
pub open spec fn toc_text(t: Result<Seq<char>, Seq<char>>) -> Seq<char> {
    match t {
        Ok(s) => utrim(s),
        Err(_) => seq![],
    }
}

fn toc_text_exec(t: &Result<String, String>) -> (r: String)
    ensures
        r@ == toc_text(text_tok(*t)),
{
    match t {
        Ok(s) => trim_string(s),
        Err(_) => String::new(),
    }
}

/// Nav reader state: navs opened, numbers of the open navs, inside the TOC
/// nav, inside a link, link href, link text, entries.
pub type NavV = (nat, Seq<nat>, bool, bool, Seq<char>, Seq<char>, Seq<TocV>);

/// The nav reader over `evs[i..]`, the TOC nav being nav number `target`.
pub open spec fn nav_run(evs: Seq<XmlTok>, i: int, target: nat, st: NavV) -> Result<Seq<TocV>, Seq<char>>
    decreases evs.len() - i,
{
    if i < 0 || i >= evs.len() {
        Ok(st.6)
    } else {
        let (cnt, stack, in_toc, in_link, href, text, entries) = st;
        match evs[i] {
            XmlTok::Start(n, a) => {
                let ln = local_name(n);
                let (cnt2, stack2, in_toc2) = if ln == "nav".spec_bytes() {
                    (cnt + 1, stack.push(cnt), in_toc || cnt == target)
                } else {
                    (cnt, stack, in_toc)
                };
                if in_toc2 && ln == "a".spec_bytes() {
                    nav_run(evs, i + 1, target, (cnt2, stack2, in_toc2, true, attr_last(a, 0, "href".spec_bytes(), seq![]), seq![], entries))
                } else {
                    nav_run(evs, i + 1, target, (cnt2, stack2, in_toc2, in_link, href, text, entries))
                }
            },
            XmlTok::Empty(n, _) => if local_name(n) == "nav".spec_bytes() {
                nav_run(evs, i + 1, target, (cnt + 1, stack, in_toc, in_link, href, text, entries))
            } else {
                nav_run(evs, i + 1, target, st)
            },
            XmlTok::End(n) => {
                let ln = local_name(n);
                let (in_link2, href2, text2, entries2) = if in_toc && in_link && ln == "a".spec_bytes() {
                    (false, seq![], seq![], entries.push((if text.len() == 0 { href } else { text }, href, None)))
                } else {
                    (in_link, href, text, entries)
                };
                if ln == "nav".spec_bytes() && stack.len() > 0 {
                    let in_toc2 = if stack.last() == target { false } else { in_toc };
                    nav_run(evs, i + 1, target, (cnt, stack.drop_last(), in_toc2, in_link2, href2, text2, entries2))
                } else {
                    nav_run(evs, i + 1, target, (cnt, stack, in_toc, in_link2, href2, text2, entries2))
                }
            },
            XmlTok::Text(t) => if in_toc && in_link && toc_text(t).len() > 0 {
                nav_run(evs, i + 1, target, (cnt, stack, in_toc, in_link, href, toc_text(t), entries))
            } else {
                nav_run(evs, i + 1, target, st)
            },
            XmlTok::Eof => Ok(entries),
            XmlTok::Error(e) => Err("failed to parse nav document: "@ + e),
            _ => nav_run(evs, i + 1, target, st),
        }
    }
}

/// The TOC entries of an EPUB 3 nav document: the links of the `<nav>`
/// typed as the TOC, or of the first `<nav>` when none is typed.
pub open spec fn nav_toc(evs: Seq<XmlTok>) -> Result<Seq<TocV>, Seq<char>> {
    let target = match toc_nav_run(evs, 0, 0) { Some(k) => k, None => 0 };
    nav_run(evs, 0, target, (0, seq![], false, false, seq![], seq![], seq![]))
}

/// Parses an EPUB 3 nav document, given as events, into TOC entries.
///
/// The TOC is the `<nav>` element marked `epub:type="toc"` (or `type="toc"`).
/// If no nav carries that type, the first `<nav>` is used as a fallback, since
/// some books omit the type attribute.
pub fn nav_toc_from_events(evs: &Vec<XmlEvent>) -> (r: Result<Vec<TocEntry>, EpubError>)
    ensures
        match nav_toc(toks(evs@)) {
            Ok(es) => r matches Ok(v) && toc_view(v@) == es,
            Err(m) => r matches Err(e) && e is InvalidEpub && e.message() == m,
        },
{
    let target: usize = match find_toc_nav_index(evs) { Some(k) => k, None => 0 };
    let ghost tg = target as nat;
    let mut cnt: usize = 0;
    let mut stack: Vec<usize> = Vec::new();
    let mut in_toc = false;
    let mut in_link = false;
    let mut href = String::new();
    let mut text = String::new();
    let mut entries: Vec<TocEntry> = Vec::new();
    let ghost init: NavV = (0, seq![], false, false, seq![], seq![], seq![]);
    assert(toc_view(entries@) =~= Seq::<TocV>::empty());
    assert(stack@.map_values(|x: usize| x as nat) =~= Seq::<nat>::empty());
    let mut i: usize = 0;
    while i < evs.len()
        invariant
            i <= evs@.len(),
            cnt <= i,
            tg == target as nat,
            init == (0nat, Seq::<nat>::empty(), false, false, Seq::<char>::empty(), Seq::<char>::empty(), Seq::<TocV>::empty()),
            nav_toc(toks(evs@)) == nav_run(toks(evs@), 0, tg, init),
            forall|j: int| 0 <= j < stack@.len() ==> stack@[j] < cnt,
            nav_run(toks(evs@), 0, tg, init) == nav_run(
                toks(evs@),
                i as int,
                tg,
                (cnt as nat, stack@.map_values(|x: usize| x as nat), in_toc, in_link, href@, text@, toc_view(entries@)),
            ),
        decreases evs@.len() - i,
    {
        let ghost sm = stack@.map_values(|x: usize| x as nat);
        match &evs[i] {
            XmlEvent::Start(n, a) => {
                let ln = local_name_exec(n);
                if bytes_is(&ln, "nav") {
                    let idx = cnt;
                    cnt += 1;
                    stack.push(idx);
                    assert(stack@.map_values(|x: usize| x as nat) =~= sm.push(idx as nat));
                    if idx == target {
                        in_toc = true;
                    }
                }
                if in_toc && bytes_is(&ln, "a") {
                    in_link = true;
                    href = attr_last_exec(a, "href", String::new());
                    text = String::new();
                }
            },
            XmlEvent::Empty(n, _) => {
                if bytes_is(&local_name_exec(n), "nav") {
                    cnt += 1;
                }
            },
            XmlEvent::End(n) => {
                let ln = local_name_exec(n);
                if in_toc && in_link && bytes_is(&ln, "a") {
                    let title = if text.as_str().is_empty() { href.clone() } else { text.clone() };
                    let ghost before = toc_view(entries@);
                    entries.push(TocEntry { title: title, href: href.clone(), spine_index: None });
                    assert(toc_view(entries@) =~= before.push(toc_entry_view(entries@.last())));
                    in_link = false;
                    href = String::new();
                    text = String::new();
                }
                if bytes_is(&ln, "nav") && stack.len() > 0 {
                    let top = stack[stack.len() - 1];
                    if top == target {
                        in_toc = false;
                    }
                    let ghost s0 = stack@;
                    stack.pop();
                    assert(stack@.map_values(|x: usize| x as nat) =~= sm.drop_last());
                }
            },
            XmlEvent::Text(t) => {
                if in_toc && in_link {
                    let s = toc_text_exec(t);
                    if !s.as_str().is_empty() {
                        text = s;
                    }
                }
            },
            XmlEvent::Eof => {
                return Ok(entries);
            },
            XmlEvent::Error(e) => {
                return Err(invalid("failed to parse nav document: ", e.as_str()));
            },
            _ => {},
        }
        i += 1;
    }
    Ok(entries)
}

/// NCX reader state: inside a navPoint, inside a navLabel, title, href,
/// entries.
pub type NcxV = (bool, bool, Seq<char>, Seq<char>, Seq<TocV>);

/// The NCX reader over `evs[i..]`.
pub open spec fn ncx_run(evs: Seq<XmlTok>, i: int, st: NcxV) -> Result<Seq<TocV>, Seq<char>>
    decreases evs.len() - i,
{
    if i < 0 || i >= evs.len() {
        Ok(st.4)
    } else {
        let (in_point, in_label, title, href, entries) = st;
        match evs[i] {
            XmlTok::Start(n, a) => {
                let ln = local_name(n);
                if ln == "navPoint".spec_bytes() {
                    ncx_run(evs, i + 1, (true, in_label, seq![], seq![], entries))
                } else if in_point && ln == "navLabel".spec_bytes() {
                    ncx_run(evs, i + 1, (in_point, true, title, href, entries))
                } else if in_point && ln == "content".spec_bytes() {
                    ncx_run(evs, i + 1, (in_point, in_label, title, attr_last(a, 0, "src".spec_bytes(), href), entries))
                } else {
                    ncx_run(evs, i + 1, st)
                }
            },
            XmlTok::Empty(n, a) => {
                let ln = local_name(n);
                if in_point && ln == "content".spec_bytes() {
                    ncx_run(evs, i + 1, (in_point, in_label, title, attr_last(a, 0, "src".spec_bytes(), href), entries))
                } else {
                    ncx_run(evs, i + 1, st)
                }
            },
            XmlTok::End(n) => {
                let ln = local_name(n);
                let (in_point2, entries2) = if in_point && ln == "navPoint".spec_bytes() {
                    (false, entries.push((if title.len() == 0 { href } else { title }, href, None)))
                } else {
                    (in_point, entries)
                };
                let in_label2 = if in_label && ln == "navLabel".spec_bytes() { false } else { in_label };
                ncx_run(evs, i + 1, (in_point2, in_label2, title, href, entries2))
            },
            XmlTok::Text(t) => if in_label && toc_text(t).len() > 0 {
                ncx_run(evs, i + 1, (in_point, in_label, toc_text(t), href, entries))
            } else {
                ncx_run(evs, i + 1, st)
            },
            XmlTok::Eof => Ok(entries),
            XmlTok::Error(e) => Err("failed to parse NCX document: "@ + e),
            _ => ncx_run(evs, i + 1, st),
        }
    }
}

/// Parses an EPUB 2 NCX document, given as events, into TOC entries.
pub fn ncx_toc_from_events(evs: &Vec<XmlEvent>) -> (r: Result<Vec<TocEntry>, EpubError>)
    ensures
        match ncx_run(toks(evs@), 0, (false, false, seq![], seq![], seq![])) {
            Ok(es) => r matches Ok(v) && toc_view(v@) == es,
            Err(m) => r matches Err(e) && e is InvalidEpub && e.message() == m,
        },
{
    let mut in_point = false;
    let mut in_label = false;
    let mut title = String::new();
    let mut href = String::new();
    let mut entries: Vec<TocEntry> = Vec::new();
    let ghost init: NcxV = (false, false, seq![], seq![], seq![]);
    assert(toc_view(entries@) =~= Seq::<TocV>::empty());
    let mut i: usize = 0;
    while i < evs.len()
        invariant
            i <= evs@.len(),
            init == (false, false, Seq::<char>::empty(), Seq::<char>::empty(), Seq::<TocV>::empty()),
            ncx_run(toks(evs@), 0, init) == ncx_run(toks(evs@), i as int, (in_point, in_label, title@, href@, toc_view(entries@))),
        decreases evs@.len() - i,
    {
        match &evs[i] {
            XmlEvent::Start(n, a) => {
                let ln = local_name_exec(n);
                if bytes_is(&ln, "navPoint") {
                    in_point = true;
                    title = String::new();
                    href = String::new();
                } else if in_point && bytes_is(&ln, "navLabel") {
                    in_label = true;
                } else if in_point && bytes_is(&ln, "content") {
                    href = attr_last_exec(a, "src", href);
                }
            },
            XmlEvent::Empty(n, a) => {
                let ln = local_name_exec(n);
                if in_point && bytes_is(&ln, "content") {
                    href = attr_last_exec(a, "src", href);
                }
            },
            XmlEvent::End(n) => {
                let ln = local_name_exec(n);
                if in_point && bytes_is(&ln, "navPoint") {
                    let t = if title.as_str().is_empty() { href.clone() } else { title.clone() };
                    let ghost before = toc_view(entries@);
                    entries.push(TocEntry { title: t, href: href.clone(), spine_index: None });
                    assert(toc_view(entries@) =~= before.push(toc_entry_view(entries@.last())));
                    in_point = false;
                }
                if in_label && bytes_is(&ln, "navLabel") {
                    in_label = false;
                }
            },
            XmlEvent::Text(t) => {
                if in_label {
                    let s = toc_text_exec(t);
                    if !s.as_str().is_empty() {
                        title = s;
                    }
                }
            },
            XmlEvent::Eof => {
                return Ok(entries);
            },
            XmlEvent::Error(e) => {
                return Err(invalid("failed to parse NCX document: ", e.as_str()));
            },
            _ => {},
        }
        i += 1;
    }
    Ok(entries)
}



// ---------------------------------------------------------------------------
// Reading the package documents from the archive
// ---------------------------------------------------------------------------

/// Locates the OPF path via `META-INF/container.xml`.
///
/// The path is that of the first `rootfile` element with a `full-path`
/// attribute, normalized.
pub fn find_opf_path(archive: &mut Archive) -> (r: Result<String, EpubError>)
    requires
        old(archive).wf(),
    ensures
        final(archive).wf(),
        final(archive).entries() == old(archive).entries(),
        r is Err ==> r->Err_0 is InvalidEpub,
        entry_index(old(archive).entries(), normalize_path("META-INF/container.xml"@)) < 0 ==> (r matches Err(e)
            && e.message() == "missing or invalid META-INF/container.xml"@),
        r matches Ok(p) ==> entry_index(old(archive).entries(), normalize_path("META-INF/container.xml"@)) >= 0
            && opf_run(member_events(old(archive).entries(), normalize_path("META-INF/container.xml"@)), 0)
            == Ok::<Seq<char>, Seq<char>>(p@),
        opf_run(member_events(old(archive).entries(), normalize_path("META-INF/container.xml"@)), 0) matches Err(m)
            ==> r matches Err(e) && (e.message() == m || e.message() == "missing or invalid META-INF/container.xml"@),
        read_determined(old(archive).entries(), normalize_path("META-INF/container.xml"@)) ==> {
            let rs = read_spec(old(archive).entries(), old(archive).counted(), old(archive).total(), normalize_path("META-INF/container.xml"@));
            &&& final(archive).counted() == rs.1 && final(archive).total() == rs.2
            &&& match rs.0 {
                Ok(t) => match opf_run(doc_events(t), 0) {
                    Ok(p) => r matches Ok(x) && x@ == p,
                    Err(m) => r matches Err(e) && e.message() == m,
                },
                Err(_) => r matches Err(e) && e.message() == "missing or invalid META-INF/container.xml"@,
            }
        },
{
    let xml = match archive.read_text("META-INF/container.xml") {
        Ok(x) => x,
        Err(_) => {
            return Err(invalid_msg("missing or invalid META-INF/container.xml"));
        },
    };
    let evs = xml_events(xml.as_str());
    let r = opf_path_from_events(&evs);
    proof {
        if r is Ok {
            assert(opf_run(toks(evs@), 0) == Ok::<Seq<char>, Seq<char>>(r->Ok_0@));
        }
    }
    r
}

/// Parses the OPF package document and returns metadata, manifest, and spine.
///
/// The package is the reading of the document's events by
/// `package_from_events`; in particular its spine is not empty.
pub fn parse_package(archive: &mut Archive, opf_path: &str) -> (r: Result<Package, EpubError>)
    requires
        old(archive).wf(),
    ensures
        final(archive).wf(),
        final(archive).entries() == old(archive).entries(),
        r is Err ==> r->Err_0 is InvalidEpub,
        entry_index(old(archive).entries(), normalize_path(opf_path@)) < 0 ==> (r matches Err(e)
            && e.message() == "cannot read package document: "@ + opf_path@),
        r matches Ok(pk) ==> pk.spine@.len() > 0 && entry_index(old(archive).entries(), normalize_path(opf_path@)) >= 0
            && package_from_events(member_events(old(archive).entries(), normalize_path(opf_path@)), opf_path@)
            == Ok::<PackageV, Seq<char>>(package_view(pk)),
        package_from_events(member_events(old(archive).entries(), normalize_path(opf_path@)), opf_path@) matches Err(m)
            ==> r matches Err(e) && (e.message() == m || e.message() == "cannot read package document: "@ + opf_path@),
        read_determined(old(archive).entries(), normalize_path(opf_path@)) ==> {
            let rs = read_spec(old(archive).entries(), old(archive).counted(), old(archive).total(), normalize_path(opf_path@));
            &&& final(archive).counted() == rs.1 && final(archive).total() == rs.2
            &&& match rs.0 {
                Ok(t) => match package_from_events(doc_events(t), opf_path@) {
                    Ok(pv) => r matches Ok(pk) && package_view(pk) == pv,
                    Err(m) => r matches Err(e) && e.message() == m,
                },
                Err(_) => r matches Err(e) && e.message() == "cannot read package document: "@ + opf_path@,
            }
        },
{
    let xml = match archive.read_text(opf_path) {
        Ok(x) => x,
        Err(_) => {
            return Err(invalid("cannot read package document: ", opf_path));
        },
    };
    let evs = xml_events(xml.as_str());
    let r = package_from_events_exec(&evs, opf_path);
    proof {
        if r is Ok {
            assert(package_from_events(toks(evs@), opf_path@) == Ok::<PackageV, Seq<char>>(package_view(r->Ok_0)));
            assert(strings_view(r->Ok_0.spine@).len() == r->Ok_0.spine@.len());
        }
    }
    r
}

/// Parses an EPUB 3 nav document and extracts TOC entries.
///
/// The TOC is the `<nav>` element marked `epub:type="toc"` (or `type="toc"`).
/// If no nav carries that type, the first `<nav>` is used as a fallback, since
/// some books omit the type attribute.
pub fn parse_nav_toc(archive: &mut Archive, nav_href: &str, _spine: &[String]) -> (r: Result<Vec<TocEntry>, EpubError>)
    requires
        old(archive).wf(),
    ensures
        final(archive).wf(),
        final(archive).entries() == old(archive).entries(),
        r is Err ==> r->Err_0 is InvalidEpub,
        entry_index(old(archive).entries(), normalize_path(nav_href@)) < 0 ==> (r matches Err(e)
            && e.message() == "cannot read nav document: "@ + nav_href@),
        r matches Ok(v) ==> entry_index(old(archive).entries(), normalize_path(nav_href@)) >= 0
            && nav_toc(member_events(old(archive).entries(), normalize_path(nav_href@)))
            == Ok::<Seq<TocV>, Seq<char>>(toc_view(v@)),
        nav_toc(member_events(old(archive).entries(), normalize_path(nav_href@))) matches Err(m)
            ==> r matches Err(e) && (e.message() == m || e.message() == "cannot read nav document: "@ + nav_href@),
        read_determined(old(archive).entries(), normalize_path(nav_href@)) ==> {
            let rs = read_spec(old(archive).entries(), old(archive).counted(), old(archive).total(), normalize_path(nav_href@));
            &&& final(archive).counted() == rs.1 && final(archive).total() == rs.2
            &&& match rs.0 {
                Ok(t) => match nav_toc(doc_events(t)) {
                    Ok(v0) => r matches Ok(v) && toc_view(v@) == v0,
                    Err(m) => r matches Err(e) && e.message() == m,
                },
                Err(_) => r matches Err(e) && e.message() == "cannot read nav document: "@ + nav_href@,
            }
        },
{
    let html = match archive.read_text(nav_href) {
        Ok(x) => x,
        Err(_) => {
            return Err(invalid("cannot read nav document: ", nav_href));
        },
    };
    let evs = xml_events(html.as_str());
    let r = nav_toc_from_events(&evs);
    proof {
        if r is Ok {
            assert(nav_toc(toks(evs@)) == Ok::<Seq<TocV>, Seq<char>>(toc_view(r->Ok_0@)));
        }
    }
    r
}

/// Parses an EPUB 2 NCX document and extracts TOC entries.
pub fn parse_ncx_toc(archive: &mut Archive, ncx_href: &str) -> (r: Result<Vec<TocEntry>, EpubError>)
    requires
        old(archive).wf(),
    ensures
        final(archive).wf(),
        final(archive).entries() == old(archive).entries(),
        r is Err ==> r->Err_0 is InvalidEpub,
        entry_index(old(archive).entries(), normalize_path(ncx_href@)) < 0 ==> (r matches Err(e)
            && e.message() == "cannot read NCX document: "@ + ncx_href@),
        r matches Ok(v) ==> entry_index(old(archive).entries(), normalize_path(ncx_href@)) >= 0
            && ncx_run(member_events(old(archive).entries(), normalize_path(ncx_href@)), 0, (false, false, seq![], seq![], seq![]))
            == Ok::<Seq<TocV>, Seq<char>>(toc_view(v@)),
        ncx_run(member_events(old(archive).entries(), normalize_path(ncx_href@)), 0, (false, false, seq![], seq![], seq![]))
            matches Err(m) ==> r matches Err(e) && (e.message() == m || e.message() == "cannot read NCX document: "@ + ncx_href@),
        read_determined(old(archive).entries(), normalize_path(ncx_href@)) ==> {
            let rs = read_spec(old(archive).entries(), old(archive).counted(), old(archive).total(), normalize_path(ncx_href@));
            &&& final(archive).counted() == rs.1 && final(archive).total() == rs.2
            &&& match rs.0 {
                Ok(t) => match ncx_run(doc_events(t), 0, (false, false, seq![], seq![], seq![])) {
                    Ok(v0) => r matches Ok(v) && toc_view(v@) == v0,
                    Err(m) => r matches Err(e) && e.message() == m,
                },
                Err(_) => r matches Err(e) && e.message() == "cannot read NCX document: "@ + ncx_href@,
            }
        },
{
    let xml = match archive.read_text(ncx_href) {
        Ok(x) => x,
        Err(_) => {
            return Err(invalid("cannot read NCX document: ", ncx_href));
        },
    };
    let evs = xml_events(xml.as_str());
    let r = ncx_toc_from_events(&evs);
    proof {
        if r is Ok {
            assert(ncx_run(toks(evs@), 0, (false, false, seq![], seq![], seq![])) == Ok::<Seq<TocV>, Seq<char>>(toc_view(r->Ok_0@)));
        }
    }
    r
}



// ---------------------------------------------------------------------------
// Choosing and loading the table of contents
// ---------------------------------------------------------------------------

/// The position of the last `/` of `v`, if any.
fn last_slash_exec(v: &Vec<char>) -> (k: Option<usize>)
    ensures
        match k {
            Some(i) => last_slash(v@) == i && i < v@.len(),
            None => last_slash(v@) == -1,
        },
{
    let mut k: usize = v.len();
    assert(v@.take(k as int) =~= v@);
    while k > 0 && v[k - 1] != '/'
        invariant
            k <= v@.len(),
            last_slash(v@) == last_slash(v@.take(k as int)),
        decreases k,
    {
        assert(v@.take(k as int).drop_last() =~= v@.take(k - 1));
        k -= 1;
    }
    if k == 0 {
        None
    } else {
        Some(k - 1)
    }
}

/// The directory of a TOC document path: everything before its last `/`,
/// or `None` when it has none.
pub open spec fn toc_base(href: Seq<char>) -> Option<Seq<char>> {
    let k = last_slash(href);
    if k >= 0 {
        Some(href.take(k))
    } else {
        None
    }
}

/// The directory of a TOC document path.
pub fn toc_base_dir(href: &str) -> (r: Option<String>)
    ensures
        match r {
            Some(d) => toc_base(href@) == Some(d@),
            None => toc_base(href@) is None,
        },
{
    let v = str_chars(href);
    match last_slash_exec(&v) {
        Some(k) => {
            let mut d: Vec<char> = Vec::new();
            let mut a: usize = 0;
            while a < k
                invariant
                    a <= k,
                    k < v@.len(),
                    d@ == v@.take(a as int),
                decreases k - a,
            {
                d.push(v[a]);
                assert(v@.take(a + 1) =~= v@.take(a as int).push(v@[a as int]));
                a += 1;
            }
            Some(string_from_chars(d.as_slice()))
        },
        None => None,
    }
}

/// Index of the first manifest item whose href is `href`, or -1.
pub open spec fn first_href(m: Seq<ManifestItem>, href: Seq<char>) -> int
    decreases m.len(),
{
    if m.len() == 0 {
        -1
    } else {
        let k = first_href(m.drop_last(), href);
        if k >= 0 {
            k
        } else if m.last().href@ == href {
            m.len() - 1
        } else {
            -1
        }
    }
}

/// The TOC document `href` is an EPUB 3 nav document: the first manifest
/// item with that href declares the `nav` property.
pub open spec fn is_nav_document(m: Seq<ManifestItem>, href: Seq<char>) -> bool {
    let k = first_href(m, href);
    k >= 0 && has_nav(m[k])
}

fn is_nav_document_exec(m: &[ManifestItem], href: &String) -> (b: bool)
    ensures
        b == is_nav_document(m@, href@),
{
    let hc = str_chars(href.as_str());
    let mut i: usize = 0;
    while i < m.len()
        invariant
            i <= m@.len(),
            hc@ == href@,
            first_href(m@.take(i as int), href@) == -1,
        decreases m@.len() - i,
    {
        assert(m@.take(i + 1).drop_last() =~= m@.take(i as int));
        let c = str_chars(m[i].href.as_str());
        if chars_eq(&c, &hc) {
            proof { lemma_first_href_prefix(m@, href@, i + 1); }
            assert(first_href(m@.take(i + 1), href@) == i);
            return has_nav_exec(&m[i]);
        }
        i += 1;
    }
    assert(m@.take(i as int) =~= m@);
    false
}

proof fn lemma_first_href_prefix(m: Seq<ManifestItem>, href: Seq<char>, n: int)
    requires
        0 <= n <= m.len(),
        first_href(m.take(n), href) >= 0,
    ensures
        first_href(m, href) == first_href(m.take(n), href),
    decreases m.len() - n,
{
    if n < m.len() {
        assert(m.take(n + 1).drop_last() =~= m.take(n));
        lemma_first_href_prefix(m, href, n + 1);
    } else {
        assert(m.take(n) =~= m);
    }
}

/// The message when the TOC document `h` (a nav document when `nav`)
/// cannot be read.
pub open spec fn toc_read_failure(h: Seq<char>, nav: bool) -> Seq<char> {
    if nav { "cannot read nav document: "@ + h } else { "cannot read NCX document: "@ + h }
}

/// The entries read from the events of a TOC document: a nav document's
/// when `nav`, else an NCX document's.
pub open spec fn toc_entries_of(evs: Seq<XmlTok>, nav: bool) -> Result<Seq<TocV>, Seq<char>> {
    if nav {
        nav_toc(evs)
    } else {
        ncx_run(evs, 0, (false, false, seq![], seq![], seq![]))
    }
}

/// The entries `raw`, each given the spine position its href resolves to.
pub open spec fn resolve_all(raw: Seq<TocV>, spine: Seq<Seq<char>>, m: Seq<ManifestItem>, dir: Option<Seq<char>>) -> Seq<TocV> {
    raw.map_values(|e: TocV| resolve_entry(e, spine, m, dir))
}

/// Loads the table of contents of a package.
///
/// The TOC document is the manifest's nav document, else its NCX document;
/// the entries read from it get the spine position their href resolves to,
/// relative to the TOC document's own directory.  Without a TOC document,
/// one entry per spine item found in the manifest is generated.
pub fn load_toc(archive: &mut Archive, pkg: &Package) -> (r: Result<Vec<TocEntry>, EpubError>)
    requires
        old(archive).wf(),
    ensures
        final(archive).wf(),
        final(archive).entries() == old(archive).entries(),
        r is Err ==> r->Err_0 is InvalidEpub,
        match toc_document(pkg.manifest@) {
            None => r matches Ok(v) && toc_view(v@) == fallback_toc(strings_view(pkg.spine@), pkg.manifest@)
                && final(archive).counted() == old(archive).counted() && final(archive).total() == old(archive).total(),
            Some(h) => {
                &&& entry_index(old(archive).entries(), normalize_path(h)) < 0 ==> r is Err
                &&& r matches Ok(v) ==> entry_index(old(archive).entries(), normalize_path(h)) >= 0
                    && (toc_entries_of(member_events(old(archive).entries(), normalize_path(h)),
                        is_nav_document(pkg.manifest@, h)) matches Ok(raw)
                    && toc_view(v@) == resolve_all(raw, strings_view(pkg.spine@), pkg.manifest@, toc_base(h)))
                &&& toc_entries_of(member_events(old(archive).entries(), normalize_path(h)),
                        is_nav_document(pkg.manifest@, h)) is Err ==> r is Err
                &&& read_determined(old(archive).entries(), normalize_path(h)) ==> {
                    let rs = read_spec(old(archive).entries(), old(archive).counted(), old(archive).total(), normalize_path(h));
                    &&& final(archive).counted() == rs.1 && final(archive).total() == rs.2
                    &&& match rs.0 {
                        Ok(t) => match toc_entries_of(doc_events(t), is_nav_document(pkg.manifest@, h)) {
                            Ok(raw) => r matches Ok(v)
                                && toc_view(v@) == resolve_all(raw, strings_view(pkg.spine@), pkg.manifest@, toc_base(h)),
                            Err(m) => r matches Err(e) && e.message() == m,
                        },
                        Err(_) => r matches Err(e) && e.message() == toc_read_failure(h, is_nav_document(pkg.manifest@, h)),
                    }
                }
            },
        },
{
    let toc_href = match find_toc_document(&pkg.manifest) {
        Some(h) => h,
        None => {
            return Ok(generate_fallback_toc(&pkg.spine, &pkg.manifest));
        },
    };
    let base = toc_base_dir(toc_href.as_str());
    let nav = is_nav_document_exec(&pkg.manifest, &toc_href);
    let mut entries = if nav {
        match parse_nav_toc(archive, toc_href.as_str(), &pkg.spine) {
            Ok(v) => v,
            Err(e) => {
                return Err(e);
            },
        }
    } else {
        match parse_ncx_toc(archive, toc_href.as_str()) {
            Ok(v) => v,
            Err(e) => {
                return Err(e);
            },
        }
    };
    let ghost raw = toc_view(entries@);
    let base_ref: Option<&str> = match &base {
        Some(d) => Some(d.as_str()),
        None => None,
    };
    resolve_toc_spine_indices(&mut entries, &pkg.manifest, &pkg.spine, base_ref);
    proof {
        let dirv = match base_ref { Some(d) => Some(d@), None => None::<Seq<char>> };
        assert(dirv == toc_base(toc_href@));
        assert(toc_view(entries@) =~= resolve_all(raw, strings_view(pkg.spine@), pkg.manifest@, toc_base(toc_href@)));
    }
    Ok(entries)
}


// ---------------------------------------------------------------------------
// The TOC document, read from a manifest seen as plain values
// ---------------------------------------------------------------------------

/// The manifest item declares the `nav` property.
pub open spec fn item_has_nav(it: ItemV) -> bool {
    exists|j: int| 0 <= j < it.3.len() && #[trigger] it.3[j] == "nav"@
}

/// Index of the first item with the `nav` property (`nav == true`) or of
/// the NCX media type (`nav == false`), or -1.
pub open spec fn first_toc_item_v(m: Seq<ItemV>, nav: bool) -> int
    decreases m.len(),
{
    if m.len() == 0 {
        -1
    } else {
        let k = first_toc_item_v(m.drop_last(), nav);
        if k >= 0 {
            k
        } else if (if nav { item_has_nav(m.last()) } else { m.last().2 == "application/x-dtbncx+xml"@ }) {
            m.len() - 1
        } else {
            -1
        }
    }
}

/// `toc_document` over a manifest seen as plain values.
pub open spec fn toc_document_v(m: Seq<ItemV>) -> Option<Seq<char>> {
    let n = first_toc_item_v(m, true);
    let x = first_toc_item_v(m, false);
    if n >= 0 {
        Some(m[n].1)
    } else if x >= 0 {
        Some(m[x].1)
    } else {
        None
    }
}

/// Index of the first item with href `href`, or -1.
pub open spec fn first_href_v(m: Seq<ItemV>, href: Seq<char>) -> int
    decreases m.len(),
{
    if m.len() == 0 {
        -1
    } else {
        let k = first_href_v(m.drop_last(), href);
        if k >= 0 {
            k
        } else if m.last().1 == href {
            m.len() - 1
        } else {
            -1
        }
    }
}

/// `is_nav_document` over a manifest seen as plain values.
pub open spec fn is_nav_document_v(m: Seq<ItemV>, href: Seq<char>) -> bool {
    let k = first_href_v(m, href);
    k >= 0 && item_has_nav(m[k])
}

proof fn lemma_has_nav_view(it: ManifestItem)
    ensures
        has_nav(it) == item_has_nav(item_view(it)),
{
    let v = item_view(it);
    if has_nav(it) {
        let j = choose|j: int| 0 <= j < it.properties@.len() && #[trigger] it.properties@[j]@ == "nav"@;
        assert(v.3[j] == "nav"@);
    }
    if item_has_nav(v) {
        let j = choose|j: int| 0 <= j < v.3.len() && #[trigger] v.3[j] == "nav"@;
        assert(it.properties@[j]@ == "nav"@);
    }
}

proof fn lemma_first_view(m: Seq<ManifestItem>, nav: bool, href: Seq<char>)
    ensures
        first_toc_item(m, nav) == first_toc_item_v(manifest_view(m), nav),
        first_href(m, href) == first_href_v(manifest_view(m), href),
    decreases m.len(),
{
    if m.len() > 0 {
        lemma_first_view(m.drop_last(), nav, href);
        assert(manifest_view(m).drop_last() =~= manifest_view(m.drop_last()));
        lemma_has_nav_view(m.last());
    }
}

/// The TOC document and its kind depend on the manifest's plain values
/// only.
pub proof fn lemma_toc_document_view(m: Seq<ManifestItem>, href: Seq<char>)
    ensures
        toc_document(m) == toc_document_v(manifest_view(m)),
        is_nav_document(m, href) == is_nav_document_v(manifest_view(m), href),
{
    lemma_first_view(m, true, href);
    lemma_first_view(m, false, href);
    lemma_first_toc_item_range(m, true);
    lemma_first_toc_item_range(m, false);
    lemma_first_href_range(m, href);
    let k = first_href(m, href);
    if k >= 0 {
        lemma_has_nav_view(m[k]);
    }
}

proof fn lemma_first_toc_item_range(m: Seq<ManifestItem>, nav: bool)
    ensures
        -1 <= first_toc_item(m, nav) < m.len(),
    decreases m.len(),
{
    if m.len() > 0 {
        lemma_first_toc_item_range(m.drop_last(), nav);
    }
}

proof fn lemma_first_href_range(m: Seq<ManifestItem>, href: Seq<char>)
    ensures
        -1 <= first_href(m, href) < m.len(),
    decreases m.len(),
{
    if m.len() > 0 {
        lemma_first_href_range(m.drop_last(), href);
    }
}

/// The first title and the first creator win: once the OPF reader holds a
/// non-empty title or author, no later event of the package document
/// changes it.  So a package's author is the text of its first non-empty
/// `dc:creator`, and its title that of its first non-empty `dc:title`.
pub proof fn lemma_first_metadata_kept(evs: Seq<XmlTok>, i: int)
    ensures
        forall|st: PkgV| #[trigger] pkg_run(evs, i, st) is Ok ==> {
            &&& st.2.len() > 0 ==> pkg_run(evs, i, st)->Ok_0.2 == st.2
            &&& st.3.len() > 0 ==> pkg_run(evs, i, st)->Ok_0.3 == st.3
        },
    decreases evs.len() - i,
{
    if 0 <= i < evs.len() {
        lemma_first_metadata_kept(evs, i + 1);
        assert forall|st: PkgV| #[trigger] pkg_run(evs, i, st) is Ok implies {
            &&& st.2.len() > 0 ==> pkg_run(evs, i, st)->Ok_0.2 == st.2
            &&& st.3.len() > 0 ==> pkg_run(evs, i, st)->Ok_0.3 == st.3
        } by {
            let (sec, tag, title, author, man, spine) = st;
            match evs[i] {
                XmlTok::Start(n, a) => {
                    let ln = local_name(n);
                    lemma_pkg_listing_keeps(st, ln, a);
                    if ln == "metadata".spec_bytes() {
                        assert(pkg_run(evs, i, st) == pkg_run(evs, i + 1, (1, tag, title, author, man, spine)));
                    } else if ln == "manifest".spec_bytes() {
                        assert(pkg_run(evs, i, st) == pkg_run(evs, i + 1, (2, tag, title, author, man, spine)));
                    } else if ln == "spine".spec_bytes() {
                        assert(pkg_run(evs, i, st) == pkg_run(evs, i + 1, (3, tag, title, author, man, spine)));
                    } else if sec == 1 {
                        assert(pkg_run(evs, i, st) == pkg_run(evs, i + 1, (sec, Some(ln), title, author, man, spine)));
                    } else {
                        let st2 = pkg_listing(st, ln, a)->Ok_0;
                        assert(pkg_run(evs, i, st) == pkg_run(evs, i + 1, st2));
                    }
                },
                XmlTok::Empty(n, a) => {
                    let ln = local_name(n);
                    lemma_pkg_listing_keeps(st, ln, a);
                    if sec == 1 {
                        assert(pkg_run(evs, i, st) == pkg_run(evs, i + 1, (sec, Some(ln), title, author, man, spine)));
                    } else {
                        let st2 = pkg_listing(st, ln, a)->Ok_0;
                        assert(pkg_run(evs, i, st) == pkg_run(evs, i + 1, st2));
                    }
                },
                XmlTok::End(n) => {
                    let ln = local_name(n);
                    if (sec == 1 && ln == "metadata".spec_bytes()) || (sec == 2 && ln == "manifest".spec_bytes()) || (
                    sec == 3 && ln == "spine".spec_bytes()) {
                        assert(pkg_run(evs, i, st) == pkg_run(evs, i + 1, (0, tag, title, author, man, spine)));
                    } else if sec == 1 && tag == Some(ln) {
                        assert(pkg_run(evs, i, st) == pkg_run(evs, i + 1, (sec, None, title, author, man, spine)));
                    } else {
                        assert(pkg_run(evs, i, st) == pkg_run(evs, i + 1, st));
                    }
                },
                XmlTok::Text(t) => {
                    if sec == 1 && t is Ok {
                        let tr = utrim(t->Ok_0);
                        if tr.len() > 0 && tag == Some("title".spec_bytes()) && title.len() == 0 {
                            assert(pkg_run(evs, i, st) == pkg_run(evs, i + 1, (sec, tag, tr, author, man, spine)));
                        } else if tr.len() > 0 && tag == Some("creator".spec_bytes()) && author.len() == 0 {
                            assert(pkg_run(evs, i, st) == pkg_run(evs, i + 1, (sec, tag, title, tr, man, spine)));
                        } else {
                            assert(pkg_run(evs, i, st) == pkg_run(evs, i + 1, st));
                        }
                    }
                },
                _ => {},
            }
        }
    }
}

proof fn lemma_pkg_listing_keeps(st: PkgV, ln: Seq<u8>, a: Seq<AttrTok>)
    ensures
        pkg_listing(st, ln, a) matches Ok(st2) ==> st2.2 == st.2 && st2.3 == st.3,
{
}


} // verus!
